use vstd::prelude::*;
use crate::model::{is_radical, radical, Review};

verus! {

/// The reviews of `s` whose traditional character is a radical (`want` true)
/// or is not one (`want` false), in order.
pub open spec fn select(s: Seq<Review>, want: bool) -> Seq<Review>
    decreases s.len(),
{
    if s.len() == 0 {
        seq![]
    } else {
        (if radical(s[0].mapping.trad) == want {
            seq![s[0]]
        } else {
            seq![]
        }) + select(s.drop_first(), want)
    }
}

/// The reviews sorted into their roles.
pub struct Classified {
    /// Reviews of the output sections that are not radicals: output only.
    pub char_reviews: Vec<Review>,
    /// Reviews of the analogy sections that are not radicals: output and premises.
    pub ichar_reviews: Vec<Review>,
    /// Reviews of radicals, from any section: premises only.
    pub radical_reviews: Vec<Review>,
}

/// Moves each review of `from` that is (or is not) a radical onto `into`.
fn take_reviews(from: Vec<Review>, into: &mut Vec<Review>, others: &mut Vec<Review>, want: bool)
    ensures
        final(into)@ == old(into)@ + select(from@, want),
        final(others)@ == old(others)@ + select(from@, !want),
{
    let ghost orig = from@;
    let mut rest = from;
    while rest.len() > 0
        invariant
            into@ + select(rest@, want) == old(into)@ + select(orig, want),
            others@ + select(rest@, !want) == old(others)@ + select(orig, !want),
        decreases rest.len(),
    {
        let ghost r0 = rest@;
        let r = rest.remove(0);
        proof {
            assert(rest@ == r0.drop_first());
        }
        let ghost i0 = into@;
        let ghost o0 = others@;
        if is_radical(r.mapping.trad) == want {
            into.push(r);
        } else {
            others.push(r);
        }
        proof {
            assert(into@ + select(rest@, want) =~= i0 + select(r0, want));
            assert(others@ + select(rest@, !want) =~= o0 + select(r0, !want));
        }
    }
    proof {
        assert(into@ =~= into@ + select(rest@, want));
        assert(others@ =~= others@ + select(rest@, !want));
    }
}

/// Sorts the reviews of the output sections (`primary`) and of the analogy
/// sections (`secondary`) into their roles. Radicals, wherever they stand,
/// serve as premises only: first those of `primary`, then those of `secondary`.
pub fn classify(primary: Vec<Review>, secondary: Vec<Review>) -> (r: Classified)
    ensures
        r.char_reviews@ == select(primary@, false),
        r.ichar_reviews@ == select(secondary@, false),
        r.radical_reviews@ == select(primary@, true) + select(secondary@, true),
{
    let ghost p = primary@;
    let ghost s = secondary@;
    let mut char_reviews: Vec<Review> = Vec::new();
    let mut ichar_reviews: Vec<Review> = Vec::new();
    let mut radical_reviews: Vec<Review> = Vec::new();
    take_reviews(primary, &mut char_reviews, &mut radical_reviews, false);
    take_reviews(secondary, &mut ichar_reviews, &mut radical_reviews, false);
    proof {
        assert(char_reviews@ =~= select(p, false));
        assert(ichar_reviews@ =~= select(s, false));
        assert(radical_reviews@ =~= select(p, true) + select(s, true));
    }
    Classified { char_reviews, ichar_reviews, radical_reviews }
}

} // verus!
