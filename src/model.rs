use vstd::prelude::*;

verus! {

/// One simplification: a traditional character and the simplified character it maps to.
#[derive(Clone, Copy, Debug, PartialEq, Eq, Structural, Hash)]
pub struct Mapping {
    pub trad: char,
    pub simp: char,
}

/// How serious the problem with a recorded simplification is.
#[derive(Clone, Copy, Debug, PartialEq, Eq, Structural)]
pub enum Problem {
    /// A real problem that must be fixed.
    Major,
    /// A minor problem that is fixed anyway (marked with a full-width exclamation mark).
    Neutral,
    /// A minor problem (marked with a full-width question mark).
    Minor,
    /// No problem.
    Sound,
}

/// A recorded simplification together with an expert's judgment of it.
#[derive(Clone, Debug)]
pub struct Review {
    /// The recorded default simplification.
    pub mapping: Mapping,
    /// The simplified character that overrides the default, if any.
    pub fix: Option<char>,
    /// The precise replacement text, without its trailing marker.
    pub precise: String,
    pub problem: Problem,
    pub tags: Vec<String>,
    pub comment: String,
}

/// An analogy rule: if `premise` is accepted, every mapping of `output` is proposed.
#[derive(Clone, Debug)]
pub struct Rule {
    pub premise: Mapping,
    pub output: Vec<Mapping>,
}

/// The mapping a review stands for once its fix is applied.
pub open spec fn corrected(r: Review) -> Mapping {
    match r.fix {
        Some(fix) => Mapping { trad: r.mapping.trad, simp: fix },
        None => r.mapping,
    }
}

/// The corrected mappings of a sequence of reviews, in order.
pub open spec fn corrected_all(rs: Seq<Review>) -> Seq<Mapping> {
    rs.map_values(|r: Review| corrected(r))
}

/// The component radicals: they serve as analogy premises and are never emitted.
pub open spec fn radical(c: char) -> bool {
    c == '訁' || c == '飠' || c == '糹' || c == '𤇾' || c == '𰯲' || c == '釒' || c == '𦥯'
        || c == '䜌' || c == '睪' || c == '巠' || c == '咼' || c == '昜' || c == '臤' || c == '戠'
}

/// Whether `c` is one of the component radicals.
pub fn is_radical(c: char) -> (r: bool)
    ensures
        r == radical(c),
{
    c == '訁' || c == '飠' || c == '糹' || c == '𤇾' || c == '𰯲' || c == '釒' || c == '𦥯'
        || c == '䜌' || c == '睪' || c == '巠' || c == '咼' || c == '昜' || c == '臤' || c == '戠'
}

impl Review {
    /// The recorded mapping with the fix, if any, in place of its simplified character.
    pub fn correct_mapping(&self) -> (r: Mapping)
        ensures
            r == corrected(*self),
    {
        if let Some(fix) = self.fix {
            Mapping { trad: self.mapping.trad, simp: fix }
        } else {
            self.mapping
        }
    }

    /// Whether the review says anything worth showing: a precise text or a comment.
    pub fn is_relevant(&self) -> (r: bool)
        ensures
            r == (self.precise@.len() > 0 || self.comment@.len() > 0),
    {
        self.precise.unicode_len() > 0 || self.comment.unicode_len() > 0
    }
}

/// The corrected mapping of each review, in order.
pub fn correct_mappings(reviews: Vec<Review>) -> (r: Vec<Mapping>)
    ensures
        r@ == corrected_all(reviews@),
{
    let mut mappings: Vec<Mapping> = Vec::new();
    let mut i: usize = 0;
    while i < reviews.len()
        invariant
            i <= reviews.len(),
            mappings@ == corrected_all(reviews@.take(i as int)),
        decreases reviews.len() - i,
    {
        let m = reviews[i].correct_mapping();
        mappings.push(m);
        proof {
            assert(reviews@.take(i as int + 1) == reviews@.take(i as int).push(reviews@[i as int]));
        }
        i += 1;
    }
    proof {
        assert(reviews@.take(reviews.len() as int) == reviews@);
    }
    mappings
}

} // verus!
