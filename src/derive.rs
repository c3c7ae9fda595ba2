use vstd::prelude::*;
use crate::model::{corrected_all, correct_mappings, Mapping, Review, Rule};

verus! {

/// A rule is accepted when its premise is among the accepted premise mappings.
pub open spec fn accepted(premises: Seq<Mapping>, r: Rule) -> bool {
    premises.contains(r.premise)
}

/// How many times `m` occurs in `s`.
pub open spec fn occurrences(s: Seq<Mapping>, m: Mapping) -> int
    decreases s.len(),
{
    if s.len() == 0 {
        0
    } else {
        occurrences(s.drop_last(), m) + if s.last() == m { 1int } else { 0int }
    }
}

/// The number of output mappings over all rules.
pub open spec fn total_outputs(rules: Seq<Rule>) -> int
    decreases rules.len(),
{
    if rules.len() == 0 {
        0
    } else {
        total_outputs(rules.drop_last()) + rules.last().output@.len()
    }
}

/// The score of a candidate mapping: one vote for each time an accepted rule
/// proposes it, minus one for each time a rejected rule lists it.
pub open spec fn votes(rules: Seq<Rule>, premises: Seq<Mapping>, m: Mapping) -> int
    decreases rules.len(),
{
    if rules.len() == 0 {
        0
    } else {
        let r = rules.last();
        votes(rules.drop_last(), premises, m) + if accepted(premises, r) {
            occurrences(r.output@, m)
        } else {
            -occurrences(r.output@, m)
        }
    }
}

/// The outputs of the accepted rules, in rule order.
pub open spec fn proposals(rules: Seq<Rule>, premises: Seq<Mapping>) -> Seq<Mapping>
    decreases rules.len(),
{
    if rules.len() == 0 {
        seq![]
    } else {
        proposals(rules.drop_last(), premises) + if accepted(premises, rules.last()) {
            rules.last().output@
        } else {
            seq![]
        }
    }
}

/// Among the first `n` proposals, the one at `i` has the highest score of all
/// those for its traditional character, and is the first to reach it.
pub open spec fn leads(rules: Seq<Rule>, premises: Seq<Mapping>, n: int, i: int) -> bool {
    let props = proposals(rules, premises);
    &&& 0 <= i < n <= props.len()
    &&& forall|j: int|
        0 <= j < n && #[trigger] props[j].trad == props[i].trad ==> votes(rules, premises, props[j])
            <= votes(rules, premises, props[i])
    &&& forall|j: int|
        0 <= j < i && #[trigger] props[j].trad == props[i].trad ==> votes(rules, premises, props[j])
            < votes(rules, premises, props[i])
}

/// The proposal at `i` wins the conflict over its traditional character.
pub open spec fn wins(rules: Seq<Rule>, premises: Seq<Mapping>, i: int) -> bool {
    leads(rules, premises, proposals(rules, premises).len() as int, i)
}

/// The simplified character that the accepted analogies give `c`, if any proposes one.
pub open spec fn derived_simp(rules: Seq<Rule>, premises: Seq<Mapping>, c: char) -> Option<char> {
    let props = proposals(rules, premises);
    if exists|i: int| #[trigger] wins(rules, premises, i) && props[i].trad == c {
        Some(props[choose|i: int| #[trigger] wins(rules, premises, i) && props[i].trad == c].simp)
    } else {
        None
    }
}

/// Some mapping of `s` is for the traditional character `c`.
pub open spec fn has_trad(s: Seq<Mapping>, c: char) -> bool {
    exists|i: int| 0 <= i < s.len() && #[trigger] s[i].trad == c
}

/// An explicit mapping exists for `c`.
pub open spec fn pinned(explicit: Seq<Mapping>, c: char) -> bool {
    has_trad(explicit, c)
}

/// An explicit mapping with its target carried one step further by the analogies.
pub open spec fn chained(rules: Seq<Rule>, premises: Seq<Mapping>, m: Mapping) -> Mapping {
    match derived_simp(rules, premises, m.simp) {
        Some(s) => Mapping { trad: m.trad, simp: s },
        None => m,
    }
}

/// Whether a proposal of an accepted rule reaches the output: its character has
/// no explicit mapping and it is the winner for that character.
pub open spec fn kept(explicit: Seq<Mapping>, rules: Seq<Rule>, premises: Seq<Mapping>, m: Mapping) -> bool {
    !pinned(explicit, m.trad) && derived_simp(rules, premises, m.trad) == Some(m.simp)
}

/// The proposals among `s` that reach the output, in order.
pub open spec fn kept_proposals(
    s: Seq<Mapping>,
    explicit: Seq<Mapping>,
    rules: Seq<Rule>,
    premises: Seq<Mapping>,
) -> Seq<Mapping>
    decreases s.len(),
{
    if s.len() == 0 {
        seq![]
    } else {
        kept_proposals(s.drop_last(), explicit, rules, premises) + if kept(
            explicit,
            rules,
            premises,
            s.last(),
        ) {
            seq![s.last()]
        } else {
            seq![]
        }
    }
}

/// The explicit mappings, chained, in their order.
pub open spec fn chained_explicit(explicit: Seq<Mapping>, rules: Seq<Rule>, premises: Seq<Mapping>) -> Seq<Mapping> {
    explicit.map_values(|m: Mapping| chained(rules, premises, m))
}

/// The derived output list: the chained explicit mappings, then the winning
/// proposals of accepted rules whose characters have no explicit mapping.
pub open spec fn derivation(explicit: Seq<Mapping>, premises: Seq<Mapping>, rules: Seq<Rule>) -> Seq<Mapping> {
    chained_explicit(explicit, rules, premises) + kept_proposals(
        proposals(rules, premises),
        explicit,
        rules,
        premises,
    )
}

/// Whether `m` is one of `ms`.
fn contains_mapping(ms: &Vec<Mapping>, m: Mapping) -> (r: bool)
    ensures
        r == ms@.contains(m),
{
    let mut i: usize = 0;
    while i < ms.len()
        invariant
            i <= ms.len(),
            forall|j: int| 0 <= j < i ==> ms@[j] != m,
        decreases ms.len() - i,
    {
        if ms[i] == m {
            return true;
        }
        i += 1;
    }
    false
}

/// The position of the first mapping of `ms` for the character `c`.
fn find_trad(ms: &Vec<Mapping>, c: char) -> (r: Option<usize>)
    ensures
        match r {
            Some(i) => i < ms@.len() && ms@[i as int].trad == c && forall|j: int|
                0 <= j < i ==> ms@[j].trad != c,
            None => forall|j: int| 0 <= j < ms@.len() ==> ms@[j].trad != c,
        },
{
    let mut i: usize = 0;
    while i < ms.len()
        invariant
            i <= ms.len(),
            forall|j: int| 0 <= j < i ==> ms@[j].trad != c,
        decreases ms.len() - i,
    {
        if ms[i].trad == c {
            return Some(i);
        }
        i += 1;
    }
    None
}

/// Whether each rule is accepted.
fn accepted_flags(rules: &Vec<Rule>, premises: &Vec<Mapping>) -> (r: Vec<bool>)
    ensures
        r@.len() == rules@.len(),
        forall|k: int| 0 <= k < rules@.len() ==> r@[k] == accepted(premises@, #[trigger] rules@[k]),
{
    let mut flags: Vec<bool> = Vec::new();
    let mut k: usize = 0;
    while k < rules.len()
        invariant
            k <= rules.len(),
            flags@.len() == k,
            forall|j: int| 0 <= j < k ==> flags@[j] == accepted(premises@, #[trigger] rules@[j]),
        decreases rules.len() - k,
    {
        let a = contains_mapping(premises, rules[k].premise);
        flags.push(a);
        k += 1;
    }
    flags
}

/// The outputs of the accepted rules, in rule order.
fn collect_proposals(rules: &Vec<Rule>, flags: &Vec<bool>, premises: Ghost<Seq<Mapping>>) -> (r: Vec<Mapping>)
    requires
        flags@.len() == rules@.len(),
        forall|k: int| 0 <= k < rules@.len() ==> flags@[k] == accepted(premises@, #[trigger] rules@[k]),
    ensures
        r@ == proposals(rules@, premises@),
{
    let mut props: Vec<Mapping> = Vec::new();
    let mut k: usize = 0;
    while k < rules.len()
        invariant
            k <= rules.len(),
            flags@.len() == rules@.len(),
            forall|k: int| 0 <= k < rules@.len() ==> flags@[k] == accepted(premises@, #[trigger] rules@[k]),
            props@ == proposals(rules@.take(k as int), premises@),
        decreases rules.len() - k,
    {
        let ghost before = props@;
        if flags[k] {
            let out = &rules[k].output;
            let mut j: usize = 0;
            while j < out.len()
                invariant
                    j <= out.len(),
                    props@ == before + out@.take(j as int),
                decreases out.len() - j,
            {
                props.push(out[j]);
                proof {
                    assert(out@.take(j as int + 1) == out@.take(j as int).push(out@[j as int]));
                }
                j += 1;
            }
            proof {
                assert(out@.take(out@.len() as int) == out@);
            }
        }
        proof {
            assert(rules@.take(k as int + 1).drop_last() == rules@.take(k as int));
            assert(props@ == proposals(rules@.take(k as int + 1), premises@));
        }
        k += 1;
    }
    proof {
        assert(rules@.take(rules@.len() as int) == rules@);
    }
    props
}

pub proof fn lemma_total_prefix(rules: Seq<Rule>, k: int)
    requires
        0 <= k <= rules.len(),
    ensures
        0 <= total_outputs(rules.take(k)) <= total_outputs(rules),
    decreases rules.len(),
{
    if k == rules.len() {
        assert(rules.take(k) == rules);
        lemma_total_nonneg(rules);
    } else {
        assert(rules.take(k) == rules.drop_last().take(k));
        lemma_total_prefix(rules.drop_last(), k);
    }
}

proof fn lemma_total_nonneg(rules: Seq<Rule>)
    ensures
        total_outputs(rules) >= 0,
    decreases rules.len(),
{
    if rules.len() > 0 {
        lemma_total_nonneg(rules.drop_last());
    }
}

/// How many times `m` occurs in `s`.
fn count_mapping(s: &Vec<Mapping>, m: Mapping) -> (r: usize)
    ensures
        r == occurrences(s@, m),
        r <= s@.len(),
{
    let mut n: usize = 0;
    let mut j: usize = 0;
    while j < s.len()
        invariant
            j <= s.len(),
            n <= j,
            n == occurrences(s@.take(j as int), m),
        decreases s.len() - j,
    {
        proof {
            assert(s@.take(j as int + 1).drop_last() == s@.take(j as int));
        }
        if s[j] == m {
            n += 1;
        }
        j += 1;
    }
    proof {
        assert(s@.take(s@.len() as int) == s@);
    }
    n
}

/// The score of `m` over all rules.
fn vote(rules: &Vec<Rule>, flags: &Vec<bool>, m: Mapping, premises: Ghost<Seq<Mapping>>) -> (r: i128)
    requires
        total_outputs(rules@) <= usize::MAX,
        flags@.len() == rules@.len(),
        forall|k: int| 0 <= k < rules@.len() ==> flags@[k] == accepted(premises@, #[trigger] rules@[k]),
    ensures
        r == votes(rules@, premises@, m),
{
    let mut v: i128 = 0;
    let mut k: usize = 0;
    while k < rules.len()
        invariant
            k <= rules.len(),
            total_outputs(rules@) <= usize::MAX,
            flags@.len() == rules@.len(),
            forall|k: int| 0 <= k < rules@.len() ==> flags@[k] == accepted(premises@, #[trigger] rules@[k]),
            v == votes(rules@.take(k as int), premises@, m),
            -total_outputs(rules@.take(k as int)) <= v <= total_outputs(rules@.take(k as int)),
        decreases rules.len() - k,
    {
        let n = count_mapping(&rules[k].output, m);
        proof {
            assert(rules@.take(k as int + 1).drop_last() == rules@.take(k as int));
            lemma_total_prefix(rules@, k as int + 1);
        }
        if flags[k] {
            v = v + n as i128;
        } else {
            v = v - n as i128;
        }
        k += 1;
    }
    proof {
        assert(rules@.take(rules@.len() as int) == rules@);
    }
    v
}

/// `win` holds exactly one mapping per character that the analogies simplify,
/// and that mapping is the winner.
pub open spec fn resolves(win: Seq<Mapping>, rules: Seq<Rule>, premises: Seq<Mapping>) -> bool {
    &&& forall|a: int|
        0 <= a < win.len() ==> derived_simp(rules, premises, #[trigger] win[a].trad) == Some(
            win[a].simp,
        )
    &&& forall|c: char| !has_trad(win, c) ==> derived_simp(rules, premises, c) is None
}

/// At most one proposal wins for each character.
pub proof fn lemma_winner_unique(rules: Seq<Rule>, premises: Seq<Mapping>, i1: int, i2: int)
    requires
        wins(rules, premises, i1),
        wins(rules, premises, i2),
        proposals(rules, premises)[i1].trad == proposals(rules, premises)[i2].trad,
    ensures
        i1 == i2,
{
    let props = proposals(rules, premises);
    if i1 < i2 {
        assert(props[i1].trad == props[i2].trad);
    } else if i2 < i1 {
        assert(props[i2].trad == props[i1].trad);
    }
}

/// The winner of each character's conflict among the proposals.
fn resolve(props: &Vec<Mapping>, rules: &Vec<Rule>, flags: &Vec<bool>, premises: Ghost<Seq<Mapping>>) -> (win: Vec<Mapping>)
    requires
        props@ == proposals(rules@, premises@),
        total_outputs(rules@) <= usize::MAX,
        flags@.len() == rules@.len(),
        forall|k: int| 0 <= k < rules@.len() ==> flags@[k] == accepted(premises@, #[trigger] rules@[k]),
    ensures
        resolves(win@, rules@, premises@),
{
    let mut win: Vec<Mapping> = Vec::new();
    let mut wsc: Vec<i128> = Vec::new();
    let ghost mut widx: Seq<int> = Seq::empty();
    let mut i: usize = 0;
    while i < props.len()
        invariant
            props@ == proposals(rules@, premises@),
            total_outputs(rules@) <= usize::MAX,
            flags@.len() == rules@.len(),
            forall|k: int| 0 <= k < rules@.len() ==> flags@[k] == accepted(premises@, #[trigger] rules@[k]),
            i <= props@.len(),
            win@.len() == wsc@.len(),
            win@.len() == widx.len(),
            forall|a: int|
                0 <= a < win@.len() ==> leads(rules@, premises@, i as int, #[trigger] widx[a])
                    && props@[widx[a]] == win@[a] && wsc@[a] == votes(rules@, premises@, win@[a]),
            forall|j: int| 0 <= j < i ==> has_trad(win@, #[trigger] props@[j].trad),
            forall|a: int, b: int| 0 <= a < b < win@.len() ==> win@[a].trad != win@[b].trad,
        decreases props.len() - i,
    {
        let m = props[i];
        let s = vote(rules, flags, m, premises);
        let ghost pr = props@;
        match find_trad(&win, m.trad) {
            None => {
                proof {
                    assert forall|a: int| 0 <= a < win@.len() implies leads(rules@, premises@, i as int + 1, #[trigger] widx[a]) by {
                        assert(pr[widx[a]].trad == win@[a].trad);
                    }
                    assert forall|j: int| 0 <= j < i + 1 && #[trigger] pr[j].trad == pr[i as int].trad implies j == i by {
                        if j < i {
                            assert(has_trad(win@, pr[j].trad));
                        }
                    }
                }
                let ghost w0 = win@;
                win.push(m);
                wsc.push(s);
                proof {
                    widx = widx.push(i as int);
                    assert(leads(rules@, premises@, i as int + 1, i as int));
                    assert forall|b: int| 0 <= b < win@.len() implies leads(rules@, premises@, i as int + 1, #[trigger] widx[b])
                        && pr[widx[b]] == win@[b] && wsc@[b] == votes(rules@, premises@, win@[b]) by {
                        if b < win@.len() - 1 {
                            assert(leads(rules@, premises@, i as int + 1, widx[b]));
                        }
                    }
                    assert forall|j: int| 0 <= j < i + 1 implies has_trad(win@, #[trigger] pr[j].trad) by {
                        if j < i {
                            assert(has_trad(w0, pr[j].trad));
                            let a = choose|a: int| 0 <= a < w0.len() && #[trigger] w0[a].trad == pr[j].trad;
                            assert(win@[a].trad == pr[j].trad);
                        } else {
                            assert(win@[win@.len() - 1].trad == pr[j].trad);
                        }
                    }
                }
            },
            Some(a) => {
                let ghost w0 = win@;
                if s > wsc[a] {
                    proof {
                        assert forall|b: int| 0 <= b < win@.len() && b != a implies leads(rules@, premises@, i as int + 1, #[trigger] widx[b]) by {
                            assert(pr[widx[b]].trad == win@[b].trad);
                        }
                        assert(pr[widx[a as int]].trad == m.trad);
                        assert(leads(rules@, premises@, i as int + 1, i as int));
                    }
                    win.set(a, m);
                    wsc.set(a, s);
                    proof {
                        widx = widx.update(a as int, i as int);
                        assert forall|b: int| 0 <= b < win@.len() implies leads(rules@, premises@, i as int + 1, #[trigger] widx[b])
                        && pr[widx[b]] == win@[b] && wsc@[b] == votes(rules@, premises@, win@[b]) by {
                        if b != a {
                            assert(leads(rules@, premises@, i as int + 1, widx[b]));
                        }
                    }
                    }
                } else {
                    proof {
                        assert forall|b: int| 0 <= b < win@.len() implies leads(rules@, premises@, i as int + 1, #[trigger] widx[b]) by {
                            assert(pr[widx[b]].trad == win@[b].trad);
                        }
                    }
                }
                proof {
                    assert forall|j: int| 0 <= j < i + 1 implies has_trad(win@, #[trigger] pr[j].trad) by {
                        if j < i {
                            assert(has_trad(w0, pr[j].trad));
                            let b = choose|b: int| 0 <= b < w0.len() && #[trigger] w0[b].trad == pr[j].trad;
                            assert(win@[b].trad == pr[j].trad);
                        } else {
                            assert(win@[a as int].trad == pr[j].trad);
                        }
                    }
                }
            },
        }
        i += 1;
    }
    proof {
        let pr = props@;
        assert forall|a: int| 0 <= a < win@.len() implies derived_simp(rules@, premises@, #[trigger] win@[a].trad) == Some(win@[a].simp) by {
            let c = win@[a].trad;
            assert(wins(rules@, premises@, widx[a]) && pr[widx[a]].trad == c);
            let i2 = choose|i2: int| #[trigger] wins(rules@, premises@, i2) && pr[i2].trad == c;
            lemma_winner_unique(rules@, premises@, widx[a], i2);
        }
        assert forall|c: char| !has_trad(win@, c) implies derived_simp(rules@, premises@, c) is None by {
            if exists|i2: int| #[trigger] wins(rules@, premises@, i2) && pr[i2].trad == c {
                let i2 = choose|i2: int| #[trigger] wins(rules@, premises@, i2) && pr[i2].trad == c;
                assert(has_trad(win@, pr[i2].trad));
            }
        }
    }
    win
}

/// The simplified character that the analogies give `c`, looked up among the winners.
fn derived_of(win: &Vec<Mapping>, c: char, rules: Ghost<Seq<Rule>>, premises: Ghost<Seq<Mapping>>) -> (r: Option<char>)
    requires
        resolves(win@, rules@, premises@),
    ensures
        r == derived_simp(rules@, premises@, c),
{
    match find_trad(win, c) {
        Some(a) => {
            proof {
                assert(derived_simp(rules@, premises@, win@[a as int].trad) == Some(win@[a as int].simp));
            }
            Some(win[a].simp)
        },
        None => {
            proof {
                assert(!has_trad(win@, c));
            }
            None
        },
    }
}

/// The explicit mappings: the corrected output-only reviews, then the corrected dual-role reviews.
pub open spec fn explicit_of(char_reviews: Seq<Review>, ichar_reviews: Seq<Review>) -> Seq<Mapping> {
    corrected_all(char_reviews) + corrected_all(ichar_reviews)
}

/// The accepted premises: the corrected radical reviews and the corrected dual-role reviews.
pub open spec fn premises_of(radical_reviews: Seq<Review>, ichar_reviews: Seq<Review>) -> Seq<Mapping> {
    corrected_all(radical_reviews) + corrected_all(ichar_reviews)
}

/// `a` followed by `b`.
fn concat(a: &Vec<Mapping>, b: &Vec<Mapping>) -> (r: Vec<Mapping>)
    ensures
        r@ == a@ + b@,
{
    let mut r: Vec<Mapping> = Vec::new();
    let mut i: usize = 0;
    while i < a.len()
        invariant
            i <= a.len(),
            r@ == a@.take(i as int),
        decreases a.len() - i,
    {
        r.push(a[i]);
        proof {
            assert(a@.take(i as int + 1) == a@.take(i as int).push(a@[i as int]));
        }
        i += 1;
    }
    let mut j: usize = 0;
    while j < b.len()
        invariant
            j <= b.len(),
            r@ == a@ + b@.take(j as int),
        decreases b.len() - j,
    {
        r.push(b[j]);
        proof {
            assert(b@.take(j as int + 1) == b@.take(j as int).push(b@[j as int]));
        }
        j += 1;
    }
    proof {
        assert(a@.take(a@.len() as int) == a@);
        assert(b@.take(b@.len() as int) == b@);
    }
    r
}

/// Derives the output list from the reviews and the analogy rules.
///
/// The explicit mappings come first, in order, each with its simplified
/// character carried one step further where an accepted analogy simplifies
/// that character. Then come, in rule order, the proposals of accepted rules
/// that win the conflict over their character, for the characters that have
/// no explicit mapping.
///
/// An explicit mapping from a character to itself keeps the analogies' entries
/// for that character out, but it is chained like any other explicit mapping:
/// where an accepted analogy simplifies A to D, the explicit A to A becomes
/// A to D and reaches the table. So such a mapping suppresses A only when no
/// accepted analogy proposes a target for A.
pub fn derive_mappings(
    char_reviews: Vec<Review>,
    ichar_reviews: Vec<Review>,
    radical_reviews: Vec<Review>,
    rules: &Vec<Rule>,
) -> (r: Vec<Mapping>)
    requires
        total_outputs(rules@) <= usize::MAX,
    ensures
        r@ == derivation(
            explicit_of(char_reviews@, ichar_reviews@),
            premises_of(radical_reviews@, ichar_reviews@),
            rules@,
        ),
{
    let cm = correct_mappings(char_reviews);
    let im = correct_mappings(ichar_reviews);
    let rm = correct_mappings(radical_reviews);
    let explicit = concat(&cm, &im);
    let premises = concat(&rm, &im);
    let ghost pr = premises@;
    let ghost ex = explicit@;
    let flags = accepted_flags(rules, &premises);
    let props = collect_proposals(rules, &flags, Ghost(pr));
    let win = resolve(&props, rules, &flags, Ghost(pr));

    let mut out: Vec<Mapping> = Vec::new();
    let mut i: usize = 0;
    while i < explicit.len()
        invariant
            i <= explicit.len(),
            ex == explicit@,
            resolves(win@, rules@, pr),
            out@ == chained_explicit(ex.take(i as int), rules@, pr),
        decreases explicit.len() - i,
    {
        let m = explicit[i];
        match derived_of(&win, m.simp, Ghost(rules@), Ghost(pr)) {
            Some(s) => out.push(Mapping { trad: m.trad, simp: s }),
            None => out.push(m),
        }
        proof {
            assert(ex.take(i as int + 1) == ex.take(i as int).push(ex[i as int]));
            assert(out@ == chained_explicit(ex.take(i as int + 1), rules@, pr));
        }
        i += 1;
    }
    proof {
        assert(ex.take(ex.len() as int) == ex);
    }
    let ghost head = out@;
    let mut j: usize = 0;
    while j < props.len()
        invariant
            j <= props.len(),
            ex == explicit@,
            props@ == proposals(rules@, pr),
            resolves(win@, rules@, pr),
            head == chained_explicit(ex, rules@, pr),
            out@ == head + kept_proposals(props@.take(j as int), ex, rules@, pr),
        decreases props.len() - j,
    {
        let m = props[j];
        proof {
            assert(props@.take(j as int + 1).drop_last() == props@.take(j as int));
        }
        let keep = match find_trad(&explicit, m.trad) {
            Some(_) => false,
            None => match derived_of(&win, m.trad, Ghost(rules@), Ghost(pr)) {
                Some(s) => s == m.simp,
                None => false,
            },
        };
        proof {
            assert(keep == kept(ex, rules@, pr, m));
        }
        if keep {
            out.push(m);
        }
        proof {
            assert(out@ == head + kept_proposals(props@.take(j as int + 1), ex, rules@, pr));
        }
        j += 1;
    }
    proof {
        assert(props@.take(props@.len() as int) == props@);
    }
    out
}

} // verus!
