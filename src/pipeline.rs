use vstd::prelude::*;
use crate::classify::{classify, select};
use crate::derive::{derivation, lemma_total_prefix, derive_mappings, explicit_of, premises_of, total_outputs};
use crate::emit::{conflicts, emit, table, Conflict};
use crate::model::{Mapping, Review, Rule};

verus! {

/// The final table and the conflicts met while building it.
pub struct TableOutput {
    pub table: Vec<Mapping>,
    pub conflicts: Vec<Conflict>,
}

/// The explicit mappings of the reviews of the output sections (`primary`)
/// and of the analogy sections (`secondary`).
pub open spec fn explicit_list(primary: Seq<Review>, secondary: Seq<Review>) -> Seq<Mapping> {
    explicit_of(select(primary, false), select(secondary, false))
}

/// The accepted premises of the reviews of the output and analogy sections.
pub open spec fn premise_list(primary: Seq<Review>, secondary: Seq<Review>) -> Seq<Mapping> {
    premises_of(select(primary, true) + select(secondary, true), select(secondary, false))
}

/// The derived output list for reviews of the output sections (`primary`),
/// reviews of the analogy sections (`secondary`) and the analogy rules.
pub open spec fn derived_list(primary: Seq<Review>, secondary: Seq<Review>, rules: Seq<Rule>) -> Seq<Mapping> {
    derivation(explicit_list(primary, secondary), premise_list(primary, secondary), rules)
}

/// Builds the final table: sorts the reviews into their roles, derives the
/// output list and emits it. Gives `None` only where the rules hold more
/// output mappings than a `usize` can count.
pub fn build_table(primary: Vec<Review>, secondary: Vec<Review>, rules: &Vec<Rule>) -> (r: Option<TableOutput>)
    ensures
        r is None <==> total_outputs(rules@) > usize::MAX,
        r is Some ==> r->0.table@ == table(derived_list(primary@, secondary@, rules@)),
        r is Some ==> r->0.conflicts@ == conflicts(derived_list(primary@, secondary@, rules@)),
        r is Some ==> forall|i: int, j: int|
            0 <= i < j < r->0.table@.len() ==> #[trigger] r->0.table@[i].trad != #[trigger] r->0.table@[j].trad,
        r is Some ==> forall|i: int| 0 <= i < r->0.table@.len() ==> #[trigger] r->0.table@[i].trad != r->0.table@[i].simp,
{
    if count_outputs(rules).is_none() {
        return None;
    }
    let c = classify(primary, secondary);
    let out = derive_mappings(c.char_reviews, c.ichar_reviews, c.radical_reviews, rules);
    let (table, conflicts) = emit(&out);
    Some(TableOutput { table, conflicts })
}

/// The number of output mappings over all rules, or `None` where it does not
/// fit in a `usize`.
pub fn count_outputs(rules: &Vec<Rule>) -> (r: Option<usize>)
    ensures
        match r {
            Some(n) => n == total_outputs(rules@),
            None => total_outputs(rules@) > usize::MAX,
        },
{
    let mut n: usize = 0;
    let mut k: usize = 0;
    while k < rules.len()
        invariant
            k <= rules.len(),
            n == total_outputs(rules@.take(k as int)),
        decreases rules.len() - k,
    {
        proof {
            assert(rules@.take(k as int + 1).drop_last() == rules@.take(k as int));
        }
        let len = rules[k].output.len();
        if n > usize::MAX - len {
            proof {
                lemma_total_prefix(rules@, k as int + 1);
            }
            return None;
        }
        n = n + len;
        k += 1;
    }
    proof {
        assert(rules@.take(rules@.len() as int) == rules@);
    }
    Some(n)
}

} // verus!
