use vstd::prelude::*;
use crate::model::{Mapping, Rule};
use crate::derive::{
    accepted, chained, chained_explicit, derivation, derived_simp, has_trad, kept, kept_proposals,
    leads, occurrences, pinned, proposals, votes, wins, lemma_winner_unique,
};
use crate::model::Review;
use crate::pipeline::{derived_list, explicit_list, premise_list};
use crate::emit::{first_simp, table, lemma_first_simp_prefix, lemma_table_first};

verus! {

/// Every output of an accepted rule is among the proposals.
proof fn lemma_proposal_of_accepted(rules: Seq<Rule>, premises: Seq<Mapping>, k: int, t: int)
    requires
        0 <= k < rules.len(),
        accepted(premises, rules[k]),
        0 <= t < rules[k].output@.len(),
    ensures
        proposals(rules, premises).contains(rules[k].output@[t]),
    decreases rules.len(),
{
    let props = proposals(rules, premises);
    let p0 = proposals(rules.drop_last(), premises);
    if k == rules.len() - 1 {
        assert(props[p0.len() + t] == rules[k].output@[t]);
    } else {
        lemma_proposal_of_accepted(rules.drop_last(), premises, k, t);
        let i = choose|i: int| 0 <= i < p0.len() && p0[i] == rules[k].output@[t];
        assert(props[i] == p0[i]);
    }
}

/// Among the first `n` proposals, any character proposed has a leader.
proof fn lemma_leader_exists(rules: Seq<Rule>, premises: Seq<Mapping>, n: int, j: int)
    requires
        0 <= j < n <= proposals(rules, premises).len(),
    ensures
        exists|w: int|
            #[trigger] leads(rules, premises, n, w) && proposals(rules, premises)[w].trad
                == proposals(rules, premises)[j].trad,
    decreases n,
{
    let props = proposals(rules, premises);
    let c = props[j].trad;
    let last = n - 1;
    if j == last && forall|i: int| 0 <= i < last ==> #[trigger] props[i].trad != c {
        assert(leads(rules, premises, n, last));
    } else {
        let j2 = if j < last {
            j
        } else {
            choose|i: int| 0 <= i < last && #[trigger] props[i].trad == c
        };
        lemma_leader_exists(rules, premises, last, j2);
        let w = choose|w: int| #[trigger] leads(rules, premises, last, w) && props[w].trad == c;
        if props[last].trad == c && votes(rules, premises, props[last]) > votes(
            rules,
            premises,
            props[w],
        ) {
            assert forall|i: int| 0 <= i < n && #[trigger] props[i].trad == props[last].trad implies votes(rules, premises, props[i])
                <= votes(rules, premises, props[last]) by {
                if i < last {
                    assert(props[i].trad == props[w].trad);
                }
            }
            assert forall|i: int| 0 <= i < last && #[trigger] props[i].trad == props[last].trad implies votes(rules, premises, props[i])
                < votes(rules, premises, props[last]) by {
                assert(props[i].trad == props[w].trad);
            }
            assert(leads(rules, premises, n, last));
        } else {
            assert(leads(rules, premises, n, w));
        }
    }
}

/// A character that some accepted rule proposes is simplified by the
/// analogies, to the target of its winning proposal.
proof fn lemma_derived_of_proposed(rules: Seq<Rule>, premises: Seq<Mapping>, j: int)
    requires
        0 <= j < proposals(rules, premises).len(),
    ensures
        exists|w: int|
            #[trigger] wins(rules, premises, w) && proposals(rules, premises)[w].trad
                == proposals(rules, premises)[j].trad && derived_simp(
                rules,
                premises,
                proposals(rules, premises)[j].trad,
            ) == Some(proposals(rules, premises)[w].simp),
{
    let props = proposals(rules, premises);
    let c = props[j].trad;
    lemma_leader_exists(rules, premises, props.len() as int, j);
    let w = choose|w: int| #[trigger] leads(rules, premises, props.len() as int, w) && props[w].trad == c;
    assert(wins(rules, premises, w) && props[w].trad == c);
    let w2 = choose|i: int| #[trigger] wins(rules, premises, i) && props[i].trad == c;
    lemma_winner_unique(rules, premises, w, w2);
}

/// Every element of the kept proposals is one of `s` and is kept; every kept
/// element of `s` is among them.
proof fn lemma_kept_proposals(
    s: Seq<Mapping>,
    explicit: Seq<Mapping>,
    rules: Seq<Rule>,
    premises: Seq<Mapping>,
)
    ensures
        forall|i: int|
            0 <= i < kept_proposals(s, explicit, rules, premises).len() ==> kept(
                explicit,
                rules,
                premises,
                #[trigger] kept_proposals(s, explicit, rules, premises)[i],
            ),
        forall|i: int|
            0 <= i < s.len() && kept(explicit, rules, premises, #[trigger] s[i]) ==> kept_proposals(
                s,
                explicit,
                rules,
                premises,
            ).contains(s[i]),
    decreases s.len(),
{
    if s.len() > 0 {
        let p = s.drop_last();
        lemma_kept_proposals(p, explicit, rules, premises);
        let kp = kept_proposals(p, explicit, rules, premises);
        let ks = kept_proposals(s, explicit, rules, premises);
        assert forall|i: int| 0 <= i < ks.len() implies kept(explicit, rules, premises, #[trigger] ks[i]) by {
            if i < kp.len() {
                assert(ks[i] == kp[i]);
            }
        }
        assert forall|i: int| 0 <= i < s.len() && kept(explicit, rules, premises, #[trigger] s[i]) implies ks.contains(s[i]) by {
            if i < p.len() {
                assert(p[i] == s[i]);
                let x = choose|x: int| 0 <= x < kp.len() && kp[x] == p[i];
                assert(ks[x] == kp[x]);
            } else {
                assert(ks[kp.len() as int] == s[i]);
            }
        }
    }
}

/// When every mapping of `s` for `c` has the target `d`, and one exists, the
/// first one has it.
proof fn lemma_first_simp_uniform(s: Seq<Mapping>, c: char, d: char)
    requires
        forall|i: int| 0 <= i < s.len() && #[trigger] s[i].trad == c ==> s[i].simp == d,
        has_trad(s, c),
    ensures
        first_simp(s, c) == Some(d),
    decreases s.len(),
{
    let p = s.drop_last();
    if has_trad(p, c) {
        assert forall|i: int| 0 <= i < p.len() && #[trigger] p[i].trad == c implies p[i].simp == d by {
            assert(s[i] == p[i]);
        }
        let i = choose|i: int| 0 <= i < p.len() && #[trigger] p[i].trad == c;
        assert(s[i] == p[i]);
        lemma_first_simp_uniform(p, c, d);
    } else {
        lemma_first_simp_none(p, c);
        let i = choose|i: int| 0 <= i < s.len() && #[trigger] s[i].trad == c;
        if i < p.len() {
            assert(p[i] == s[i]);
        }
    }
}

/// A sequence with no mapping for `c` has no first one.
proof fn lemma_first_simp_none(s: Seq<Mapping>, c: char)
    requires
        !has_trad(s, c),
    ensures
        first_simp(s, c) is None,
    decreases s.len(),
{
    if s.len() > 0 {
        let p = s.drop_last();
        assert(!has_trad(p, c)) by {
            if has_trad(p, c) {
                let i = choose|i: int| 0 <= i < p.len() && #[trigger] p[i].trad == c;
                assert(s[i] == p[i]);
            }
        }
        lemma_first_simp_none(p, c);
        assert(s[s.len() - 1].trad != c);
    }
}

/// The first mapping for `c` that maps it elsewhere than to itself is in the table.
proof fn lemma_table_has_first(s: Seq<Mapping>, c: char, d: char)
    requires
        first_simp(s, c) == Some(d),
        c != d,
    ensures
        table(s).contains(Mapping { trad: c, simp: d }),
    decreases s.len(),
{
    let p = s.drop_last();
    let t = table(s);
    let tp = table(p);
    if first_simp(p, c) is Some {
        lemma_table_has_first(p, c, d);
        let i = choose|i: int| 0 <= i < tp.len() && tp[i] == Mapping { trad: c, simp: d };
        assert(t[i] == tp[i]);
    } else {
        assert(t[tp.len() as int] == Mapping { trad: c, simp: d });
    }
}

/// An accepted rule's output either has no analogy entry, when its character
/// has an explicit mapping, or reaches the table with exactly the winning
/// target of its character, never with a losing one.
pub proof fn law_accepted_outputs_take_the_winner(
    explicit: Seq<Mapping>,
    premises: Seq<Mapping>,
    rules: Seq<Rule>,
    k: int,
    t: int,
)
    requires
        0 <= k < rules.len(),
        accepted(premises, rules[k]),
        0 <= t < rules[k].output@.len(),
    ensures
        ({
            let m = rules[k].output@[t];
            let out = derivation(explicit, premises, rules);
            let head = chained_explicit(explicit, rules, premises).len();
            &&& derived_simp(rules, premises, m.trad) is Some
            &&& pinned(explicit, m.trad) ==> forall|i: int|
                head <= i < out.len() ==> #[trigger] out[i].trad != m.trad
            &&& pinned(explicit, m.trad) ==> forall|x: int|
                0 <= x < table(out).len() && #[trigger] table(out)[x].trad == m.trad ==> exists|i: int|
                    #[trigger] first_for(explicit, i) && explicit[i].trad == m.trad && table(out)[x]
                        == chained(rules, premises, explicit[i])
            &&& !pinned(explicit, m.trad) ==> forall|i: int|
                0 <= i < table(out).len() && #[trigger] table(out)[i].trad == m.trad
                    ==> table(out)[i].simp == derived_simp(rules, premises, m.trad)->0
            &&& !pinned(explicit, m.trad) && derived_simp(rules, premises, m.trad)->0 != m.trad
                ==> table(out).contains(
                Mapping { trad: m.trad, simp: derived_simp(rules, premises, m.trad)->0 },
            )
            &&& !pinned(explicit, m.trad) && derived_simp(rules, premises, m.trad)->0 == m.trad
                ==> forall|x: int| 0 <= x < table(out).len() ==> #[trigger] table(out)[x].trad != m.trad
        }),
{
    let m = rules[k].output@[t];
    let props = proposals(rules, premises);
    let out = derivation(explicit, premises, rules);
    let ce = chained_explicit(explicit, rules, premises);
    let kp = kept_proposals(props, explicit, rules, premises);
    lemma_proposal_of_accepted(rules, premises, k, t);
    let j = choose|j: int| 0 <= j < props.len() && props[j] == m;
    lemma_derived_of_proposed(rules, premises, j);
    let w = choose|w: int| #[trigger] wins(rules, premises, w) && props[w].trad == m.trad
        && derived_simp(rules, premises, m.trad) == Some(props[w].simp);
    let d = derived_simp(rules, premises, m.trad)->0;
    lemma_kept_proposals(props, explicit, rules, premises);
    assert forall|i: int| 0 <= i < kp.len() implies out[ce.len() + i] == kp[i] by {}
    if pinned(explicit, m.trad) {
        assert forall|i: int| ce.len() <= i < out.len() implies #[trigger] out[i].trad != m.trad by {
            assert(out[i] == kp[i - ce.len()]);
            assert(kept(explicit, rules, premises, kp[i - ce.len()]));
        }
        lemma_first_index(explicit, m.trad);
        let e = choose|e: int| #[trigger] first_for(explicit, e) && explicit[e].trad == m.trad;
        lemma_first_of_explicit(explicit, premises, rules, e);
        lemma_table_first(out);
        let tab = table(out);
        assert forall|x: int| 0 <= x < tab.len() && #[trigger] tab[x].trad == m.trad implies exists|i: int|
            #[trigger] first_for(explicit, i) && explicit[i].trad == m.trad && tab[x] == chained(rules, premises, explicit[i]) by {
            assert(first_simp(out, tab[x].trad) == Some(tab[x].simp));
            assert(tab[x] == chained(rules, premises, explicit[e]));
        }
    } else {
        assert forall|i: int| 0 <= i < out.len() && #[trigger] out[i].trad == m.trad implies out[i].simp == d by {
            if i < ce.len() {
                assert(ce[i].trad == explicit[i].trad);
                assert(has_trad(explicit, m.trad));
            } else {
                assert(out[i] == kp[i - ce.len()]);
                assert(kept(explicit, rules, premises, kp[i - ce.len()]));
            }
        }
        assert(kept(explicit, rules, premises, props[w]));
        assert(kp.contains(props[w]));
        let x = choose|x: int| 0 <= x < kp.len() && kp[x] == props[w];
        assert(out[ce.len() + x] == props[w]);
        assert(has_trad(out, m.trad));
        lemma_first_simp_uniform(out, m.trad, d);
        lemma_table_first(out);
        if d != m.trad {
            lemma_table_has_first(out, m.trad, d);
        }
    }
}

/// An explicit mapping from a character to itself keeps every analogy entry
/// for that character out of the derived list, and no entry of the table maps
/// a character to itself.
pub proof fn law_identity_pins_out_analogies(
    explicit: Seq<Mapping>,
    premises: Seq<Mapping>,
    rules: Seq<Rule>,
    a: char,
)
    requires
        explicit.contains(Mapping { trad: a, simp: a }),
    ensures
        ({
            let out = derivation(explicit, premises, rules);
            let head = chained_explicit(explicit, rules, premises).len();
            &&& forall|i: int| head <= i < out.len() ==> #[trigger] out[i].trad != a
            &&& forall|i: int|
                0 <= i < table(out).len() ==> #[trigger] table(out)[i].trad != table(out)[i].simp
        }),
{
    let props = proposals(rules, premises);
    let out = derivation(explicit, premises, rules);
    let ce = chained_explicit(explicit, rules, premises);
    let kp = kept_proposals(props, explicit, rules, premises);
    let e = choose|e: int| 0 <= e < explicit.len() && explicit[e] == Mapping { trad: a, simp: a };
    assert(explicit[e].trad == a);
    assert(pinned(explicit, a));
    lemma_kept_proposals(props, explicit, rules, premises);
    assert forall|i: int| ce.len() <= i < out.len() implies #[trigger] out[i].trad != a by {
        assert(out[i] == kp[i - ce.len()]);
        assert(kept(explicit, rules, premises, kp[i - ce.len()]));
    }
    lemma_table_first(out);
}

/// An explicit mapping A to B, the first for A, whose target B the analogies
/// simplify to C, reaches the table as A to C, and no other entry for A does.
pub proof fn law_chaining(explicit: Seq<Mapping>, premises: Seq<Mapping>, rules: Seq<Rule>, i: int)
    requires
        0 <= i < explicit.len(),
        first_for(explicit, i),
        derived_simp(rules, premises, explicit[i].simp) is Some,
        derived_simp(rules, premises, explicit[i].simp)->0 != explicit[i].trad,
    ensures
        ({
            let a = explicit[i].trad;
            let c = derived_simp(rules, premises, explicit[i].simp)->0;
            let tab = table(derivation(explicit, premises, rules));
            &&& tab.contains(Mapping { trad: a, simp: c })
            &&& forall|x: int|
                0 <= x < tab.len() && #[trigger] tab[x].trad == a ==> tab[x] == Mapping {
                    trad: a,
                    simp: c,
                }
        }),
{
    let a = explicit[i].trad;
    let c = derived_simp(rules, premises, explicit[i].simp)->0;
    let out = derivation(explicit, premises, rules);
    lemma_first_of_explicit(explicit, premises, rules, i);
    lemma_table_first(out);
    lemma_table_has_first(out, a, c);
}

/// The entry at `i` is the first of `s` for its traditional character.
pub open spec fn first_for(s: Seq<Mapping>, i: int) -> bool {
    0 <= i < s.len() && forall|j: int| 0 <= j < i ==> #[trigger] s[j].trad != s[i].trad
}

/// A character with a mapping in `s` has a first one.
proof fn lemma_first_index(s: Seq<Mapping>, c: char)
    requires
        has_trad(s, c),
    ensures
        exists|i: int| #[trigger] first_for(s, i) && s[i].trad == c,
    decreases s.len(),
{
    let p = s.drop_last();
    if has_trad(p, c) {
        lemma_first_index(p, c);
        let i = choose|i: int| #[trigger] first_for(p, i) && p[i].trad == c;
        assert forall|j: int| 0 <= j < i implies #[trigger] s[j].trad != s[i].trad by {
            assert(s[j] == p[j]);
        }
        assert(first_for(s, i));
    } else {
        let i = choose|i: int| 0 <= i < s.len() && #[trigger] s[i].trad == c;
        if i < p.len() {
            assert(p[i] == s[i]);
        }
        let l = s.len() - 1;
        assert forall|j: int| 0 <= j < l implies #[trigger] s[j].trad != s[l].trad by {
            assert(s[j] == p[j]);
            if s[j].trad == c {
                assert(p[j].trad == c);
            }
        }
        assert(first_for(s, l));
    }
}

/// The first derived entry for a character with an explicit mapping is its
/// first explicit mapping, chained.
proof fn lemma_first_of_explicit(explicit: Seq<Mapping>, premises: Seq<Mapping>, rules: Seq<Rule>, i: int)
    requires
        first_for(explicit, i),
    ensures
        first_simp(derivation(explicit, premises, rules), explicit[i].trad) == Some(
            chained(rules, premises, explicit[i]).simp,
        ),
        chained(rules, premises, explicit[i]).trad == explicit[i].trad,
{
    let a = explicit[i].trad;
    let out = derivation(explicit, premises, rules);
    let ce = chained_explicit(explicit, rules, premises);
    assert(out[i] == chained(rules, premises, explicit[i]));
    assert(out.take(i + 1).drop_last() == out.take(i));
    assert(!has_trad(out.take(i), a)) by {
        if has_trad(out.take(i), a) {
            let j = choose|j: int| 0 <= j < i && #[trigger] out.take(i)[j].trad == a;
            assert(out[j] == ce[j]);
            assert(explicit[j].trad == a);
        }
    }
    lemma_first_simp_none(out.take(i), a);
    assert(first_simp(out.take(i + 1), a) == Some(chained(rules, premises, explicit[i]).simp));
    lemma_first_simp_prefix(out, i + 1, a);
}

proof fn lemma_proposals_concat(a: Seq<Rule>, b: Seq<Rule>, premises: Seq<Mapping>)
    ensures
        proposals(a + b, premises) == proposals(a, premises) + proposals(b, premises),
    decreases b.len(),
{
    if b.len() == 0 {
        assert(a + b == a);
        assert(proposals(a, premises) + proposals(b, premises) == proposals(a, premises));
    } else {
        assert((a + b).drop_last() == a + b.drop_last());
        lemma_proposals_concat(a, b.drop_last(), premises);
        assert(proposals(a + b, premises) =~= proposals(a, premises) + proposals(b, premises));
    }
}

proof fn lemma_votes_concat(a: Seq<Rule>, b: Seq<Rule>, premises: Seq<Mapping>, m: Mapping)
    ensures
        votes(a + b, premises, m) == votes(a, premises, m) + votes(b, premises, m),
    decreases b.len(),
{
    if b.len() == 0 {
        assert(a + b == a);
    } else {
        assert((a + b).drop_last() == a + b.drop_last());
        lemma_votes_concat(a, b.drop_last(), premises, m);
    }
}

proof fn lemma_occurrences_absent(s: Seq<Mapping>, m: Mapping)
    requires
        !s.contains(m),
    ensures
        occurrences(s, m) == 0,
    decreases s.len(),
{
    if s.len() > 0 {
        assert(!s.drop_last().contains(m)) by {
            if s.drop_last().contains(m) {
                let i = choose|i: int| 0 <= i < s.drop_last().len() && s.drop_last()[i] == m;
                assert(s[i] == m);
            }
        }
        lemma_occurrences_absent(s.drop_last(), m);
        assert(s[s.len() - 1] != m);
    }
}

proof fn lemma_kept_proposals_same(
    s: Seq<Mapping>,
    explicit: Seq<Mapping>,
    r1: Seq<Rule>,
    r2: Seq<Rule>,
    premises: Seq<Mapping>,
)
    requires
        forall|c: char| derived_simp(r1, premises, c) == derived_simp(r2, premises, c),
    ensures
        kept_proposals(s, explicit, r1, premises) == kept_proposals(s, explicit, r2, premises),
    decreases s.len(),
{
    if s.len() > 0 {
        lemma_kept_proposals_same(s.drop_last(), explicit, r1, r2, premises);
        assert(derived_simp(r1, premises, s.last().trad) == derived_simp(r2, premises, s.last().trad));
    }
}

/// A rejected rule none of whose outputs any accepted rule proposes changes
/// nothing in the derived list, wherever it stands among the rules: a rejected
/// rule acts only through the score it takes from candidates proposed elsewhere.
pub proof fn law_rejected_rule_is_inert(
    explicit: Seq<Mapping>,
    premises: Seq<Mapping>,
    a: Seq<Rule>,
    x: Rule,
    b: Seq<Rule>,
)
    requires
        !accepted(premises, x),
        forall|t: int|
            0 <= t < x.output@.len() ==> !(#[trigger] proposals(a + b, premises).contains(x.output@[t])),
    ensures
        derivation(explicit, premises, a + seq![x] + b) == derivation(explicit, premises, a + b),
{
    let r1 = a + seq![x] + b;
    let r2 = a + b;
    let ax = a + seq![x];
    assert(ax.drop_last() == a);
    lemma_proposals_concat(ax, b, premises);
    lemma_proposals_concat(a, b, premises);
    assert(proposals(ax, premises) =~= proposals(a, premises));
    let props = proposals(r2, premises);
    assert(proposals(r1, premises) == props);
    assert forall|m: Mapping| props.contains(m) implies votes(r1, premises, m) == votes(r2, premises, m) by {
        lemma_votes_concat(ax, b, premises, m);
        lemma_votes_concat(a, b, premises, m);
        assert(!x.output@.contains(m)) by {
            if x.output@.contains(m) {
                let t = choose|t: int| 0 <= t < x.output@.len() && x.output@[t] == m;
                assert(proposals(a + b, premises).contains(x.output@[t]));
            }
        }
        lemma_occurrences_absent(x.output@, m);
    }
    assert forall|i: int| #[trigger] wins(r1, premises, i) == wins(r2, premises, i) by {
        if 0 <= i < props.len() {
            assert(props.contains(props[i]));
            assert forall|j: int| 0 <= j < props.len() implies votes(r1, premises, #[trigger] props[j])
                == votes(r2, premises, props[j]) by {
                assert(props.contains(props[j]));
            }
        }
    }
    assert forall|c: char| derived_simp(r1, premises, c) == derived_simp(r2, premises, c) by {
        if exists|i: int| #[trigger] wins(r2, premises, i) && props[i].trad == c {
            let i2 = choose|i: int| #[trigger] wins(r2, premises, i) && props[i].trad == c;
            assert(wins(r1, premises, i2));
            let i1 = choose|i: int| #[trigger] wins(r1, premises, i) && proposals(r1, premises)[i].trad == c;
            assert(wins(r2, premises, i1));
            lemma_winner_unique(r2, premises, i1, i2);
        } else {
            if exists|i: int| #[trigger] wins(r1, premises, i) && proposals(r1, premises)[i].trad == c {
                let i1 = choose|i: int| #[trigger] wins(r1, premises, i) && proposals(r1, premises)[i].trad == c;
                assert(wins(r2, premises, i1));
            }
        }
    }
    assert(chained_explicit(explicit, r1, premises) =~= chained_explicit(explicit, r2, premises));
    lemma_kept_proposals_same(props, explicit, r1, r2, premises);
}

/// Over the reviews of the output sections (`primary`) and of the analogy
/// sections (`secondary`): an output of an accepted rule, for a character
/// without an explicit mapping, reaches the table exactly as the winning
/// target of that character (and not at all when that target is the
/// character itself); for a character with an explicit mapping, every table
/// entry is its first explicit mapping, chained.
pub proof fn law_table_takes_the_winner(
    primary: Seq<Review>,
    secondary: Seq<Review>,
    rules: Seq<Rule>,
    k: int,
    t: int,
)
    requires
        0 <= k < rules.len(),
        accepted(premise_list(primary, secondary), rules[k]),
        0 <= t < rules[k].output@.len(),
    ensures
        ({
            let explicit = explicit_list(primary, secondary);
            let premises = premise_list(primary, secondary);
            let m = rules[k].output@[t];
            let tab = table(derived_list(primary, secondary, rules));
            let d = derived_simp(rules, premises, m.trad);
            &&& d is Some
            &&& !pinned(explicit, m.trad) ==> forall|x: int|
                0 <= x < tab.len() && #[trigger] tab[x].trad == m.trad ==> tab[x].simp == d->0
            &&& !pinned(explicit, m.trad) && d->0 != m.trad ==> tab.contains(
                Mapping { trad: m.trad, simp: d->0 },
            )
            &&& !pinned(explicit, m.trad) && d->0 == m.trad ==> forall|x: int|
                0 <= x < tab.len() ==> #[trigger] tab[x].trad != m.trad
            &&& pinned(explicit, m.trad) ==> forall|x: int|
                0 <= x < tab.len() && #[trigger] tab[x].trad == m.trad ==> exists|i: int|
                    #[trigger] first_for(explicit, i) && explicit[i].trad == m.trad && tab[x]
                        == chained(rules, premises, explicit[i])
        }),
{
    law_accepted_outputs_take_the_winner(
        explicit_list(primary, secondary),
        premise_list(primary, secondary),
        rules,
        k,
        t,
    );
}

/// Over the reviews: the first explicit mapping A to B for A, where the
/// analogies simplify B to C other than A, reaches the table as A to C, and
/// no other entry for A does.
pub proof fn law_table_chaining(primary: Seq<Review>, secondary: Seq<Review>, rules: Seq<Rule>, i: int)
    requires
        first_for(explicit_list(primary, secondary), i),
        derived_simp(rules, premise_list(primary, secondary), explicit_list(primary, secondary)[i].simp) is Some,
        derived_simp(rules, premise_list(primary, secondary), explicit_list(primary, secondary)[i].simp)->0
            != explicit_list(primary, secondary)[i].trad,
    ensures
        ({
            let e = explicit_list(primary, secondary)[i];
            let c = derived_simp(rules, premise_list(primary, secondary), e.simp)->0;
            let tab = table(derived_list(primary, secondary, rules));
            &&& tab.contains(Mapping { trad: e.trad, simp: c })
            &&& forall|x: int|
                0 <= x < tab.len() && #[trigger] tab[x].trad == e.trad ==> tab[x] == Mapping {
                    trad: e.trad,
                    simp: c,
                }
        }),
{
    law_chaining(explicit_list(primary, secondary), premise_list(primary, secondary), rules, i);
}

} // verus!
