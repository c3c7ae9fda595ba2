use vstd::prelude::*;
use crate::model::Mapping;
use crate::text::push_char;

verus! {

/// A later mapping for a character that already has one, with another simplified character.
#[derive(Clone, Copy, Debug, PartialEq, Eq, Structural)]
pub struct Conflict {
    pub trad: char,
    /// The simplified character of the first mapping, which is kept.
    pub kept: char,
    /// The simplified character of the later mapping, which is dropped.
    pub dropped: char,
}

/// The simplified character of the first mapping of `s` for `c`.
pub open spec fn first_simp(s: Seq<Mapping>, c: char) -> Option<char>
    decreases s.len(),
{
    if s.len() == 0 {
        None
    } else {
        match first_simp(s.drop_last(), c) {
            Some(x) => Some(x),
            None => if s.last().trad == c {
                Some(s.last().simp)
            } else {
                None
            },
        }
    }
}

/// The emitted table: the first mapping of each character, in order, except
/// those that map a character to itself.
pub open spec fn table(s: Seq<Mapping>) -> Seq<Mapping>
    decreases s.len(),
{
    if s.len() == 0 {
        seq![]
    } else {
        let m = s.last();
        table(s.drop_last()) + if first_simp(s.drop_last(), m.trad) is None && m.trad != m.simp {
            seq![m]
        } else {
            seq![]
        }
    }
}

/// The conflicts met while emitting `s`: each later mapping whose simplified
/// character differs from that of the first mapping of its character.
pub open spec fn conflicts(s: Seq<Mapping>) -> Seq<Conflict>
    decreases s.len(),
{
    if s.len() == 0 {
        seq![]
    } else {
        let m = s.last();
        let first = first_simp(s.drop_last(), m.trad);
        if first is Some && first->0 != m.simp {
            conflicts(s.drop_last()).push(Conflict { trad: m.trad, kept: first->0, dropped: m.simp })
        } else {
            conflicts(s.drop_last())
        }
    }
}

/// The lines of the table file: the traditional character, a tab, the
/// simplified character and a line feed for each mapping.
pub open spec fn text_of(s: Seq<Mapping>) -> Seq<char>
    decreases s.len(),
{
    if s.len() == 0 {
        seq![]
    } else {
        text_of(s.drop_last()) + seq![s.last().trad, '\t', s.last().simp, '\n']
    }
}

/// Each entry of the table is the first mapping of its character, and no two
/// entries share a character.
pub proof fn lemma_table_first(s: Seq<Mapping>)
    ensures
        forall|i: int|
            0 <= i < table(s).len() ==> first_simp(s, #[trigger] table(s)[i].trad) == Some(
                table(s)[i].simp,
            ),
        forall|i: int, j: int|
            0 <= i < j < table(s).len() ==> #[trigger] table(s)[i].trad != #[trigger] table(s)[j].trad,
        forall|i: int| 0 <= i < table(s).len() ==> #[trigger] table(s)[i].trad != table(s)[i].simp,
    decreases s.len(),
{
    if s.len() > 0 {
        let p = s.drop_last();
        lemma_table_first(p);
        let t = table(s);
        let tp = table(p);
        assert forall|i: int| 0 <= i < t.len() implies first_simp(s, #[trigger] t[i].trad) == Some(t[i].simp) by {
            if i < tp.len() {
                assert(t[i] == tp[i]);
                assert(first_simp(p, tp[i].trad) == Some(tp[i].simp));
            }
        }
        assert forall|i: int, j: int| 0 <= i < j < t.len() implies #[trigger] t[i].trad != #[trigger] t[j].trad by {
            if j >= tp.len() {
                assert(t[i] == tp[i]);
                assert(first_simp(p, tp[i].trad) == Some(tp[i].simp));
            } else {
                assert(t[i] == tp[i] && t[j] == tp[j]);
            }
        }
        assert forall|i: int| 0 <= i < t.len() implies #[trigger] t[i].trad != t[i].simp by {
            if i < tp.len() {
                assert(t[i] == tp[i]);
            }
        }
    }
}

/// Emits the derived output list: returns the table and the conflicts found.
///
/// The first mapping of each character is kept; a later one with the same
/// simplified character is dropped silently, and one with another is dropped
/// and reported. Mappings from a character to itself are then left out.
pub fn emit(output: &Vec<Mapping>) -> (r: (Vec<Mapping>, Vec<Conflict>))
    ensures
        r.0@ == table(output@),
        r.1@ == conflicts(output@),
        forall|i: int, j: int| 0 <= i < j < r.0@.len() ==> #[trigger] r.0@[i].trad != #[trigger] r.0@[j].trad,
        forall|i: int| 0 <= i < r.0@.len() ==> #[trigger] r.0@[i].trad != r.0@[i].simp,
{
    let mut seen: Vec<Mapping> = Vec::new();
    let mut kept: Vec<Mapping> = Vec::new();
    let mut found: Vec<Conflict> = Vec::new();
    let mut i: usize = 0;
    while i < output.len()
        invariant
            i <= output.len(),
            forall|c: char| first_simp(output@.take(i as int), c) == first_simp(seen@, c),
            kept@ == table(output@.take(i as int)),
            found@ == conflicts(output@.take(i as int)),
        decreases output.len() - i,
    {
        let m = output[i];
        let ghost pre = output@.take(i as int);
        let ghost s0 = seen@;
        proof {
            assert(output@.take(i as int + 1).drop_last() == pre);
            assert(output@.take(i as int + 1).last() == m);
            assert(first_simp(pre, m.trad) == first_simp(s0, m.trad));
        }
        match first_simp_of(&seen, m.trad) {
            Some(k) => {
                if k != m.simp {
                    found.push(Conflict { trad: m.trad, kept: k, dropped: m.simp });
                }
            },
            None => {
                seen.push(m);
                if m.trad != m.simp {
                    kept.push(m);
                }
                proof {
                    assert(seen@.drop_last() == s0);
                }
            },
        }
        proof {
            assert forall|c: char| first_simp(output@.take(i as int + 1), c) == first_simp(seen@, c) by {
                assert(first_simp(pre, c) == first_simp(s0, c));
            }
            let t = output@.take(i as int + 1);
            assert(found@ =~= conflicts(t));
            assert(kept@ =~= table(output@.take(i as int + 1)));
        }
        i += 1;
    }
    proof {
        assert(output@.take(output@.len() as int) == output@);
        lemma_table_first(output@);
    }
    (kept, found)
}

/// Once `s` has a mapping for `c` in its first `k` entries, the rest change nothing.
pub proof fn lemma_first_simp_prefix(s: Seq<Mapping>, k: int, c: char)
    requires
        0 <= k <= s.len(),
        first_simp(s.take(k), c) is Some,
    ensures
        first_simp(s, c) == first_simp(s.take(k), c),
    decreases s.len(),
{
    if k < s.len() {
        assert(s.drop_last().take(k) == s.take(k));
        lemma_first_simp_prefix(s.drop_last(), k, c);
    } else {
        assert(s.take(k) == s);
    }
}

/// The simplified character of the first mapping of `s` for `c`.
fn first_simp_of(s: &Vec<Mapping>, c: char) -> (r: Option<char>)
    ensures
        r == first_simp(s@, c),
{
    let mut j: usize = 0;
    while j < s.len()
        invariant
            j <= s.len(),
            first_simp(s@.take(j as int), c) is None,
        decreases s.len() - j,
    {
        proof {
            assert(s@.take(j as int + 1).drop_last() == s@.take(j as int));
        }
        if s[j].trad == c {
            proof {
                lemma_first_simp_prefix(s@, j as int + 1, c);
            }
            return Some(s[j].simp);
        }
        j += 1;
    }
    proof {
        assert(s@.take(s@.len() as int) == s@);
    }
    None
}

/// The table file's text: one line `trad<TAB>simp` for each mapping.
pub fn to_text(table: &Vec<Mapping>) -> (r: String)
    ensures
        r@ == text_of(table@),
{
    let mut text = String::new();
    let mut i: usize = 0;
    while i < table.len()
        invariant
            i <= table.len(),
            text@ == text_of(table@.take(i as int)),
        decreases table.len() - i,
    {
        let m = table[i];
        push_char(&mut text, m.trad);
        push_char(&mut text, '\t');
        push_char(&mut text, m.simp);
        push_char(&mut text, '\n');
        proof {
            assert(table@.take(i as int + 1).drop_last() == table@.take(i as int));
            assert(text@ == text_of(table@.take(i as int + 1)));
        }
        i += 1;
    }
    proof {
        assert(table@.take(table@.len() as int) == table@);
    }
    text
}

} // verus!
