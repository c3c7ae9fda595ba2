use vstd::prelude::*;
use crate::model::{Mapping, Problem, Review, Rule};
use crate::text::{chars_of, head, is_white_space, string_of, white_space};

verus! {

/// Why a row of the input cannot be read.
#[derive(Clone, Copy, Debug, PartialEq, Eq, Structural)]
pub enum ParseError {
    /// The row has no traditional character.
    MissingTrad,
    /// The row has a traditional character but no simplified one.
    MissingSimp { trad: char },
    /// An analogy rule lists a traditional character with no simplified character after it.
    UnpairedOutput { premise: Mapping, trad: char },
}

/// The text of cell `i` of a row; a cell past the end of the row is empty.
pub open spec fn cell(row: Seq<String>, i: int) -> Seq<char> {
    if 0 <= i < row.len() {
        row[i]@
    } else {
        seq![]
    }
}

/// The markers that end a precise text: a doubt, or a wish to change anyway.
pub open spec fn marker(c: char) -> bool {
    c == '？' || c == '！'
}

/// The problem that a precise text records, by its last character.
pub open spec fn problem_of(p: Seq<char>) -> Problem {
    if p.len() == 0 {
        Problem::Sound
    } else if p.last() == '？' {
        Problem::Minor
    } else if p.last() == '！' {
        Problem::Neutral
    } else {
        Problem::Major
    }
}

/// The precise text without its trailing marker.
pub open spec fn precise_of(p: Seq<char>) -> Seq<char> {
    if p.len() > 0 && marker(p.last()) {
        p.drop_last()
    } else {
        p
    }
}

/// The fix a review records: none for no problem or a mere doubt; otherwise the
/// compatible character if given, else the first character of the precise text
/// unless that character is itself a marker.
pub open spec fn fix_of(p: Seq<char>, compatible: Option<char>) -> Option<char> {
    if p.len() == 0 || p.last() == '？' {
        None
    } else if compatible is Some {
        compatible
    } else if precise_of(p).len() > 0 && !marker(precise_of(p)[0]) {
        Some(precise_of(p)[0])
    } else {
        None
    }
}

/// A non-empty comment ends with a full stop, a question mark or an exclamation mark.
pub open spec fn comment_of(s: Seq<char>) -> Seq<char> {
    if s.len() > 0 && !(s.last() == '。' || s.last() == '？' || s.last() == '！') {
        s.push('。')
    } else {
        s
    }
}

/// The words of `s`: its maximal runs of characters that are not white space.
pub open spec fn words(s: Seq<char>) -> Seq<Seq<char>>
    decreases s.len(),
{
    if s.len() == 0 {
        seq![]
    } else {
        let w = words(s.drop_last());
        let c = s.last();
        if white_space(c) {
            w
        } else if s.len() > 1 && !white_space(s[s.len() - 2]) {
            w.drop_last().push(w.last().push(c))
        } else {
            w.push(seq![c])
        }
    }
}

/// The texts of a sequence of strings.
pub open spec fn texts(v: Seq<String>) -> Seq<Seq<char>> {
    v.map_values(|t: String| t@)
}

/// `v` is the review that a row with both leading characters reads as.
pub open spec fn reads_as(row: Seq<String>, v: Review) -> bool {
    &&& v.mapping == Mapping { trad: head(cell(row, 0))->0, simp: head(cell(row, 1))->0 }
    &&& v.problem == problem_of(cell(row, 2))
    &&& v.precise@ == precise_of(cell(row, 2))
    &&& v.fix == fix_of(cell(row, 2), head(cell(row, 3)))
    &&& texts(v.tags@) == words(cell(row, 4))
    &&& v.comment@ == comment_of(cell(row, 5))
}

/// The characters of `s` that are not white space, in order.
pub open spec fn non_white(s: Seq<char>) -> Seq<char>
    decreases s.len(),
{
    if s.len() == 0 {
        seq![]
    } else {
        non_white(s.drop_last()) + if white_space(s.last()) {
            seq![]
        } else {
            seq![s.last()]
        }
    }
}

/// Consecutive pairs of characters read as mappings: the first of each pair
/// is the traditional character.
pub open spec fn pairs(s: Seq<char>) -> Seq<Mapping>
    decreases s.len(),
{
    if s.len() < 2 {
        seq![]
    } else {
        pairs(s.take(s.len() - 2)).push(Mapping { trad: s[s.len() - 2], simp: s[s.len() - 1] })
    }
}

/// The characters of cell `i`.
fn cell_chars(row: &Vec<String>, i: usize) -> (r: Vec<char>)
    ensures
        r@ == cell(row@, i as int),
{
    if i < row.len() {
        chars_of(&row[i])
    } else {
        Vec::new()
    }
}

/// The words of `s`, as strings.
fn split_words(s: &Vec<char>) -> (r: Vec<String>)
    ensures
        texts(r@) == words(s@),
{
    let mut done: Vec<String> = Vec::new();
    let mut cur: Vec<char> = Vec::new();
    let mut i: usize = 0;
    while i < s.len()
        invariant
            i <= s.len(),
            cur@.len() == 0 ==> texts(done@) == words(s@.take(i as int)),
            cur@.len() > 0 ==> texts(done@).push(cur@) == words(s@.take(i as int)),
            cur@.len() > 0 <==> (i > 0 && !white_space(s@[i - 1])),
        decreases s.len() - i,
    {
        let c = s[i];
        let ghost t = s@.take(i as int + 1);
        proof {
            assert(t.drop_last() == s@.take(i as int));
            assert(t.last() == c);
            if i > 0 {
                assert(t[t.len() - 2] == s@[i - 1]);
            }
        }
        if is_white_space(c) {
            if cur.len() > 0 {
                let w = string_of(&cur);
                let ghost d0 = done@;
                done.push(w);
                proof {
                    assert(texts(done@) =~= texts(d0).push(w@));
                }
                cur = Vec::new();
            }
        } else {
            let ghost c0 = cur@;
            cur.push(c);
            proof {
                if c0.len() > 0 {
                    assert(texts(done@).push(cur@) =~= words(s@.take(i as int)).drop_last().push(
                        words(s@.take(i as int)).last().push(c),
                    ));
                } else {
                    assert(cur@ =~= seq![c]);
                    assert(texts(done@).push(cur@) =~= words(s@.take(i as int)).push(seq![c]));
                }
            }
        }
        i += 1;
    }
    proof {
        assert(s@.take(s@.len() as int) == s@);
    }
    if cur.len() > 0 {
        let w = string_of(&cur);
        let ghost d0 = done@;
        done.push(w);
        proof {
            assert(texts(done@) =~= texts(d0).push(w@));
        }
    }
    done
}

/// Whether `c` ends a comment: a full stop, a question mark or an exclamation mark.
fn ends_sentence(c: char) -> (r: bool)
    ensures
        r == (c == '。' || c == '？' || c == '！'),
{
    c == '。' || c == '？' || c == '！'
}

/// Reads one row of reviews: traditional character, default simplification,
/// precise text, compatible character, tags and comment.
pub fn parse_review(row: &Vec<String>) -> (r: Result<Review, ParseError>)
    ensures
        head(cell(row@, 0)) is None ==> r == Err::<Review, ParseError>(ParseError::MissingTrad),
        head(cell(row@, 0)) is Some && head(cell(row@, 1)) is None ==> r == Err::<Review, ParseError>(
            ParseError::MissingSimp { trad: head(cell(row@, 0))->0 },
        ),
        head(cell(row@, 0)) is Some && head(cell(row@, 1)) is Some ==> r is Ok && reads_as(
            row@,
            r->Ok_0,
        ),
{
    let c0 = cell_chars(row, 0);
    if c0.len() == 0 {
        return Err(ParseError::MissingTrad);
    }
    let trad = c0[0];
    let c1 = cell_chars(row, 1);
    if c1.len() == 0 {
        return Err(ParseError::MissingSimp { trad });
    }
    let mapping = Mapping { trad, simp: c1[0] };
    let mut precise = cell_chars(row, 2);
    let c3 = cell_chars(row, 3);
    let compatible = if c3.len() > 0 {
        Some(c3[0])
    } else {
        None
    };
    let ghost p = precise@;
    let problem = if precise.len() == 0 {
        Problem::Sound
    } else if precise[precise.len() - 1] == '？' {
        Problem::Minor
    } else if precise[precise.len() - 1] == '！' {
        Problem::Neutral
    } else {
        Problem::Major
    };
    if precise.len() > 0 && (precise[precise.len() - 1] == '？' || precise[precise.len() - 1] == '！') {
        precise.pop();
    }
    let fix = match problem {
        Problem::Sound | Problem::Minor => None,
        _ => match compatible {
            Some(c) => Some(c),
            None => if precise.len() > 0 && precise[0] != '？' && precise[0] != '！' {
                Some(precise[0])
            } else {
                None
            },
        },
    };
    let tags = split_words(&cell_chars(row, 4));
    let mut comment = cell_chars(row, 5);
    if comment.len() > 0 && !ends_sentence(comment[comment.len() - 1]) {
        comment.push('。');
    }
    let review = Review {
        mapping,
        fix,
        precise: string_of(&precise),
        problem,
        tags,
        comment: string_of(&comment),
    };
    proof {
        assert(precise@ == precise_of(p));
    }
    Ok(review)
}

/// Reads one row of analogy rules: the premise's traditional and simplified
/// characters, then two cells that together hold the outputs as alternating
/// traditional and simplified characters, white space ignored. A row without
/// outputs gives no rule.
pub fn parse_rule(row: &Vec<String>) -> (r: Result<Option<Rule>, ParseError>)
    ensures
        ({
            let t = head(cell(row@, 0));
            let s = head(cell(row@, 1));
            let body = non_white(cell(row@, 2) + cell(row@, 3));
            let premise = Mapping { trad: t->0, simp: s->0 };
            &&& t is None ==> r == Err::<Option<Rule>, ParseError>(ParseError::MissingTrad)
            &&& t is Some && s is None ==> r == Err::<Option<Rule>, ParseError>(
                ParseError::MissingSimp { trad: t->0 },
            )
            &&& t is Some && s is Some && body.len() % 2 == 1 ==> r == Err::<Option<Rule>, ParseError>(
                ParseError::UnpairedOutput { premise, trad: body.last() },
            )
            &&& t is Some && s is Some && body.len() == 0 ==> r == Ok::<Option<Rule>, ParseError>(None)
            &&& t is Some && s is Some && body.len() > 0 && body.len() % 2 == 0 ==> r is Ok && r->Ok_0 is Some
                && r->Ok_0->0.premise == premise && r->Ok_0->0.output@ == pairs(body)
        }),
{
    let c0 = cell_chars(row, 0);
    if c0.len() == 0 {
        return Err(ParseError::MissingTrad);
    }
    let c1 = cell_chars(row, 1);
    if c1.len() == 0 {
        return Err(ParseError::MissingSimp { trad: c0[0] });
    }
    let premise = Mapping { trad: c0[0], simp: c1[0] };
    let mut joined = cell_chars(row, 2);
    let c3 = cell_chars(row, 3);
    let ghost j0 = joined@;
    let mut k: usize = 0;
    while k < c3.len()
        invariant
            k <= c3.len(),
            joined@ == j0 + c3@.take(k as int),
        decreases c3.len() - k,
    {
        joined.push(c3[k]);
        proof {
            assert(c3@.take(k as int + 1) == c3@.take(k as int).push(c3@[k as int]));
        }
        k += 1;
    }
    proof {
        assert(c3@.take(c3@.len() as int) == c3@);
    }
    let mut body: Vec<char> = Vec::new();
    let mut i: usize = 0;
    while i < joined.len()
        invariant
            i <= joined.len(),
            body@ == non_white(joined@.take(i as int)),
        decreases joined.len() - i,
    {
        let c = joined[i];
        if !is_white_space(c) {
            body.push(c);
        }
        proof {
            assert(joined@.take(i as int + 1).drop_last() == joined@.take(i as int));
            assert(body@ =~= non_white(joined@.take(i as int + 1)));
        }
        i += 1;
    }
    proof {
        assert(joined@.take(joined@.len() as int) == joined@);
    }
    if body.len() % 2 == 1 {
        return Err(ParseError::UnpairedOutput { premise, trad: body[body.len() - 1] });
    }
    if body.len() == 0 {
        return Ok(None);
    }
    let mut output: Vec<Mapping> = Vec::new();
    let mut j: usize = 0;
    while j < body.len()
        invariant
            j <= body.len(),
            j % 2 == 0,
            body.len() % 2 == 0,
            output@ == pairs(body@.take(j as int)),
        decreases body.len() - j,
    {
        output.push(Mapping { trad: body[j], simp: body[j + 1] });
        proof {
            let t = body@.take(j as int + 2);
            assert(t.take(t.len() - 2) == body@.take(j as int));
        }
        j += 2;
    }
    proof {
        assert(body@.take(body@.len() as int) == body@);
    }
    Ok(Some(Rule { premise, output }))
}

} // verus!
