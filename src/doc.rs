use vstd::prelude::*;
use crate::model::Review;
use crate::parse::{cell, comment_of, parse_review, precise_of, reads_as, texts, ParseError};
use crate::text::{head, push_char, string_of, white_space, chars_of, is_white_space};

verus! {

/// How many times a tag occurs over all reviews.
pub struct TagCount {
    pub tag: String,
    pub count: usize,
}

/// A row that parses is worth showing when its precise text or its comment is not empty.
pub open spec fn relevant_row(row: Seq<String>) -> bool {
    precise_of(cell(row, 2)).len() > 0 || cell(row, 5).len() > 0
}

/// A row parses when it has both leading characters.
pub open spec fn row_parses(row: Seq<String>) -> bool {
    head(cell(row, 0)) is Some && head(cell(row, 1)) is Some
}

/// The error of a row that does not parse.
pub open spec fn row_error(row: Seq<String>) -> ParseError {
    if head(cell(row, 0)) is None {
        ParseError::MissingTrad
    } else {
        ParseError::MissingSimp { trad: head(cell(row, 0))->0 }
    }
}

/// The rows worth showing, in order.
pub open spec fn relevant_rows(rows: Seq<Seq<String>>) -> Seq<Seq<String>>
    decreases rows.len(),
{
    if rows.len() == 0 {
        seq![]
    } else {
        relevant_rows(rows.drop_last()) + if relevant_row(rows.last()) {
            seq![rows.last()]
        } else {
            seq![]
        }
    }
}

/// The rows of a vector of rows, as sequences.
pub open spec fn rows_of(rows: Seq<Vec<String>>) -> Seq<Seq<String>> {
    rows.map_values(|r: Vec<String>| r@)
}

/// Reads rows of reviews and keeps those worth showing. The first row that
/// lacks a leading character gives its error.
pub fn collect_reviews(rows: &Vec<Vec<String>>) -> (r: Result<Vec<Review>, ParseError>)
    ensures
        ({
            let rs = rows_of(rows@);
            match r {
                Ok(v) => (forall|i: int| 0 <= i < rs.len() ==> row_parses(#[trigger] rs[i]))
                    && v@.len() == relevant_rows(rs).len() && forall|k: int|
                    0 <= k < v@.len() ==> reads_as(relevant_rows(rs)[k], #[trigger] v@[k]),
                Err(e) => exists|i: int|
                    0 <= i < rs.len() && !row_parses(#[trigger] rs[i]) && e == row_error(rs[i])
                        && forall|j: int| 0 <= j < i ==> row_parses(#[trigger] rs[j]),
            }
        }),
{
    let ghost rs = rows_of(rows@);
    let mut v: Vec<Review> = Vec::new();
    let mut i: usize = 0;
    while i < rows.len()
        invariant
            i <= rows.len(),
            rs == rows_of(rows@),
            forall|j: int| 0 <= j < i ==> row_parses(#[trigger] rs[j]),
            v@.len() == relevant_rows(rs.take(i as int)).len(),
            forall|k: int| 0 <= k < v@.len() ==> reads_as(relevant_rows(rs.take(i as int))[k], #[trigger] v@[k]),
        decreases rows.len() - i,
    {
        let row = &rows[i];
        proof {
            assert(rs[i as int] == row@);
            assert(rs.take(i as int + 1).drop_last() == rs.take(i as int));
        }
        match parse_review(row) {
            Err(e) => {
                proof {
                    assert(!row_parses(rs[i as int]) && e == row_error(rs[i as int]));
                }
                return Err(e);
            },
            Ok(review) => {
                let keep = review.is_relevant();
                proof {
                    assert(review.comment@.len() > 0 <==> cell(row@, 5).len() > 0);
                    assert(keep == relevant_row(rs[i as int]));
                }
                let ghost v0 = v@;
                if keep {
                    v.push(review);
                }
                proof {
                    let t = rs.take(i as int + 1);
                    assert(t.last() == rs[i as int]);
                    assert forall|k: int| 0 <= k < v@.len() implies reads_as(relevant_rows(t)[k], #[trigger] v@[k]) by {
                        if k < v0.len() {
                            assert(relevant_rows(t)[k] == relevant_rows(rs.take(i as int))[k]);
                        }
                    }
                }
            },
        }
        i += 1;
    }
    proof {
        assert(rs.take(rs.len() as int) == rs);
    }
    Ok(v)
}

/// All tags of the reviews, in order.
pub open spec fn all_tags(reviews: Seq<Review>) -> Seq<Seq<char>>
    decreases reviews.len(),
{
    if reviews.len() == 0 {
        seq![]
    } else {
        all_tags(reviews.drop_last()) + texts(reviews.last().tags@)
    }
}

/// How many times `t` occurs in `s`.
pub open spec fn tally(s: Seq<Seq<char>>, t: Seq<char>) -> int
    decreases s.len(),
{
    if s.len() == 0 {
        0
    } else {
        tally(s.drop_last(), t) + if s.last() == t { 1int } else { 0int }
    }
}

/// The distinct elements of `s`, in order of first appearance.
pub open spec fn distinct(s: Seq<Seq<char>>) -> Seq<Seq<char>>
    decreases s.len(),
{
    if s.len() == 0 {
        seq![]
    } else if distinct(s.drop_last()).contains(s.last()) {
        distinct(s.drop_last())
    } else {
        distinct(s.drop_last()).push(s.last())
    }
}

/// The tags of a sequence of counts.
pub open spec fn tags_of(counts: Seq<TagCount>) -> Seq<Seq<char>> {
    counts.map_values(|c: TagCount| c.tag@)
}

/// The position of the entry for `t`, if any.
fn find_tag(counts: &Vec<TagCount>, t: &String) -> (r: Option<usize>)
    ensures
        match r {
            Some(k) => k < counts@.len() && counts@[k as int].tag@ == t@,
            None => !tags_of(counts@).contains(t@),
        },
{
    let mut k: usize = 0;
    while k < counts.len()
        invariant
            k <= counts.len(),
            forall|j: int| 0 <= j < k ==> counts@[j].tag@ != t@,
        decreases counts.len() - k,
    {
        if counts[k].tag == *t {
            return Some(k);
        }
        k += 1;
    }
    proof {
        if tags_of(counts@).contains(t@) {
            let j = choose|j: int| 0 <= j < counts@.len() && tags_of(counts@)[j] == t@;
            assert(counts@[j].tag@ == t@);
        }
    }
    None
}

/// Counts the tags over all reviews: one entry per distinct tag, in order of
/// first appearance.
pub fn count_tags(reviews: &Vec<Review>) -> (r: Vec<TagCount>)
    requires
        all_tags(reviews@).len() <= usize::MAX,
    ensures
        tags_of(r@) == distinct(all_tags(reviews@)),
        forall|k: int| 0 <= k < r@.len() ==> #[trigger] r@[k].count == tally(all_tags(reviews@), r@[k].tag@),
{
    let ghost all = all_tags(reviews@);
    let mut counts: Vec<TagCount> = Vec::new();
    let ghost mut seen: Seq<Seq<char>> = seq![];
    let mut i: usize = 0;
    proof {
        lemma_all_tags_prefix(reviews@, 0);
    }
    while i < reviews.len()
        invariant
            i <= reviews.len(),
            all == all_tags(reviews@),
            all.len() <= usize::MAX,
            seen == all_tags(reviews@.take(i as int)),
            seen.len() <= all.len(),
            tags_of(counts@) == distinct(seen),
            forall|k: int| 0 <= k < counts@.len() ==> #[trigger] counts@[k].count == tally(seen, counts@[k].tag@),
            forall|k: int| 0 <= k < counts@.len() ==> #[trigger] counts@[k].count <= seen.len(),
        decreases reviews.len() - i,
    {
        let tags = &reviews[i].tags;
        let ghost base = seen;
        proof {
            assert(reviews@.take(i as int + 1).drop_last() == reviews@.take(i as int));
            lemma_all_tags_prefix(reviews@, i as int + 1);
        }
        let mut j: usize = 0;
        while j < tags.len()
            invariant
                j <= tags.len(),
                seen == base + texts(tags@).take(j as int),
                base + texts(tags@) == all_tags(reviews@.take(i as int + 1)),
                all_tags(reviews@.take(i as int + 1)).len() <= usize::MAX,
                tags_of(counts@) == distinct(seen),
                forall|k: int| 0 <= k < counts@.len() ==> #[trigger] counts@[k].count == tally(seen, counts@[k].tag@),
                forall|k: int| 0 <= k < counts@.len() ==> #[trigger] counts@[k].count <= seen.len(),
            decreases tags.len() - j,
        {
            let t = &tags[j];
            let ghost s0 = seen;
            proof {
                seen = seen.push(t@);
                assert(seen == base + texts(tags@).take(j as int + 1));
                assert(seen.drop_last() == s0);
                assert(seen.len() <= (base + texts(tags@)).len());
            }
            let ghost c0 = counts@;
            match find_tag(&counts, t) {
                Some(k) => {
                    let n = counts[k].count + 1;
                    let tag = counts[k].tag.clone();
                    counts.set(k, TagCount { tag, count: n });
                    proof {
                        assert(tags_of(c0)[k as int] == t@);
                        assert(distinct(s0).contains(t@));
                        assert(tags_of(counts@) =~= tags_of(c0));
                        lemma_distinct_unique(s0);
                        assert forall|x: int| 0 <= x < counts@.len() implies #[trigger] counts@[x].count == tally(seen, counts@[x].tag@) by {
                            if x != k {
                                assert(tags_of(c0)[x] != tags_of(c0)[k as int]);
                            }
                        }
                    }
                },
                None => {
                    let tag = t.clone();
                    counts.push(TagCount { tag, count: 1 });
                    proof {
                        assert(tags_of(counts@) =~= tags_of(c0).push(t@));
                        assert(tally(s0, t@) == 0) by {
                            lemma_tally_absent(s0, t@);
                        }
                        assert forall|x: int| 0 <= x < counts@.len() implies #[trigger] counts@[x].count == tally(seen, counts@[x].tag@) by {
                            if x < c0.len() {
                                assert(tags_of(c0)[x] == c0[x].tag@);
                            }
                        }
                    }
                },
            }
            j += 1;
        }
        proof {
            assert(texts(tags@).take(tags@.len() as int) == texts(tags@));
        }
        i += 1;
    }
    proof {
        assert(reviews@.take(reviews@.len() as int) == reviews@);
    }
    counts
}

proof fn lemma_all_tags_prefix(reviews: Seq<Review>, k: int)
    requires
        0 <= k <= reviews.len(),
    ensures
        all_tags(reviews.take(k)).len() <= all_tags(reviews).len(),
    decreases reviews.len(),
{
    if k < reviews.len() {
        assert(reviews.drop_last().take(k) == reviews.take(k));
        lemma_all_tags_prefix(reviews.drop_last(), k);
    } else {
        assert(reviews.take(k) == reviews);
    }
}

proof fn lemma_distinct_unique(s: Seq<Seq<char>>)
    ensures
        forall|a: int, b: int|
            0 <= a < b < distinct(s).len() ==> #[trigger] distinct(s)[a] != #[trigger] distinct(s)[b],
    decreases s.len(),
{
    if s.len() > 0 {
        lemma_distinct_unique(s.drop_last());
        let d = distinct(s.drop_last());
        if !d.contains(s.last()) {
            assert forall|a: int, b: int| 0 <= a < b < distinct(s).len() implies #[trigger] distinct(s)[a] != #[trigger] distinct(s)[b] by {
                if b == d.len() {
                    assert(distinct(s)[a] == d[a]);
                } else {
                    assert(distinct(s)[a] == d[a] && distinct(s)[b] == d[b]);
                }
            }
        }
    }
}

proof fn lemma_tally_absent(s: Seq<Seq<char>>, t: Seq<char>)
    requires
        !distinct(s).contains(t),
    ensures
        tally(s, t) == 0,
    decreases s.len(),
{
    if s.len() > 0 {
        let d = distinct(s.drop_last());
        if d.contains(s.last()) {
            lemma_tally_absent(s.drop_last(), t);
        } else {
            assert(distinct(s) == d.push(s.last()));
            assert(distinct(s)[d.len() as int] == s.last());
            assert(!d.contains(t)) by {
                if d.contains(t) {
                    let x = choose|x: int| 0 <= x < d.len() && d[x] == t;
                    assert(distinct(s)[x] == t);
                }
            }
            lemma_tally_absent(s.drop_last(), t);
        }
    }
}

/// The first entry of `counts` for `t` is at `k`.
pub open spec fn first_entry(counts: Seq<TagCount>, t: Seq<char>, k: int) -> bool {
    0 <= k < counts.len() && counts[k].tag@ == t && forall|j: int| 0 <= j < k ==> #[trigger] counts[j].tag@ != t
}

/// The count of `t`: that of its first entry, or zero without one.
pub open spec fn count_of(counts: Seq<TagCount>, t: Seq<char>) -> int {
    if exists|k: int| first_entry(counts, t, k) {
        counts[choose|k: int| first_entry(counts, t, k)].count as int
    } else {
        0
    }
}

/// `p` is where `x` goes in `s` to keep the counts descending, after every
/// tag whose count is at least that of `x`.
pub open spec fn insert_at(s: Seq<Seq<char>>, counts: Seq<TagCount>, x: Seq<char>, p: int) -> bool {
    &&& 0 <= p <= s.len()
    &&& forall|q: int| 0 <= q < p ==> count_of(counts, #[trigger] s[q]) >= count_of(counts, x)
    &&& p < s.len() ==> count_of(counts, s[p]) < count_of(counts, x)
}

/// The tags of `s` sorted by descending count; tags of equal count keep their order.
pub open spec fn sorted_by_count(s: Seq<Seq<char>>, counts: Seq<TagCount>) -> Seq<Seq<char>>
    decreases s.len(),
{
    if s.len() == 0 {
        seq![]
    } else {
        let r = sorted_by_count(s.drop_last(), counts);
        r.insert(choose|p: int| insert_at(r, counts, s.last(), p), s.last())
    }
}

/// The count of the tag `t`.
fn lookup_count(counts: &Vec<TagCount>, t: &String) -> (r: usize)
    requires
        tags_of(counts@).contains(t@),
    ensures
        r == count_of(counts@, t@),
{
    let mut k: usize = 0;
    while k < counts.len()
        invariant
            k <= counts.len(),
            forall|j: int| 0 <= j < k ==> #[trigger] counts@[j].tag@ != t@,
        decreases counts.len() - k,
    {
        if counts[k].tag == *t {
            proof {
                assert(first_entry(counts@, t@, k as int));
                let k2 = choose|k2: int| first_entry(counts@, t@, k2);
                if k2 < k {
                    assert(counts@[k2].tag@ != t@);
                } else if k < k2 {
                    assert(counts@[k as int].tag@ != t@);
                }
            }
            return counts[k].count;
        }
        k += 1;
    }
    proof {
        let j = choose|j: int| 0 <= j < counts@.len() && tags_of(counts@)[j] == t@;
        assert(counts@[j].tag@ == t@);
    }
    0
}

/// Sorts tags by descending count, keeping the order of tags of equal count.
/// Every tag must have a count.
pub fn sort_tags(tags: &mut Vec<String>, counts: &Vec<TagCount>)
    requires
        forall|i: int| 0 <= i < old(tags)@.len() ==> tags_of(counts@).contains(#[trigger] old(tags)@[i]@),
    ensures
        texts(final(tags)@) == sorted_by_count(texts(old(tags)@), counts@),
{
    let ghost orig = texts(tags@);
    let mut sorted: Vec<String> = Vec::new();
    let mut keys: Vec<usize> = Vec::new();
    let mut i: usize = 0;
    while i < tags.len()
        invariant
            i <= tags.len(),
            orig == texts(tags@),
            forall|i: int| 0 <= i < tags@.len() ==> tags_of(counts@).contains(#[trigger] tags@[i]@),
            texts(sorted@) == sorted_by_count(orig.take(i as int), counts@),
            keys@.len() == sorted@.len(),
            forall|q: int| 0 <= q < keys@.len() ==> keys@[q] == count_of(counts@, #[trigger] sorted@[q]@),
        decreases tags.len() - i,
    {
        let x = tags[i].clone();
        let kx = lookup_count(counts, &x);
        let mut p: usize = 0;
        while p < sorted.len() && keys[p] >= kx
            invariant
                p <= sorted@.len(),
                keys@.len() == sorted@.len(),
                forall|q: int| 0 <= q < keys@.len() ==> keys@[q] == count_of(counts@, #[trigger] sorted@[q]@),
                forall|q: int| 0 <= q < p ==> keys@[q] >= kx,
            decreases sorted.len() - p,
        {
            p += 1;
        }
        let ghost r = texts(sorted@);
        proof {
            assert(orig.take(i as int + 1).drop_last() == orig.take(i as int));
            assert(orig.take(i as int + 1).last() == x@);
            assert(insert_at(r, counts@, x@, p as int)) by {
                assert forall|q: int| 0 <= q < p implies count_of(counts@, #[trigger] r[q]) >= count_of(counts@, x@) by {
                    assert(keys@[q] == count_of(counts@, sorted@[q]@));
                }
                if p < r.len() {
                    assert(keys@[p as int] == count_of(counts@, sorted@[p as int]@));
                }
            }
            let p2 = choose|p2: int| insert_at(r, counts@, x@, p2);
            if p2 < p {
                assert(count_of(counts@, r[p2]) >= count_of(counts@, x@));
            } else if p < p2 {
                assert(count_of(counts@, r[p as int]) >= count_of(counts@, x@));
            }
        }
        let mut next: Vec<String> = Vec::new();
        let mut next_keys: Vec<usize> = Vec::new();
        let mut q: usize = 0;
        while q < sorted.len()
            invariant
                q <= sorted@.len(),
                p <= sorted@.len(),
                keys@.len() == sorted@.len(),
                next@.len() == next_keys@.len(),
                next@.len() == if q <= p { q as int } else { q + 1 },
                forall|a: int| 0 <= a < next@.len() ==> #[trigger] next@[a] == sorted@.insert(p as int, x)[a],
                forall|a: int| 0 <= a < next@.len() ==> #[trigger] next_keys@[a] == keys@.insert(p as int, kx)[a],
            decreases sorted.len() - q,
        {
            if q == p {
                next.push(x.clone());
                next_keys.push(kx);
            }
            next.push(sorted[q].clone());
            next_keys.push(keys[q]);
            q += 1;
        }
        if p == sorted.len() {
            next.push(x);
            next_keys.push(kx);
        }
        proof {
            assert(next@ =~= sorted@.insert(p as int, x));
            assert(next_keys@ =~= keys@.insert(p as int, kx));
            assert(texts(next@) =~= r.insert(p as int, x@));
        }
        sorted = next;
        keys = next_keys;
        i += 1;
    }
    proof {
        assert(orig.take(orig.len() as int) == orig);
    }
    *tags = sorted;
}

/// The hexadecimal digit of `n`, upper case.
pub open spec fn hex_digit(n: u8) -> char {
    if n == 0 { '0' } else if n == 1 { '1' } else if n == 2 { '2' } else if n == 3 { '3' }
    else if n == 4 { '4' } else if n == 5 { '5' } else if n == 6 { '6' } else if n == 7 { '7' }
    else if n == 8 { '8' } else if n == 9 { '9' } else if n == 10 { 'A' } else if n == 11 { 'B' }
    else if n == 12 { 'C' } else if n == 13 { 'D' } else if n == 14 { 'E' } else { 'F' }
}

/// Each byte as a percent sign and two upper-case hexadecimal digits.
pub open spec fn percent_of(b: Seq<u8>) -> Seq<char>
    decreases b.len(),
{
    if b.len() == 0 {
        seq![]
    } else {
        percent_of(b.drop_last()) + seq!['%', hex_digit(b.last() / 16), hex_digit(b.last() % 16)]
    }
}

fn hex_char(n: u8) -> (r: char)
    requires
        n < 16,
    ensures
        r == hex_digit(n),
{
    if n == 0 { '0' } else if n == 1 { '1' } else if n == 2 { '2' } else if n == 3 { '3' }
    else if n == 4 { '4' } else if n == 5 { '5' } else if n == 6 { '6' } else if n == 7 { '7' }
    else if n == 8 { '8' } else if n == 9 { '9' } else if n == 10 { 'A' } else if n == 11 { 'B' }
    else if n == 12 { 'C' } else if n == 13 { 'D' } else if n == 14 { 'E' } else { 'F' }
}

/// Percent-encodes every byte, for use in a URL path.
pub fn percent_encode(bytes: &[u8]) -> (r: String)
    ensures
        r@ == percent_of(bytes@),
{
    let mut text = String::new();
    let mut i: usize = 0;
    while i < bytes.len()
        invariant
            i <= bytes@.len(),
            text@ == percent_of(bytes@.take(i as int)),
        decreases bytes.len() - i,
    {
        let b = bytes[i];
        push_char(&mut text, '%');
        push_char(&mut text, hex_char(b / 16));
        push_char(&mut text, hex_char(b % 16));
        proof {
            assert(bytes@.take(i as int + 1).drop_last() == bytes@.take(i as int));
            assert(text@ =~= percent_of(bytes@.take(i as int + 1)));
        }
        i += 1;
    }
    proof {
        assert(bytes@.take(bytes@.len() as int) == bytes@);
    }
    text
}

/// The characters kept in a polygon's points: decimal digits, white space, dots and commas.
pub open spec fn point_char(c: char) -> bool {
    ('0' <= c && c <= '9') || white_space(c) || c == '.' || c == ','
}

/// The polygons of a glyph outline: the text split at each `|`, each part
/// keeping only the characters of its points.
pub open spec fn polygons_of(s: Seq<char>) -> Seq<Seq<char>>
    decreases s.len(),
{
    if s.len() == 0 {
        seq![seq![]]
    } else {
        let p = polygons_of(s.drop_last());
        if s.last() == '|' {
            p.push(seq![])
        } else if point_char(s.last()) {
            p.drop_last().push(p.last().push(s.last()))
        } else {
            p
        }
    }
}

proof fn lemma_polygons_nonempty(s: Seq<char>)
    ensures
        polygons_of(s).len() >= 1,
    decreases s.len(),
{
    if s.len() > 0 {
        lemma_polygons_nonempty(s.drop_last());
    }
}

/// Splits a glyph outline into the point lists of its polygons.
pub fn polygons(svg: &String) -> (r: Vec<String>)
    ensures
        texts(r@) == polygons_of(svg@),
{
    let s = chars_of(svg);
    let mut done: Vec<String> = Vec::new();
    let mut cur: Vec<char> = Vec::new();
    let mut i: usize = 0;
    while i < s.len()
        invariant
            i <= s@.len(),
            s@ == svg@,
            texts(done@).push(cur@) == polygons_of(s@.take(i as int)),
        decreases s.len() - i,
    {
        let c = s[i];
        let ghost d0 = done@;
        let ghost cur0 = cur@;
        proof {
            assert(s@.take(i as int + 1).drop_last() == s@.take(i as int));
            assert(s@.take(i as int + 1).last() == c);
            lemma_polygons_nonempty(s@.take(i as int));
        }
        if c == '|' {
            let w = string_of(&cur);
            done.push(w);
            cur = Vec::new();
            proof {
                assert(texts(done@).push(cur@) =~= texts(d0).push(cur0).push(seq![]));
            }
        } else if ('0' <= c && c <= '9') || is_white_space(c) || c == '.' || c == ',' {
            cur.push(c);
            proof {
                let p = texts(d0).push(cur0);
                assert(texts(done@).push(cur@) =~= p.drop_last().push(p.last().push(c)));
            }
        }
        i += 1;
    }
    proof {
        assert(s@.take(s@.len() as int) == s@);
    }
    let ghost d0 = done@;
    let w = string_of(&cur);
    done.push(w);
    proof {
        assert(texts(done@) =~= texts(d0).push(cur@));
    }
    done
}

} // verus!
