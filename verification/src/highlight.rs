//! Outlining matches with double asterisks, byte by byte as `String`
//! indices work: the positions of the matches are taken in the lowercase
//! forms of text and pattern and the markers are inserted into the text.
use vstd::prelude::*;
use vstd::utf8::{
    is_char_boundary, is_char_boundary_iff_not_is_continuation_byte,
    is_char_boundary_start_end_of_seq, is_continuation_byte, length_of_first_scalar,
    partial_valid_utf8, partial_valid_utf8_extend_ascii_block, pop_first_scalar, valid_first_scalar,
    valid_utf8, valid_utf8_concat, valid_utf8_split,
};
use crate::text::{
    find_from, lemma_find_from, lemma_replace_all_leading, lemma_replace_all_none,
    lemma_replace_all_prefix, matches_at, replace_all,
};

verus! {

/// The marker put before and after each match: `**`.
pub open spec fn marker() -> Seq<u8> {
    seq![42u8, 42u8]
}

/// `p` is a character boundary of the UTF-8 bytes `b`, as
/// `str::is_char_boundary` decides: the start, the end, or a position
/// whose byte is not a continuation byte.
pub open spec fn is_boundary(b: Seq<u8>, p: int) -> bool {
    p == 0 || p == b.len() || (0 < p < b.len() && !is_continuation_byte(b[p]))
}

/// The positions, from `from` on, that `str::match_indices` yields for the
/// pattern `p` in `h`: for an empty pattern every character boundary, else
/// the starts of the non-overlapping occurrences found from left to right.
pub open spec fn match_positions(h: Seq<u8>, p: Seq<u8>, from: int) -> Seq<int>
    decreases h.len() + 1 - from,
{
    if from < 0 || from > h.len() {
        seq![]
    } else if p.len() == 0 {
        if is_boundary(h, from) {
            seq![from] + match_positions(h, p, from + 1)
        } else {
            match_positions(h, p, from + 1)
        }
    } else {
        match find_from(h, p, from) {
            Some(k) => if from <= k && k + p.len() <= h.len() {
                seq![k] + match_positions(h, p, k + p.len())
            } else {
                seq![]
            },
            None => seq![],
        }
    }
}

/// `b` with the marker inserted at `p`, as `String::insert_str` does; none
/// where `p` is not a character boundary (the insertion panics there).
pub open spec fn insert_marker(b: Seq<u8>, p: int) -> Option<Seq<u8>> {
    if is_boundary(b, p) {
        Some(b.take(p) + marker() + b.skip(p))
    } else {
        None
    }
}

/// The text `b` after inserting, for each position `k` of `positions`
/// from the last to the first, a marker at `k + n` and then one at `k`;
/// none if an insertion falls off a character boundary.
pub open spec fn insert_markers(b: Seq<u8>, positions: Seq<int>, n: int) -> Option<Seq<u8>>
    decreases positions.len(),
{
    if positions.len() == 0 {
        Some(b)
    } else {
        let k = positions.last();
        match insert_marker(b, k + n) {
            Some(b1) => match insert_marker(b1, k) {
                Some(b2) => insert_markers(b2, positions.drop_last(), n),
                None => None,
            },
            None => None,
        }
    }
}

/// Whether `p` is a character boundary of `b`.
fn boundary_exec(b: &[u8], p: usize) -> (r: bool)
    ensures
        r == is_boundary(b@, p as int),
{
    if p == 0 || p == b.len() {
        true
    } else if p < b.len() {
        !(0x80 <= b[p] && b[p] <= 0xbf)
    } else {
        false
    }
}

/// Whether `p` occurs in `s` at index `i`.
fn bytes_match_at(s: &[u8], p: &[u8], i: usize) -> (b: bool)
    ensures
        b == matches_at(s@, p@, i as int),
{
    if i > s.len() || p.len() > s.len() - i {
        return false;
    }
    let mut k: usize = 0;
    while k < p.len()
        invariant
            i + p.len() <= s.len(),
            0 <= k <= p.len(),
            forall|m: int| 0 <= m < k ==> s@[i + m] == p@[m],
        decreases p.len() - k,
    {
        if s[i + k] != p[k] {
            assert(s@.subrange(i as int, i + p.len())[k as int] != p@[k as int]);
            return false;
        }
        k = k + 1;
    }
    assert(s@.subrange(i as int, i + p.len()) =~= p@);
    true
}

/// The first index at or after `start` at which `p` occurs in `s`.
fn bytes_find_from(s: &[u8], p: &[u8], start: usize) -> (r: Option<usize>)
    ensures
        r == (match find_from(s@, p@, start as int) {
            Some(k) => Some(k as usize),
            None => None::<usize>,
        }),
        r matches Some(k) ==> start <= k && k + p.len() <= s.len(),
{
    proof {
        lemma_find_from(s@, p@, start as int);
    }
    let mut i = start;
    while i <= s.len() && p.len() <= s.len() - i
        invariant
            start <= i,
            find_from(s@, p@, start as int) == find_from(s@, p@, i as int),
        decreases s.len() + 1 - i,
    {
        if bytes_match_at(s, p, i) {
            return Some(i);
        }
        if i == s.len() {
            assert(find_from(s@, p@, i + 1) is None);
            return None;
        }
        i = i + 1;
    }
    None
}

/// The positions that `str::match_indices` yields for `p` in `h`.
pub fn match_positions_exec(h: &[u8], p: &[u8]) -> (r: Vec<usize>)
    ensures
        r@.map_values(|k: usize| k as int) == match_positions(h@, p@, 0),
{
    let mut r: Vec<usize> = Vec::new();
    let mut from: usize = 0;
    proof {
        assert(r@.map_values(|k: usize| k as int) + match_positions(h@, p@, 0) =~= match_positions(
            h@,
            p@,
            0,
        ));
    }
    loop
        invariant
            from <= h.len() + 1,
            match_positions(h@, p@, 0) == r@.map_values(|k: usize| k as int) + match_positions(
                h@,
                p@,
                from as int,
            ),
        decreases h.len() + 1 - from,
    {
        let ghost before = r@;
        if from > h.len() {
            assert(match_positions(h@, p@, from as int) =~= Seq::<int>::empty());
            assert(r@.map_values(|k: usize| k as int) + Seq::<int>::empty() =~= r@.map_values(
                |k: usize| k as int,
            ));
            return r;
        }
        if p.len() == 0 {
            let ghost next = match_positions(h@, p@, from + 1);
            if boundary_exec(h, from) {
                r.push(from);
                assert(r@.map_values(|k: usize| k as int) =~= before.map_values(|k: usize| k as int)
                    + seq![from as int]);
                assert(before.map_values(|k: usize| k as int) + (seq![from as int] + next)
                    =~= r@.map_values(|k: usize| k as int) + next);
            }
            if from == h.len() {
                assert(next =~= Seq::<int>::empty());
                assert(r@.map_values(|k: usize| k as int) + next =~= r@.map_values(
                    |k: usize| k as int,
                ));
                return r;
            }
            from = from + 1;
        } else {
            proof {
                lemma_find_from(h@, p@, from as int);
            }
            match bytes_find_from(h, p, from) {
                Some(k) => {
                    let ghost next = match_positions(h@, p@, k + p.len());
                    r.push(k);
                    assert(r@.map_values(|k: usize| k as int) =~= before.map_values(
                        |k: usize| k as int,
                    ) + seq![k as int]);
                    assert(before.map_values(|k: usize| k as int) + (seq![k as int] + next)
                        =~= r@.map_values(|k: usize| k as int) + next);
                    from = k + p.len();
                },
                None => {
                    assert(match_positions(h@, p@, from as int) =~= Seq::<int>::empty());
                    assert(r@.map_values(|k: usize| k as int) + Seq::<int>::empty()
                        =~= r@.map_values(|k: usize| k as int));
                    return r;
                },
            }
        }
    }
}

/// `b` with the marker inserted at `p`, if `p` is a character boundary.
fn insert_marker_exec(b: &[u8], p: usize) -> (r: Option<Vec<u8>>)
    ensures
        match insert_marker(b@, p as int) {
            Some(x) => r matches Some(v) && v@ == x,
            None => r is None,
        },
{
    if !boundary_exec(b, p) {
        return None;
    }
    let mut v: Vec<u8> = Vec::new();
    let mut i: usize = 0;
    while i < p
        invariant
            p <= b.len(),
            i <= p,
            v@ == b@.take(i as int),
        decreases p - i,
    {
        v.push(b[i]);
        assert(b@.take(i + 1) =~= b@.take(i as int).push(b@[i as int]));
        i = i + 1;
    }
    v.push(42u8);
    v.push(42u8);
    let ghost head = v@;
    while i < b.len()
        invariant
            p <= i <= b.len(),
            head == b@.take(p as int) + marker(),
            v@ == head + b@.subrange(p as int, i as int),
        decreases b.len() - i,
    {
        v.push(b[i]);
        assert(b@.subrange(p as int, i + 1) =~= b@.subrange(p as int, i as int).push(
            b@[i as int],
        ));
        i = i + 1;
    }
    assert(b@.subrange(p as int, b.len() as int) =~= b@.skip(p as int));
    assert(v@ =~= b@.take(p as int) + marker() + b@.skip(p as int));
    Some(v)
}

/// Outlines, in the bytes `text`, each match of the bytes `pattern` in
/// the bytes `haystack`: for each match position `k`, from the last to the
/// first, a `**` goes in at `k + n` and another at `k`. None where an
/// insertion would not fall on a character boundary.
pub fn insert_markers_exec(text: &[u8], haystack: &[u8], pattern: &[u8], n: usize) -> (r: Option<
    Vec<u8>,
>)
    ensures
        match insert_markers(text@, match_positions(haystack@, pattern@, 0), n as int) {
            Some(x) => r matches Some(v) && v@ == x,
            None => r is None,
        },
{
    let positions = match_positions_exec(haystack, pattern);
    let ghost all = match_positions(haystack@, pattern@, 0);
    let mut buffer: Vec<u8> = Vec::new();
    let mut i: usize = 0;
    while i < text.len()
        invariant
            i <= text.len(),
            buffer@ == text@.take(i as int),
        decreases text.len() - i,
    {
        buffer.push(text[i]);
        assert(text@.take(i + 1) =~= text@.take(i as int).push(text@[i as int]));
        i = i + 1;
    }
    assert(text@.take(text.len() as int) =~= text@);
    let mut remaining = positions.len();
    assert(all.take(remaining as int) =~= all);
    while remaining > 0
        invariant
            remaining <= positions@.len(),
            all == positions@.map_values(|k: usize| k as int),
            all == match_positions(haystack@, pattern@, 0),
            insert_markers(text@, all, n as int) == insert_markers(
                buffer@,
                all.take(remaining as int),
                n as int,
            ),
        decreases remaining,
    {
        let k = positions[remaining - 1];
        let ghost part = all.take(remaining as int);
        assert(part.last() == k as int);
        assert(part.drop_last() =~= all.take(remaining - 1));
        let end = match k.checked_add(n) {
            Some(e) => e,
            None => {
                let blen = buffer.len();
                assert(insert_marker(buffer@, k + n) is None);
                assert(insert_markers(buffer@, part, n as int) is None);
                return None;
            },
        };
        let b1 = match insert_marker_exec(&buffer, end) {
            Some(b1) => b1,
            None => {
                assert(insert_markers(buffer@, part, n as int) is None);
                return None;
            },
        };
        let b2 = match insert_marker_exec(&b1, k) {
            Some(b2) => b2,
            None => {
                assert(insert_markers(buffer@, part, n as int) is None);
                return None;
            },
        };
        buffer = b2;
        remaining = remaining - 1;
    }
    assert(all.take(0) =~= Seq::<int>::empty());
    Some(buffer)
}

/// The marker is valid UTF-8.
pub proof fn lemma_marker_valid()
    ensures
        valid_utf8(marker()),
{
    assert(partial_valid_utf8(marker(), 0)) by {
        assert(marker().subrange(0, 0) =~= Seq::<u8>::empty());
    }
    partial_valid_utf8_extend_ascii_block(marker(), 0, 2);
    assert(marker().subrange(0, 2) =~= marker());
}

/// Inserting the marker at a character boundary of valid UTF-8 gives
/// valid UTF-8.
pub proof fn lemma_insert_marker_valid(b: Seq<u8>, p: int)
    requires
        valid_utf8(b),
        is_boundary(b, p),
    ensures
        insert_marker(b, p) matches Some(x) && valid_utf8(x),
{
    is_char_boundary_start_end_of_seq(b);
    if 0 < p < b.len() {
        is_char_boundary_iff_not_is_continuation_byte(b, p);
    }
    assert(is_char_boundary(b, p));
    valid_utf8_split(b, p);
    assert(b.subrange(0, p) =~= b.take(p));
    assert(b.subrange(p, b.len() as int) =~= b.skip(p));
    lemma_marker_valid();
    valid_utf8_concat(b.take(p), marker());
    valid_utf8_concat(b.take(p) + marker(), b.skip(p));
}

/// Inserting markers into valid UTF-8 gives valid UTF-8.
pub proof fn lemma_insert_markers_valid(b: Seq<u8>, positions: Seq<int>, n: int)
    requires
        valid_utf8(b),
    ensures
        insert_markers(b, positions, n) matches Some(x) ==> valid_utf8(x),
    decreases positions.len(),
{
    if positions.len() > 0 {
        let k = positions.last();
        if is_boundary(b, k + n) {
            lemma_insert_marker_valid(b, k + n);
            let b1 = insert_marker(b, k + n).unwrap();
            if is_boundary(b1, k) {
                lemma_insert_marker_valid(b1, k);
                let b2 = insert_marker(b1, k).unwrap();
                lemma_insert_markers_valid(b2, positions.drop_last(), n);
            }
        }
    }
}

/// Outlining adds four bytes (two markers) for each match, and nothing
/// else: where it succeeds, the text grows by four bytes per position.
pub proof fn law_markers_add_four_bytes_each(b: Seq<u8>, positions: Seq<int>, n: int)
    ensures
        insert_markers(b, positions, n) matches Some(x) ==> x.len() == b.len() + 4
            * positions.len(),
    decreases positions.len(),
{
    if positions.len() > 0 {
        let k = positions.last();
        if let Some(b1) = insert_marker(b, k + n) {
            if let Some(b2) = insert_marker(b1, k) {
                law_markers_add_four_bytes_each(b2, positions.drop_last(), n);
            }
        }
    }
}

/// Outlining where nothing matches leaves the text as it is.
pub proof fn law_no_match_no_change(b: Seq<u8>, n: int)
    ensures
        insert_markers(b, seq![], n) == Some(b),
{
}

/// The text with each of the (ascending, non-overlapping) matches at
/// `positions`, `n` bytes long, put between two markers.
pub open spec fn wrap_matches(b: Seq<u8>, positions: Seq<int>, n: int) -> Seq<u8>
    decreases positions.len(),
{
    if positions.len() == 0 {
        b
    } else {
        let k = positions.last();
        wrap_matches(b.take(k), positions.drop_last(), n) + marker() + b.subrange(k, k + n)
            + marker() + b.skip(k + n)
    }
}

/// Inserting markers at points within `x` of `x + y` is inserting them
/// into `x`, when `y` does not start inside a character.
proof fn lemma_insert_markers_prefix(x: Seq<u8>, y: Seq<u8>, positions: Seq<int>, n: int)
    requires
        n >= 0,
        y.len() == 0 || !is_continuation_byte(y[0]),
        forall|i: int|
            0 <= i < positions.len() ==> 0 <= #[trigger] positions[i] && positions[i] + n
                <= x.len(),
    ensures
        insert_markers(x + y, positions, n) == match insert_markers(x, positions, n) {
            Some(z) => Some(z + y),
            None => None,
        },
    decreases positions.len(),
{
    if positions.len() > 0 {
        let k = positions.last();
        let xy = x + y;
        assert forall|q: int| 0 <= q <= x.len() implies is_boundary(xy, q) == is_boundary(x, q) by {
            if 0 < q < x.len() {
                assert(xy[q] == x[q]);
            } else if q == x.len() && q > 0 && y.len() > 0 {
                assert(xy[q] == y[0]);
            }
        }
        if is_boundary(x, k + n) {
            let x1 = x.take(k + n) + marker() + x.skip(k + n);
            assert(xy.take(k + n) + marker() + xy.skip(k + n) =~= x1 + y);
            assert forall|q: int| 0 <= q <= x1.len() implies is_boundary(x1 + y, q) == is_boundary(
                x1,
                q,
            ) by {
                if 0 < q < x1.len() {
                    assert((x1 + y)[q] == x1[q]);
                } else if q == x1.len() && q > 0 && y.len() > 0 {
                    assert((x1 + y)[q] == y[0]);
                }
            }
            if is_boundary(x1, k) {
                let x2 = x1.take(k) + marker() + x1.skip(k);
                assert((x1 + y).take(k) + marker() + (x1 + y).skip(k) =~= x2 + y);
                assert forall|i: int|
                    0 <= i < positions.drop_last().len() implies 0 <= #[trigger] positions.drop_last()[i]
                    && positions.drop_last()[i] + n <= x2.len() by {
                    assert(positions.drop_last()[i] == positions[i]);
                }
                lemma_insert_markers_prefix(x2, y, positions.drop_last(), n);
            }
        }
    }
}

/// The positions are ascending and at least `n` apart, within `b`, and
/// each is a character boundary of `b`, as is each position plus `n`.
pub open spec fn well_placed(b: Seq<u8>, positions: Seq<int>, n: int) -> bool {
    &&& forall|i: int, j: int|
        0 <= i < j < positions.len() ==> #[trigger] positions[i] + n <= #[trigger] positions[j]
    &&& forall|i: int|
        0 <= i < positions.len() ==> 0 <= #[trigger] positions[i] && positions[i] + n <= b.len()
            && is_boundary(b, positions[i]) && is_boundary(b, positions[i] + n)
}

/// Markers around well-placed matches all go in, each pair around its
/// match.
proof fn lemma_insert_well_placed(b: Seq<u8>, positions: Seq<int>, n: int)
    requires
        n > 0,
        well_placed(b, positions, n),
    ensures
        insert_markers(b, positions, n) == Some(wrap_matches(b, positions, n)),
    decreases positions.len(),
{
    if positions.len() > 0 {
        let k = positions.last();
        let rest = positions.drop_last();
        let b1 = b.take(k + n) + marker() + b.skip(k + n);
        assert(is_boundary(b, k) && is_boundary(b, k + n));
        assert(insert_marker(b, k + n) == Some(b1));
        if 0 < k {
            assert(b1[k] == b[k]);
        }
        assert(is_boundary(b1, k));
        let b2 = b1.take(k) + marker() + b1.skip(k);
        let x = b.take(k);
        let y = marker() + b.subrange(k, k + n) + marker() + b.skip(k + n);
        assert(b2 =~= x + y);
        assert(y[0] == 42u8);
        assert forall|i: int| 0 <= i < rest.len() implies 0 <= #[trigger] rest[i] && rest[i] + n
            <= x.len() by {
            assert(rest[i] == positions[i]);
            assert(positions[i] + n <= positions[positions.len() - 1]);
        }
        lemma_insert_markers_prefix(x, y, rest, n);
        assert(well_placed(x, rest, n)) by {
            assert forall|i: int, j: int| 0 <= i < j < rest.len() implies #[trigger] rest[i] + n
                <= #[trigger] rest[j] by {
                assert(rest[i] == positions[i] && rest[j] == positions[j]);
            }
            assert forall|i: int| 0 <= i < rest.len() implies 0 <= #[trigger] rest[i] && rest[i]
                + n <= x.len() && is_boundary(x, rest[i]) && is_boundary(x, rest[i] + n) by {
                assert(rest[i] == positions[i]);
                assert(positions[i] + n <= positions[positions.len() - 1]);
                if 0 < rest[i] < x.len() {
                    assert(x[rest[i]] == b[rest[i]]);
                }
                if 0 < rest[i] + n < x.len() {
                    assert(x[rest[i] + n] == b[rest[i] + n]);
                }
            }
        }
        lemma_insert_well_placed(x, rest, n);
        assert(wrap_matches(x, rest, n) + y =~= wrap_matches(b, positions, n));
    }
}

/// What follows a valid prefix of valid UTF-8 is valid UTF-8.
proof fn lemma_valid_after_valid_prefix(p: Seq<u8>, r: Seq<u8>)
    requires
        valid_utf8(p),
        valid_utf8(p + r),
    ensures
        valid_utf8(r),
    decreases p.len(),
{
    if p.len() == 0 {
        assert(p + r =~= r);
    } else {
        let s = p + r;
        assert(s[0] == p[0]);
        if p.len() >= 2 {
            assert(s[1] == p[1]);
        }
        if p.len() >= 3 {
            assert(s[2] == p[2]);
        }
        if p.len() >= 4 {
            assert(s[3] == p[3]);
        }
        let l = length_of_first_scalar(p);
        assert(length_of_first_scalar(s) == l);
        assert(pop_first_scalar(s) =~= pop_first_scalar(p) + r);
        lemma_valid_after_valid_prefix(pop_first_scalar(p), r);
    }
}

/// A match of valid UTF-8 in valid UTF-8 starts and ends on character
/// boundaries.
proof fn lemma_match_on_boundaries(b: Seq<u8>, p: Seq<u8>, k: int)
    requires
        valid_utf8(b),
        valid_utf8(p),
        p.len() > 0,
        matches_at(b, p, k),
    ensures
        is_boundary(b, k),
        is_boundary(b, k + p.len()),
{
    assert(b[k] == b.subrange(k, k + p.len())[0]);
    assert(valid_first_scalar(p));
    assert(is_boundary(b, k));
    is_char_boundary_start_end_of_seq(b);
    if 0 < k < b.len() {
        is_char_boundary_iff_not_is_continuation_byte(b, k);
    }
    valid_utf8_split(b, k);
    let s = b.subrange(k, b.len() as int);
    let r = b.skip(k + p.len());
    assert(s =~= p + r);
    lemma_valid_after_valid_prefix(p, r);
    if r.len() > 0 {
        assert(valid_first_scalar(r));
        assert(b[k + p.len()] == r[0]);
    }
}

/// The positions `str::match_indices` yields for a non-empty valid
/// pattern in valid text are well placed.
proof fn lemma_match_positions_well_placed(h: Seq<u8>, p: Seq<u8>, from: int)
    requires
        valid_utf8(h),
        valid_utf8(p),
        p.len() > 0,
        0 <= from,
    ensures
        well_placed(h, match_positions(h, p, from), p.len() as int),
        forall|i: int|
            0 <= i < match_positions(h, p, from).len() ==> from <= #[trigger] match_positions(
                h,
                p,
                from,
            )[i],
    decreases h.len() + 1 - from,
{
    let all = match_positions(h, p, from);
    if from <= h.len() {
        lemma_find_from(h, p, from);
        match find_from(h, p, from) {
            Some(k) => {
                if from <= k && k + p.len() <= h.len() {
                    lemma_match_positions_well_placed(h, p, k + p.len());
                    lemma_match_on_boundaries(h, p, k);
                    let rest = match_positions(h, p, k + p.len());
                    assert(all == seq![k] + rest);
                    assert forall|i: int, j: int| 0 <= i < j < all.len() implies #[trigger] all[i]
                        + p.len() <= #[trigger] all[j] by {
                        assert(all[j] == rest[j - 1]);
                        if i > 0 {
                            assert(all[i] == rest[i - 1]);
                        }
                    }
                    assert forall|i: int| 0 <= i < all.len() implies 0 <= #[trigger] all[i]
                        && all[i] + p.len() <= h.len() && is_boundary(h, all[i]) && is_boundary(
                        h,
                        all[i] + p.len(),
                    ) && from <= all[i] by {
                        if i > 0 {
                            assert(all[i] == rest[i - 1]);
                            let m = rest[i - 1];
                            assert(rest.len() > 0);
                        }
                    }
                }
            },
            None => {},
        }
    }
}

/// Where the text is its own lowercase form and so is the non-empty
/// pattern, outlining puts a marker before and after each occurrence of
/// the pattern, found from left to right without overlap, and never fails.
pub proof fn law_outline_wraps_each_match(b: Seq<u8>, p: Seq<u8>)
    requires
        valid_utf8(b),
        valid_utf8(p),
        p.len() > 0,
    ensures
        insert_markers(b, match_positions(b, p, 0), p.len() as int) == Some(
            wrap_matches(b, match_positions(b, p, 0), p.len() as int),
        ),
{
    lemma_match_positions_well_placed(b, p, 0);
    lemma_insert_well_placed(b, match_positions(b, p, 0), p.len() as int);
}

/// The positions of the matches, from `from` on, lie within `h` and are
/// at least the pattern's length apart.
proof fn lemma_match_positions_spaced(h: Seq<u8>, p: Seq<u8>, from: int)
    requires
        0 <= from,
    ensures
        forall|i: int|
            0 <= i < match_positions(h, p, from).len() ==> from <= #[trigger] match_positions(
                h,
                p,
                from,
            )[i] && match_positions(h, p, from)[i] + p.len() <= h.len(),
        forall|i: int, j: int|
            0 <= i < j < match_positions(h, p, from).len() ==> #[trigger] match_positions(
                h,
                p,
                from,
            )[i] + p.len() <= #[trigger] match_positions(h, p, from)[j],
    decreases h.len() + 1 - from,
{
    let all = match_positions(h, p, from);
    if from <= h.len() {
        if p.len() == 0 {
            lemma_match_positions_spaced(h, p, from + 1);
            let rest = match_positions(h, p, from + 1);
            if is_boundary(h, from) {
                assert(all == seq![from] + rest);
                assert forall|i: int| 0 <= i < all.len() implies from <= #[trigger] all[i]
                    && all[i] + p.len() <= h.len() by {
                    if i > 0 {
                        assert(all[i] == rest[i - 1]);
                    }
                }
                assert forall|i: int, j: int| 0 <= i < j < all.len() implies #[trigger] all[i]
                    + p.len() <= #[trigger] all[j] by {
                    assert(all[j] == rest[j - 1]);
                    if i > 0 {
                        assert(all[i] == rest[i - 1]);
                    }
                }
            }
        } else {
            lemma_find_from(h, p, from);
            match find_from(h, p, from) {
                Some(k) => {
                    if from <= k && k + p.len() <= h.len() {
                        lemma_match_positions_spaced(h, p, k + p.len());
                        let rest = match_positions(h, p, k + p.len());
                        assert(all == seq![k] + rest);
                        assert forall|i: int| 0 <= i < all.len() implies from <= #[trigger] all[i]
                            && all[i] + p.len() <= h.len() by {
                            if i > 0 {
                                assert(all[i] == rest[i - 1]);
                            }
                        }
                        assert forall|i: int, j: int| 0 <= i < j < all.len() implies #[trigger] all[i]
                            + p.len() <= #[trigger] all[j] by {
                            assert(all[j] == rest[j - 1]);
                            if i > 0 {
                                assert(all[i] == rest[i - 1]);
                            }
                        }
                    }
                },
                None => {},
            }
        }
    }
}

/// All bytes of `b` are ASCII.
pub open spec fn ascii_bytes(b: Seq<u8>) -> bool {
    forall|i: int| 0 <= i < b.len() ==> #[trigger] b[i] < 128
}

/// No byte of `b` is `*`.
pub open spec fn no_star(b: Seq<u8>) -> bool {
    forall|i: int| 0 <= i < b.len() ==> #[trigger] b[i] != 42u8
}

/// Inserting a marker into ASCII text `r` at a point `p` before which `r`
/// agrees with the star-free text `b` keeps the text ASCII and keeps `b`
/// what removing the markers gives back.
proof fn lemma_insert_marker_strip(r: Seq<u8>, b: Seq<u8>, p: int, q: int)
    requires
        ascii_bytes(r),
        no_star(b),
        replace_all(r, marker(), seq![]) == b,
        0 <= p <= q,
        q <= b.len(),
        q <= r.len(),
        r.take(q) == b.take(q),
    ensures
        insert_marker(r, p) matches Some(r1) && ascii_bytes(r1) && replace_all(r1, marker(), seq![])
            == b && r1.take(p) == b.take(p) && p <= r1.len(),
{
    if 0 < p < r.len() {
        assert(r[p] < 128);
    }
    assert(is_boundary(r, p));
    let x = r.take(p);
    assert(x =~= r.take(q).take(p));
    assert(b.take(q).take(p) =~= b.take(p));
    assert forall|j: int| 0 <= j < x.len() implies x[j] != marker()[0] by {
        assert(x[j] == b[j]);
    }
    let tail = r.skip(p);
    assert(r =~= x + tail);
    lemma_replace_all_prefix(x, tail, marker(), seq![]);
    let r1 = r.take(p) + marker() + r.skip(p);
    assert(r1 =~= x + (marker() + tail));
    lemma_replace_all_prefix(x, marker() + tail, marker(), seq![]);
    lemma_replace_all_leading(tail, marker(), seq![]);
    assert(Seq::<u8>::empty() + replace_all(tail, marker(), seq![]) =~= replace_all(
        tail,
        marker(),
        seq![],
    ));
    assert forall|i: int| 0 <= i < r1.len() implies #[trigger] r1[i] < 128 by {
        if i < p {
            assert(r1[i] == r[i]);
        } else if i >= p + 2 {
            assert(r1[i] == r[i - 2]);
        }
    }
    assert(r1.take(p) =~= x);
}

/// Inserting markers at positions before `q`, last to first, into ASCII
/// text that agrees with the star-free `b` before `q` and gives back `b`
/// when the markers are removed, succeeds and still gives back `b`.
proof fn lemma_insert_markers_strip(r: Seq<u8>, b: Seq<u8>, positions: Seq<int>, n: int, q: int)
    requires
        n >= 0,
        ascii_bytes(r),
        no_star(b),
        replace_all(r, marker(), seq![]) == b,
        0 <= q <= b.len(),
        q <= r.len(),
        r.take(q) == b.take(q),
        forall|i: int|
            0 <= i < positions.len() ==> 0 <= #[trigger] positions[i] && positions[i] + n <= q,
        forall|i: int, j: int|
            0 <= i < j < positions.len() ==> #[trigger] positions[i] + n <= #[trigger] positions[j],
    ensures
        insert_markers(r, positions, n) matches Some(x) && replace_all(x, marker(), seq![]) == b,
    decreases positions.len(),
{
    if positions.len() > 0 {
        let k = positions.last();
        assert(0 <= positions[positions.len() - 1]);
        lemma_insert_marker_strip(r, b, k + n, q);
        let r1 = insert_marker(r, k + n).unwrap();
        lemma_insert_marker_strip(r1, b, k, k + n);
        let r2 = insert_marker(r1, k).unwrap();
        let rest = positions.drop_last();
        assert forall|i: int| 0 <= i < rest.len() implies 0 <= #[trigger] rest[i] && rest[i] + n
            <= k by {
            assert(rest[i] == positions[i]);
            assert(positions[i] + n <= positions[positions.len() - 1]);
        }
        assert forall|i: int, j: int| 0 <= i < j < rest.len() implies #[trigger] rest[i] + n
            <= #[trigger] rest[j] by {
            assert(rest[i] == positions[i] && rest[j] == positions[j]);
        }
        lemma_insert_markers_strip(r2, b, rest, n, k);
    }
}

/// In ASCII text without `*`, outlining the matches of any pattern found
/// in a text of the same length (its lowercase form, say) never fails,
/// and removing every `**` from the result, as `str::replace` does, gives
/// the text back: only marker pairs are inserted.
pub proof fn law_ascii_outline_only_adds_markers(b: Seq<u8>, h: Seq<u8>, p: Seq<u8>, n: int)
    requires
        ascii_bytes(b),
        no_star(b),
        h.len() == b.len(),
        p.len() == n,
    ensures
        insert_markers(b, match_positions(h, p, 0), n) matches Some(x) && replace_all(
            x,
            marker(),
            seq![],
        ) == b,
{
    lemma_match_positions_spaced(h, p, 0);
    assert forall|j: int| 0 <= j < b.len() implies b[j] != marker()[0] by {
        assert(b[j] != 42u8);
    }
    lemma_replace_all_none(b, marker(), seq![]);
    lemma_insert_markers_strip(b, b, match_positions(h, p, 0), n, b.len() as int);
}

/// For a non-empty pattern, the positions are the occurrences found from
/// left to right without overlap, as `str::match_indices` finds them: each
/// is an occurrence, none overlaps the one before, and every occurrence
/// from `from` on is listed unless it starts inside a listed one.
pub proof fn law_match_positions_leftmost(h: Seq<u8>, p: Seq<u8>, from: int)
    requires
        p.len() > 0,
        0 <= from,
    ensures
        forall|i: int|
            0 <= i < match_positions(h, p, from).len() ==> from <= #[trigger] match_positions(
                h,
                p,
                from,
            )[i] && matches_at(h, p, match_positions(h, p, from)[i]),
        forall|i: int, j: int|
            0 <= i < j < match_positions(h, p, from).len() ==> #[trigger] match_positions(
                h,
                p,
                from,
            )[i] + p.len() <= #[trigger] match_positions(h, p, from)[j],
        forall|k: int|
            from <= k && #[trigger] matches_at(h, p, k) ==> match_positions(h, p, from).contains(k)
                || exists|i: int|
                0 <= i < match_positions(h, p, from).len() && #[trigger] match_positions(
                    h,
                    p,
                    from,
                )[i] < k < match_positions(h, p, from)[i] + p.len(),
    decreases h.len() + 1 - from,
{
    lemma_match_positions_spaced(h, p, from);
    let all = match_positions(h, p, from);
    if from > h.len() {
        assert forall|k: int| from <= k && #[trigger] matches_at(h, p, k) implies false by {}
    } else {
        lemma_find_from(h, p, from);
        match find_from(h, p, from) {
            Some(m) => {
                assert(from <= m && m + p.len() <= h.len());
                law_match_positions_leftmost(h, p, m + p.len());
                let rest = match_positions(h, p, m + p.len());
                assert(all == seq![m] + rest);
                assert forall|i: int| 0 <= i < all.len() implies from <= #[trigger] all[i]
                    && matches_at(h, p, all[i]) by {
                    if i > 0 {
                        assert(all[i] == rest[i - 1]);
                    }
                }
                assert forall|k: int| from <= k && #[trigger] matches_at(h, p, k) implies all.contains(
                    k,
                ) || exists|i: int| 0 <= i < all.len() && #[trigger] all[i] < k < all[i] + p.len() by {
                    if k == m {
                        assert(all[0] == k);
                    } else if k < m + p.len() {
                        assert(all[0] < k < all[0] + p.len());
                    } else {
                        if rest.contains(k) {
                            let j = choose|j: int| 0 <= j < rest.len() && rest[j] == k;
                            assert(all[j + 1] == k);
                        } else {
                            let j = choose|j: int|
                                0 <= j < rest.len() && #[trigger] rest[j] < k < rest[j] + p.len();
                            assert(all[j + 1] == rest[j]);
                        }
                    }
                }
            },
            None => {},
        }
    }
}

} // verus!
