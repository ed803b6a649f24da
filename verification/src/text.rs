//! Text primitives over character sequences: searching, splitting,
//! trimming and line breaking, each stated as a spec function and
//! implemented by a verified loop.
use vstd::prelude::*;

verus! {

// ---------------------------------------------------------------------------
// Specifications
// ---------------------------------------------------------------------------

/// `p` occurs in `s` starting at index `i`.
pub open spec fn matches_at<T>(s: Seq<T>, p: Seq<T>, i: int) -> bool {
    0 <= i && i + p.len() <= s.len() && s.subrange(i, i + p.len()) == p
}

/// The first index `>= i` at which `p` occurs in `s`.
pub open spec fn find_from<T>(s: Seq<T>, p: Seq<T>, i: int) -> Option<int>
    decreases s.len() + 1 - i,
{
    if i < 0 || i + p.len() > s.len() {
        None
    } else if matches_at(s, p, i) {
        Some(i)
    } else {
        find_from(s, p, i + 1)
    }
}

/// `p` occurs somewhere in `s` (the empty pattern occurs everywhere).
pub open spec fn contains<T>(s: Seq<T>, p: Seq<T>) -> bool {
    exists|i: int| matches_at(s, p, i)
}

/// The parts of `s` before and after the first occurrence of `p`.
pub open spec fn split_once<T>(s: Seq<T>, p: Seq<T>) -> Option<(Seq<T>, Seq<T>)> {
    match find_from(s, p, 0) {
        Some(i) => Some((s.take(i), s.skip(i + p.len()))),
        None => None,
    }
}

/// Unicode `White_Space`, the property that `char::is_whitespace` tests.
pub open spec fn is_whitespace(c: char) -> bool {
    let u = c as u32;
    (0x09 <= u && u <= 0x0d) || u == 0x20 || u == 0x85 || u == 0xa0 || u == 0x1680 || (0x2000
        <= u && u <= 0x200a) || u == 0x2028 || u == 0x2029 || u == 0x202f || u == 0x205f || u
        == 0x3000
}

/// `s` without its leading whitespace.
pub open spec fn trim_start(s: Seq<char>) -> Seq<char>
    decreases s.len(),
{
    if s.len() > 0 && is_whitespace(s[0]) {
        trim_start(s.drop_first())
    } else {
        s
    }
}

/// `s` without its trailing whitespace.
pub open spec fn trim_end(s: Seq<char>) -> Seq<char>
    decreases s.len(),
{
    if s.len() > 0 && is_whitespace(s.last()) {
        trim_end(s.drop_last())
    } else {
        s
    }
}

/// `s` without leading and trailing whitespace.
pub open spec fn trim(s: Seq<char>) -> Seq<char> {
    trim_end(trim_start(s))
}

/// A line without the carriage return that may end it.
pub open spec fn strip_cr(l: Seq<char>) -> Seq<char> {
    if l.len() > 0 && l.last() == '\r' {
        l.drop_last()
    } else {
        l
    }
}

/// The lines of `s` as `str::lines` yields them: split after each `'\n'`,
/// the `'\n'` and a `'\r'` just before it dropped, and no empty last line.
pub open spec fn lines(s: Seq<char>) -> Seq<Seq<char>>
    decreases s.len(),
{
    if s.len() == 0 {
        seq![]
    } else {
        match find_from(s, seq!['\n'], 0) {
            Some(i) => if 0 <= i < s.len() {
                seq![strip_cr(s.take(i))] + lines(s.skip(i + 1))
            } else {
                seq![s]
            },
            None => seq![s],
        }
    }
}

/// `s` with every non-overlapping occurrence of the non-empty pattern
/// `from`, taken from left to right, replaced by `to`.
pub open spec fn replace_all<T>(s: Seq<T>, from: Seq<T>, to: Seq<T>) -> Seq<T>
    recommends
        from.len() > 0,
    decreases s.len(),
{
    if from.len() == 0 {
        s
    } else {
        match find_from(s, from, 0) {
            Some(i) => if 0 <= i && i + from.len() <= s.len() {
                s.take(i) + to + replace_all(s.skip(i + from.len()), from, to)
            } else {
                s
            },
            None => s,
        }
    }
}

/// `c` with an ASCII capital letter turned into its small letter.
pub open spec fn ascii_lower(c: char) -> char {
    if 'A' <= c && c <= 'Z' {
        ((c as u32) + 32) as char
    } else {
        c
    }
}

/// `s` with each ASCII capital letter turned into its small letter.
pub open spec fn ascii_lowercase(s: Seq<char>) -> Seq<char> {
    s.map_values(|c: char| ascii_lower(c))
}

/// The character of the decimal digit `d`.
pub open spec fn digit_char(d: nat) -> char {
    (48 + d) as char
}

/// The decimal representation of `n`, as `usize`'s `Display` writes it.
pub open spec fn decimal(n: nat) -> Seq<char>
    decreases n,
{
    if n < 10 {
        seq![digit_char(n)]
    } else {
        decimal(n / 10).push(digit_char(n % 10))
    }
}

/// The concatenation of the sequences in `parts`.
pub open spec fn concat<T>(parts: Seq<Seq<T>>) -> Seq<T>
    decreases parts.len(),
{
    if parts.len() == 0 {
        seq![]
    } else {
        concat(parts.drop_last()) + parts.last()
    }
}

// ---------------------------------------------------------------------------
// Lemmas
// ---------------------------------------------------------------------------

/// What `find_from` returns: the first match at or after `i`, or none.
pub proof fn lemma_find_from<T>(s: Seq<T>, p: Seq<T>, i: int)
    requires
        0 <= i,
    ensures
        find_from(s, p, i) matches Some(k) ==> i <= k && matches_at(s, p, k) && forall|j: int|
            i <= j < k ==> !#[trigger] matches_at(s, p, j),
        find_from(s, p, i) is None ==> forall|j: int| i <= j ==> !#[trigger] matches_at(s, p, j),
    decreases s.len() + 1 - i,
{
    if i + p.len() > s.len() {
    } else if matches_at(s, p, i) {
    } else {
        lemma_find_from(s, p, i + 1);
    }
}

/// A match at `k` with none before it, from `i` on, is what `find_from` finds.
pub proof fn lemma_find_from_first<T>(s: Seq<T>, p: Seq<T>, i: int, k: int)
    requires
        0 <= i <= k,
        matches_at(s, p, k),
        forall|j: int| i <= j < k ==> !#[trigger] matches_at(s, p, j),
    ensures
        find_from(s, p, i) == Some(k),
{
    lemma_find_from(s, p, i);
}

/// No match from `i` on means `find_from` finds none.
pub proof fn lemma_find_from_none<T>(s: Seq<T>, p: Seq<T>, i: int)
    requires
        0 <= i,
        forall|j: int| i <= j ==> !#[trigger] matches_at(s, p, j),
    ensures
        find_from(s, p, i) is None,
{
    lemma_find_from(s, p, i);
}

/// Matching in a suffix is matching in the whole, shifted.
pub proof fn lemma_matches_at_skip<T>(s: Seq<T>, p: Seq<T>, d: int, j: int)
    requires
        0 <= d <= s.len(),
        0 <= j,
    ensures
        matches_at(s.skip(d), p, j) == matches_at(s, p, d + j),
{
    if j + p.len() <= s.len() - d {
        assert(s.skip(d).subrange(j, j + p.len()) =~= s.subrange(d + j, d + j + p.len()));
    }
}

/// Searching a suffix is searching the whole from the suffix's start.
pub proof fn lemma_find_from_skip<T>(s: Seq<T>, p: Seq<T>, d: int, j: int)
    requires
        0 <= d <= s.len(),
        0 <= j,
    ensures
        find_from(s.skip(d), p, j) == (match find_from(s, p, d + j) {
            Some(k) => Some(k - d),
            None => None,
        }),
    decreases s.len() + 1 - d - j,
{
    lemma_matches_at_skip(s, p, d, j);
    if j + p.len() > s.len() - d {
    } else if matches_at(s, p, d + j) {
    } else {
        lemma_find_from_skip(s, p, d, j + 1);
    }
}

/// The two parts of a concatenation, concatenated, are the whole.
pub proof fn lemma_concat_push<T>(parts: Seq<Seq<T>>, x: Seq<T>)
    ensures
        concat(parts.push(x)) == concat(parts) + x,
{
    assert(parts.push(x).drop_last() =~= parts);
}

/// Replacing in `x + y`, where no element of `x` starts the pattern, is
/// keeping `x` and replacing in `y`.
pub proof fn lemma_replace_all_prefix<T>(x: Seq<T>, y: Seq<T>, from: Seq<T>, to: Seq<T>)
    requires
        from.len() > 0,
        forall|j: int| 0 <= j < x.len() ==> x[j] != from[0],
    ensures
        replace_all(x + y, from, to) == x + replace_all(y, from, to),
{
    let s = x + y;
    let d = x.len() as int;
    assert forall|j: int| 0 <= j < d implies !#[trigger] matches_at(s, from, j) by {
        if matches_at(s, from, j) {
            assert(s.subrange(j, j + from.len())[0] == s[j]);
        }
    }
    assert(s.skip(d) =~= y);
    lemma_find_from_skip(s, from, d, 0);
    lemma_find_from(s, from, d);
    lemma_find_from(y, from, 0);
    match find_from(s, from, d) {
        Some(k) => {
            lemma_find_from_first(s, from, 0, k);
            assert(s.take(k) =~= x + y.take(k - d));
            assert(s.skip(k + from.len()) =~= y.skip(k - d + from.len()));
        },
        None => {
            assert forall|j: int| 0 <= j implies !#[trigger] matches_at(s, from, j) by {
                if j >= d {
                }
            }
            lemma_find_from_none(s, from, 0);
        },
    }
}

/// Replacing in a text that starts with the pattern replaces that first
/// occurrence, then the rest.
pub proof fn lemma_replace_all_leading<T>(y: Seq<T>, from: Seq<T>, to: Seq<T>)
    requires
        from.len() > 0,
    ensures
        replace_all(from + y, from, to) == to + replace_all(y, from, to),
{
    let s = from + y;
    assert(s.subrange(0, from.len() as int) =~= from);
    assert(find_from(s, from, 0) == Some(0int));
    assert(s.take(0) + to =~= to);
    assert(s.skip(from.len() as int) =~= y);
}

/// A text in which no element starts the pattern is left as it is.
pub proof fn lemma_replace_all_none<T>(x: Seq<T>, from: Seq<T>, to: Seq<T>)
    requires
        from.len() > 0,
        forall|j: int| 0 <= j < x.len() ==> x[j] != from[0],
    ensures
        replace_all(x, from, to) == x,
{
    lemma_replace_all_prefix(x, seq![], from, to);
    assert(x + Seq::<T>::empty() =~= x);
    assert(find_from(Seq::<T>::empty(), from, 0) is None);
}

// ---------------------------------------------------------------------------
// Trusted std items
// ---------------------------------------------------------------------------

/// `String::push` appends the character `c` to the end of `s`.
#[verifier::external_body]
fn push_char(s: &mut String, c: char)
    ensures
        final(s)@ == old(s)@.push(c),
{
    s.push(c);
}

/// `String::into_boxed_str` turns a `String` into a `Box<str>` holding the
/// same characters.
#[verifier::external_body]
pub(crate) fn boxed_str(s: String) -> (b: Box<str>)
    ensures
        b@ == s@,
{
    s.into_boxed_str()
}

/// What `str::to_lowercase` returns for a string: its lowercase form by
/// the Unicode `Lowercase` mapping. This depends on the string alone.
pub uninterp spec fn lowercase(s: Seq<char>) -> Seq<char>;

/// `str::to_lowercase` returns the lowercase form of `s`, named
/// [`lowercase`]. Of that form only this is stated: an ASCII string is
/// mapped character by character, each capital letter `A`-`Z` to its
/// small letter and every other character to itself (the Unicode
/// lowercase mapping of an ASCII character is its ASCII lowercase).
#[verifier::external_body]
pub(crate) fn to_lowercase(s: &str) -> (r: String)
    ensures
        r@ == lowercase(s@),
        vstd::utf8::is_ascii_chars(s@) ==> r@ == s@.map_values(|c: char| ascii_lower(c)),
{
    s.to_lowercase()
}

/// Whether `char::is_alphanumeric` holds of a character (Unicode
/// `Alphabetic` or `Numeric`). This depends on the character alone.
pub uninterp spec fn is_alphanumeric(c: char) -> bool;

/// `char::is_alphanumeric` tells whether `c` is alphabetic or numeric,
/// named [`is_alphanumeric`]; the Unicode tables it consults are not stated.
#[verifier::external_body]
pub(crate) fn char_is_alphanumeric(c: char) -> (b: bool)
    ensures
        b == is_alphanumeric(c),
{
    c.is_alphanumeric()
}

/// `String::from_utf8` accepts exactly the valid UTF-8 byte strings and
/// decodes them; `Result::ok` keeps the string and drops the error.
#[verifier::external_body]
pub(crate) fn string_from_utf8(v: Vec<u8>) -> (r: Option<String>)
    ensures
        r is Some <==> vstd::utf8::valid_utf8(v@),
        r matches Some(s) ==> s@ == vstd::utf8::decode_utf8(v@),
{
    String::from_utf8(v).ok()
}

// ---------------------------------------------------------------------------
// Conversions
// ---------------------------------------------------------------------------

/// The characters of `s`, in order.
pub fn chars_of(s: &str) -> (v: Vec<char>)
    ensures
        v@ == s@,
{
    let mut v: Vec<char> = Vec::new();
    for c in it: s.chars()
        invariant
            v@ == it.seq().take(it.index() as int),
    {
        v.push(c);
    }
    v
}

/// A `String` holding the characters of `v`.
pub fn string_of(v: &[char]) -> (s: String)
    ensures
        s@ == v@,
{
    let mut s = String::new();
    let mut i: usize = 0;
    while i < v.len()
        invariant
            0 <= i <= v.len(),
            s@ == v@.take(i as int),
        decreases v.len() - i,
    {
        push_char(&mut s, v[i]);
        assert(v@.take(i + 1) =~= v@.take(i as int).push(v@[i as int]));
        i = i + 1;
    }
    assert(v@.take(v.len() as int) =~= v@);
    s
}

/// The characters `v[from..to]`.
pub fn sub_chars(v: &[char], from: usize, to: usize) -> (r: Vec<char>)
    requires
        from <= to <= v.len(),
    ensures
        r@ == v@.subrange(from as int, to as int),
{
    let mut r: Vec<char> = Vec::new();
    let mut i = from;
    while i < to
        invariant
            from <= i <= to <= v.len(),
            r@ == v@.subrange(from as int, i as int),
        decreases to - i,
    {
        r.push(v[i]);
        assert(v@.subrange(from as int, i + 1) =~= v@.subrange(from as int, i as int).push(
            v@[i as int],
        ));
        i = i + 1;
    }
    r
}

/// Appends the characters of `w` to `v`.
pub fn extend_chars(v: &mut Vec<char>, w: &[char])
    ensures
        final(v)@ == old(v)@ + w@,
{
    let mut i: usize = 0;
    while i < w.len()
        invariant
            0 <= i <= w.len(),
            v@ == old(v)@ + w@.take(i as int),
        decreases w.len() - i,
    {
        v.push(w[i]);
        assert(w@.take(i + 1) =~= w@.take(i as int).push(w@[i as int]));
        i = i + 1;
    }
    assert(w@.take(w.len() as int) =~= w@);
}

// ---------------------------------------------------------------------------
// Searching
// ---------------------------------------------------------------------------

/// Whether `p` occurs in `s` at index `i`.
pub fn chars_match_at(s: &[char], p: &[char], i: usize) -> (b: bool)
    ensures
        b == matches_at(s@, p@, i as int),
{
    if i > s.len() || p.len() > s.len() - i {
        return false;
    }
    let mut k: usize = 0;
    while k < p.len()
        invariant
            i + p.len() <= s.len(),
            0 <= k <= p.len(),
            forall|m: int| 0 <= m < k ==> s@[i + m] == p@[m],
        decreases p.len() - k,
    {
        if s[i + k] != p[k] {
            assert(s@.subrange(i as int, i + p.len())[k as int] != p@[k as int]);
            return false;
        }
        k = k + 1;
    }
    assert(s@.subrange(i as int, i + p.len()) =~= p@);
    true
}

/// The first index at or after `start` at which `p` occurs in `s`.
pub fn chars_find_from(s: &[char], p: &[char], start: usize) -> (r: Option<usize>)
    ensures
        r == (match find_from(s@, p@, start as int) {
            Some(k) => Some(k as usize),
            None => None::<usize>,
        }),
        r matches Some(k) ==> k + p.len() <= s.len(),
{
    proof {
        lemma_find_from(s@, p@, start as int);
    }
    let mut i = start;
    while i <= s.len() && p.len() <= s.len() - i
        invariant
            start <= i,
            find_from(s@, p@, start as int) == find_from(s@, p@, i as int),
        decreases s.len() + 1 - i,
    {
        if chars_match_at(s, p, i) {
            return Some(i);
        }
        if i == s.len() {
            assert(find_from(s@, p@, i + 1) is None);
            return None;
        }
        i = i + 1;
    }
    None
}

/// Whether `p` occurs in `s`.
pub fn chars_contains(s: &[char], p: &[char]) -> (b: bool)
    ensures
        b == contains(s@, p@),
{
    proof {
        lemma_find_from(s@, p@, 0);
    }
    match chars_find_from(s, p, 0) {
        Some(_) => true,
        None => false,
    }
}

/// The parts of `s` before and after the first occurrence of `p`.
pub fn chars_split_once(s: &[char], p: &[char]) -> (r: Option<(Vec<char>, Vec<char>)>)
    ensures
        match r {
            Some((a, b)) => split_once(s@, p@) == Some((a@, b@)),
            None => split_once(s@, p@) is None,
        },
{
    proof {
        lemma_find_from(s@, p@, 0);
    }
    match chars_find_from(s, p, 0) {
        Some(i) => {
            let a = sub_chars(s, 0, i);
            let b = sub_chars(s, i + p.len(), s.len());
            assert(a@ =~= s@.take(i as int));
            assert(b@ =~= s@.skip(i + p.len()));
            Some((a, b))
        },
        None => None,
    }
}

// ---------------------------------------------------------------------------
// Trimming
// ---------------------------------------------------------------------------

/// Whether `c` is whitespace, as `char::is_whitespace` decides.
pub fn char_is_whitespace(c: char) -> (b: bool)
    ensures
        b == is_whitespace(c),
{
    let u = c as u32;
    (0x09 <= u && u <= 0x0d) || u == 0x20 || u == 0x85 || u == 0xa0 || u == 0x1680 || (0x2000
        <= u && u <= 0x200a) || u == 0x2028 || u == 0x2029 || u == 0x202f || u == 0x205f || u
        == 0x3000
}

/// `s` without leading and trailing whitespace.
pub fn chars_trim(s: &[char]) -> (r: Vec<char>)
    ensures
        r@ == trim(s@),
{
    let mut a: usize = 0;
    assert(s@.skip(0) =~= s@);
    while a < s.len() && char_is_whitespace(s[a])
        invariant
            0 <= a <= s.len(),
            trim_start(s@) == trim_start(s@.skip(a as int)),
        decreases s.len() - a,
    {
        assert(s@.skip(a as int).drop_first() =~= s@.skip(a + 1));
        a = a + 1;
    }
    let ghost t = s@.skip(a as int);
    assert(trim_start(s@) == t);
    let mut b: usize = s.len();
    while b > a && char_is_whitespace(s[b - 1])
        invariant
            a <= b <= s.len(),
            t == s@.skip(a as int),
            trim_end(t) == trim_end(s@.subrange(a as int, b as int)),
        decreases b,
    {
        assert(s@.subrange(a as int, b as int).drop_last() =~= s@.subrange(a as int, b - 1));
        b = b - 1;
    }
    assert(s@.skip(a as int) =~= s@.subrange(a as int, s.len() as int));
    sub_chars(s, a, b)
}

/// `s` without trailing whitespace.
pub fn chars_trim_end(s: &[char]) -> (r: Vec<char>)
    ensures
        r@ == trim_end(s@),
{
    let mut b: usize = s.len();
    assert(s@.take(s.len() as int) =~= s@);
    while b > 0 && char_is_whitespace(s[b - 1])
        invariant
            b <= s.len(),
            trim_end(s@) == trim_end(s@.take(b as int)),
        decreases b,
    {
        assert(s@.take(b as int).drop_last() =~= s@.take(b - 1));
        b = b - 1;
    }
    assert(s@.take(b as int) =~= s@.subrange(0, b as int));
    sub_chars(s, 0, b)
}

// ---------------------------------------------------------------------------
// Lines
// ---------------------------------------------------------------------------

/// `l` without the `'\r'` that may end it.
pub fn chars_strip_cr(l: Vec<char>) -> (r: Vec<char>)
    ensures
        r@ == strip_cr(l@),
{
    let mut l = l;
    if l.len() > 0 && l[l.len() - 1] == '\r' {
        l.pop();
    }
    l
}

/// The lines of `s`, as `str::lines` yields them.
pub fn chars_lines(s: &[char]) -> (r: Vec<Vec<char>>)
    ensures
        r@.len() == lines(s@).len(),
        forall|i: int| 0 <= i < r@.len() ==> #[trigger] r@[i]@ == lines(s@)[i],
{
    let mut r: Vec<Vec<char>> = Vec::new();
    let mut start: usize = 0;
    let mut i: usize = 0;
    let ghost nl = seq!['\n'];
    assert(s@.skip(0) =~= s@);
    assert(r@.map_values(|l: Vec<char>| l@) + lines(s@) =~= lines(s@));
    while i < s.len()
        invariant
            start <= i <= s.len(),
            nl == seq!['\n'],
            forall|j: int| start <= j < i ==> s@[j] != '\n',
            lines(s@) == r@.map_values(|l: Vec<char>| l@) + lines(s@.skip(start as int)),
        decreases s.len() - i,
    {
        if s[i] == '\n' {
            let ghost rest = s@.skip(start as int);
            proof {
                assert forall|j: int| 0 <= j < i - start implies !#[trigger] matches_at(
                    rest,
                    nl,
                    j,
                ) by {
                    assert(rest.subrange(j, j + 1)[0] == s@[start + j]);
                }
                assert(rest.subrange(i - start, i - start + 1) =~= nl);
                lemma_find_from_first(rest, nl, 0, i - start);
                assert(rest.take(i - start) =~= s@.subrange(start as int, i as int));
                assert(rest.skip(i - start + 1) =~= s@.skip(i + 1));
            }
            let line = chars_strip_cr(sub_chars(s, start, i));
            let ghost before = r@;
            r.push(line);
            assert(r@.map_values(|l: Vec<char>| l@) =~= before.map_values(|l: Vec<char>| l@)
                + seq![line@]);
            start = i + 1;
        }
        i = i + 1;
    }
    if start < s.len() {
        let ghost rest = s@.skip(start as int);
        proof {
            assert forall|j: int| 0 <= j implies !#[trigger] matches_at(rest, nl, j) by {
                if j + 1 <= rest.len() {
                    assert(rest.subrange(j, j + 1)[0] == s@[start + j]);
                }
            }
            lemma_find_from_none(rest, nl, 0);
        }
        let line = sub_chars(s, start, s.len());
        assert(line@ =~= rest);
        let ghost before = r@;
        r.push(line);
        assert(r@.map_values(|l: Vec<char>| l@) =~= before.map_values(|l: Vec<char>| l@)
            + seq![line@]);
    } else {
        assert(s@.skip(start as int).len() == 0);
        assert(r@.map_values(|l: Vec<char>| l@) + lines(s@.skip(start as int)) =~= r@.map_values(
            |l: Vec<char>| l@,
        ));
    }
    r
}

// ---------------------------------------------------------------------------
// Replacing
// ---------------------------------------------------------------------------

/// `s` with every occurrence of the non-empty `from` replaced by `to`.
pub fn chars_replace(s: &[char], from: &[char], to: &[char]) -> (r: Vec<char>)
    requires
        from.len() > 0,
    ensures
        r@ == replace_all(s@, from@, to@),
{
    let mut r: Vec<char> = Vec::new();
    let mut pos: usize = 0;
    assert(s@.skip(0) =~= s@);
    assert(r@ + replace_all(s@, from@, to@) =~= replace_all(s@, from@, to@));
    loop
        invariant
            0 <= pos <= s.len(),
            from.len() > 0,
            replace_all(s@, from@, to@) == r@ + replace_all(s@.skip(pos as int), from@, to@),
        decreases s.len() - pos,
    {
        proof {
            lemma_find_from_skip(s@, from@, pos as int, 0);
            lemma_find_from(s@, from@, pos as int);
        }
        match chars_find_from(s, from, pos) {
            Some(k) => {
                let ghost rest = s@.skip(pos as int);
                let piece = sub_chars(s, pos, k);
                assert(piece@ =~= rest.take(k - pos));
                assert(rest.skip(k - pos + from.len()) =~= s@.skip(k + from.len()));
                extend_chars(&mut r, &piece);
                extend_chars(&mut r, to);
                pos = k + from.len();
            },
            None => {
                let piece = sub_chars(s, pos, s.len());
                assert(piece@ =~= s@.skip(pos as int));
                extend_chars(&mut r, &piece);
                return r;
            },
        }
    }
}

// ---------------------------------------------------------------------------
// Numbers
// ---------------------------------------------------------------------------

/// The decimal digits of `n`.
pub fn decimal_chars(n: usize) -> (v: Vec<char>)
    ensures
        v@ == decimal(n as nat),
    decreases n,
{
    let d = (n % 10) as u8;
    let c = (48u8 + d) as char;
    assert(c == digit_char((n % 10) as nat));
    if n < 10 {
        let mut v: Vec<char> = Vec::new();
        v.push(c);
        assert(v@ =~= seq![digit_char(n as nat)]);
        v
    } else {
        let mut v = decimal_chars(n / 10);
        v.push(c);
        v
    }
}

// ---------------------------------------------------------------------------
// Laws
// ---------------------------------------------------------------------------

/// The number the decimal digits `d` stand for.
pub open spec fn digits_value(d: Seq<char>) -> int
    decreases d.len(),
{
    if d.len() == 0 {
        0
    } else {
        digits_value(d.drop_last()) * 10 + (d.last() as int - 48)
    }
}

/// The decimal form of `n` is made of the digits `0` to `9`, stands for
/// `n`, and starts with `0` only when it is `0` itself.
pub proof fn law_decimal_stands_for_its_number(n: nat)
    ensures
        forall|i: int| 0 <= i < decimal(n).len() ==> '0' <= #[trigger] decimal(n)[i] <= '9',
        digits_value(decimal(n)) == n,
        decimal(n).len() > 0,
        decimal(n)[0] == '0' ==> n == 0,
    decreases n,
{
    if n >= 10 {
        law_decimal_stands_for_its_number(n / 10);
        let d = decimal(n);
        let p = decimal(n / 10);
        assert(d == p.push(digit_char(n % 10)));
        assert(d.drop_last() =~= p);
        assert(digit_char(n % 10) as int - 48 == n % 10);
        assert(digits_value(d) == digits_value(p) * 10 + (n % 10));
        assert((n / 10) * 10 + n % 10 == n) by (nonlinear_arith);
        assert forall|i: int| 0 <= i < d.len() implies '0' <= #[trigger] d[i] <= '9' by {
            if i < p.len() {
                assert(d[i] == p[i]);
            }
        }
        assert(d[0] == p[0]);
    } else {
        assert(digit_char(n) as int - 48 == n);
        assert(decimal(n).drop_last() =~= Seq::<char>::empty());
        assert(digits_value(Seq::<char>::empty()) == 0);
        assert(digits_value(decimal(n)) == digits_value(decimal(n).drop_last()) * 10 + (n as int));
    }
}

/// Trimming removes whitespace from the two ends and nothing else: the
/// result is a stretch of `s` that neither starts nor ends with whitespace,
/// and all that stands before and after it in `s` is whitespace.
pub proof fn law_trim_cuts_only_whitespace(s: Seq<char>)
    ensures
        exists|a: int, b: int|
            0 <= a <= b <= s.len() && trim(s) == s.subrange(a, b) && (forall|i: int|
                0 <= i < a ==> is_whitespace(#[trigger] s[i])) && (forall|i: int|
                b <= i < s.len() ==> is_whitespace(#[trigger] s[i])),
        trim(s).len() > 0 ==> !is_whitespace(trim(s)[0]) && !is_whitespace(trim(s).last()),
{
    let (a, t) = lemma_trim_start_cut(s);
    let b = lemma_trim_end_cut(t);
    assert(trim(s) == s.subrange(a, a + b)) by {
        assert(t.subrange(0, b) =~= s.subrange(a, a + b));
    }
    assert forall|i: int| a + b <= i < s.len() implies is_whitespace(#[trigger] s[i]) by {
        assert(s[i] == t[i - a]);
    }
    if trim(s).len() > 0 {
        assert(trim(s)[0] == t[0]);
    }
}

/// `trim_start(s)` is `s` from the first character that is not whitespace.
proof fn lemma_trim_start_cut(s: Seq<char>) -> (r: (int, Seq<char>))
    ensures
        0 <= r.0 <= s.len(),
        r.1 == s.skip(r.0),
        r.1 == trim_start(s),
        forall|i: int| 0 <= i < r.0 ==> is_whitespace(#[trigger] s[i]),
        r.1.len() > 0 ==> !is_whitespace(r.1[0]),
    decreases s.len(),
{
    if s.len() > 0 && is_whitespace(s[0]) {
        let (a, t) = lemma_trim_start_cut(s.drop_first());
        assert(s.drop_first().skip(a) =~= s.skip(a + 1));
        assert forall|i: int| 0 <= i < a + 1 implies is_whitespace(#[trigger] s[i]) by {
            if i > 0 {
                assert(s[i] == s.drop_first()[i - 1]);
            }
        }
        (a + 1, t)
    } else {
        assert(s.skip(0) =~= s);
        (0, s)
    }
}

/// `trim_end(t)` is `t` up to the last character that is not whitespace,
/// and what follows is whitespace.
proof fn lemma_trim_end_cut(t: Seq<char>) -> (b: int)
    ensures
        0 <= b <= t.len(),
        trim_end(t) == t.subrange(0, b),
        forall|i: int| b <= i < t.len() ==> is_whitespace(#[trigger] t[i]),
        b > 0 ==> !is_whitespace(t[b - 1]),
        b > 0 ==> t.len() > 0 && t[0] == trim_end(t)[0],
    decreases t.len(),
{
    if t.len() > 0 && is_whitespace(t.last()) {
        let b = lemma_trim_end_cut(t.drop_last());
        assert(t.drop_last().subrange(0, b) =~= t.subrange(0, b));
        assert forall|i: int| b <= i < t.len() implies is_whitespace(#[trigger] t[i]) by {
            if i < t.len() - 1 {
                assert(t[i] == t.drop_last()[i]);
            }
        }
        if b > 0 {
            assert(t.drop_last()[b - 1] == t[b - 1]);
            assert(t.drop_last()[0] == t[0]);
        }
        b
    } else {
        assert(t.subrange(0, t.len() as int) =~= t);
        t.len() as int
    }
}

} // verus!
