//! Story lines found in the wiki pages, and the text handling around a
//! search: blank squeezing, outlining, matching and numbering.
use vstd::prelude::*;
use vstd::utf8::{
    decode_utf8_encode_utf8, encode_utf8, encode_utf8_decode_utf8, encode_utf8_valid_utf8,
    is_ascii_chars, is_ascii_chars_encode_utf8,
};
use crate::highlight::{
    ascii_bytes, insert_markers, insert_markers_exec, law_ascii_outline_only_adds_markers,
    law_outline_wraps_each_match, lemma_insert_markers_valid, marker, match_positions, no_star,
    wrap_matches,
};
use crate::sort::{DistinctKeyed, Keyed};
use crate::text::{
    ascii_lower, chars_of, lowercase, replace_all, string_from_utf8, string_of,
    to_lowercase,
};

verus! {

/// A line of a story page: what a student says, what Sensei says or
/// answers, an info line, or the page's description.
#[derive(Debug, PartialEq, Eq, Hash)]
pub enum Line {
    Student { file_name: String, name: String, text: String },
    Sensei { file_name: String, text: String },
    Info { file_name: String, text: String },
    Description { file_name: String, text: String },
}

/// The mathematical value of a [`Line`].
pub enum LineValue {
    Student { file_name: Seq<char>, name: Seq<char>, text: Seq<char> },
    Sensei { file_name: Seq<char>, text: Seq<char> },
    Info { file_name: Seq<char>, text: Seq<char> },
    Description { file_name: Seq<char>, text: Seq<char> },
}

impl View for Line {
    type V = LineValue;

    open spec fn view(&self) -> LineValue {
        match self {
            Line::Student { file_name, name, text } => LineValue::Student {
                file_name: file_name@,
                name: name@,
                text: text@,
            },
            Line::Sensei { file_name, text } => LineValue::Sensei {
                file_name: file_name@,
                text: text@,
            },
            Line::Info { file_name, text } => LineValue::Info { file_name: file_name@, text: text@ },
            Line::Description { file_name, text } => LineValue::Description {
                file_name: file_name@,
                text: text@,
            },
        }
    }
}

impl LineValue {
    /// The file the line was found in.
    pub open spec fn file_name(self) -> Seq<char> {
        match self {
            LineValue::Student { file_name, .. } => file_name,
            LineValue::Sensei { file_name, .. } => file_name,
            LineValue::Info { file_name, .. } => file_name,
            LineValue::Description { file_name, .. } => file_name,
        }
    }

    /// Who speaks the line: the student's name, or `Sensei`, `INFO LINE`
    /// or `DESCRIPTION`.
    pub open spec fn speaker(self) -> Seq<char> {
        match self {
            LineValue::Student { name, .. } => name,
            LineValue::Sensei { .. } => "Sensei"@,
            LineValue::Info { .. } => "INFO LINE"@,
            LineValue::Description { .. } => "DESCRIPTION"@,
        }
    }

    /// What the line says.
    pub open spec fn text(self) -> Seq<char> {
        match self {
            LineValue::Student { text, .. } => text,
            LineValue::Sensei { text, .. } => text,
            LineValue::Info { text, .. } => text,
            LineValue::Description { text, .. } => text,
        }
    }

    /// The key by which lines are ordered, as the derived `Ord` of the
    /// enum orders them: the variant first, then the fields in order, each
    /// string by its UTF-8 bytes.
    pub open spec fn key(self) -> Seq<Seq<u8>> {
        match self {
            LineValue::Student { file_name, name, text } => seq![
                seq![0u8],
                encode_utf8(file_name),
                encode_utf8(name),
                encode_utf8(text),
            ],
            LineValue::Sensei { file_name, text } => seq![
                seq![1u8],
                encode_utf8(file_name),
                encode_utf8(text),
            ],
            LineValue::Info { file_name, text } => seq![
                seq![2u8],
                encode_utf8(file_name),
                encode_utf8(text),
            ],
            LineValue::Description { file_name, text } => seq![
                seq![3u8],
                encode_utf8(file_name),
                encode_utf8(text),
            ],
        }
    }
}

/// A copy of `s`.
fn copy_string(s: &String) -> (r: String)
    ensures
        r@ == s@,
{
    s.clone()
}

/// The UTF-8 bytes of `s`.
fn bytes_of(s: &String) -> (r: Vec<u8>)
    ensures
        r@ == encode_utf8(s@),
{
    vstd::slice::slice_to_vec(s.as_str().as_bytes())
}

/// The outlined text: the bytes of `initial` with `**` put around each
/// match of the lowercase `input` in the lowercase `initial`, the matches
/// taken at their byte positions in the lowercase text and spanning the
/// byte length of `input`; none where a marker would not fall on a
/// character boundary.
pub open spec fn outlined(initial: Seq<char>, input: Seq<char>) -> Option<Seq<u8>> {
    insert_markers(
        encode_utf8(initial),
        match_positions(encode_utf8(lowercase(initial)), encode_utf8(lowercase(input)), 0),
        encode_utf8(input).len() as int,
    )
}

impl Line {
    /// The file the line was found in.
    pub fn file_name(&self) -> (r: String)
        ensures
            r@ == self@.file_name(),
    {
        match self {
            Line::Student { file_name, .. } => copy_string(file_name),
            Line::Sensei { file_name, .. } => copy_string(file_name),
            Line::Info { file_name, .. } => copy_string(file_name),
            Line::Description { file_name, .. } => copy_string(file_name),
        }
    }

    /// Who speaks the line.
    pub fn speaker(&self) -> (r: String)
        ensures
            r@ == self@.speaker(),
    {
        match self {
            Line::Student { name, .. } => copy_string(name),
            Line::Sensei { .. } => "Sensei".to_owned(),
            Line::Info { .. } => "INFO LINE".to_owned(),
            Line::Description { .. } => "DESCRIPTION".to_owned(),
        }
    }

    /// What the line says.
    pub fn text(&self) -> (r: String)
        ensures
            r@ == self@.text(),
    {
        match self {
            Line::Student { text, .. } => copy_string(text),
            Line::Sensei { text, .. } => copy_string(text),
            Line::Info { text, .. } => copy_string(text),
            Line::Description { text, .. } => copy_string(text),
        }
    }

    /// A line equal to this one.
    pub fn duplicate(&self) -> (r: Line)
        ensures
            r@ == self@,
    {
        match self {
            Line::Student { file_name, name, text } => Line::Student {
                file_name: copy_string(file_name),
                name: copy_string(name),
                text: copy_string(text),
            },
            Line::Sensei { file_name, text } => Line::Sensei {
                file_name: copy_string(file_name),
                text: copy_string(text),
            },
            Line::Info { file_name, text } => Line::Info {
                file_name: copy_string(file_name),
                text: copy_string(text),
            },
            Line::Description { file_name, text } => Line::Description {
                file_name: copy_string(file_name),
                text: copy_string(text),
            },
        }
    }

    /// Outlines the matches of `input` in `initial` with double asterisks,
    /// ignoring case: `outline("apple banana", "banana")` is
    /// `apple **banana**`. The matches are found in the lowercase forms and
    /// the asterisks go in at the same byte positions of `initial`, from the
    /// last match to the first; none where such a position is not a
    /// character boundary of the text (where `String::insert_str` panics).
    /// For ASCII text without `*` and an ASCII input it never fails, and
    /// removing every `**` from the bytes of the result gives the text back.
    pub fn outline(initial: &str, input: &str) -> (r: Option<String>)
        ensures
            r is Some <==> outlined(initial@, input@) is Some,
            r matches Some(s) ==> encode_utf8(s@) == outlined(initial@, input@).unwrap(),
            is_ascii_chars(initial@) && is_ascii_chars(input@) && !initial@.contains('*') ==> (r
                matches Some(s) && replace_all(encode_utf8(s@), marker(), seq![]) == encode_utf8(initial@)),
    {
        let text = bytes_of(&initial.to_owned());
        let lower_text = bytes_of(&to_lowercase(initial));
        let lower_input = bytes_of(&to_lowercase(input));
        let n = input.as_bytes().len();
        proof {
            if is_ascii_chars(initial@) && is_ascii_chars(input@) && !initial@.contains('*') {
                lemma_ascii_encoding(initial@);
                lemma_ascii_encoding(input@);
                lemma_ascii_lowercase(initial@);
                lemma_ascii_lowercase(input@);
                assert forall|i: int| 0 <= i < text@.len() implies #[trigger] text@[i] != 42u8 by {
                    if text@[i] == 42u8 {
                        assert(initial@[i] == '*');
                    }
                }
                assert(no_star(text@));
                law_ascii_outline_only_adds_markers(
                    text@,
                    lower_text@,
                    lower_input@,
                    n as int,
                );
            }
        }
        match insert_markers_exec(&text, &lower_text, &lower_input, n) {
            Some(v) => {
                proof {
                    encode_utf8_valid_utf8(initial@);
                    lemma_insert_markers_valid(
                        text@,
                        match_positions(lower_text@, lower_input@, 0),
                        n as int,
                    );
                }
                let ghost bytes = v@;
                match string_from_utf8(v) {
                    Some(s) => {
                        proof {
                            decode_utf8_encode_utf8(bytes);
                        }
                        Some(s)
                    },
                    None => {
                        assert(false);
                        None
                    },
                }
            },
            None => None,
        }
    }
}

/// An ASCII string is encoded one byte per character, each byte the
/// character's code, below 128.
proof fn lemma_ascii_encoding(s: Seq<char>)
    requires
        is_ascii_chars(s),
    ensures
        encode_utf8(s).len() == s.len(),
        ascii_bytes(encode_utf8(s)),
        forall|i: int| 0 <= i < s.len() ==> #[trigger] encode_utf8(s)[i] == s[i] as u8,
{
    is_ascii_chars_encode_utf8(s);
    assert forall|i: int| 0 <= i < encode_utf8(s).len() implies #[trigger] encode_utf8(s)[i]
        < 128 by {
        assert(s[i] <= '\u{7f}');
        assert(encode_utf8(s)[i] == s[i] as u8);
    }
}

/// The lowercase form of an ASCII string is ASCII and as long.
proof fn lemma_ascii_lowercase(s: Seq<char>)
    requires
        is_ascii_chars(s),
    ensures
        is_ascii_chars(s.map_values(|c: char| ascii_lower(c))),
        s.map_values(|c: char| ascii_lower(c)).len() == s.len(),
        encode_utf8(s.map_values(|c: char| ascii_lower(c))).len() == s.len(),
{
    let t = s.map_values(|c: char| ascii_lower(c));
    assert forall|i: int| 0 <= i < t.len() implies '\0' <= #[trigger] t[i] <= '\u{7f}' by {
        assert(s[i] <= '\u{7f}');
    }
    lemma_ascii_encoding(t);
}

impl Keyed for Line {
    open spec fn key_of(v: LineValue) -> Seq<Seq<u8>> {
        v.key()
    }

    fn key(&self) -> (k: Vec<Vec<u8>>)
        ensures
            k@.map_values(|b: Vec<u8>| b@) == Self::key_of(self@),
    {
        let mut k: Vec<Vec<u8>> = Vec::new();
        let mut tag: Vec<u8> = Vec::new();
        match self {
            Line::Student { file_name, name, text } => {
                tag.push(0u8);
                k.push(tag);
                k.push(bytes_of(file_name));
                k.push(bytes_of(name));
                k.push(bytes_of(text));
            },
            Line::Sensei { file_name, text } => {
                tag.push(1u8);
                k.push(tag);
                k.push(bytes_of(file_name));
                k.push(bytes_of(text));
            },
            Line::Info { file_name, text } => {
                tag.push(2u8);
                k.push(tag);
                k.push(bytes_of(file_name));
                k.push(bytes_of(text));
            },
            Line::Description { file_name, text } => {
                tag.push(3u8);
                k.push(tag);
                k.push(bytes_of(file_name));
                k.push(bytes_of(text));
            },
        }
        assert(k@.map_values(|b: Vec<u8>| b@) =~= self@.key());
        k
    }
}

impl DistinctKeyed for Line {
    proof fn lemma_key_injective(a: LineValue, b: LineValue) {
        let ka = a.key();
        let kb = b.key();
        assert(ka[0] == kb[0]);
        assert(ka[1] == kb[1]);
        assert(ka[2] == kb[2]);
        encode_utf8_decode_utf8(a.file_name());
        encode_utf8_decode_utf8(b.file_name());
        encode_utf8_decode_utf8(a.text());
        encode_utf8_decode_utf8(b.text());
        encode_utf8_decode_utf8(a.speaker());
        encode_utf8_decode_utf8(b.speaker());
        assert(ka[0][0] == kb[0][0]);
        match a {
            LineValue::Student { .. } => {
                assert(ka[3] == kb[3]);
                assert(b is Student);
            },
            LineValue::Sensei { .. } => {
                assert(b is Sensei);
            },
            LineValue::Info { .. } => {
                assert(b is Info);
            },
            LineValue::Description { .. } => {
                assert(b is Description);
            },
        }
    }
}

// ---------------------------------------------------------------------------
// Squeezing blanks
// ---------------------------------------------------------------------------

/// A space, a tab or a carriage return.
pub open spec fn is_blank(c: char) -> bool {
    c == ' ' || c == '\t' || c == '\r'
}

/// `s` with each run of blanks (spaces, tabs, carriage returns) replaced
/// by one space.
pub open spec fn squeeze_blanks(s: Seq<char>) -> Seq<char>
    decreases s.len(),
{
    if s.len() == 0 {
        seq![]
    } else if is_blank(s.last()) {
        if s.len() > 1 && is_blank(s[s.len() - 2]) {
            squeeze_blanks(s.drop_last())
        } else {
            squeeze_blanks(s.drop_last()).push(' ')
        }
    } else {
        squeeze_blanks(s.drop_last()).push(s.last())
    }
}

/// Replaces each run of spaces, tabs and carriage returns in `input` by a
/// single space.
pub fn remove_double_spaces(input: &str) -> (r: String)
    ensures
        r@ == squeeze_blanks(input@),
{
    let chars = chars_of(input);
    let mut result: Vec<char> = Vec::new();
    let mut last_was_blank = false;
    let mut i: usize = 0;
    while i < chars.len()
        invariant
            i <= chars.len(),
            result@ == squeeze_blanks(chars@.take(i as int)),
            last_was_blank == (i > 0 && is_blank(chars@[i - 1])),
        decreases chars.len() - i,
    {
        let c = chars[i];
        let ghost prefix = chars@.take(i + 1);
        assert(prefix.drop_last() =~= chars@.take(i as int));
        assert(prefix.last() == c);
        if c == ' ' || c == '\t' || c == '\r' {
            if !last_was_blank {
                result.push(' ');
                last_was_blank = true;
            }
        } else {
            result.push(c);
            last_was_blank = false;
        }
        i = i + 1;
    }
    assert(chars@.take(chars.len() as int) =~= chars@);
    string_of(&result)
}

/// The squeezed text ends in a space exactly when the text ends in a blank,
/// and is empty exactly when the text is.
proof fn lemma_squeeze_ends(s: Seq<char>)
    ensures
        (squeeze_blanks(s).len() > 0 && squeeze_blanks(s).last() == ' ') <==> (s.len() > 0
            && is_blank(s.last())),
        squeeze_blanks(s).len() == 0 <==> s.len() == 0,
    decreases s.len(),
{
    if s.len() > 0 {
        lemma_squeeze_ends(s.drop_last());
        if s.len() > 1 {
            assert(s.drop_last().last() == s[s.len() - 2]);
        }
    }
}

/// Squeezed text has no tab, no carriage return, and no two spaces in a
/// row.
pub proof fn law_squeezed_has_single_spaces(s: Seq<char>)
    ensures
        forall|i: int|
            0 <= i < squeeze_blanks(s).len() ==> #[trigger] squeeze_blanks(s)[i] != '\t'
                && squeeze_blanks(s)[i] != '\r',
        forall|i: int|
            0 <= i < squeeze_blanks(s).len() - 1 ==> !(#[trigger] squeeze_blanks(s)[i] == ' '
                && squeeze_blanks(s)[i + 1] == ' '),
    decreases s.len(),
{
    if s.len() > 0 {
        let p = s.drop_last();
        law_squeezed_has_single_spaces(p);
        lemma_squeeze_ends(p);
        let r = squeeze_blanks(s);
        let q = squeeze_blanks(p);
        if s.len() > 1 {
            assert(p.last() == s[s.len() - 2]);
        }
        assert forall|i: int| 0 <= i < r.len() - 1 implies !(#[trigger] r[i] == ' ' && r[i + 1]
            == ' ') by {
            if i + 1 < q.len() {
                assert(r[i] == q[i] && r[i + 1] == q[i + 1]);
            } else {
                assert(r[i] == q[i]);
            }
        }
        assert forall|i: int| 0 <= i < r.len() implies #[trigger] r[i] != '\t' && r[i] != '\r' by {
            if i < q.len() {
                assert(r[i] == q[i]);
            }
        }
    }
}

/// Text without tabs, carriage returns or two spaces in a row is left as
/// it is.
proof fn lemma_squeeze_fixpoint(t: Seq<char>)
    requires
        forall|i: int| 0 <= i < t.len() ==> #[trigger] t[i] != '\t' && t[i] != '\r',
        forall|i: int| 0 <= i < t.len() - 1 ==> !(#[trigger] t[i] == ' ' && t[i + 1] == ' '),
    ensures
        squeeze_blanks(t) == t,
    decreases t.len(),
{
    if t.len() > 0 {
        let p = t.drop_last();
        assert forall|i: int| 0 <= i < p.len() implies #[trigger] p[i] != '\t' && p[i] != '\r' by {
            assert(p[i] == t[i]);
        }
        assert forall|i: int| 0 <= i < p.len() - 1 implies !(#[trigger] p[i] == ' ' && p[i + 1]
            == ' ') by {
            assert(p[i] == t[i] && p[i + 1] == t[i + 1]);
        }
        lemma_squeeze_fixpoint(p);
        if t.len() > 1 {
            assert(!(t[t.len() - 2] == ' ' && t[t.len() - 1] == ' '));
        }
        assert(p.push(t.last()) =~= t);
    }
}

/// Squeezing blanks twice is squeezing them once.
pub proof fn law_squeeze_idempotent(s: Seq<char>)
    ensures
        squeeze_blanks(squeeze_blanks(s)) == squeeze_blanks(s),
{
    law_squeezed_has_single_spaces(s);
    lemma_squeeze_fixpoint(squeeze_blanks(s));
}

/// For a text and a non-empty input that lowercasing leaves as they are
/// (lowercase ASCII, say), outlining never fails and puts `**` before
/// and after each occurrence of the input, taken from left to right
/// without overlap.
pub proof fn law_outline_of_lowercase_text(initial: Seq<char>, input: Seq<char>)
    requires
        lowercase(initial) == initial,
        lowercase(input) == input,
        input.len() > 0,
    ensures
        outlined(initial, input) == Some(
            wrap_matches(
                encode_utf8(initial),
                match_positions(encode_utf8(initial), encode_utf8(input), 0),
                encode_utf8(input).len() as int,
            ),
        ),
{
    encode_utf8_valid_utf8(initial);
    encode_utf8_valid_utf8(input);
    assert(encode_utf8(input).len() > 0);
    law_outline_wraps_each_match(encode_utf8(initial), encode_utf8(input));
}

/// Squeezing works run by run: a single blank becomes a space, any other
/// character stays, a run of blanks becomes one space, and a text cut
/// where one side of the cut is not a blank is squeezed piece by piece.
pub proof fn law_squeeze_run_by_run(x: Seq<char>, y: Seq<char>, c: char)
    ensures
        squeeze_blanks(seq![c]) == seq![if is_blank(c) { ' ' } else { c }],
        (x.len() > 0 && forall|i: int| 0 <= i < x.len() ==> is_blank(#[trigger] x[i]))
            ==> squeeze_blanks(x) == seq![' '],
        (x.len() == 0 || y.len() == 0 || !is_blank(x.last()) || !is_blank(y[0])) ==> squeeze_blanks(
            x + y,
        ) == squeeze_blanks(x) + squeeze_blanks(y),
{
    let one = seq![c];
    assert(one.drop_last() =~= Seq::<char>::empty());
    assert(squeeze_blanks(one.drop_last()) =~= Seq::<char>::empty());
    assert(one.last() == c);
    if is_blank(c) {
        assert(squeeze_blanks(one) == squeeze_blanks(one.drop_last()).push(' '));
    } else {
        assert(squeeze_blanks(one) == squeeze_blanks(one.drop_last()).push(c));
    }
    assert(squeeze_blanks(one) =~= seq![if is_blank(c) { ' ' } else { c }]);
    if x.len() > 0 && forall|i: int| 0 <= i < x.len() ==> is_blank(#[trigger] x[i]) {
        lemma_squeeze_blank_run(x);
    }
    if x.len() == 0 || y.len() == 0 || !is_blank(x.last()) || !is_blank(y[0]) {
        lemma_squeeze_split(x, y);
    }
}

/// A run of blanks squeezes to one space.
proof fn lemma_squeeze_blank_run(x: Seq<char>)
    requires
        x.len() > 0,
        forall|i: int| 0 <= i < x.len() ==> is_blank(#[trigger] x[i]),
    ensures
        squeeze_blanks(x) == seq![' '],
    decreases x.len(),
{
    let p = x.drop_last();
    assert(is_blank(x[x.len() - 1]));
    if x.len() > 1 {
        assert forall|i: int| 0 <= i < p.len() implies is_blank(#[trigger] p[i]) by {
            assert(p[i] == x[i]);
        }
        lemma_squeeze_blank_run(p);
        assert(is_blank(x[x.len() - 2]));
    } else {
        assert(squeeze_blanks(p) =~= Seq::<char>::empty());
    }
}

/// Squeezing a text cut next to a character that is not a blank is
/// squeezing the two pieces.
proof fn lemma_squeeze_split(x: Seq<char>, y: Seq<char>)
    requires
        x.len() == 0 || y.len() == 0 || !is_blank(x.last()) || !is_blank(y[0]),
    ensures
        squeeze_blanks(x + y) == squeeze_blanks(x) + squeeze_blanks(y),
    decreases y.len(),
{
    if y.len() == 0 {
        assert(x + y =~= x);
        assert(squeeze_blanks(x) + squeeze_blanks(y) =~= squeeze_blanks(x));
    } else if x.len() == 0 {
        assert(x + y =~= y);
        assert(squeeze_blanks(x) + squeeze_blanks(y) =~= squeeze_blanks(y));
    } else {
        let yp = y.drop_last();
        let c = y.last();
        let s = x + y;
        assert(s.drop_last() =~= x + yp);
        assert(s.last() == c);
        if yp.len() > 0 {
            assert(yp[0] == y[0]);
        }
        lemma_squeeze_split(x, yp);
        if yp.len() > 0 {
            assert(s[s.len() - 2] == yp.last());
            assert(y[y.len() - 2] == yp.last());
        } else {
            assert(s[s.len() - 2] == x.last());
            assert(squeeze_blanks(yp) =~= Seq::<char>::empty());
            assert(c == y[0]);
        }
        if is_blank(c) {
            if s.len() > 1 && is_blank(s[s.len() - 2]) {
                assert(squeeze_blanks(s) == squeeze_blanks(x + yp));
                assert(yp.len() > 0);
                assert(squeeze_blanks(y) == squeeze_blanks(yp));
            } else {
                assert(squeeze_blanks(s) == squeeze_blanks(x + yp).push(' '));
                assert(squeeze_blanks(x) + squeeze_blanks(yp).push(' ') =~= (squeeze_blanks(x)
                    + squeeze_blanks(yp)).push(' '));
            }
        } else {
            assert(squeeze_blanks(x) + squeeze_blanks(yp).push(c) =~= (squeeze_blanks(x)
                + squeeze_blanks(yp)).push(c));
        }
    }
}

} // verus!
