//! The text handling of a search run: checking the arguments, filtering
//! and reshaping what `rg` found, the files to read, how each line is
//! shown, and the final sorting and numbering.
use vstd::prelude::*;
use colored::Colorize;
use crate::paths::{as_path_names, path_strings, FileName, PathName};
use crate::search::{outlined, Line, LineValue};
use crate::sort::{sort_by_key, sort_distinct, sorted_by_key, views};
use crate::text::{
    chars_contains, chars_lines, chars_of, chars_split_once, chars_trim, chars_trim_end, concat,
    contains, decimal, decimal_chars, extend_chars, lemma_concat_push, lines, replace_all,
    split_once, string_of, trim, trim_end, digits_value, law_decimal_stands_for_its_number, find_from, lemma_find_from,
    lemma_find_from_first, matches_at, strip_cr,
};
use vstd::utf8::decode_utf8;

verus! {

broadcast use vstd::seq_lib::group_to_multiset_ensures;

/// What separates a file name from the matched line in `rg` output.
pub const SPLIT: &'static str = ".html:";

/// Lines of `rg` output holding any of these are page markup, not story
/// text, and are dropped.
pub const IGNORED: [&'static str; 109] = [
    "effect:",
    "</span>",
    "volume-",
    "volume icon-",
    "right: ",
    "left: ",
    r#"class="new""#,
    "float: ",
    "text-align:",
    "border: 0;",
    "border-radius",
    "border-width",
    "border-spacing",
    "border-top",
    "border-style",
    "border-bottom",
    "box-sizing:",
    "Lua memory usage:",
    r#"class="story-container"#,
    r#"class="length"#,
    r#"class="current"#,
    r#"class="vector"#,
    r#"class="time"#,
    r#"class="divider"#,
    r#"class="timeline"#,
    r#"class="toggle"#,
    "client-nojs",
    "Parsed by mwtask",
    "table class=",
    "toggle-play pause",
    "background-color:",
    "color: var",
    "transition: background-color",
    "siteSub",
    "mw-",
    "g.async",
    "vector-search",
    "stopMobileRedirectToggle",
    "volume-container",
    "volume-button",
    "searchButton",
    "play-container",
    "BGM stops",
    r#"class="progress""#,
    r#"class="story-bgm-container""#,
    r#"class="controls""#,
    r#"class="timeline""#,
    r#"class="audio-player""#,
    "bluearchivewiki",
    "story-background-image-container",
    "height=",
    "input type=",
    "width=",
    "cdx-",
    "vector-menu",
    "padding-left",
    "padding-right",
    "padding-top",
    "padding-bottom",
    "border-left-color",
    "border-right-color",
    "-2px;",
    "ul id=",
    "div id=\"right",
    "div id=\"left",
    "margin-",
    "placeholder=",
    "li id=",
    "window._paq",
    "line-container",
    "story-sensei-option",
    "px solid",
    "box-shadow",
    "display: block",
    "display: inline-block",
    "clear:both",
    "oo-ui",
    "setSiteId",
    "story-profile-picture",
    "<script>",
    "@context",
    "srcset=",
    "twitter:",
    "src=",
    "File:",
    "data-",
    "ExtLoops",
    "Creative Commons Attribution",
    "as BGM",
    "story-image",
    "story-student-name",
    "Episodes with",
    "Episodes_with",
    "Stories with",
    "title=",
    "<title>",
    "ba-momotalk",
    "cookiewarning",
    "our use of cookies",
    "disableCookies",
    "enableCookies",
    "setDocumentTitle",
    "href=",
    "content=",
    "skin-vector-legacy",
    "og:title",
    "stories_with",
    "RLSTATE",
    "CC BY-SA",
];

// ---------------------------------------------------------------------------
// Arguments
// ---------------------------------------------------------------------------

/// Why the arguments of a search are refused.
#[derive(Debug, PartialEq, Eq, Structural, Clone, Copy)]
pub enum SearchError {
    /// Student, Sensei and info lines are all ignored.
    AllLinesIgnored,
    /// The input is empty once trimmed.
    EmptyInput,
}

/// Checks the arguments of a search: at least one of the student, Sensei
/// and info lines must be kept, and the input must not be empty once
/// trimmed. Gives the trimmed input.
pub fn search_input(input: &str, student: bool, sensei: bool, info: bool) -> (r: Result<
    String,
    SearchError,
>)
    ensures
        student && sensei && info ==> r == Err::<String, SearchError>(SearchError::AllLinesIgnored),
        !(student && sensei && info) && trim(input@).len() == 0 ==> r == Err::<String, SearchError>(
            SearchError::EmptyInput,
        ),
        !(student && sensei && info) && trim(input@).len() > 0 ==> (r matches Ok(s) && s@ == trim(
            input@,
        )),
{
    if student && sensei && info {
        return Err(SearchError::AllLinesIgnored);
    }
    let trimmed = chars_trim(&chars_of(input));
    if trimmed.len() == 0 {
        return Err(SearchError::EmptyInput);
    }
    Ok(string_of(&trimmed))
}

// ---------------------------------------------------------------------------
// Filtering rg output
// ---------------------------------------------------------------------------

/// The patterns of the lines that are dropped: the markup patterns, and,
/// unless summaries are kept, `<p>` and `content=` too.
pub open spec fn ignored_list(summary: bool) -> Seq<Seq<char>> {
    let base = IGNORED@.map_values(|s: &str| s@);
    if summary {
        base
    } else {
        base + seq!["<p>"@, "content="@]
    }
}

/// The patterns of the lines that are dropped.
pub fn ignored_patterns(summary: bool) -> (r: Vec<&'static str>)
    ensures
        r@.map_values(|s: &str| s@) == ignored_list(summary),
{
    let mut r: Vec<&'static str> = Vec::new();
    let mut i: usize = 0;
    while i < 109
        invariant
            i <= 109,
            r@ == IGNORED@.take(i as int),
        decreases 109 - i,
    {
        r.push(IGNORED[i]);
        assert(IGNORED@.take(i + 1) =~= IGNORED@.take(i as int).push(IGNORED@[i as int]));
        i = i + 1;
    }
    assert(IGNORED@.take(109) =~= IGNORED@);
    if !summary {
        let ghost before = r@;
        r.push("<p>");
        r.push("content=");
        assert(r@.map_values(|s: &str| s@) =~= before.map_values(|s: &str| s@) + seq![
            "<p>"@,
            "content="@,
        ]);
    }
    r
}

/// `line` holds one of the patterns.
pub open spec fn is_ignored(line: Seq<char>, patterns: Seq<Seq<char>>) -> bool {
    exists|i: int| 0 <= i < patterns.len() && contains(line, patterns[i])
}

/// The lines that hold none of the patterns, in order.
pub open spec fn kept_lines(ls: Seq<Seq<char>>, patterns: Seq<Seq<char>>) -> Seq<Seq<char>>
    decreases ls.len(),
{
    if ls.len() == 0 {
        seq![]
    } else {
        let r = kept_lines(ls.drop_last(), patterns);
        if is_ignored(ls.last(), patterns) {
            r
        } else {
            r.push(ls.last())
        }
    }
}

/// The lines, each followed by a line break.
pub open spec fn join_lines(ls: Seq<Seq<char>>) -> Seq<char>
    decreases ls.len(),
{
    if ls.len() == 0 {
        seq![]
    } else {
        join_lines(ls.drop_last()) + ls.last() + seq!['\n']
    }
}

/// The `rg` output with the ignored lines dropped and trailing whitespace
/// trimmed.
pub open spec fn filtered_output(output: Seq<char>, summary: bool) -> Seq<char> {
    trim_end(join_lines(kept_lines(lines(output), ignored_list(summary))))
}

/// Whether `line` holds one of `patterns`.
fn line_is_ignored(line: &[char], patterns: &Vec<Vec<char>>) -> (r: bool)
    ensures
        r == is_ignored(line@, patterns@.map_values(|p: Vec<char>| p@)),
{
    let ghost pv = patterns@.map_values(|p: Vec<char>| p@);
    let mut i: usize = 0;
    while i < patterns.len()
        invariant
            i <= patterns@.len(),
            pv == patterns@.map_values(|p: Vec<char>| p@),
            forall|k: int| 0 <= k < i ==> !contains(line@, #[trigger] pv[k]),
        decreases patterns@.len() - i,
    {
        if chars_contains(line, &patterns[i]) {
            assert(contains(line@, pv[i as int]));
            return true;
        }
        i = i + 1;
    }
    false
}

/// Drops from the `rg` output every line that holds one of the ignored
/// patterns (with summaries, `<p>` and `content=` lines are kept), and
/// trims trailing whitespace from what is left.
pub fn filter_output(output: &str, summary: bool) -> (r: String)
    ensures
        r@ == filtered_output(output@, summary),
{
    let names = ignored_patterns(summary);
    let mut patterns: Vec<Vec<char>> = Vec::new();
    let mut k: usize = 0;
    while k < names.len()
        invariant
            k <= names@.len(),
            patterns@.len() == k,
            forall|j: int| 0 <= j < k ==> (#[trigger] patterns@[j])@ == names@[j]@,
        decreases names@.len() - k,
    {
        patterns.push(chars_of(names[k]));
        k = k + 1;
    }
    let ghost pats = patterns@.map_values(|p: Vec<char>| p@);
    assert(pats =~= ignored_list(summary));
    let ls = chars_lines(&chars_of(output));
    let ghost lv = lines(output@);
    assert(ls@.map_values(|l: Vec<char>| l@) =~= lv);
    let mut joined: Vec<char> = Vec::new();
    let mut i: usize = 0;
    while i < ls.len()
        invariant
            i <= ls@.len(),
            lv.len() == ls@.len(),
            forall|j: int| 0 <= j < ls@.len() ==> (#[trigger] ls@[j])@ == lv[j],
            pats == patterns@.map_values(|p: Vec<char>| p@),
            joined@ == join_lines(kept_lines(lv.take(i as int), pats)),
        decreases ls@.len() - i,
    {
        assert(lv.take(i + 1).drop_last() =~= lv.take(i as int));
        assert(lv.take(i + 1).last() == ls@[i as int]@);
        if !line_is_ignored(&ls[i], &patterns) {
            let ghost before = kept_lines(lv.take(i as int), pats);
            extend_chars(&mut joined, &ls[i]);
            joined.push('\n');
            assert(before.push(ls@[i as int]@).drop_last() =~= before);
        }
        i = i + 1;
    }
    assert(lv.take(ls@.len() as int) =~= lv);
    string_of(&chars_trim_end(&joined))
}

/// The number of lines of `s`, as `str::lines` counts them.
pub fn line_count(s: &str) -> (r: usize)
    ensures
        r == lines(s@).len(),
{
    chars_lines(&chars_of(s)).len()
}

// ---------------------------------------------------------------------------
// Reshaping matches
// ---------------------------------------------------------------------------

/// Each line that holds `.html:`, with a space put after its first
/// `.html:`, followed by a line break; other lines are dropped.
pub open spec fn separated(ls: Seq<Seq<char>>) -> Seq<char>
    decreases ls.len(),
{
    if ls.len() == 0 {
        seq![]
    } else {
        separated(ls.drop_last()) + match split_once(ls.last(), SPLIT@) {
            Some((file, rest)) => file + SPLIT@ + " "@ + rest + "\n"@,
            None => seq![],
        }
    }
}

/// Puts a space after the `.html:` that ends the file name of each line of
/// the `rg` output, and drops the lines that have none.
pub fn separate_matches(output: &str) -> (r: String)
    ensures
        r@ == separated(lines(output@)),
{
    let split = chars_of(SPLIT);
    let space = chars_of(" ");
    let newline = chars_of("\n");
    let ls = chars_lines(&chars_of(output));
    let ghost lv = lines(output@);
    let mut out: Vec<char> = Vec::new();
    let mut i: usize = 0;
    while i < ls.len()
        invariant
            i <= ls@.len(),
            lv.len() == ls@.len(),
            split@ == SPLIT@,
            space@ == " "@,
            newline@ == "\n"@,
            forall|j: int| 0 <= j < ls@.len() ==> (#[trigger] ls@[j])@ == lv[j],
            out@ == separated(lv.take(i as int)),
        decreases ls@.len() - i,
    {
        assert(lv.take(i + 1).drop_last() =~= lv.take(i as int));
        assert(lv.take(i + 1).last() == ls@[i as int]@);
        match chars_split_once(&ls[i], &split) {
            Some((file, rest)) => {
                let ghost before = out@;
                extend_chars(&mut out, &file);
                extend_chars(&mut out, &split);
                extend_chars(&mut out, &space);
                extend_chars(&mut out, &rest);
                extend_chars(&mut out, &newline);
                assert(out@ =~= before + (file@ + SPLIT@ + " "@ + rest@ + "\n"@));
            },
            None => {
                assert(out@ =~= out@ + Seq::<char>::empty());
            },
        }
        i = i + 1;
    }
    assert(lv.take(ls@.len() as int) =~= lv);
    string_of(&out)
}

/// The files named by the lines: for each line that holds `.html:`, what
/// stands before it, with `.html` put back.
pub open spec fn named_files(ls: Seq<Seq<char>>) -> Seq<Seq<char>>
    decreases ls.len(),
{
    if ls.len() == 0 {
        seq![]
    } else {
        let r = named_files(ls.drop_last());
        match split_once(ls.last(), SPLIT@) {
            Some((file, _)) => r.push(file + ".html"@),
            None => r,
        }
    }
}

/// The files named in the (reshaped) `rg` output, each once, in the order
/// of `std::path::Path`: for each line that holds `.html:`, what stands
/// before it followed by `.html`.
pub fn matched_files(input: &str) -> (r: Vec<String>)
    ensures
        views(r@).to_set() == named_files(lines(input@)).to_set(),
        views(r@).no_duplicates(),
        sorted_by_key::<PathName>(views(r@)),
{
    let split = chars_of(SPLIT);
    let html = chars_of(".html");
    let ls = chars_lines(&chars_of(input));
    let ghost lv = lines(input@);
    let mut names: Vec<FileName> = Vec::new();
    let mut i: usize = 0;
    while i < ls.len()
        invariant
            i <= ls@.len(),
            lv.len() == ls@.len(),
            split@ == SPLIT@,
            html@ == ".html"@,
            forall|j: int| 0 <= j < ls@.len() ==> (#[trigger] ls@[j])@ == lv[j],
            views(names@) == named_files(lv.take(i as int)),
        decreases ls@.len() - i,
    {
        assert(lv.take(i + 1).drop_last() =~= lv.take(i as int));
        assert(lv.take(i + 1).last() == ls@[i as int]@);
        match chars_split_once(&ls[i], &split) {
            Some((file, _)) => {
                let mut name = file;
                extend_chars(&mut name, &html);
                let ghost before = views(names@);
                names.push(FileName(string_of(&name)));
                assert(views(names@) =~= before.push(name@));
            },
            None => {},
        }
        i = i + 1;
    }
    assert(lv.take(ls@.len() as int) =~= lv);
    let distinct = sort_distinct(names);
    let ghost dv = views(distinct@);
    let paths = as_path_names(&distinct);
    proof {
        dv.lemma_multiset_has_no_duplicates();
    }
    let sorted = sort_by_key(paths);
    proof {
        let sv = views(sorted@);
        sv.lemma_multiset_has_no_duplicates_conv();
        assert forall|x: Seq<char>| sv.contains(x) <==> dv.contains(x) by {
            assert(sv.contains(x) <==> sv.to_multiset().count(x) > 0);
            assert(dv.contains(x) <==> dv.to_multiset().count(x) > 0);
        }
        assert(sv.to_set() =~= dv.to_set());
    }
    path_strings(&sorted)
}

// ---------------------------------------------------------------------------
// Showing lines
// ---------------------------------------------------------------------------

/// The escape sequence that ends a terminal style.
pub open spec fn reset_sequence() -> Seq<char> {
    seq!['\x1b', '[', '0', 'm']
}

/// The escape sequence that starts the terminal style `code`.
pub open spec fn style_opening(code: Seq<char>) -> Seq<char> {
    seq!['\x1b', '['] + code + seq!['m']
}

/// `r` is `s` as `colored` may show it in the style `code`: unchanged when
/// colors are off (by the environment or the terminal), else between the
/// style's opening and the reset, with the style opened again after each
/// reset inside `s`.
pub open spec fn styled_form(s: Seq<char>, code: Seq<char>, r: Seq<char>) -> bool {
    r == s || r == style_opening(code) + replace_all(
        s,
        reset_sequence(),
        reset_sequence() + style_opening(code),
    ) + reset_sequence()
}

/// `Colorize::italic` and `Display` of the `ColoredString`: `s` in italics
/// (style `3`), or unchanged when colors are off; which of the two depends
/// on the environment and the terminal, so no more is stated.
#[verifier::external_body]
fn italic_text(s: &str) -> (r: String)
    ensures
        styled_form(s@, seq!['3'], r@),
{
    s.italic().to_string()
}

/// `Colorize::bold`, then `italic`, and `Display` of the `ColoredString`:
/// `s` in bold italics (style `1;3`), or unchanged when colors are off;
/// which of the two depends on the environment and the terminal.
#[verifier::external_body]
fn bold_italic_text(s: &str) -> (r: String)
    ensures
        styled_form(s@, seq!['1', ';', '3'], r@),
{
    s.bold().italic().to_string()
}

/// A shown line: `file (speaker): text` and a line break.
pub open spec fn shown_line(file: Seq<char>, speaker: Seq<char>, text: Seq<char>) -> Seq<char> {
    file + " ("@ + speaker + "): "@ + text + "\n"@
}

/// Outlining the speaker or the text of `l` fails.
pub open spec fn render_fails(l: LineValue, input: Seq<char>, outline: bool) -> bool {
    outline && (outlined(l.speaker(), l.speaker()) is None || outlined(l.text(), input) is None)
}

/// `out` is how line `l` may be shown: its file, its speaker in italics
/// (outlined whole and in bold too when outlining), and its text (with the
/// matches of `input` outlined when outlining).
pub open spec fn renders_as(l: LineValue, input: Seq<char>, outline: bool, out: Seq<char>) -> bool {
    if outline {
        &&& outlined(l.speaker(), l.speaker()) is Some
        &&& outlined(l.text(), input) is Some
        &&& exists|shown: Seq<char>|
            #[trigger] styled_form(
                decode_utf8(outlined(l.speaker(), l.speaker()).unwrap()),
                "1;3"@,
                shown,
            ) && out == shown_line(
                l.file_name(),
                shown,
                decode_utf8(outlined(l.text(), input).unwrap()),
            )
    } else {
        exists|shown: Seq<char>|
            #[trigger] styled_form(l.speaker(), "3"@, shown) && out == shown_line(
                l.file_name(),
                shown,
                l.text(),
            )
    }
}

/// The characters of a shown line.
pub fn show_line(file: &str, speaker: &str, text: &str) -> (r: Vec<char>)
    ensures
        r@ == shown_line(file@, speaker@, text@),
{
    let mut r = chars_of(file);
    extend_chars(&mut r, &chars_of(" ("));
    extend_chars(&mut r, &chars_of(speaker));
    extend_chars(&mut r, &chars_of("): "));
    extend_chars(&mut r, &chars_of(text));
    extend_chars(&mut r, &chars_of("\n"));
    r
}

/// Shows one line: `file (speaker): text`, the speaker in italics; when
/// outlining, the speaker outlined whole and in bold too, and the matches
/// of `input` in the text outlined. None where outlining fails.
pub fn render_line(line: &Line, input: &str, outline: bool) -> (r: Option<Vec<char>>)
    ensures
        r is None <==> render_fails(line@, input@, outline),
        r matches Some(s) ==> renders_as(line@, input@, outline, s@),
{
    let file = line.file_name();
    let speaker = line.speaker();
    let text = line.text();
    if outline {
        let speaker_outlined = match Line::outline(speaker.as_str(), speaker.as_str()) {
            Some(s) => s,
            None => {
                return None;
            },
        };
        let text_outlined = match Line::outline(text.as_str(), input) {
            Some(s) => s,
            None => {
                return None;
            },
        };
        proof {
            vstd::utf8::encode_utf8_decode_utf8(speaker_outlined@);
            vstd::utf8::encode_utf8_decode_utf8(text_outlined@);
            reveal_strlit("1;3");
            assert(seq!['1', ';', '3'] =~= "1;3"@);
        }
        let shown = bold_italic_text(speaker_outlined.as_str());
        let r = show_line(file.as_str(), shown.as_str(), text_outlined.as_str());
        Some(r)
    } else {
        let shown = italic_text(speaker.as_str());
        proof {
            reveal_strlit("3");
            assert(seq!['3'] =~= "3"@);
        }
        let r = show_line(file.as_str(), shown.as_str(), text.as_str());
        Some(r)
    }
}

/// Shows the lines one after the other, as [`render_line`] shows each;
/// none where outlining one fails.
pub fn render_lines(lines: &Vec<Line>, input: &str, outline: bool) -> (r: Option<String>)
    ensures
        r is None <==> exists|i: int|
            0 <= i < lines@.len() && render_fails(#[trigger] lines@[i]@, input@, outline),
        r matches Some(s) ==> exists|parts: Seq<Seq<char>>|
            parts.len() == lines@.len() && (forall|i: int|
                0 <= i < lines@.len() ==> renders_as(
                    #[trigger] lines@[i]@,
                    input@,
                    outline,
                    parts[i],
                )) && s@ == concat(parts),
{
    let mut out: Vec<char> = Vec::new();
    let ghost mut parts: Seq<Seq<char>> = seq![];
    let mut i: usize = 0;
    while i < lines.len()
        invariant
            i <= lines@.len(),
            parts.len() == i,
            forall|k: int| 0 <= k < i ==> renders_as(#[trigger] lines@[k]@, input@, outline, parts[k]),
            forall|k: int| 0 <= k < i ==> !render_fails(#[trigger] lines@[k]@, input@, outline),
            out@ == concat(parts),
        decreases lines@.len() - i,
    {
        match render_line(&lines[i], input, outline) {
            Some(shown) => {
                proof {
                    lemma_concat_push(parts, shown@);
                    parts = parts.push(shown@);
                }
                extend_chars(&mut out, &shown);
            },
            None => {
                return None;
            },
        }
        i = i + 1;
    }
    Some(string_of(&out))
}

/// The lines, each once, in the order of `Line`.
pub fn distinct_lines(lines: Vec<Line>) -> (r: Vec<Line>)
    ensures
        views(r@).to_set() == views(lines@).to_set(),
        views(r@).no_duplicates(),
        sorted_by_key::<Line>(views(r@)),
{
    sort_distinct(lines)
}

// ---------------------------------------------------------------------------
// Sorting and numbering the output
// ---------------------------------------------------------------------------

/// The lines joined with line breaks between them, as `[&str]::join("\n")`.
pub open spec fn joined(ls: Seq<Seq<char>>) -> Seq<char>
    decreases ls.len(),
{
    if ls.len() == 0 {
        seq![]
    } else if ls.len() == 1 {
        ls[0]
    } else {
        joined(ls.drop_last()) + seq!['\n'] + ls.last()
    }
}

/// The lines of `output`, sorted by their bytes and joined with line
/// breaks.
pub fn sort_lines(output: &str) -> (r: String)
    ensures
        exists|v: Seq<Seq<char>>|
            v.to_multiset() == lines(output@).to_multiset() && sorted_by_key::<FileName>(v)
                && r@ == #[trigger] joined(v),
{
    let ls = chars_lines(&chars_of(output));
    let ghost lv = lines(output@);
    let mut names: Vec<FileName> = Vec::new();
    let mut i: usize = 0;
    while i < ls.len()
        invariant
            i <= ls@.len(),
            lv.len() == ls@.len(),
            forall|j: int| 0 <= j < ls@.len() ==> (#[trigger] ls@[j])@ == lv[j],
            views(names@) == lv.take(i as int),
        decreases ls@.len() - i,
    {
        names.push(FileName(string_of(&ls[i])));
        assert(lv.take(i + 1) =~= lv.take(i as int).push(lv[i as int]));
        i = i + 1;
    }
    assert(lv.take(ls@.len() as int) =~= lv);
    let sorted = sort_by_key(names);
    let ghost sv = views(sorted@);
    let mut out: Vec<char> = Vec::new();
    let mut k: usize = 0;
    while k < sorted.len()
        invariant
            k <= sorted@.len(),
            sv == views(sorted@),
            out@ == joined(sv.take(k as int)),
        decreases sorted@.len() - k,
    {
        let ghost before = sv.take(k as int);
        assert(sv.take(k + 1).drop_last() =~= before);
        assert(sv.take(k + 1).last() == sorted@[k as int]@);
        if k > 0 {
            out.push('\n');
        }
        extend_chars(&mut out, &chars_of(sorted[k].0.as_str()));
        if k == 0 {
            assert(out@ =~= joined(sv.take(1)));
        } else {
            assert(out@ =~= joined(before) + seq!['\n'] + sorted@[k as int]@);
        }
        k = k + 1;
    }
    assert(sv.take(sorted@.len() as int) =~= sv);
    string_of(&out)
}

/// The width of the line numbers for `n` lines: their digit count, up to 5.
pub open spec fn number_width(n: nat) -> nat {
    if n <= 9 {
        1
    } else if n <= 99 {
        2
    } else if n <= 999 {
        3
    } else if n <= 9999 {
        4
    } else {
        5
    }
}

/// `n` in decimal, padded with zeros on the left to `width` digits.
pub open spec fn zero_padded(n: nat, width: nat) -> Seq<char> {
    let d = decimal(n);
    if d.len() >= width {
        d
    } else {
        Seq::new((width - d.len()) as nat, |i: int| '0') + d
    }
}

/// The lines, each preceded by its number (from 1, zero-padded to `width`)
/// and `. `, and followed by a line break.
pub open spec fn numbered_lines(ls: Seq<Seq<char>>, width: nat) -> Seq<char>
    decreases ls.len(),
{
    if ls.len() == 0 {
        seq![]
    } else {
        numbered_lines(ls.drop_last(), width) + zero_padded(ls.len(), width) + ". "@ + ls.last()
            + "\n"@
    }
}

/// The text with its lines numbered, without a final line break.
pub open spec fn numbered_text(s: Seq<char>) -> Seq<char> {
    if s.len() == 0 {
        seq![]
    } else {
        numbered_lines(lines(s), number_width(lines(s).len())).drop_last()
    }
}

/// `n` in decimal, padded with zeros to `width` digits.
fn zero_padded_exec(n: usize, width: usize) -> (r: Vec<char>)
    ensures
        r@ == zero_padded(n as nat, width as nat),
{
    let digits = decimal_chars(n);
    if digits.len() >= width {
        return digits;
    }
    let mut r: Vec<char> = Vec::new();
    let pad = width - digits.len();
    let mut i: usize = 0;
    while i < pad
        invariant
            i <= pad,
            r@ == Seq::new(i as nat, |j: int| '0'),
        decreases pad - i,
    {
        r.push('0');
        assert(r@ =~= Seq::new((i + 1) as nat, |j: int| '0'));
        i = i + 1;
    }
    extend_chars(&mut r, &digits);
    r
}

/// Numbers the lines of `input`: `1. first`, `2. second`, ..., the numbers
/// zero-padded to the digit count of the number of lines (at most 5), and
/// no line break after the last line.
pub fn number_text(input: &str) -> (r: Box<str>)
    ensures
        r@ == numbered_text(input@),
{
    let chars = chars_of(input);
    if chars.len() == 0 {
        return crate::text::boxed_str(String::new());
    }
    let ls = chars_lines(&chars);
    let ghost lv = lines(input@);
    let n = ls.len();
    let width: usize = if n <= 9 {
        1
    } else if n <= 99 {
        2
    } else if n <= 999 {
        3
    } else if n <= 9999 {
        4
    } else {
        5
    };
    let mut buffer: Vec<char> = Vec::new();
    let mut i: usize = 0;
    while i < ls.len()
        invariant
            i <= ls@.len(),
            n == ls@.len(),
            lv.len() == ls@.len(),
            width == number_width(n as nat),
            forall|j: int| 0 <= j < ls@.len() ==> (#[trigger] ls@[j])@ == lv[j],
            buffer@ == numbered_lines(lv.take(i as int), width as nat),
        decreases ls@.len() - i,
    {
        let ghost before = buffer@;
        assert(lv.take(i + 1).drop_last() =~= lv.take(i as int));
        assert(lv.take(i + 1).last() == ls@[i as int]@);
        extend_chars(&mut buffer, &zero_padded_exec(i + 1, width));
        extend_chars(&mut buffer, &chars_of(". "));
        extend_chars(&mut buffer, &ls[i]);
        extend_chars(&mut buffer, &chars_of("\n"));
        i = i + 1;
    }
    assert(lv.take(ls@.len() as int) =~= lv);
    proof {
        lemma_lines_of_nonempty(input@);
    }
    buffer.pop();
    crate::text::boxed_str(string_of(&buffer))
}

/// A non-empty text has a line, so its numbered form ends with a break.
proof fn lemma_lines_of_nonempty(s: Seq<char>)
    requires
        s.len() > 0,
    ensures
        lines(s).len() > 0,
{
}

/// The filter keeps exactly the lines that hold none of the patterns: a
/// kept line holds no pattern of the list (none is skipped), every line
/// that holds none is kept, and nothing else is.
pub proof fn law_kept_lines_are_not_ignored(ls: Seq<Seq<char>>, patterns: Seq<Seq<char>>)
    ensures
        forall|i: int|
            0 <= i < kept_lines(ls, patterns).len() ==> !is_ignored(
                #[trigger] kept_lines(ls, patterns)[i],
                patterns,
            ),
        forall|i: int, j: int|
            0 <= i < kept_lines(ls, patterns).len() && 0 <= j < patterns.len() ==> !contains(
                #[trigger] kept_lines(ls, patterns)[i],
                #[trigger] patterns[j],
            ),
        forall|i: int|
            0 <= i < ls.len() && (forall|j: int|
                0 <= j < patterns.len() ==> !contains(ls[i], #[trigger] patterns[j]))
                ==> kept_lines(ls, patterns).contains(#[trigger] ls[i]),
        forall|i: int|
            0 <= i < kept_lines(ls, patterns).len() ==> ls.contains(
                #[trigger] kept_lines(ls, patterns)[i],
            ),
    decreases ls.len(),
{
    if ls.len() > 0 {
        let p = ls.drop_last();
        law_kept_lines_are_not_ignored(p, patterns);
        let r = kept_lines(p, patterns);
        let all = kept_lines(ls, patterns);
        assert forall|i: int| 0 <= i < all.len() implies !is_ignored(#[trigger] all[i], patterns)
            && ls.contains(all[i]) by {
            if i < r.len() {
                assert(all[i] == r[i]);
                let k = choose|k: int| 0 <= k < p.len() && p[k] == r[i];
                assert(ls[k] == p[k]);
            } else {
                assert(all[i] == ls[ls.len() - 1]);
            }
        }
        assert forall|i: int, j: int|
            0 <= i < all.len() && 0 <= j < patterns.len() implies !contains(
            #[trigger] all[i],
            #[trigger] patterns[j],
        ) by {
            assert(!is_ignored(all[i], patterns));
        }
        assert forall|i: int|
            0 <= i < ls.len() && (forall|j: int|
                0 <= j < patterns.len() ==> !contains(ls[i], #[trigger] patterns[j])) implies all.contains(
            #[trigger] ls[i],
        ) by {
            if i < p.len() {
                assert(p[i] == ls[i]);
                assert(r.contains(p[i]));
                let k = choose|k: int| 0 <= k < r.len() && r[k] == p[i];
                assert(all[k] == r[k]);
            } else {
                assert(!is_ignored(ls.last(), patterns));
                assert(all.last() == ls[i]);
            }
        }
    }
}

/// The number of decimal digits of `k`, for `k` below 100000.
proof fn lemma_decimal_len(k: nat)
    ensures
        k < 10 ==> decimal(k).len() == 1,
        10 <= k < 100 ==> decimal(k).len() == 2,
        100 <= k < 1000 ==> decimal(k).len() == 3,
        1000 <= k < 10000 ==> decimal(k).len() == 4,
        10000 <= k < 100000 ==> decimal(k).len() == 5,
    decreases k,
{
    if k >= 10 {
        lemma_decimal_len(k / 10);
    }
}

/// Line numbers line up: up to 99999 lines, every number from 1 to the
/// number of lines is written with exactly the same number of digits.
pub proof fn law_line_numbers_align(k: nat, n: nat)
    requires
        1 <= k <= n < 100000,
    ensures
        zero_padded(k, number_width(n)).len() == number_width(n),
{
    lemma_decimal_len(k);
}

/// The numbered lines, one for each line of `ls`, without line breaks.
spec fn listed(ls: Seq<Seq<char>>, width: nat) -> Seq<Seq<char>> {
    Seq::new(ls.len(), |k: int| zero_padded((k + 1) as nat, width) + ". "@ + ls[k])
}

/// Numbering non-empty lines gives the numbered lines joined, and a final
/// line break.
proof fn lemma_numbered_lines_listed(ls: Seq<Seq<char>>, width: nat)
    requires
        ls.len() > 0,
    ensures
        numbered_lines(ls, width) == joined(listed(ls, width)) + seq!['\n'],
    decreases ls.len(),
{
    reveal_strlit("\n");
    let l = listed(ls, width);
    let p = ls.drop_last();
    assert(listed(p, width) =~= l.drop_last());
    assert(l.last() == zero_padded(ls.len(), width) + ". "@ + ls.last());
    if ls.len() == 1 {
        assert(numbered_lines(p, width) =~= Seq::<char>::empty());
        assert(numbered_lines(ls, width) =~= joined(l) + seq!['\n']);
    } else {
        lemma_numbered_lines_listed(p, width);
        assert(numbered_lines(ls, width) =~= joined(l) + seq!['\n']);
    }
}

/// The numbered text lists the lines of `s` in order, separated by line
/// breaks: the line at index `k` as the number `k + 1`, padded with zeros
/// to the width for that many lines, then `. ` and the line itself.
pub proof fn law_numbered_text_lists_each_line(s: Seq<char>)
    ensures
        numbered_text(s) == joined(
            Seq::new(
                lines(s).len(),
                |k: int|
                    zero_padded((k + 1) as nat, number_width(lines(s).len())) + ". "@ + lines(s)[k],
            ),
        ),
{
    let w = number_width(lines(s).len());
    if s.len() == 0 {
        assert(lines(s).len() == 0);
        assert(Seq::new(
            lines(s).len(),
            |k: int| zero_padded((k + 1) as nat, w) + ". "@ + lines(s)[k],
        ) =~= Seq::<Seq<char>>::empty());
    } else {
        lemma_lines_of_nonempty(s);
        lemma_numbered_lines_listed(lines(s), w);
        assert(listed(lines(s), w) =~= Seq::new(
            lines(s).len(),
            |k: int| zero_padded((k + 1) as nat, w) + ". "@ + lines(s)[k],
        ));
        assert((joined(listed(lines(s), w)) + seq!['\n']).drop_last() =~= joined(
            listed(lines(s), w),
        ));
    }
}

/// The width of the line numbers is the digit count of the number of
/// lines (the largest number written), for up to 99999 lines.
pub proof fn law_number_width_is_digit_count(n: nat)
    requires
        1 <= n < 100000,
    ensures
        number_width(n) == decimal(n).len(),
{
    lemma_decimal_len(n);
}

/// Joining a first line and the rest.
proof fn lemma_join_lines_front(a: Seq<char>, rest: Seq<Seq<char>>)
    ensures
        join_lines(seq![a] + rest) == a + seq!['\n'] + join_lines(rest),
    decreases rest.len(),
{
    let all = seq![a] + rest;
    if rest.len() == 0 {
        assert(all.drop_last() =~= Seq::<Seq<char>>::empty());
        assert(join_lines(rest) =~= Seq::<char>::empty());
        assert(join_lines(all.drop_last()) =~= Seq::<char>::empty());
        assert(all.last() == a);
        assert(join_lines(all) == join_lines(all.drop_last()) + all.last() + seq!['\n']);
        assert(join_lines(all) =~= a + seq!['\n'] + join_lines(rest));
    } else {
        lemma_join_lines_front(a, rest.drop_last());
        assert(all.drop_last() =~= seq![a] + rest.drop_last());
        assert(all.last() == rest.last());
        assert(join_lines(all) =~= a + seq!['\n'] + join_lines(rest));
    }
}

/// Splitting a text without carriage returns into lines loses nothing
/// but the line breaks: no line holds a line break, and the lines, each
/// followed by a line break, give the text back (with a line break added
/// at its end if it did not end with one).
pub proof fn law_lines_give_the_text_back(s: Seq<char>)
    requires
        forall|i: int| 0 <= i < s.len() ==> #[trigger] s[i] != '\r',
    ensures
        forall|k: int, i: int|
            0 <= k < lines(s).len() && 0 <= i < lines(s)[k].len() ==> #[trigger] lines(s)[k][i]
                != '\n',
        join_lines(lines(s)) == if s.len() == 0 {
            s
        } else if s.last() == '\n' {
            s
        } else {
            s.push('\n')
        },
    decreases s.len(),
{
    let nl = seq!['\n'];
    if s.len() > 0 {
        lemma_find_from(s, nl, 0);
        assert forall|j: int| 0 <= j < s.len() implies #[trigger] matches_at(s, nl, j) == (s[j]
            == '\n') by {
            assert(s.subrange(j, j + 1)[0] == s[j]);
            if s[j] == '\n' {
                assert(s.subrange(j, j + 1) =~= nl);
            }
        }
        match find_from(s, nl, 0) {
            Some(i) => {
                assert(matches_at(s, nl, i));
                let a = s.take(i);
                let rest = s.skip(i + 1);
                assert forall|j: int| 0 <= j < rest.len() implies #[trigger] rest[j] != '\r' by {
                    assert(rest[j] == s[i + 1 + j]);
                }
                law_lines_give_the_text_back(rest);
                if a.len() > 0 {
                    assert(a.last() == s[i - 1]);
                }
                assert(strip_cr(a) == a);
                assert(lines(s) == seq![a] + lines(rest));
                lemma_join_lines_front(a, lines(rest));
                assert forall|j: int| 0 <= j < a.len() implies a[j] != '\n' by {
                    assert(!matches_at(s, nl, j));
                }
                assert forall|k: int, j: int|
                    0 <= k < lines(s).len() && 0 <= j < lines(s)[k].len() implies #[trigger] lines(
                    s,
                )[k][j] != '\n' by {
                    if k > 0 {
                        assert(lines(s)[k] == lines(rest)[k - 1]);
                    }
                }
                assert(s =~= a + nl + rest);
                if rest.len() == 0 {
                    assert(join_lines(lines(rest)) =~= Seq::<char>::empty());
                    assert(join_lines(lines(s)) =~= s);
                } else {
                    assert(s.last() == rest.last());
                    if rest.last() == '\n' {
                        assert(join_lines(lines(s)) =~= s);
                    } else {
                        assert(join_lines(lines(s)) =~= s.push('\n'));
                    }
                }
            },
            None => {
                assert(lines(s) == seq![s]);
                assert(seq![s].drop_last() =~= Seq::<Seq<char>>::empty());
                assert(join_lines(Seq::<Seq<char>>::empty()) =~= Seq::<char>::empty());
                assert(join_lines(lines(s)) =~= s.push('\n'));
                assert(!matches_at(s, nl, s.len() - 1));
                assert forall|k: int, j: int|
                    0 <= k < lines(s).len() && 0 <= j < lines(s)[k].len() implies #[trigger] lines(
                    s,
                )[k][j] != '\n' by {
                    assert(!matches_at(s, nl, j));
                }
            },
        }
    }
}

/// The files the lines name are exactly, for each line that holds
/// `.html:`, what stands before the first `.html:` in it, with `.html`
/// put back.
pub proof fn law_named_files_are_before_first_split(ls: Seq<Seq<char>>)
    ensures
        forall|x: Seq<char>|
            named_files(ls).contains(x) <==> exists|k: int, i: int|
                0 <= k < ls.len() && #[trigger] matches_at(ls[k], SPLIT@, i) && (forall|j: int|
                    0 <= j < i ==> !matches_at(ls[k], SPLIT@, j)) && x == ls[k].take(i)
                    + ".html"@,
    decreases ls.len(),
{
    if ls.len() > 0 {
        let p = ls.drop_last();
        let last = ls.last();
        let r = named_files(p);
        law_named_files_are_before_first_split(p);
        lemma_find_from(last, SPLIT@, 0);
        let all = named_files(ls);
        assert forall|x: Seq<char>| all.contains(x) <==> exists|k: int, i: int|
            0 <= k < ls.len() && #[trigger] matches_at(ls[k], SPLIT@, i) && (forall|j: int|
                0 <= j < i ==> !matches_at(ls[k], SPLIT@, j)) && x == ls[k].take(i)
                + ".html"@ by {
            if all.contains(x) {
                let m = choose|m: int| 0 <= m < all.len() && all[m] == x;
                if m < r.len() {
                    assert(r[m] == all[m]);
                    assert(r.contains(x));
                    let (k, i) = choose|k: int, i: int|
                        0 <= k < p.len() && #[trigger] matches_at(p[k], SPLIT@, i) && (forall|j: int|
                            0 <= j < i ==> !matches_at(p[k], SPLIT@, j)) && x == p[k].take(i)
                            + ".html"@;
                    assert(ls[k] == p[k]);
                    assert(matches_at(ls[k], SPLIT@, i));
                } else {
                    match find_from(last, SPLIT@, 0) {
                        Some(i) => {
                            assert(all == r.push(last.take(i) + ".html"@));
                            assert(x == last.take(i) + ".html"@);
                            assert(ls[ls.len() - 1] == last);
                            assert(matches_at(ls[ls.len() - 1], SPLIT@, i));
                        },
                        None => {
                            assert(all == r);
                        },
                    }
                }
            }
            if exists|k: int, i: int|
                0 <= k < ls.len() && #[trigger] matches_at(ls[k], SPLIT@, i) && (forall|j: int|
                    0 <= j < i ==> !matches_at(ls[k], SPLIT@, j)) && x == ls[k].take(i)
                    + ".html"@ {
                let (k, i) = choose|k: int, i: int|
                    0 <= k < ls.len() && #[trigger] matches_at(ls[k], SPLIT@, i) && (forall|j: int|
                        0 <= j < i ==> !matches_at(ls[k], SPLIT@, j)) && x == ls[k].take(i)
                        + ".html"@;
                if k < p.len() {
                    assert(p[k] == ls[k]);
                    assert(matches_at(p[k], SPLIT@, i));
                    assert(r.contains(x));
                    let m = choose|m: int| 0 <= m < r.len() && r[m] == x;
                    assert(all[m] == r[m]);
                } else {
                    assert(0 <= i);
                    lemma_find_from_first(last, SPLIT@, 0, i);
                    assert(all == r.push(x));
                    assert(all[r.len() as int] == x);
                }
            }
        }
    }
}

/// Leading zeros do not change what digits stand for.
proof fn lemma_leading_zeros(x: Seq<char>, d: Seq<char>)
    requires
        digits_value(x) == 0,
    ensures
        digits_value(x + d) == digits_value(d),
    decreases d.len(),
{
    if d.len() == 0 {
        assert(x + d =~= x);
    } else {
        lemma_leading_zeros(x, d.drop_last());
        assert((x + d).drop_last() =~= x + d.drop_last());
        assert((x + d).last() == d.last());
    }
}

/// A run of zeros stands for zero.
proof fn lemma_zeros_value(n: nat)
    ensures
        digits_value(Seq::new(n, |i: int| '0')) == 0,
    decreases n,
{
    if n > 0 {
        lemma_zeros_value((n - 1) as nat);
        assert(Seq::new(n, |i: int| '0').drop_last() =~= Seq::new((n - 1) as nat, |i: int| '0'));
    }
}

/// A line number as written is made of digits, stands for the number,
/// and is as wide as asked unless the number needs more digits.
pub proof fn law_zero_padded_number(n: nat, width: nat)
    ensures
        digits_value(zero_padded(n, width)) == n,
        forall|i: int|
            0 <= i < zero_padded(n, width).len() ==> '0' <= #[trigger] zero_padded(n, width)[i]
                <= '9',
        zero_padded(n, width).len() == if decimal(n).len() >= width {
            decimal(n).len()
        } else {
            width
        },
{
    law_decimal_stands_for_its_number(n);
    let d = decimal(n);
    if d.len() < width {
        let z = Seq::new((width - d.len()) as nat, |i: int| '0');
        lemma_zeros_value((width - d.len()) as nat);
        lemma_leading_zeros(z, d);
        assert forall|i: int| 0 <= i < (z + d).len() implies '0' <= #[trigger] (z + d)[i] <= '9' by {
            if i >= z.len() {
                assert((z + d)[i] == d[i - z.len()]);
            }
        }
    }
}

} // verus!
