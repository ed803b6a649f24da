//! The story lines of a page that match a search: which lines are
//! candidates, when a line matches the searched text, and how its text is
//! tidied.
use vstd::prelude::*;
use crate::page::{CellValue, Page, PageValue, Cell};
use crate::search::{remove_double_spaces, squeeze_blanks, Line, LineValue};
use crate::sort::{key_le, law_sorted_permutation_unique, sort_by_key, sorted_by_key, views, Keyed};
use crate::text::{
    ascii_lower, ascii_lowercase,
    char_is_alphanumeric, chars_contains, chars_of, chars_replace, chars_split_once, chars_trim,
    concat, contains, is_alphanumeric, lemma_concat_push, lowercase, matches_at, replace_all, split_once,
    string_of, to_lowercase, trim,
};

verus! {

/// `a` and `b` are equal up to ASCII case, as `str::eq_ignore_ascii_case`
/// decides.
pub open spec fn eq_ignore_ascii_case(a: Seq<char>, b: Seq<char>) -> bool {
    a.len() == b.len() && forall|i: int| 0 <= i < a.len() ==> ascii_lower(a[i]) == ascii_lower(b[i])
}

/// The pieces of `s` between characters that are not alphanumeric, as
/// `str::split` with that predicate yields them (empty pieces included).
pub open spec fn words(s: Seq<char>) -> Seq<Seq<char>>
    decreases s.len(),
{
    if s.len() == 0 {
        seq![seq![]]
    } else {
        let w = words(s.drop_last());
        if is_alphanumeric(s.last()) {
            w.update(w.len() - 1, w.last().push(s.last()))
        } else {
            w.push(seq![])
        }
    }
}

/// A line of a page matches the searched `input`: it contains it (in
/// lowercase when case is ignored), or, when whole words are asked for,
/// one of its words equals it (up to ASCII case when case is ignored).
pub open spec fn line_matches(
    line: Seq<char>,
    input: Seq<char>,
    ignore_case: bool,
    word_regexp: bool,
) -> bool {
    if !word_regexp {
        if !ignore_case {
            contains(line, input)
        } else {
            contains(lowercase(line), lowercase(input))
        }
    } else if !ignore_case {
        words(line).contains(input)
    } else {
        exists|i: int| 0 <= i < words(line).len() && eq_ignore_ascii_case(words(line)[i], input)
    }
}

/// The text of a line as it is kept: line breaks removed, trimmed, and
/// runs of blanks squeezed to one space.
pub open spec fn tidy(s: Seq<char>) -> Seq<char> {
    squeeze_blanks(trim(replace_all(s, "\n"@, seq![])))
}

/// A student's name from the inner HTML of its element: what stands
/// before a `<span`, trimmed.
pub open spec fn student_name(raw: Seq<char>) -> Seq<char> {
    match split_once(raw, "<span"@) {
        Some((before, _)) => trim(before),
        None => trim(raw),
    }
}

/// The lines a cell may give, in the order they are looked at, each with
/// the text it is matched on: the student's line (when both name and line
/// are there), Sensei's line and reply, and the info line, each unless its
/// kind is ignored.
pub open spec fn candidates(
    file: Seq<char>,
    c: CellValue,
    student: bool,
    sensei: bool,
    info: bool,
) -> Seq<(Seq<char>, LineValue)> {
    let s = if !student && c.student_name is Some && c.student_line is Some {
        seq![
            (
                c.student_line.unwrap(),
                LineValue::Student {
                    file_name: file,
                    name: student_name(c.student_name.unwrap()),
                    text: tidy(c.student_line.unwrap()),
                },
            ),
        ]
    } else {
        seq![]
    };
    let l = if !sensei && c.sensei_line is Some {
        seq![
            (
                c.sensei_line.unwrap(),
                LineValue::Sensei { file_name: file, text: tidy(c.sensei_line.unwrap()) },
            ),
        ]
    } else {
        seq![]
    };
    let r = if !sensei && c.sensei_reply is Some {
        seq![
            (
                c.sensei_reply.unwrap(),
                LineValue::Sensei { file_name: file, text: tidy(c.sensei_reply.unwrap()) },
            ),
        ]
    } else {
        seq![]
    };
    let i = if !info && c.info_line is Some {
        seq![
            (
                c.info_line.unwrap(),
                LineValue::Info { file_name: file, text: tidy(c.info_line.unwrap()) },
            ),
        ]
    } else {
        seq![]
    };
    s + l + r + i
}

/// The candidates up to the first that does not match: a cell is left at
/// its first line that does not match.
pub open spec fn leading_matches(
    cands: Seq<(Seq<char>, LineValue)>,
    input: Seq<char>,
    ignore_case: bool,
    word_regexp: bool,
) -> Seq<LineValue>
    decreases cands.len(),
{
    if cands.len() == 0 {
        seq![]
    } else if !line_matches(cands[0].0, input, ignore_case, word_regexp) {
        seq![]
    } else {
        seq![cands[0].1] + leading_matches(cands.drop_first(), input, ignore_case, word_regexp)
    }
}

/// The lines a page gives, before sorting: its description (unless
/// ignored; it is not matched), then the matching lines of each cell.
pub open spec fn page_lines(
    file: Seq<char>,
    page: PageValue,
    input: Seq<char>,
    ignore_case: bool,
    word_regexp: bool,
    student: bool,
    sensei: bool,
    info: bool,
    description: bool,
) -> Seq<LineValue> {
    let d = if !description && page.description is Some {
        seq![LineValue::Description { file_name: file, text: tidy(page.description.unwrap()) }]
    } else {
        seq![]
    };
    d + concat(
        Seq::new(
            page.cells.len(),
            |k: int|
                leading_matches(
                    candidates(file, page.cells[k], student, sensei, info),
                    input,
                    ignore_case,
                    word_regexp,
                ),
        ),
    )
}

/// Whether `a` and `b` are equal up to ASCII case.
fn chars_eq_ignore_ascii_case(a: &[char], b: &[char]) -> (r: bool)
    ensures
        r == eq_ignore_ascii_case(a@, b@),
{
    if a.len() != b.len() {
        return false;
    }
    let mut i: usize = 0;
    while i < a.len()
        invariant
            a.len() == b.len(),
            i <= a.len(),
            forall|k: int| 0 <= k < i ==> ascii_lower(a@[k]) == ascii_lower(b@[k]),
        decreases a.len() - i,
    {
        let x = a[i];
        let y = b[i];
        let lx = if 'A' <= x && x <= 'Z' {
            ((x as u32) + 32) as u8 as char
        } else {
            x
        };
        let ly = if 'A' <= y && y <= 'Z' {
            ((y as u32) + 32) as u8 as char
        } else {
            y
        };
        assert(lx == ascii_lower(x));
        assert(ly == ascii_lower(y));
        if lx != ly {
            return false;
        }
        i = i + 1;
    }
    true
}

/// The pieces of `s` between characters that are not alphanumeric.
fn chars_words(s: &[char]) -> (r: Vec<Vec<char>>)
    ensures
        r@.map_values(|w: Vec<char>| w@) == words(s@),
{
    let mut done: Vec<Vec<char>> = Vec::new();
    let mut current: Vec<char> = Vec::new();
    let mut i: usize = 0;
    assert(s@.take(0) =~= Seq::<char>::empty());
    assert(done@.map_values(|w: Vec<char>| w@).push(current@) =~= words(s@.take(0)));
    while i < s.len()
        invariant
            i <= s.len(),
            done@.map_values(|w: Vec<char>| w@).push(current@) == words(s@.take(i as int)),
        decreases s.len() - i,
    {
        let c = s[i];
        let ghost before = done@.map_values(|w: Vec<char>| w@).push(current@);
        assert(s@.take(i + 1).drop_last() =~= s@.take(i as int));
        if char_is_alphanumeric(c) {
            current.push(c);
            assert(done@.map_values(|w: Vec<char>| w@).push(current@) =~= before.update(
                before.len() - 1,
                before.last().push(c),
            ));
        } else {
            let finished = current;
            current = Vec::new();
            let ghost done_before = done@;
            done.push(finished);
            assert(done@.map_values(|w: Vec<char>| w@) =~= done_before.map_values(
                |w: Vec<char>| w@,
            ).push(finished@));
            assert(done@.map_values(|w: Vec<char>| w@).push(current@) =~= before.push(seq![]));
        }
        i = i + 1;
    }
    assert(s@.take(s.len() as int) =~= s@);
    done.push(current);
    done
}

/// Whether the line text `line` matches the searched `input`; `input_lower`
/// is the lowercase form of `input`.
fn line_matches_exec(
    line: &str,
    input: &[char],
    input_lower: &[char],
    ignore_case: bool,
    word_regexp: bool,
) -> (r: bool)
    requires
        input_lower@ == lowercase(input@),
    ensures
        r == line_matches(line@, input@, ignore_case, word_regexp),
{
    if !word_regexp {
        if !ignore_case {
            chars_contains(&chars_of(line), input)
        } else {
            chars_contains(&chars_of(to_lowercase(line).as_str()), input_lower)
        }
    } else {
        let ws = chars_words(&chars_of(line));
        let ghost wv = ws@.map_values(|w: Vec<char>| w@);
        let mut i: usize = 0;
        while i < ws.len()
            invariant
                word_regexp,
                i <= ws@.len(),
                wv == ws@.map_values(|w: Vec<char>| w@),
                wv == words(line@),
                forall|k: int|
                    0 <= k < i ==> if ignore_case {
                        !eq_ignore_ascii_case(#[trigger] wv[k], input@)
                    } else {
                        wv[k] != input@
                    },
            decreases ws@.len() - i,
        {
            let hit = if ignore_case {
                chars_eq_ignore_ascii_case(&ws[i], input)
            } else {
                ws[i].len() == input.len() && chars_eq_exact(&ws[i], input)
            };
            if hit {
                assert(wv[i as int] == ws@[i as int]@);
                if !ignore_case {
                    assert(words(line@)[i as int] == input@);
                } else {
                    assert(eq_ignore_ascii_case(words(line@)[i as int], input@));
                }
                return true;
            }
            i = i + 1;
        }
        assert(!ignore_case ==> !words(line@).contains(input@));
        false
    }
}

/// Whether `a` and `b` hold the same characters.
fn chars_eq_exact(a: &[char], b: &[char]) -> (r: bool)
    ensures
        r == (a@ == b@),
{
    if a.len() != b.len() {
        return false;
    }
    let mut i: usize = 0;
    while i < a.len()
        invariant
            a.len() == b.len(),
            i <= a.len(),
            forall|k: int| 0 <= k < i ==> a@[k] == b@[k],
        decreases a.len() - i,
    {
        if a[i] != b[i] {
            return false;
        }
        i = i + 1;
    }
    assert(a@ =~= b@);
    true
}

/// The text of a line as it is kept.
fn tidy_exec(s: &str) -> (r: String)
    ensures
        r@ == tidy(s@),
{
    let newline = chars_of("\n");
    proof {
        reveal_strlit("\n");
    }
    let empty: Vec<char> = Vec::new();
    let joined = chars_replace(&chars_of(s), &newline, &empty);
    let trimmed = string_of(&chars_trim(&joined));
    remove_double_spaces(trimmed.as_str())
}

/// A student's name from the inner HTML of its element.
fn student_name_exec(raw: &str) -> (r: String)
    ensures
        r@ == student_name(raw@),
{
    let chars = chars_of(raw);
    let span = chars_of("<span");
    match chars_split_once(&chars, &span) {
        Some((before, _)) => string_of(&chars_trim(&before)),
        None => string_of(&chars_trim(&chars)),
    }
}

/// The candidate lines of a cell, each with the text it is matched on.
fn candidates_exec(file: &str, cell: &Cell, student: bool, sensei: bool, info: bool) -> (r: Vec<
    (String, Line),
>)
    ensures
        r@.map_values(|p: (String, Line)| (p.0@, p.1@)) == candidates(
            file@,
            cell@,
            student,
            sensei,
            info,
        ),
{
    let ghost c = cell@;
    let mut r: Vec<(String, Line)> = Vec::new();
    let ghost mut want: Seq<(Seq<char>, LineValue)> = seq![];
    if !student {
        if let (Some(name), Some(line)) = (&cell.student_name, &cell.student_line) {
            r.push(
                (
                    line.clone(),
                    Line::Student {
                        file_name: file.to_owned(),
                        name: student_name_exec(name.as_str()),
                        text: tidy_exec(line.as_str()),
                    },
                ),
            );
        }
    }
    let ghost s_part = r@.map_values(|p: (String, Line)| (p.0@, p.1@));
    if !sensei {
        if let Some(line) = &cell.sensei_line {
            r.push(
                (line.clone(), Line::Sensei { file_name: file.to_owned(), text: tidy_exec(line.as_str()) }),
            );
        }
    }
    let ghost l_part = r@.map_values(|p: (String, Line)| (p.0@, p.1@));
    if !sensei {
        if let Some(line) = &cell.sensei_reply {
            r.push(
                (line.clone(), Line::Sensei { file_name: file.to_owned(), text: tidy_exec(line.as_str()) }),
            );
        }
    }
    let ghost r_part = r@.map_values(|p: (String, Line)| (p.0@, p.1@));
    if !info {
        if let Some(line) = &cell.info_line {
            r.push(
                (line.clone(), Line::Info { file_name: file.to_owned(), text: tidy_exec(line.as_str()) }),
            );
        }
    }
    assert(r@.map_values(|p: (String, Line)| (p.0@, p.1@)) =~= candidates(
        file@,
        cell@,
        student,
        sensei,
        info,
    ));
    r
}

/// The matching lines of a cell: its candidates up to the first that does
/// not match.
fn cell_lines(
    file: &str,
    cell: &Cell,
    input: &[char],
    input_lower: &[char],
    ignore_case: bool,
    word_regexp: bool,
    student: bool,
    sensei: bool,
    info: bool,
) -> (r: Vec<Line>)
    requires
        input_lower@ == lowercase(input@),
    ensures
        views(r@) == leading_matches(
            candidates(file@, cell@, student, sensei, info),
            input@,
            ignore_case,
            word_regexp,
        ),
{
    let cands = candidates_exec(file, cell, student, sensei, info);
    let ghost all = cands@.map_values(|p: (String, Line)| (p.0@, p.1@));
    let mut rest = cands;
    let mut r: Vec<Line> = Vec::new();
    assert(all.skip(0) =~= all);
    loop
        invariant
            input_lower@ == lowercase(input@),
            all == candidates(file@, cell@, student, sensei, info),
            rest@.len() <= all.len(),
            rest@.map_values(|p: (String, Line)| (p.0@, p.1@)) == all.skip(
                all.len() - rest@.len(),
            ),
            leading_matches(all, input@, ignore_case, word_regexp) == views(r@)
                + leading_matches(
                all.skip(all.len() - rest@.len()),
                input@,
                ignore_case,
                word_regexp,
            ),
        decreases rest@.len(),
    {
        let ghost tail = all.skip(all.len() - rest@.len());
        if rest.len() == 0 {
            assert(tail =~= Seq::<(Seq<char>, LineValue)>::empty());
            assert(views(r@) + Seq::<LineValue>::empty() =~= views(r@));
            return r;
        }
        let ghost rest_before = rest@;
        let (text, line) = rest.remove(0);
        proof {
            assert(tail[0] == (text@, line@));
            assert(rest@.map_values(|p: (String, Line)| (p.0@, p.1@)) =~= tail.drop_first());
            assert(tail.drop_first() =~= all.skip(all.len() - rest@.len()));
        }
        if !line_matches_exec(text.as_str(), input, input_lower, ignore_case, word_regexp) {
            assert(views(r@) + Seq::<LineValue>::empty() =~= views(r@));
            return r;
        }
        let ghost before = views(r@);
        r.push(line);
        assert(views(r@) =~= before.push(line@));
        assert(before + (seq![line@] + leading_matches(
            tail.drop_first(),
            input@,
            ignore_case,
            word_regexp,
        )) =~= views(r@) + leading_matches(tail.drop_first(), input@, ignore_case, word_regexp));
    }
}

/// The lines of a page that a search keeps, sorted as `Line`'s derived
/// order sorts them; none if there are none. The description comes first
/// unless ignored; a cell gives its student line, Sensei line, Sensei reply
/// and info line, each unless its kind is ignored, and is left at the
/// first of these that does not match `input`.
pub fn scrape_from_match(
    file_name: &str,
    page: &Page,
    input: &str,
    ignore_case: bool,
    word_regexp: bool,
    student: bool,
    sensei: bool,
    info: bool,
    description: bool,
) -> (r: Option<Vec<Line>>)
    ensures
        ({
            let all = page_lines(
                file_name@,
                page@,
                input@,
                ignore_case,
                word_regexp,
                student,
                sensei,
                info,
                description,
            );
            &&& r is None <==> all.len() == 0
            &&& r matches Some(v) ==> views(v@).to_multiset() == all.to_multiset()
                && sorted_by_key::<Line>(views(v@))
        }),
{
    let input_chars = chars_of(input);
    let input_lower = chars_of(to_lowercase(input).as_str());
    let mut lines: Vec<Line> = Vec::new();
    if !description {
        if let Some(d) = &page.description {
            lines.push(Line::Description { file_name: file_name.to_owned(), text: tidy_exec(d.as_str()) });
        }
    }
    let ghost head = views(lines@);
    assert(head =~= (if !description && page@.description is Some {
        seq![LineValue::Description { file_name: file_name@, text: tidy(page@.description.unwrap()) }]
    } else {
        seq![]
    }));
    let ghost pv = page@;
    let ghost parts = Seq::new(
        pv.cells.len(),
        |k: int|
            leading_matches(
                candidates(file_name@, pv.cells[k], student, sensei, info),
                input@,
                ignore_case,
                word_regexp,
            ),
    );
    let mut k: usize = 0;
    assert(parts.take(0) =~= Seq::<Seq<LineValue>>::empty());
    assert(views(lines@) =~= head + concat(parts.take(0)));
    while k < page.cells.len()
        invariant
            k <= page.cells@.len(),
            pv == page@,
            input_lower@ == lowercase(input_chars@),
            input_chars@ == input@,
            parts.len() == page.cells@.len(),
            parts == Seq::new(
                pv.cells.len(),
                |k: int|
                    leading_matches(
                        candidates(file_name@, pv.cells[k], student, sensei, info),
                        input@,
                        ignore_case,
                        word_regexp,
                    ),
            ),
            views(lines@) == head + concat(parts.take(k as int)),
        decreases page.cells@.len() - k,
    {
        let more = cell_lines(
            file_name,
            &page.cells[k],
            &input_chars,
            &input_lower,
            ignore_case,
            word_regexp,
            student,
            sensei,
            info,
        );
        assert(pv.cells[k as int] == page.cells@[k as int]@);
        let ghost before = views(lines@);
        let mut more = more;
        let ghost more_v = views(more@);
        lines.append(&mut more);
        proof {
            assert(views(lines@) =~= before + more_v);
            assert(parts.take(k + 1) =~= parts.take(k as int).push(parts[k as int]));
            lemma_concat_push(parts.take(k as int), parts[k as int]);
        }
        k = k + 1;
    }
    assert(parts.take(k as int) =~= parts);
    if lines.len() == 0 {
        None
    } else {
        Some(sort_by_key(lines))
    }
}

// ---------------------------------------------------------------------------
// Laws
// ---------------------------------------------------------------------------

/// A match in `p` is a match in `p` extended by one more item.
proof fn lemma_contains_push<T>(p: Seq<T>, w: Seq<T>, c: T)
    requires
        contains(p, w),
    ensures
        contains(p.push(c), w),
{
    let j = choose|j: int| matches_at(p, w, j);
    assert(p.push(c).subrange(j, j + w.len()) =~= p.subrange(j, j + w.len()));
    assert(matches_at(p.push(c), w, j));
}

/// Every word of `s` occurs in `s`, and the last word ends `s`.
proof fn lemma_words_occur(s: Seq<char>)
    ensures
        forall|i: int| 0 <= i < words(s).len() ==> contains(s, #[trigger] words(s)[i]),
        words(s).len() > 0,
        matches_at(s, words(s).last(), s.len() - words(s).last().len()),
    decreases s.len(),
{
    if s.len() == 0 {
        assert(s.subrange(0, 0) =~= Seq::<char>::empty());
        assert(matches_at(s, Seq::<char>::empty(), 0));
        assert(words(s)[0] =~= Seq::<char>::empty());
    } else {
        let p = s.drop_last();
        let c = s.last();
        lemma_words_occur(p);
        let w = words(p);
        assert(p.push(c) =~= s);
        assert forall|i: int| 0 <= i < w.len() - 1 implies contains(s, #[trigger] w[i]) by {
            assert(contains(p, w[i]));
            lemma_contains_push(p, w[i], c);
        }
        if is_alphanumeric(c) {
            let last = w.last().push(c);
            let j = p.len() - w.last().len();
            assert(s.subrange(j, j + last.len()) =~= p.subrange(j, j + w.last().len()).push(c));
            assert(matches_at(s, last, j));
            assert forall|i: int| 0 <= i < words(s).len() implies contains(
                s,
                #[trigger] words(s)[i],
            ) by {
                if i < w.len() - 1 {
                    assert(words(s)[i] == w[i]);
                } else {
                    assert(words(s)[i] == last);
                }
            }
        } else {
            assert(s.subrange(s.len() as int, s.len() as int) =~= Seq::<char>::empty());
            assert(matches_at(s, Seq::<char>::empty(), s.len() as int));
            assert(contains(p, w.last()));
            lemma_contains_push(p, w.last(), c);
            assert forall|i: int| 0 <= i < words(s).len() implies contains(
                s,
                #[trigger] words(s)[i],
            ) by {
                if i < w.len() - 1 {
                    assert(words(s)[i] == w[i]);
                } else if i == w.len() - 1 {
                    assert(words(s)[i] == w.last());
                } else {
                    assert(words(s)[i] =~= Seq::<char>::empty());
                }
            }
            assert(words(s).last() =~= Seq::<char>::empty());
        }
    }
}

/// A whole-word match is also a plain match: a line in which `input` is
/// one of the words contains `input`.
pub proof fn law_word_match_is_plain_match(line: Seq<char>, input: Seq<char>)
    ensures
        line_matches(line, input, false, true) ==> line_matches(line, input, false, false),
{
    lemma_words_occur(line);
    if words(line).contains(input) {
        let i = choose|i: int| 0 <= i < words(line).len() && words(line)[i] == input;
        assert(contains(line, words(line)[i]));
    }
}

/// Each line kept from a cell is one of its candidates, and its text
/// matches the input.
proof fn lemma_leading_matches_match(
    cands: Seq<(Seq<char>, LineValue)>,
    input: Seq<char>,
    ignore_case: bool,
    word_regexp: bool,
)
    ensures
        forall|i: int|
            #![trigger leading_matches(cands, input, ignore_case, word_regexp)[i]]
            0 <= i < leading_matches(cands, input, ignore_case, word_regexp).len() ==> exists|
                j: int,
            |
                0 <= j < cands.len() && (#[trigger] cands[j]).1 == leading_matches(
                    cands,
                    input,
                    ignore_case,
                    word_regexp,
                )[i] && line_matches(cands[j].0, input, ignore_case, word_regexp),
    decreases cands.len(),
{
    if cands.len() > 0 && line_matches(cands[0].0, input, ignore_case, word_regexp) {
        let rest = cands.drop_first();
        lemma_leading_matches_match(rest, input, ignore_case, word_regexp);
        let all = leading_matches(cands, input, ignore_case, word_regexp);
        assert forall|i: int| #![trigger all[i]] 0 <= i < all.len() implies exists|j: int|
            0 <= j < cands.len() && (#[trigger] cands[j]).1 == all[i] && line_matches(
                cands[j].0,
                input,
                ignore_case,
                word_regexp,
            ) by {
            if i == 0 {
                assert(cands[0].1 == all[0]);
            } else {
                let r = leading_matches(rest, input, ignore_case, word_regexp);
                assert(all[i] == r[i - 1]);
                let j = choose|j: int|
                    0 <= j < rest.len() && (#[trigger] rest[j]).1 == r[i - 1] && line_matches(
                        rest[j].0,
                        input,
                        ignore_case,
                        word_regexp,
                    );
                assert(cands[j + 1] == rest[j]);
            }
        }
    }
}

/// An item of a concatenation is an item of one of the parts.
proof fn lemma_concat_item<T>(parts: Seq<Seq<T>>, i: int)
    requires
        0 <= i < concat(parts).len(),
    ensures
        exists|k: int, j: int|
            0 <= k < parts.len() && 0 <= j < parts[k].len() && #[trigger] parts[k][j]
                == concat(parts)[i],
    decreases parts.len(),
{
    if parts.len() > 0 {
        let front = concat(parts.drop_last());
        if i < front.len() {
            lemma_concat_item(parts.drop_last(), i);
            let (k, j) = choose|k: int, j: int|
                0 <= k < parts.drop_last().len() && 0 <= j < parts.drop_last()[k].len()
                    && #[trigger] parts.drop_last()[k][j] == front[i];
            assert(parts[k][j] == concat(parts)[i]);
        } else {
            let k = parts.len() - 1;
            assert(parts[k][i - front.len()] == concat(parts)[i]);
        }
    }
}

/// Each candidate of a cell is from the page's file and of a kind that is
/// not ignored.
proof fn lemma_candidate_kinds(
    file: Seq<char>,
    c: CellValue,
    student: bool,
    sensei: bool,
    info: bool,
    m: int,
)
    requires
        0 <= m < candidates(file, c, student, sensei, info).len(),
    ensures
        ({
            let x = candidates(file, c, student, sensei, info)[m].1;
            &&& x.file_name() == file
            &&& !(x is Description)
            &&& (x is Student ==> !student)
            &&& (x is Sensei ==> !sensei)
            &&& (x is Info ==> !info)
        }),
{
    let cands = candidates(file, c, student, sensei, info);
    let s = if !student && c.student_name is Some && c.student_line is Some {
        seq![
            (
                c.student_line.unwrap(),
                LineValue::Student {
                    file_name: file,
                    name: student_name(c.student_name.unwrap()),
                    text: tidy(c.student_line.unwrap()),
                },
            ),
        ]
    } else {
        seq![]
    };
    let l = if !sensei && c.sensei_line is Some {
        seq![
            (
                c.sensei_line.unwrap(),
                LineValue::Sensei { file_name: file, text: tidy(c.sensei_line.unwrap()) },
            ),
        ]
    } else {
        seq![]
    };
    let r = if !sensei && c.sensei_reply is Some {
        seq![
            (
                c.sensei_reply.unwrap(),
                LineValue::Sensei { file_name: file, text: tidy(c.sensei_reply.unwrap()) },
            ),
        ]
    } else {
        seq![]
    };
    let n = if !info && c.info_line is Some {
        seq![
            (
                c.info_line.unwrap(),
                LineValue::Info { file_name: file, text: tidy(c.info_line.unwrap()) },
            ),
        ]
    } else {
        seq![]
    };
    assert(cands == s + l + r + n);
    if m < s.len() {
        assert(cands[m] == s[m]);
    } else if m < s.len() + l.len() {
        assert(cands[m] == l[m - s.len()]);
    } else if m < s.len() + l.len() + r.len() {
        assert(cands[m] == r[m - s.len() - l.len()]);
    } else {
        assert(cands[m] == n[m - s.len() - l.len() - r.len()]);
    }
}

/// Every line a page gives, but its description, comes from one of its
/// cells, is of a kind that is not ignored, and its text (before tidying)
/// matches the input; the description is given only when not ignored.
pub proof fn law_page_lines_match(
    file: Seq<char>,
    page: PageValue,
    input: Seq<char>,
    ignore_case: bool,
    word_regexp: bool,
    student: bool,
    sensei: bool,
    info: bool,
    description: bool,
)
    ensures
        ({
            let all = page_lines(
                file,
                page,
                input,
                ignore_case,
                word_regexp,
                student,
                sensei,
                info,
                description,
            );
            forall|i: int|
                0 <= i < all.len() ==> {
                    &&& (#[trigger] all[i]).file_name() == file
                    &&& (all[i] is Description ==> !description)
                    &&& (all[i] is Student ==> !student)
                    &&& (all[i] is Sensei ==> !sensei)
                    &&& (all[i] is Info ==> !info)
                    &&& (!(all[i] is Description) ==> exists|k: int, j: int|
                        0 <= k < page.cells.len() && 0 <= j < candidates(
                            file,
                            page.cells[k],
                            student,
                            sensei,
                            info,
                        ).len() && #[trigger] candidates(
                            file,
                            page.cells[k],
                            student,
                            sensei,
                            info,
                        )[j].1 == all[i] && line_matches(
                            candidates(file, page.cells[k], student, sensei, info)[j].0,
                            input,
                            ignore_case,
                            word_regexp,
                        ))
                }
        }),
{
    let all = page_lines(
        file,
        page,
        input,
        ignore_case,
        word_regexp,
        student,
        sensei,
        info,
        description,
    );
    let d = if !description && page.description is Some {
        seq![LineValue::Description { file_name: file, text: tidy(page.description.unwrap()) }]
    } else {
        seq![]
    };
    let parts = Seq::new(
        page.cells.len(),
        |k: int|
            leading_matches(
                candidates(file, page.cells[k], student, sensei, info),
                input,
                ignore_case,
                word_regexp,
            ),
    );
    assert(all == d + concat(parts));
    assert forall|i: int| 0 <= i < all.len() implies {
        &&& (#[trigger] all[i]).file_name() == file
        &&& (all[i] is Description ==> !description)
        &&& (all[i] is Student ==> !student)
        &&& (all[i] is Sensei ==> !sensei)
        &&& (all[i] is Info ==> !info)
        &&& (!(all[i] is Description) ==> exists|k: int, j: int|
            0 <= k < page.cells.len() && 0 <= j < candidates(
                file,
                page.cells[k],
                student,
                sensei,
                info,
            ).len() && #[trigger] candidates(file, page.cells[k], student, sensei, info)[j].1
                == all[i] && line_matches(
                candidates(file, page.cells[k], student, sensei, info)[j].0,
                input,
                ignore_case,
                word_regexp,
            ))
    } by {
        if i < d.len() {
            assert(all[i] == d[i]);
        } else {
            assert(all[i] == concat(parts)[i - d.len()]);
            lemma_concat_item(parts, i - d.len());
            let (k, j) = choose|k: int, j: int|
                0 <= k < parts.len() && 0 <= j < parts[k].len() && #[trigger] parts[k][j]
                    == concat(parts)[i - d.len()];
            let cands = candidates(file, page.cells[k], student, sensei, info);
            lemma_leading_matches_match(cands, input, ignore_case, word_regexp);
            let m = choose|m: int|
                0 <= m < cands.len() && (#[trigger] cands[m]).1 == parts[k][j] && line_matches(
                    cands[m].0,
                    input,
                    ignore_case,
                    word_regexp,
                );
            lemma_candidate_kinds(file, page.cells[k], student, sensei, info, m);
        }
    }
}

/// The lines of `s` but its description lines, in the same order.
pub open spec fn without_descriptions(s: Seq<LineValue>) -> Seq<LineValue>
    decreases s.len(),
{
    if s.len() == 0 {
        seq![]
    } else if s.last() is Description {
        without_descriptions(s.drop_last())
    } else {
        without_descriptions(s.drop_last()).push(s.last())
    }
}

/// Dropping the descriptions of a concatenation drops them from each part.
proof fn lemma_without_descriptions_add(a: Seq<LineValue>, b: Seq<LineValue>)
    ensures
        without_descriptions(a + b) == without_descriptions(a) + without_descriptions(b),
    decreases b.len(),
{
    if b.len() == 0 {
        assert(a + b =~= a);
        assert(without_descriptions(a) + Seq::<LineValue>::empty() =~= without_descriptions(a));
    } else {
        assert((a + b).drop_last() =~= a + b.drop_last());
        assert((a + b).last() == b.last());
        lemma_without_descriptions_add(a, b.drop_last());
        if !(b.last() is Description) {
            assert((without_descriptions(a) + without_descriptions(b.drop_last())).push(b.last())
                =~= without_descriptions(a) + without_descriptions(b.drop_last()).push(b.last()));
        }
    }
}

/// Lines without descriptions are left as they are.
proof fn lemma_without_descriptions_none(s: Seq<LineValue>)
    requires
        forall|i: int| 0 <= i < s.len() ==> !(#[trigger] s[i] is Description),
    ensures
        without_descriptions(s) == s,
    decreases s.len(),
{
    if s.len() > 0 {
        let p = s.drop_last();
        assert forall|i: int| 0 <= i < p.len() implies !(#[trigger] p[i] is Description) by {
            assert(p[i] == s[i]);
        }
        lemma_without_descriptions_none(p);
        assert(!(s[s.len() - 1] is Description));
        assert(p.push(s.last()) =~= s);
    }
}

/// Dropping the descriptions keeps every other line as often as it was
/// there.
proof fn lemma_without_descriptions_count(s: Seq<LineValue>, x: LineValue)
    ensures
        without_descriptions(s).to_multiset().count(x) == if x is Description {
            0
        } else {
            s.to_multiset().count(x)
        },
    decreases s.len(),
{
    broadcast use vstd::seq_lib::group_to_multiset_ensures;

    if s.len() == 0 {
        assert(!s.contains(x));
        assert(!without_descriptions(s).contains(x));
    } else {
        let p = s.drop_last();
        lemma_without_descriptions_count(p, x);
        assert(s =~= p.push(s.last()));
        if !(s.last() is Description) {
            assert(without_descriptions(s) == without_descriptions(p).push(s.last()));
        }
    }
}

/// Dropping the descriptions of sorted lines leaves them sorted, and each
/// line left was there before.
proof fn lemma_without_descriptions_sorted(s: Seq<LineValue>)
    requires
        sorted_by_key::<Line>(s),
    ensures
        sorted_by_key::<Line>(without_descriptions(s)),
        forall|i: int|
            0 <= i < without_descriptions(s).len() ==> s.contains(
                #[trigger] without_descriptions(s)[i],
            ),
    decreases s.len(),
{
    if s.len() > 0 {
        let p = s.drop_last();
        assert forall|i: int, j: int| 0 <= i < j < p.len() implies key_le(
            Line::key_of(#[trigger] p[i]),
            Line::key_of(#[trigger] p[j]),
        ) by {
            assert(p[i] == s[i] && p[j] == s[j]);
        }
        lemma_without_descriptions_sorted(p);
        let w = without_descriptions(p);
        assert forall|i: int| 0 <= i < w.len() implies s.contains(#[trigger] w[i]) by {
            let j = choose|j: int| 0 <= j < p.len() && p[j] == w[i];
            assert(s[j] == p[j]);
        }
        if !(s.last() is Description) {
            let w2 = w.push(s.last());
            assert(without_descriptions(s) == w2);
            assert forall|i: int, j: int| 0 <= i < j < w2.len() implies key_le(
                Line::key_of(#[trigger] w2[i]),
                Line::key_of(#[trigger] w2[j]),
            ) by {
                assert(w2[i] == w[i]);
                if j < w.len() {
                    assert(w2[j] == w[j]);
                } else {
                    let k = choose|k: int| 0 <= k < p.len() && p[k] == w[i];
                    assert(s[k] == w[i]);
                    assert(s[s.len() - 1] == w2[j]);
                }
            }
            assert forall|i: int| 0 <= i < w2.len() implies s.contains(#[trigger] w2[i]) by {
                if i < w.len() {
                    assert(w2[i] == w[i]);
                } else {
                    assert(s[s.len() - 1] == w2[i]);
                }
            }
        }
    }
}

/// Switching the description off drops the page's description and leaves
/// its other lines as they are, in the same order.
pub proof fn law_description_off_drops_only_it(
    file: Seq<char>,
    page: PageValue,
    input: Seq<char>,
    ignore_case: bool,
    word_regexp: bool,
    student: bool,
    sensei: bool,
    info: bool,
)
    ensures
        page_lines(file, page, input, ignore_case, word_regexp, student, sensei, info, true)
            == without_descriptions(
            page_lines(file, page, input, ignore_case, word_regexp, student, sensei, info, false),
        ),
{
    let on = page_lines(file, page, input, ignore_case, word_regexp, student, sensei, info, false);
    let off = page_lines(file, page, input, ignore_case, word_regexp, student, sensei, info, true);
    let parts = Seq::new(
        page.cells.len(),
        |k: int|
            leading_matches(
                candidates(file, page.cells[k], student, sensei, info),
                input,
                ignore_case,
                word_regexp,
            ),
    );
    let rest = concat(parts);
    let d = if page.description is Some {
        seq![LineValue::Description { file_name: file, text: tidy(page.description.unwrap()) }]
    } else {
        seq![]
    };
    assert(on == d + rest);
    assert(off =~= rest);
    law_page_lines_match(file, page, input, ignore_case, word_regexp, student, sensei, info, true);
    assert forall|i: int| 0 <= i < rest.len() implies !(#[trigger] rest[i] is Description) by {
        assert(off[i] == rest[i]);
    }
    lemma_without_descriptions_none(rest);
    lemma_without_descriptions_add(d, rest);
    assert(without_descriptions(Seq::<LineValue>::empty()) =~= Seq::<LineValue>::empty());
    if page.description is Some {
        assert(d.drop_last() =~= Seq::<LineValue>::empty());
        assert(d.last() is Description);
    }
    assert(without_descriptions(d) =~= Seq::<LineValue>::empty());
    assert(Seq::<LineValue>::empty() + rest =~= rest);
}

/// The lines of two searches of a page that differ only in the
/// description switch, each given as `scrape_from_match` gives them
/// (sorted, the same lines as the page gives; no lines for a result of
/// none): with the description off they are the lines with it on, the
/// descriptions removed and the others in the same order; so there are
/// none exactly when every line with it on is a description.
pub proof fn law_description_switch(
    file: Seq<char>,
    page: PageValue,
    input: Seq<char>,
    ignore_case: bool,
    word_regexp: bool,
    student: bool,
    sensei: bool,
    info: bool,
    with_description: Seq<LineValue>,
    without_description: Seq<LineValue>,
)
    requires
        with_description.to_multiset() == page_lines(
            file,
            page,
            input,
            ignore_case,
            word_regexp,
            student,
            sensei,
            info,
            false,
        ).to_multiset(),
        sorted_by_key::<Line>(with_description),
        without_description.to_multiset() == page_lines(
            file,
            page,
            input,
            ignore_case,
            word_regexp,
            student,
            sensei,
            info,
            true,
        ).to_multiset(),
        sorted_by_key::<Line>(without_description),
    ensures
        without_description == without_descriptions(with_description),
        without_description.len() == 0 <==> forall|i: int|
            0 <= i < with_description.len() ==> #[trigger] with_description[i] is Description,
{
    let on = page_lines(file, page, input, ignore_case, word_regexp, student, sensei, info, false);
    law_description_off_drops_only_it(
        file,
        page,
        input,
        ignore_case,
        word_regexp,
        student,
        sensei,
        info,
    );
    let w = without_descriptions(with_description);
    assert(w.to_multiset() =~= without_descriptions(on).to_multiset()) by {
        assert forall|x: LineValue| w.to_multiset().count(x) == without_descriptions(
            on,
        ).to_multiset().count(x) by {
            lemma_without_descriptions_count(with_description, x);
            lemma_without_descriptions_count(on, x);
        }
    }
    lemma_without_descriptions_sorted(with_description);
    law_sorted_permutation_unique::<Line>(w, without_description);
    lemma_without_descriptions_all(with_description);
}

/// No line is left exactly when every line is a description.
proof fn lemma_without_descriptions_all(s: Seq<LineValue>)
    ensures
        without_descriptions(s).len() == 0 <==> forall|i: int|
            0 <= i < s.len() ==> #[trigger] s[i] is Description,
    decreases s.len(),
{
    if s.len() > 0 {
        let p = s.drop_last();
        lemma_without_descriptions_all(p);
        if forall|i: int| 0 <= i < s.len() ==> #[trigger] s[i] is Description {
            assert forall|i: int| 0 <= i < p.len() implies #[trigger] p[i] is Description by {
                assert(s[i] == p[i]);
            }
        }
        if forall|i: int| 0 <= i < p.len() ==> #[trigger] p[i] is Description {
            if s.last() is Description {
                assert forall|i: int| 0 <= i < s.len() implies #[trigger] s[i] is Description by {
                    if i < p.len() {
                        assert(s[i] == p[i]);
                    }
                }
            }
        }
    }
}

/// A whole-word match that ignores case is a word of the line equal to
/// the input once both have their ASCII capitals made small: of the same
/// length, and equal at every index up to ASCII case (so `may` never
/// matches the word `Mayday`).
pub proof fn law_word_match_ignoring_case(line: Seq<char>, input: Seq<char>)
    ensures
        line_matches(line, input, true, true) <==> exists|i: int|
            0 <= i < words(line).len() && ascii_lowercase(#[trigger] words(line)[i])
                == ascii_lowercase(input),
{
    let ws = words(line);
    if line_matches(line, input, true, true) {
        let i = choose|i: int| 0 <= i < ws.len() && eq_ignore_ascii_case(ws[i], input);
        assert(ascii_lowercase(ws[i]) =~= ascii_lowercase(input));
    }
    if exists|i: int| 0 <= i < ws.len() && ascii_lowercase(#[trigger] ws[i]) == ascii_lowercase(
        input,
    ) {
        let i = choose|i: int| 0 <= i < ws.len() && ascii_lowercase(#[trigger] ws[i])
            == ascii_lowercase(input);
        assert(ascii_lowercase(ws[i]).len() == ascii_lowercase(input).len());
        assert forall|k: int| 0 <= k < ws[i].len() implies ascii_lower(ws[i][k]) == ascii_lower(
            input[k],
        ) by {
            assert(ascii_lowercase(ws[i])[k] == ascii_lowercase(input)[k]);
        }
        assert(eq_ignore_ascii_case(ws[i], input));
    }
}

/// A whole-word match that minds case is also one that ignores it.
pub proof fn law_word_match_ignores_case_more(line: Seq<char>, input: Seq<char>)
    ensures
        line_matches(line, input, false, true) ==> line_matches(line, input, true, true),
{
    if line_matches(line, input, false, true) {
        let i = choose|i: int| 0 <= i < words(line).len() && words(line)[i] == input;
        assert(eq_ignore_ascii_case(words(line)[i], input));
    }
}

/// The characters of `s` that are not alphanumeric, in order.
pub open spec fn separators(s: Seq<char>) -> Seq<char>
    decreases s.len(),
{
    if s.len() == 0 {
        seq![]
    } else if is_alphanumeric(s.last()) {
        separators(s.drop_last())
    } else {
        separators(s.drop_last()).push(s.last())
    }
}

/// The pieces `ws` put back together, `seps[k]` between `ws[k]` and
/// `ws[k + 1]`.
pub open spec fn rejoined(ws: Seq<Seq<char>>, seps: Seq<char>) -> Seq<char>
    decreases ws.len(),
{
    if ws.len() == 0 {
        seq![]
    } else if ws.len() == 1 {
        ws[0]
    } else {
        rejoined(ws.drop_last(), seps.drop_last()) + seq![seps.last()] + ws.last()
    }
}

/// The words of a line are its pieces between the characters that are
/// not alphanumeric: one more than there are such characters, each made
/// of alphanumeric characters only, and put back together with those
/// characters between them they give the line.
pub proof fn law_words_split_at_separators(s: Seq<char>)
    ensures
        words(s).len() == separators(s).len() + 1,
        rejoined(words(s), separators(s)) == s,
        forall|k: int, i: int|
            0 <= k < words(s).len() && 0 <= i < words(s)[k].len() ==> is_alphanumeric(
                #[trigger] words(s)[k][i],
            ),
    decreases s.len(),
{
    if s.len() > 0 {
        let t = s.drop_last();
        let c = s.last();
        law_words_split_at_separators(t);
        let w = words(t);
        let seps = separators(t);
        if is_alphanumeric(c) {
            let w2 = w.update(w.len() - 1, w.last().push(c));
            assert(words(s) == w2);
            assert(w2.drop_last() =~= w.drop_last());
            if w.len() == 1 {
                assert(rejoined(w2, seps) == w2[0]);
                assert(w2[0] =~= t.push(c));
            } else {
                assert(rejoined(w2, seps) =~= rejoined(w, seps).push(c));
            }
            assert(t.push(c) =~= s);
            assert forall|k: int, i: int|
                0 <= k < w2.len() && 0 <= i < w2[k].len() implies is_alphanumeric(
                #[trigger] w2[k][i],
            ) by {
                if k < w.len() - 1 {
                    assert(w2[k] == w[k]);
                } else if i < w.last().len() {
                    assert(w2[k][i] == w[k][i]);
                }
            }
        } else {
            let w2 = w.push(seq![]);
            assert(words(s) == w2);
            let seps2 = seps.push(c);
            assert(separators(s) == seps2);
            assert(w2.drop_last() =~= w);
            assert(seps2.drop_last() =~= seps);
            assert(rejoined(w2, seps2) =~= t + seq![c]);
            assert(t + seq![c] =~= s);
            assert forall|k: int, i: int|
                0 <= k < w2.len() && 0 <= i < w2[k].len() implies is_alphanumeric(
                #[trigger] w2[k][i],
            ) by {
                assert(w2[k] == w[k]);
            }
        }
    } else {
        assert(rejoined(words(s), separators(s)) =~= s);
    }
}

} // verus!
