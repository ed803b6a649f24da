use ba_search::page::read_page;
use ba_search::report::{
    distinct_lines, filter_output, ignored_patterns, line_count, matched_files, number_text,
    render_lines, search_input, separate_matches, sort_lines, SearchError,
};
use ba_search::scrape::scrape_from_match;
use ba_search::search::Line;

const PAGE: &str = r#"<!DOCTYPE html>
<html><head><title>x</title><meta name="description" content="A  story about
 Natsu"></head><body><table><tr>
<td><div class="story-student-name">Natsu <span class="club">Supplementary</span></div><div class="story-student-line-container">It's so  romantic!</div></td>
<td><div class="story-sensei-line">Hello romantic</div><div class="story-reply-option">bye</div><div class="story-info-container">romantic info</div></td>
<td><div class="story-info-container">Romantic tale</div></td>
</tr></table></body></html>"#;

fn student(file: &str, name: &str, text: &str) -> Line {
    Line::Student { file_name: file.into(), name: name.into(), text: text.into() }
}

fn sensei(file: &str, text: &str) -> Line {
    Line::Sensei { file_name: file.into(), text: text.into() }
}

fn info(file: &str, text: &str) -> Line {
    Line::Info { file_name: file.into(), text: text.into() }
}

fn description(file: &str, text: &str) -> Line {
    Line::Description { file_name: file.into(), text: text.into() }
}

#[test]
fn page_is_read() {
    let page = read_page(PAGE).unwrap();
    assert_eq!(page.cells.len(), 3);
    assert_eq!(page.description.as_deref(), Some("A  story about\n Natsu"));
    assert_eq!(page.cells[0].student_line.as_deref(), Some("It's so  romantic!"));
    assert!(page.cells[0].student_name.as_deref().unwrap().starts_with("Natsu <span"));
    assert_eq!(page.cells[1].sensei_reply.as_deref(), Some("bye"));
    assert_eq!(page.cells[2].info_line.as_deref(), Some("Romantic tale"));
    assert_eq!(page.cells[2].student_line, None);
}

#[test]
fn scrape_case_sensitive() {
    let page = read_page(PAGE).unwrap();
    let lines = scrape_from_match("f.html", &page, "romantic", false, false, false, false, false, false)
        .unwrap();
    assert_eq!(
        lines,
        vec![
            student("f.html", "Natsu", "It's so romantic!"),
            sensei("f.html", "Hello romantic"),
            description("f.html", "A story about Natsu"),
        ]
    );
}

#[test]
fn scrape_ignore_case() {
    let page = read_page(PAGE).unwrap();
    let lines = scrape_from_match("f.html", &page, "ROMANTIC", true, false, false, false, false, true)
        .unwrap();
    assert_eq!(
        lines,
        vec![
            student("f.html", "Natsu", "It's so romantic!"),
            sensei("f.html", "Hello romantic"),
            info("f.html", "Romantic tale"),
        ]
    );
}

#[test]
fn scrape_word_regexp() {
    let page = read_page(PAGE).unwrap();
    // "romanti" is no whole word of any line.
    let none = scrape_from_match("f.html", &page, "romanti", false, true, false, false, false, true);
    assert_eq!(none, None);
    let lines = scrape_from_match("f.html", &page, "Romantic", true, true, false, false, false, true)
        .unwrap();
    assert_eq!(lines.len(), 3);
    let exact = scrape_from_match("f.html", &page, "Romantic", false, true, false, false, false, true)
        .unwrap();
    assert_eq!(exact, vec![info("f.html", "Romantic tale")]);
}

#[test]
fn scrape_ignored_kinds() {
    let page = read_page(PAGE).unwrap();
    let lines = scrape_from_match("f.html", &page, "romantic", true, false, true, false, false, true)
        .unwrap();
    assert!(lines.iter().all(|l| !matches!(l, Line::Student { .. })));
    // With Sensei ignored, the second cell gives its info line.
    let lines = scrape_from_match("f.html", &page, "romantic", true, false, true, true, false, true)
        .unwrap();
    assert_eq!(lines, vec![info("f.html", "Romantic tale"), info("f.html", "romantic info")]);
}

#[test]
fn scrape_nothing_found() {
    let page = read_page("<html><body><p>nothing</p></body></html>").unwrap();
    assert_eq!(scrape_from_match("g.html", &page, "x", false, false, false, false, false, false), None);
}

#[test]
fn line_accessors() {
    let l = student("a.html", "Natsu", "hi");
    assert_eq!(l.file_name(), "a.html");
    assert_eq!(l.speaker(), "Natsu");
    assert_eq!(l.text(), "hi");
    assert_eq!(sensei("a", "t").speaker(), "Sensei");
    assert_eq!(info("a", "t").speaker(), "INFO LINE");
    assert_eq!(description("a", "t").speaker(), "DESCRIPTION");
}

#[test]
fn search_arguments() {
    assert_eq!(search_input("x", true, true, true), Err(SearchError::AllLinesIgnored));
    assert_eq!(search_input("  \t", false, false, false), Err(SearchError::EmptyInput));
    assert_eq!(search_input("  Nameless Gods ", true, true, false), Ok("Nameless Gods".to_string()));
}

#[test]
fn ignored_lines_are_dropped() {
    let output = "a.html:keep this\nb.html:<p>summary\nc.html:has href= link\nd.html:content=x\n\n";
    assert_eq!(filter_output(output, false), "a.html:keep this");
    assert_eq!(filter_output(output, true), "a.html:keep this\nb.html:<p>summary");
    assert_eq!(line_count(&filter_output(output, true)), 2);
    assert_eq!(ignored_patterns(true).len(), 109);
    assert_eq!(ignored_patterns(false).len(), 111);
}

#[test]
fn matches_are_separated() {
    let out = separate_matches("dir/a.html:  text\nno split here\nb.html:x.html:y");
    assert_eq!(out, "dir/a.html:   text\nb.html: x.html:y\n");
}

#[test]
fn files_are_listed_once_in_path_order() {
    let out = "b.html: x\na/c.html: y\nb.html: z\na.b.html: w\n";
    assert_eq!(
        matched_files(out),
        vec!["a/c.html".to_string(), "a.b.html".to_string(), "b.html".to_string()]
    );
}

#[test]
fn lines_are_made_distinct() {
    let lines = vec![sensei("a", "x"), student("a", "N", "y"), sensei("a", "x")];
    assert_eq!(distinct_lines(lines), vec![student("a", "N", "y"), sensei("a", "x")]);
}

#[test]
fn lines_are_rendered() {
    let lines = vec![student("a.html", "Natsu", "so romantic")];
    let plain = render_lines(&lines, "romantic", false).unwrap();
    assert!(
        plain == "a.html (Natsu): so romantic\n"
            || plain == "a.html (\u{1b}[3mNatsu\u{1b}[0m): so romantic\n"
    );
    let outlined = render_lines(&lines, "romantic", true).unwrap();
    assert!(
        outlined == "a.html (**Natsu**): so **romantic**\n"
            || outlined == "a.html (\u{1b}[1;3m**Natsu**\u{1b}[0m): so **romantic**\n"
    );
}

#[test]
fn output_lines_are_sorted() {
    assert_eq!(sort_lines("b\na\nc"), "a\nb\nc");
    assert_eq!(sort_lines(""), "");
    assert_eq!(sort_lines("é\nz\nA"), "A\nz\né");
}

#[test]
fn text_is_numbered() {
    assert_eq!(&*number_text(""), "");
    assert_eq!(&*number_text("a\nb"), "1. a\n2. b");
    let ten: Vec<String> = (0..10).map(|i| format!("l{}", i)).collect();
    let numbered = number_text(&ten.join("\n"));
    assert!(numbered.starts_with("01. l0\n02. l1"));
    assert!(numbered.ends_with("10. l9"));
    assert_eq!(&*number_text("\n"), "1. ");
}

#[test]
fn whole_word_matches_split_on_punctuation() {
    let page = read_page(PAGE).unwrap();
    // "romantic!" and "It's" split at the characters that are not alphanumeric.
    let lines = scrape_from_match("f.html", &page, "romantic", false, true, false, false, false, true)
        .unwrap();
    assert_eq!(lines, vec![student("f.html", "Natsu", "It's so romantic!"), sensei("f.html", "Hello romantic")]);
    let s = scrape_from_match("f.html", &page, "s", false, true, false, false, false, true).unwrap();
    assert_eq!(s, vec![student("f.html", "Natsu", "It's so romantic!")]);
}

#[test]
fn whole_word_results_are_plain_results() {
    let page = read_page(PAGE).unwrap();
    for input in ["romantic", "Romantic", "tale", "so", "bye"] {
        let words = scrape_from_match("f.html", &page, input, false, true, false, false, false, true)
            .unwrap_or_default();
        let plain = scrape_from_match("f.html", &page, input, false, false, false, false, false, true)
            .unwrap_or_default();
        assert!(words.iter().all(|l| plain.contains(l)));
    }
}

#[test]
fn description_is_kept_unmatched_unless_ignored() {
    let page = read_page(PAGE).unwrap();
    let lines = scrape_from_match("f.html", &page, "zzz", false, false, true, true, true, false).unwrap();
    assert_eq!(lines, vec![description("f.html", "A story about Natsu")]);
    assert_eq!(scrape_from_match("f.html", &page, "zzz", false, false, true, true, true, true), None);
}

#[test]
fn sorting_is_deterministic() {
    assert_eq!(sort_lines("c\na\nb\na"), sort_lines("b\na\nc\na"));
    assert_eq!(sort_lines("c\na\nb\na"), "a\na\nb\nc");
}

#[test]
fn filtered_lines_hold_no_pattern() {
    let output = "x.html: width=3\ny.html: plain\nz.html: mw-head\n";
    let kept = filter_output(output, true);
    for line in kept.lines() {
        assert!(ignored_patterns(true).iter().all(|p| !line.contains(p)));
    }
    assert_eq!(kept, "y.html: plain");
}

#[test]
fn description_switch_removes_only_descriptions() {
    let page = read_page(PAGE).unwrap();
    for input in ["romantic", "Romantic", "zzz", "bye"] {
        for ignore_case in [false, true] {
            let on = scrape_from_match("f.html", &page, input, ignore_case, false, false, false, false, false)
                .unwrap_or_default();
            let off = scrape_from_match("f.html", &page, input, ignore_case, false, false, false, false, true)
                .unwrap_or_default();
            let expected: Vec<Line> = on
                .into_iter()
                .filter(|l| !matches!(l, Line::Description { .. }))
                .collect();
            assert_eq!(off, expected);
        }
    }
}
