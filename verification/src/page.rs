//! The parts of a story page that a search reads: the page description
//! and, for each table cell, the student's name and line, Sensei's line
//! and reply, and the info line. The HTML is parsed and queried by the
//! `scraper` crate.
use vstd::prelude::*;

verus! {

#[verifier::external_type_specification]
#[verifier::external_body]
pub struct ExHtml(scraper::Html);

/// Whether `scraper::Selector::parse` accepts `css` as a selector group.
/// This depends on the text alone.
pub uninterp spec fn selector_parses(css: Seq<char>) -> bool;

/// In the document parsed from `html`, the value of attribute `attr` of
/// the first element that matches the selector `css`, in tree order (the
/// parsed tree walked depth first, each node where the parser put it, which
/// for content the parser moves, such as stray table content, can differ
/// from the order of the text): none if no element matches or the first
/// lacks the attribute.
pub uninterp spec fn first_attribute(html: Seq<char>, css: Seq<char>, attr: Seq<char>) -> Option<
    Seq<char>,
>;

/// In the document parsed from `html`, the number of elements that match
/// the selector `scope`.
pub uninterp spec fn element_count(html: Seq<char>, scope: Seq<char>) -> nat;

/// In the document parsed from `html`, for each element matching `scope`
/// in tree order (as for [`first_attribute`]), the text (all text nodes, concatenated) of its first
/// descendant matching `css`, if any.
pub uninterp spec fn first_descendant_texts(
    html: Seq<char>,
    scope: Seq<char>,
    css: Seq<char>,
) -> Seq<Option<Seq<char>>>;

/// In the document parsed from `html`, for each element matching `scope`
/// in tree order (as for [`first_attribute`]), the inner HTML of its first descendant matching
/// `css`, if any.
pub uninterp spec fn first_descendant_inner_htmls(
    html: Seq<char>,
    scope: Seq<char>,
    css: Seq<char>,
) -> Seq<Option<Seq<char>>>;

/// An HTML document, parsed, with the text it was parsed from.
pub struct Document {
    html: scraper::Html,
    source: Ghost<Seq<char>>,
}

impl Document {
    /// The text the document was parsed from.
    pub closed spec fn source(&self) -> Seq<char> {
        self.source@
    }
}

/// The characters of each optional string.
pub open spec fn option_views(v: Seq<Option<String>>) -> Seq<Option<Seq<char>>> {
    v.map_values(|o: Option<String>| option_view(o))
}

/// The characters of an optional string.
pub open spec fn option_view(o: Option<String>) -> Option<Seq<char>> {
    match o {
        Some(s) => Some(s@),
        None => None,
    }
}

/// `scraper::Selector::parse` accepts or refuses `css`; the answer is
/// named [`selector_parses`].
#[verifier::external_body]
fn css_parses(css: &str) -> (b: bool)
    ensures
        b == selector_parses(css@),
{
    scraper::Selector::parse(css).is_ok()
}

/// `scraper::Html::parse_document` parses `text` as an HTML document; it
/// does not fail (errors are recovered from). The document keeps, as a
/// ghost, the text it came from.
#[verifier::external_body]
fn parse_document(text: &str) -> (d: Document)
    ensures
        d.source() == text@,
{
    Document { html: scraper::Html::parse_document(text), source: Ghost(text@) }
}

/// `Html::select` with the selector `css`, the first element it yields,
/// and `ElementRef::attr` of `attr` on it: named [`first_attribute`].
#[verifier::external_body]
fn attribute_of_first(doc: &Document, css: &str, attr: &str) -> (r: Option<String>)
    requires
        selector_parses(css@),
    ensures
        option_view(r) == first_attribute(doc.source(), css@, attr@),
{
    let selector = scraper::Selector::parse(css).unwrap();
    doc.html.select(&selector).next().and_then(|e| e.attr(attr)).map(|s| s.to_string())
}

/// `Html::select` with `scope`, and for each element it yields,
/// `ElementRef::select` with `css`, its first element and the text nodes
/// under it collected: named [`first_descendant_texts`], one entry per
/// element matching `scope`.
#[verifier::external_body]
fn descendant_texts(doc: &Document, scope: &str, css: &str) -> (r: Vec<Option<String>>)
    requires
        selector_parses(scope@),
        selector_parses(css@),
    ensures
        r@.len() == element_count(doc.source(), scope@),
        option_views(r@) == first_descendant_texts(doc.source(), scope@, css@),
{
    let outer = scraper::Selector::parse(scope).unwrap();
    let inner = scraper::Selector::parse(css).unwrap();
    doc.html.select(&outer).map(|e| e.select(&inner).next().map(|d| d.text().collect())).collect()
}

/// `Html::select` with `scope`, and for each element it yields,
/// `ElementRef::select` with `css`, its first element and
/// `ElementRef::inner_html` of it: named [`first_descendant_inner_htmls`],
/// one entry per element matching `scope`.
#[verifier::external_body]
fn descendant_inner_htmls(doc: &Document, scope: &str, css: &str) -> (r: Vec<Option<String>>)
    requires
        selector_parses(scope@),
        selector_parses(css@),
    ensures
        r@.len() == element_count(doc.source(), scope@),
        option_views(r@) == first_descendant_inner_htmls(doc.source(), scope@, css@),
{
    let outer = scraper::Selector::parse(scope).unwrap();
    let inner = scraper::Selector::parse(css).unwrap();
    doc.html.select(&outer).map(|e| e.select(&inner).next().map(|d| d.inner_html())).collect()
}

/// The selector of the table cells that hold story lines.
pub const CELL: &'static str = "td";

/// The selector of a student's name.
pub const STUDENT_NAME: &'static str = "div[class=\"story-student-name\"]";

/// The selector of a student's line.
pub const STUDENT_LINE: &'static str = "div[class=\"story-student-line-container\"]";

/// The selector of Sensei's line.
pub const SENSEI_LINE: &'static str = "div[class=\"story-sensei-line\"]";

/// The selector of Sensei's reply option.
pub const SENSEI_REPLY: &'static str = "div[class=\"story-reply-option\"]";

/// The selector of an info line.
pub const INFO_LINE: &'static str = "div[class=\"story-info-container\"]";

/// The selector of the page description.
pub const DESCRIPTION: &'static str = "meta[name=\"description\"]";

/// The attribute that holds the page description.
pub const CONTENT: &'static str = "content";

/// What one table cell holds.
pub struct Cell {
    /// The inner HTML of the student's name.
    pub student_name: Option<String>,
    /// The text of the student's line.
    pub student_line: Option<String>,
    /// The text of Sensei's line.
    pub sensei_line: Option<String>,
    /// The text of Sensei's reply option.
    pub sensei_reply: Option<String>,
    /// The text of the info line.
    pub info_line: Option<String>,
}

/// The mathematical value of a [`Cell`].
pub struct CellValue {
    pub student_name: Option<Seq<char>>,
    pub student_line: Option<Seq<char>>,
    pub sensei_line: Option<Seq<char>>,
    pub sensei_reply: Option<Seq<char>>,
    pub info_line: Option<Seq<char>>,
}

impl View for Cell {
    type V = CellValue;

    open spec fn view(&self) -> CellValue {
        CellValue {
            student_name: option_view(self.student_name),
            student_line: option_view(self.student_line),
            sensei_line: option_view(self.sensei_line),
            sensei_reply: option_view(self.sensei_reply),
            info_line: option_view(self.info_line),
        }
    }
}

/// What a story page holds: its description and its table cells.
pub struct Page {
    pub description: Option<String>,
    pub cells: Vec<Cell>,
}

/// The mathematical value of a [`Page`].
pub struct PageValue {
    pub description: Option<Seq<char>>,
    pub cells: Seq<CellValue>,
}

impl View for Page {
    type V = PageValue;

    open spec fn view(&self) -> PageValue {
        PageValue {
            description: option_view(self.description),
            cells: self.cells@.map_values(|c: Cell| c@),
        }
    }
}

/// All the selectors a page is read with parse.
pub open spec fn selectors_parse() -> bool {
    &&& selector_parses(CELL@)
    &&& selector_parses(STUDENT_NAME@)
    &&& selector_parses(STUDENT_LINE@)
    &&& selector_parses(SENSEI_LINE@)
    &&& selector_parses(SENSEI_REPLY@)
    &&& selector_parses(INFO_LINE@)
    &&& selector_parses(DESCRIPTION@)
}

/// The page that the HTML text `html` holds.
pub open spec fn page_of(html: Seq<char>) -> PageValue {
    PageValue {
        description: first_attribute(html, DESCRIPTION@, CONTENT@),
        cells: Seq::new(
            element_count(html, CELL@),
            |i: int|
                CellValue {
                    student_name: first_descendant_inner_htmls(html, CELL@, STUDENT_NAME@)[i],
                    student_line: first_descendant_texts(html, CELL@, STUDENT_LINE@)[i],
                    sensei_line: first_descendant_texts(html, CELL@, SENSEI_LINE@)[i],
                    sensei_reply: first_descendant_texts(html, CELL@, SENSEI_REPLY@)[i],
                    info_line: first_descendant_texts(html, CELL@, INFO_LINE@)[i],
                },
        ),
    }
}

/// Reads a story page from its HTML text: the `content` of the first
/// `meta[name="description"]`, and for each `td` the first student name,
/// student line, Sensei line, Sensei reply and info line in it. None if one
/// of the selectors does not parse.
pub fn read_page(html: &str) -> (r: Option<Page>)
    ensures
        r is Some <==> selectors_parse(),
        r matches Some(p) ==> p@ == page_of(html@),
{
    if !(css_parses(CELL) && css_parses(STUDENT_NAME) && css_parses(STUDENT_LINE) && css_parses(
        SENSEI_LINE,
    ) && css_parses(SENSEI_REPLY) && css_parses(INFO_LINE) && css_parses(DESCRIPTION)) {
        return None;
    }
    let doc = parse_document(html);
    let description = attribute_of_first(&doc, DESCRIPTION, CONTENT);
    let mut names = descendant_inner_htmls(&doc, CELL, STUDENT_NAME);
    let mut lines = descendant_texts(&doc, CELL, STUDENT_LINE);
    let mut sensei = descendant_texts(&doc, CELL, SENSEI_LINE);
    let mut replies = descendant_texts(&doc, CELL, SENSEI_REPLY);
    let mut infos = descendant_texts(&doc, CELL, INFO_LINE);
    let ghost n = names@.len();
    let ghost want = page_of(html@);
    let mut cells: Vec<Cell> = Vec::new();
    let mut i: usize = names.len();
    // Cells are taken from the back, so that each entry can be moved out.
    while i > 0
        invariant
            i <= n,
            names@.len() == i,
            lines@.len() == i,
            sensei@.len() == i,
            replies@.len() == i,
            infos@.len() == i,
            n == want.cells.len(),
            cells@.len() == n - i,
            forall|k: int| 0 <= k < i ==> option_view(#[trigger] names@[k]) == want.cells[k].student_name,
            forall|k: int| 0 <= k < i ==> option_view(#[trigger] lines@[k]) == want.cells[k].student_line,
            forall|k: int| 0 <= k < i ==> option_view(#[trigger] sensei@[k]) == want.cells[k].sensei_line,
            forall|k: int| 0 <= k < i ==> option_view(#[trigger] replies@[k]) == want.cells[k].sensei_reply,
            forall|k: int| 0 <= k < i ==> option_view(#[trigger] infos@[k]) == want.cells[k].info_line,
            forall|k: int| 0 <= k < n - i ==> (#[trigger] cells@[k])@ == want.cells[n - 1 - k],
        decreases i,
    {
        let cell = Cell {
            student_name: names.pop().unwrap(),
            student_line: lines.pop().unwrap(),
            sensei_line: sensei.pop().unwrap(),
            sensei_reply: replies.pop().unwrap(),
            info_line: infos.pop().unwrap(),
        };
        cells.push(cell);
        i = i - 1;
    }
    let mut ordered: Vec<Cell> = Vec::new();
    while cells.len() > 0
        invariant
            cells@.len() + ordered@.len() == n,
            n == want.cells.len(),
            forall|k: int| 0 <= k < cells@.len() ==> (#[trigger] cells@[k])@ == want.cells[n - 1 - k],
            forall|k: int| 0 <= k < ordered@.len() ==> (#[trigger] ordered@[k])@ == want.cells[k],
        decreases cells@.len(),
    {
        let cell = cells.pop().unwrap();
        ordered.push(cell);
    }
    let page = Page { description, cells: ordered };
    assert(page@.cells =~= want.cells);
    Some(page)
}

} // verus!
