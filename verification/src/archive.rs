//! Archiving a numbered range of wiki pages: the checks made on the
//! arguments, what kind of story a link points to, and the list of links
//! to fetch.
use vstd::prelude::*;
use crate::text::{
    boxed_str, chars_contains, chars_of, chars_replace, chars_split_once, chars_trim, contains,
    decimal, decimal_chars, replace_all, split_once, string_of, trim,
};

verus! {

/// The kind of story a wiki link points to, with the names taken from it.
#[derive(Debug)]
pub enum LinkType {
    Volume { volume: Box<str>, chapter: Box<str> },
    Event(Box<str>),
    Relationship(Box<str>),
}

/// The mathematical value of a [`LinkType`].
pub enum LinkKind {
    Volume(Seq<char>, Seq<char>),
    Event(Seq<char>),
    Relationship(Seq<char>),
}

impl View for LinkType {
    type V = LinkKind;

    open spec fn view(&self) -> LinkKind {
        match self {
            LinkType::Volume { volume, chapter } => LinkKind::Volume(volume@, chapter@),
            LinkType::Event(t) => LinkKind::Event(t@),
            LinkType::Relationship(t) => LinkKind::Relationship(t@),
        }
    }
}

impl LinkType {
    /// The volume and chapter names of a main-story link.
    pub fn as_volume(&self) -> (r: Option<(&str, &str)>)
        ensures
            match self@ {
                LinkKind::Volume(v, c) => r matches Some((a, b)) && a@ == v && b@ == c,
                _ => r is None,
            },
    {
        if let LinkType::Volume { volume, chapter } = self {
            Some((&**volume, &**chapter))
        } else {
            None
        }
    }

    /// The name that a link is filed under; for a main-story link, the volume.
    pub fn as_text(&self) -> (r: &str)
        ensures
            r@ == match self@ {
                LinkKind::Volume(v, _) => v,
                LinkKind::Event(t) => t,
                LinkKind::Relationship(t) => t,
            },
    {
        match self {
            LinkType::Volume { volume, .. } => &**volume,
            LinkType::Event(text) => &**text,
            LinkType::Relationship(text) => &**text,
        }
    }
}

/// Why the arguments of an archive run are refused.
#[derive(Debug, PartialEq, Eq, Structural, Clone, Copy)]
pub enum ArchiveError {
    /// The link is empty once trimmed.
    EmptyLink,
    /// The link does not contain the format string.
    MissingFormat,
    /// The increment is zero.
    ZeroIncrement,
    /// The format string is empty once trimmed.
    EmptyFormat,
    /// The link names no known kind of story.
    UnknownLinkType,
}

/// The outcome of reading a link.
pub enum LinkReading {
    /// The link names this kind of story.
    Read(LinkKind),
    /// The link names no known kind of story.
    Unknown,
    /// The link names a kind of story but lacks the parts that hold its names.
    Malformed,
}

/// The name between `/wiki/` and the next `/` of a link.
pub open spec fn wiki_name(link: Seq<char>) -> Option<Seq<char>> {
    match split_once(link, "/wiki/"@) {
        Some((_, right)) => match split_once(right, "/"@) {
            Some((name, _)) => Some(name),
            None => None,
        },
        None => None,
    }
}

/// The volume and chapter of a main-story link: the two parts, around the
/// first `/`, of what stands between `Main_Story/` and `/Episode`.
pub open spec fn volume_chapter(link: Seq<char>) -> Option<(Seq<char>, Seq<char>)> {
    match split_once(link, "Main_Story/"@) {
        Some((_, right)) => match split_once(right, "/Episode"@) {
            Some((vc, _)) => split_once(vc, "/"@),
            None => None,
        },
        None => None,
    }
}

/// What kind of story the (trimmed) link points to.
pub open spec fn read_link(link: Seq<char>) -> LinkReading {
    if contains(link, "Relationship_Story"@) {
        match wiki_name(link) {
            Some(name) => LinkReading::Read(LinkKind::Relationship(name)),
            None => LinkReading::Malformed,
        }
    } else if contains(link, "Volume_"@) && contains(link, "Chapter_"@) {
        match volume_chapter(link) {
            Some((v, c)) => LinkReading::Read(LinkKind::Volume(v, c)),
            None => LinkReading::Malformed,
        }
    } else if contains(link, "Story"@) {
        match wiki_name(link) {
            Some(name) => LinkReading::Read(LinkKind::Event(name)),
            None => LinkReading::Malformed,
        }
    } else {
        LinkReading::Unknown
    }
}

/// The format string in effect: the one given, or `{}`, trimmed.
pub open spec fn format_in_effect(format: Option<Seq<char>>) -> Seq<char> {
    match format {
        Some(f) => trim(f),
        None => trim("{}"@),
    }
}

/// The first refusal of the arguments, checked in order, if any.
pub open spec fn argument_error(link: Seq<char>, increment: nat, format: Seq<char>) -> Option<
    ArchiveError,
> {
    if link.len() == 0 {
        Some(ArchiveError::EmptyLink)
    } else if !contains(link, format) {
        Some(ArchiveError::MissingFormat)
    } else if increment == 0 {
        Some(ArchiveError::ZeroIncrement)
    } else if format.len() == 0 {
        Some(ArchiveError::EmptyFormat)
    } else {
        None
    }
}

/// The increment in effect: the one given, or 1.
pub open spec fn increment_in_effect(increment: Option<usize>) -> nat {
    match increment {
        Some(i) => i as nat,
        None => 1,
    }
}

/// The arguments pass every check but the link lacks the parts that hold
/// the story's names: the case in which no plan can be made.
pub open spec fn archive_is_malformed(
    link: Seq<char>,
    increment: Option<usize>,
    format: Option<Seq<char>>,
) -> bool {
    argument_error(trim(link), increment_in_effect(increment), format_in_effect(format)) is None
        && read_link(trim(link)) is Malformed
}

/// The format given, as a character sequence.
pub open spec fn format_view(format: &Option<String>) -> Option<Seq<char>> {
    match format {
        Some(f) => Some(f@),
        None => None,
    }
}

/// A checked archive run: the numbered links to fetch and where they go.
pub struct ArchivePlan {
    /// The link, trimmed, holding the format string where the number goes.
    pub link: String,
    pub start: usize,
    pub end: usize,
    pub increment: usize,
    /// The format string, trimmed.
    pub format: String,
    pub link_type: LinkType,
}

/// Reads a trimmed link.
fn read_link_chars(link: &[char]) -> (r: Result<LinkType, bool>)
    ensures
        match read_link(link@) {
            LinkReading::Read(k) => r matches Ok(t) && t@ == k,
            LinkReading::Unknown => r == Err::<LinkType, bool>(false),
            LinkReading::Malformed => r == Err::<LinkType, bool>(true),
        },
{
    let relationship = chars_of("Relationship_Story");
    let volume = chars_of("Volume_");
    let chapter = chars_of("Chapter_");
    let story = chars_of("Story");
    if chars_contains(link, &relationship) {
        match wiki_name_chars(link) {
            Some(name) => Ok(LinkType::Relationship(boxed_str(string_of(&name)))),
            None => Err(true),
        }
    } else if chars_contains(link, &volume) && chars_contains(link, &chapter) {
        match volume_chapter_chars(link) {
            Some((v, c)) => Ok(
                LinkType::Volume {
                    volume: boxed_str(string_of(&v)),
                    chapter: boxed_str(string_of(&c)),
                },
            ),
            None => Err(true),
        }
    } else if chars_contains(link, &story) {
        match wiki_name_chars(link) {
            Some(name) => Ok(LinkType::Event(boxed_str(string_of(&name)))),
            None => Err(true),
        }
    } else {
        Err(false)
    }
}

fn wiki_name_chars(link: &[char]) -> (r: Option<Vec<char>>)
    ensures
        match wiki_name(link@) {
            Some(n) => r matches Some(m) && m@ == n,
            None => r is None,
        },
{
    let wiki = chars_of("/wiki/");
    let slash = chars_of("/");
    match chars_split_once(link, &wiki) {
        Some((_, right)) => match chars_split_once(&right, &slash) {
            Some((name, _)) => Some(name),
            None => None,
        },
        None => None,
    }
}

fn volume_chapter_chars(link: &[char]) -> (r: Option<(Vec<char>, Vec<char>)>)
    ensures
        match volume_chapter(link@) {
            Some((v, c)) => r matches Some((a, b)) && a@ == v && b@ == c,
            None => r is None,
        },
{
    let main_story = chars_of("Main_Story/");
    let episode = chars_of("/Episode");
    let slash = chars_of("/");
    match chars_split_once(link, &main_story) {
        Some((_, right)) => match chars_split_once(&right, &episode) {
            Some((vc, _)) => chars_split_once(&vc, &slash),
            None => None,
        },
        None => None,
    }
}

/// The first refusal of the arguments, if any.
fn argument_error_chars(link: &[char], increment: usize, format: &[char]) -> (r: Option<
    ArchiveError,
>)
    ensures
        r == argument_error(link@, increment as nat, format@),
{
    if link.len() == 0 {
        Some(ArchiveError::EmptyLink)
    } else if !chars_contains(link, format) {
        Some(ArchiveError::MissingFormat)
    } else if increment == 0 {
        Some(ArchiveError::ZeroIncrement)
    } else if format.len() == 0 {
        Some(ArchiveError::EmptyFormat)
    } else {
        None
    }
}

/// The trimmed format string in effect.
fn format_chars(format: &Option<String>) -> (r: Vec<char>)
    ensures
        r@ == format_in_effect(format_view(format)),
{
    match format {
        Some(f) => chars_trim(&chars_of(f.as_str())),
        None => chars_trim(&chars_of("{}")),
    }
}

/// Whether the arguments pass every check while the link lacks the parts
/// that hold the story's names.
pub fn archive_would_fail_to_read(link: &str, increment: Option<usize>, format: &Option<String>) -> (b:
    bool)
    ensures
        b == archive_is_malformed(link@, increment, format_view(format)),
{
    let link = chars_trim(&chars_of(link));
    let format = format_chars(format);
    let increment = match increment {
        Some(i) => i,
        None => 1,
    };
    if argument_error_chars(&link, increment, &format).is_some() {
        return false;
    }
    match read_link_chars(&link) {
        Err(true) => true,
        _ => false,
    }
}

/// Checks the arguments of an archive run, in order: the link is not empty,
/// contains the format string, the increment is not zero, the format string
/// is not empty, and the link names a known kind of story. The start
/// defaults to 1, the increment to 1 and the format string to `{}`; link and
/// format string are trimmed.
pub fn archive_plan(
    link: &str,
    start: Option<usize>,
    end: usize,
    increment: Option<usize>,
    format: Option<String>,
) -> (r: Result<ArchivePlan, ArchiveError>)
    requires
        !archive_is_malformed(link@, increment, format_view(&format)),
    ensures
        ({
            let l = trim(link@);
            let f = format_in_effect(format_view(&format));
            let inc = increment_in_effect(increment);
            match argument_error(l, inc, f) {
                Some(e) => r == Err::<ArchivePlan, ArchiveError>(e),
                None => match read_link(l) {
                    LinkReading::Read(k) => r matches Ok(p) && p.link@ == l && p.format@ == f
                        && p.increment == inc && p.end == end && p.start == (match start {
                        Some(s) => s,
                        None => 1,
                    }) && p.link_type@ == k,
                    _ => r == Err::<ArchivePlan, ArchiveError>(ArchiveError::UnknownLinkType),
                },
            }
        }),
{
    let link = chars_trim(&chars_of(link));
    let format = format_chars(&format);
    let start = match start {
        Some(s) => s,
        None => 1,
    };
    let increment = match increment {
        Some(i) => i,
        None => 1,
    };
    if let Some(e) = argument_error_chars(&link, increment, &format) {
        return Err(e);
    }
    match read_link_chars(&link) {
        Ok(link_type) => Ok(
            ArchivePlan {
                link: string_of(&link),
                start,
                end,
                increment,
                format: string_of(&format),
                link_type,
            },
        ),
        Err(_) => Err(ArchiveError::UnknownLinkType),
    }
}

/// The numbers `start, start + step, ...` up to `end`, as
/// `(start..=end).step_by(step)` yields them.
pub open spec fn stepped_range(start: nat, end: nat, step: nat) -> Seq<nat>
    decreases end + step + 1 - start,
{
    if step == 0 || start > end {
        seq![]
    } else {
        seq![start] + stepped_range(start + step, end, step)
    }
}

/// The link for page `n`: the format string in the link replaced by `n`.
pub open spec fn numbered_link(link: Seq<char>, format: Seq<char>, n: nat) -> Seq<char> {
    replace_all(link, format, decimal(n))
}

/// The links to fetch, in order: one for each number of the range.
pub fn archive_links(plan: &ArchivePlan) -> (links: Vec<String>)
    requires
        plan.increment > 0,
        plan.format@.len() > 0,
    ensures
        ({
            let ns = stepped_range(plan.start as nat, plan.end as nat, plan.increment as nat);
            &&& links@.len() == ns.len()
            &&& forall|k: int|
                0 <= k < ns.len() ==> #[trigger] links@[k]@ == numbered_link(
                    plan.link@,
                    plan.format@,
                    ns[k],
                )
        }),
{
    let link = chars_of(plan.link.as_str());
    let format = chars_of(plan.format.as_str());
    let ghost all = stepped_range(plan.start as nat, plan.end as nat, plan.increment as nat);
    let mut links: Vec<String> = Vec::new();
    let mut i = plan.start;
    let ghost mut done: nat = 0;
    loop
        invariant
            plan.increment > 0,
            link@ == plan.link@,
            format@ == plan.format@,
            format@.len() > 0,
            all == stepped_range(plan.start as nat, plan.end as nat, plan.increment as nat),
            links@.len() == done,
            done <= all.len(),
            all == all.take(done as int) + stepped_range(
                i as nat,
                plan.end as nat,
                plan.increment as nat,
            ),
            forall|k: int|
                0 <= k < done ==> #[trigger] links@[k]@ == numbered_link(
                    plan.link@,
                    plan.format@,
                    all[k],
                ),
        decreases plan.end + plan.increment + 1 - i,
    {
        if i > plan.end {
            assert(all.take(done as int) =~= all);
            return links;
        }
        let ghost before = all.take(done as int);
        let number = decimal_chars(i);
        let replaced = chars_replace(&link, &format, &number);
        links.push(string_of(&replaced));
        proof {
            let rest = stepped_range(i as nat, plan.end as nat, plan.increment as nat);
            assert(rest == seq![i as nat] + stepped_range(
                (i + plan.increment) as nat,
                plan.end as nat,
                plan.increment as nat,
            ));
            let next = stepped_range(
                (i + plan.increment) as nat,
                plan.end as nat,
                plan.increment as nat,
            );
            assert(all =~= before + (seq![i as nat] + next));
            assert(all[done as int] == i);
            assert(all.take(done + 1 as int) =~= before.push(i as nat));
            assert(all =~= all.take(done + 1 as int) + next);
            done = done + 1;
        }
        match i.checked_add(plan.increment) {
            Some(next) => {
                i = next;
            },
            None => {
                proof {
                    assert(stepped_range(
                        (i + plan.increment) as nat,
                        plan.end as nat,
                        plan.increment as nat,
                    ) =~= seq![]);
                    assert(all.take(done as int) =~= all);
                }
                return links;
            },
        }
    }
}

/// The range yields `start`, `start + step`, ... as long as they do not
/// pass `end`: `(end - start) / step + 1` numbers, or none when `start`
/// is past `end`.
pub proof fn law_stepped_range(start: nat, end: nat, step: nat)
    requires
        step > 0,
    ensures
        stepped_range(start, end, step).len() == if start > end {
            0
        } else {
            (end - start) / (step as int) + 1
        },
        forall|k: int|
            0 <= k < stepped_range(start, end, step).len() ==> #[trigger] stepped_range(
                start,
                end,
                step,
            )[k] == start + k * step && stepped_range(start, end, step)[k] <= end,
    decreases end + step + 1 - start,
{
    if start <= end {
        let rest = stepped_range(start + step, end, step);
        law_stepped_range(start + step, end, step);
        let all = stepped_range(start, end, step);
        assert(all == seq![start] + rest);
        if start + step > end {
            assert((end - start) / (step as int) == 0) by {
                vstd::arithmetic::div_mod::lemma_basic_div(end - start, step as int);
            }
        } else {
            assert((end - start) / (step as int) == (end - start - step) / (step as int) + 1) by {
                vstd::arithmetic::div_mod::lemma_div_plus_one(end - start - step, step as int);
            }
        }
        assert forall|k: int| 0 <= k < all.len() implies #[trigger] all[k] == start + k * step
            && all[k] <= end by {
            if k > 0 {
                assert(all[k] == rest[k - 1]);
                assert(start + step + (k - 1) * step == start + k * step) by (nonlinear_arith);
            }
        }
    }
}

} // verus!
