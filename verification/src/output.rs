//! The structured report of a recognition run: pages, their lines and their full text.

use crate::text::{string_of, trim_chars, trimmed};
use crate::utils::chars_of;
use vstd::prelude::*;

verus! {

/// A rectangle in a report.
#[derive(Debug, Clone, Copy)]
pub struct BboxOutput {
    /// Column of the top-left corner.
    pub x: u32,
    /// Row of the top-left corner.
    pub y: u32,
    /// Number of columns.
    pub width: u32,
    /// Number of rows.
    pub height: u32,
}

/// One line of a page in a report.
#[derive(Debug, Clone)]
pub struct LineOutput {
    /// The text of the line.
    pub text: String,
    /// The box of the line.
    pub bbox: BboxOutput,
}

/// One page in a report.
#[derive(Debug, Clone)]
pub struct PageOutput {
    /// Number of the page, counted from 1.
    pub page: usize,
    /// The lines of the page that hold more than white space.
    pub lines: Vec<LineOutput>,
    /// The text of the page as it was recognised.
    pub full_text: String,
}

/// The report of a run.
#[derive(Debug, Clone)]
pub struct JsonOutput {
    /// Whether the run succeeded.
    pub success: bool,
    /// The pages, in order.
    pub pages: Vec<PageOutput>,
}

/// A line without the carriage return that may stand before its line feed.
pub open spec fn without_return(line: Seq<char>) -> Seq<char> {
    if line.len() > 0 && line.last() == '\r' {
        line.drop_last()
    } else {
        line
    }
}

/// Whether a line holds nothing but white space.
pub open spec fn is_blank_line(line: Seq<char>) -> bool {
    trimmed(line).len() == 0
}

/// `lines` with `line` put in front, unless `line` is blank.
pub open spec fn with_text_line(line: Seq<char>, lines: Seq<Seq<char>>) -> Seq<Seq<char>> {
    if is_blank_line(line) {
        lines
    } else {
        seq![line] + lines
    }
}

/// The lines that hold more than white space, in the part of `s` from `start` on, of which the
/// characters before `at` are known to hold no line feed. A line ends at a line feed, or at a
/// carriage return followed by one, or with the text; the line ending is not part of it.
pub open spec fn text_lines_from(s: Seq<char>, start: int, at: int) -> Seq<Seq<char>>
    decreases s.len() - at,
{
    if at < 0 || at >= s.len() {
        if 0 <= start < s.len() {
            with_text_line(s.subrange(start, s.len() as int), Seq::empty())
        } else {
            Seq::empty()
        }
    } else if s[at] == '\n' {
        with_text_line(
            without_return(s.subrange(start, at)),
            text_lines_from(s, at + 1, at + 1),
        )
    } else {
        text_lines_from(s, start, at + 1)
    }
}

/// The lines of `s` that hold more than white space.
pub open spec fn text_lines(s: Seq<char>) -> Seq<Seq<char>> {
    text_lines_from(s, 0, 0)
}

/// Whether `page` reports the text `text` as page number `number`.
pub open spec fn is_page_report(page: &PageOutput, number: int, text: Seq<char>) -> bool {
    &&& page.page == number
    &&& page.full_text@ == text
    &&& page.lines@.len() == text_lines(text).len()
    &&& forall|j: int|
        0 <= j < page.lines@.len() ==> {
            let line = #[trigger] page.lines@[j];
            &&& line.text@ == text_lines(text)[j]
            &&& line.bbox.x == 0
            &&& line.bbox.y == 0
            &&& line.bbox.width == 0
            &&& line.bbox.height == 0
        }
}

/// The characters `from` (included) to `to` (excluded).
fn slice_chars(chars: &Vec<char>, from: usize, to: usize) -> (out: Vec<char>)
    requires
        from <= to <= chars@.len(),
    ensures
        out@ == chars@.subrange(from as int, to as int),
{
    let mut out: Vec<char> = Vec::new();
    let mut i: usize = from;
    while i < to
        invariant
            from <= i <= to <= chars@.len(),
            out@ == chars@.subrange(from as int, i as int),
        decreases to - i,
    {
        out.push(chars[i]);
        assert(chars@.subrange(from as int, i + 1) =~= chars@.subrange(from as int, i as int).push(
            chars@[i as int],
        ));
        i = i + 1;
    }
    out
}

/// The lines of `text` that hold more than white space, each without its line ending.
pub fn non_blank_lines(text: &str) -> (lines: Vec<String>)
    ensures
        lines@.len() == text_lines(text@).len(),
        forall|j: int| 0 <= j < lines@.len() ==> (#[trigger] lines@[j])@ == text_lines(text@)[j],
{
    let chars = chars_of(text);
    let n: usize = chars.len();
    let ghost all = text_lines(chars@);
    let ghost mut found: Seq<Seq<char>> = Seq::empty();
    let mut lines: Vec<String> = Vec::new();
    let mut start: usize = 0;
    let mut at: usize = 0;
    while at < n
        invariant
            chars@ == text@,
            n == chars@.len(),
            start <= at <= n,
            all == text_lines(chars@),
            found + text_lines_from(chars@, start as int, at as int) == all,
            lines@.len() == found.len(),
            forall|j: int| 0 <= j < lines@.len() ==> (#[trigger] lines@[j])@ == found[j],
        decreases n - at,
    {
        if chars[at] == '\n' {
            let mut end: usize = at;
            if end > start && chars[end - 1] == '\r' {
                end = end - 1;
            }
            let line = slice_chars(&chars, start, end);
            let ghost rest = text_lines_from(chars@, at + 1, at + 1);
            proof {
                let raw = chars@.subrange(start as int, at as int);
                assert(line@ =~= without_return(raw));
            }
            if trim_chars(&line).len() > 0 {
                proof {
                    assert(found + (seq![line@] + rest) =~= found.push(line@) + rest);
                    found = found.push(line@);
                }
                lines.push(string_of(&line));
            }
            start = at + 1;
        }
        at = at + 1;
    }
    if start < n {
        let line = slice_chars(&chars, start, n);
        if trim_chars(&line).len() > 0 {
            proof {
                assert(found + (seq![line@] + Seq::<Seq<char>>::empty()) =~= found.push(line@));
                found = found.push(line@);
            }
            lines.push(string_of(&line));
        }
    }
    proof {
        assert(found =~= found + Seq::<Seq<char>>::empty());
    }
    lines
}

/// The report of a run that recognised the given pages: every page with its number, its text
/// and those of its lines that hold more than white space. Boxes are not known at this stage
/// and are reported as empty.
pub fn build_json_output(pages_text: &Vec<String>) -> (report: JsonOutput)
    ensures
        report.success,
        report.pages@.len() == pages_text@.len(),
        forall|i: int|
            0 <= i < report.pages@.len() ==> is_page_report(
                #[trigger] &report.pages@[i],
                i + 1,
                pages_text@[i]@,
            ),
{
    let mut pages: Vec<PageOutput> = Vec::new();
    let mut i: usize = 0;
    while i < pages_text.len()
        invariant
            i <= pages_text@.len(),
            pages@.len() == i,
            forall|k: int|
                0 <= k < i ==> is_page_report(#[trigger] &pages@[k], k + 1, pages_text@[k]@),
        decreases pages_text@.len() - i,
    {
        let text = &pages_text[i];
        let texts = non_blank_lines(text.as_str());
        let mut lines: Vec<LineOutput> = Vec::new();
        let mut j: usize = 0;
        while j < texts.len()
            invariant
                j <= texts@.len(),
                lines@.len() == j,
                forall|k: int|
                    0 <= k < j ==> {
                        let line = #[trigger] lines@[k];
                        &&& line.text@ == texts@[k]@
                        &&& line.bbox.x == 0
                        &&& line.bbox.y == 0
                        &&& line.bbox.width == 0
                        &&& line.bbox.height == 0
                    },
            decreases texts@.len() - j,
        {
            lines.push(
                LineOutput {
                    text: texts[j].clone(),
                    bbox: BboxOutput { x: 0, y: 0, width: 0, height: 0 },
                },
            );
            j = j + 1;
        }
        let page = PageOutput { page: i + 1, lines, full_text: text.clone() };
        assert(is_page_report(&page, i + 1, pages_text@[i as int]@));
        pages.push(page);
        i = i + 1;
    }
    JsonOutput { success: true, pages }
}

} // verus!
