//! Detection of `http://` and `https://` links in a terminal snapshot, and hit
//! testing of grid positions and cells against them.

use crate::unicode::{
    char_width, has_white_space_property, is_ascii_control, is_whitespace, str_width,
    unicode_char_width, unicode_str_width,
};
use vstd::prelude::*;

verus! {

/// A position on the terminal grid.
#[derive(Clone, Copy, Debug, PartialEq, Eq)]
pub struct TermGridPos {
    pub row: u16,
    pub col: u16,
}

/// One cell of a terminal snapshot: where it stands and what it shows.
#[derive(Clone, Debug)]
pub struct SnapshotCell {
    pub row: u16,
    pub col: u16,
    pub symbol: String,
}

/// The visible contents of a terminal: its cells, in any order, and which
/// rows continue on the next one because the terminal wrapped them.
#[derive(Clone, Debug)]
pub struct TerminalSnapshot {
    pub rows: u16,
    pub cols: u16,
    pub cells: Vec<SnapshotCell>,
    pub wrapped_rows: Vec<bool>,
}

/// A run of columns `start_col..end_col` on one row.
#[derive(Clone, Copy, Debug, PartialEq, Eq)]
pub struct TerminalLinkSpan {
    pub row: u16,
    pub start_col: u16,
    pub end_col: u16,
}

/// A detected link and the runs of cells it covers on screen.
#[derive(Clone, Debug)]
pub struct TerminalLinkRange {
    pub url: String,
    pub spans: Vec<TerminalLinkSpan>,
}

/// A character of a logical line, with the cell it is drawn in and its width.
#[derive(Clone, Copy, Debug, PartialEq, Eq)]
pub struct PositionedChar {
    pub ch: char,
    pub row: u16,
    pub col: u16,
    pub width: u16,
}

/// A link as a value: its text and its spans.
pub type LinkView = (Seq<char>, Seq<TerminalLinkSpan>);

impl View for TerminalLinkRange {
    type V = LinkView;

    open spec fn view(&self) -> LinkView {
        (self.url@, self.spans@)
    }
}

/// The views of a sequence of links.
pub open spec fn link_views(links: Seq<TerminalLinkRange>) -> Seq<LinkView> {
    Seq::new(links.len(), |i: int| links[i]@)
}

impl TerminalSnapshot {
    /// Whether `row` continues on the next row.
    pub open spec fn wraps(&self, row: u16) -> bool {
        (row as int) < self.wrapped_rows@.len() && self.wrapped_rows@[row as int]
    }

    /// Whether `row` continues on the next row; rows past the recorded ones
    /// do not.
    pub fn row_wraps(&self, row: u16) -> (r: bool)
        ensures
            r == self.wraps(row),
    {
        let index = row as usize;
        if index < self.wrapped_rows.len() {
            self.wrapped_rows[index]
        } else {
            false
        }
    }
}

/// `a + b`, saturating at `u16::MAX`.
pub open spec fn saturating_add_u16(a: u16, b: u16) -> u16 {
    if a + b > u16::MAX {
        u16::MAX
    } else {
        (a + b) as u16
    }
}

/// `a - b`, saturating at zero.
pub open spec fn saturating_sub_u16(a: u16, b: u16) -> u16 {
    if a < b {
        0
    } else {
        (a - b) as u16
    }
}

/// The number of columns a character is laid out with: its display width, or
/// zero for a control character or a width that does not fit in `u16`.
pub open spec fn char_columns(c: char) -> u16 {
    match unicode_char_width(c) {
        Some(w) => if w <= u16::MAX {
            w as u16
        } else {
            0
        },
        None => 0,
    }
}

/// `x` inserted into `s` after every element whose column is at most `x`'s.
pub open spec fn insert_by_col(s: Seq<SnapshotCell>, x: SnapshotCell) -> Seq<SnapshotCell>
    decreases s.len(),
{
    if s.len() == 0 || s.last().col <= x.col {
        s.push(x)
    } else {
        insert_by_col(s.drop_last(), x).push(s.last())
    }
}

/// Where `insert_by_col` places `x`.
pub open spec fn insert_position(s: Seq<SnapshotCell>, x: SnapshotCell) -> int
    decreases s.len(),
{
    if s.len() == 0 || s.last().col <= x.col {
        s.len() as int
    } else {
        insert_position(s.drop_last(), x)
    }
}

/// The cells of `row`, ordered by column; cells of one column keep their
/// order (a stable sort).
pub open spec fn sorted_row_cells(cells: Seq<SnapshotCell>, row: u16) -> Seq<SnapshotCell>
    decreases cells.len(),
{
    if cells.len() == 0 {
        Seq::empty()
    } else if cells.last().row == row {
        insert_by_col(sorted_row_cells(cells.drop_last(), row), cells.last())
    } else {
        sorted_row_cells(cells.drop_last(), row)
    }
}

/// Blank characters filling columns `from..to` of `row`.
pub open spec fn gap_chars(row: u16, from: u16, to: u16) -> Seq<PositionedChar> {
    Seq::new(
        if from < to {
            (to - from) as nat
        } else {
            0
        },
        |k: int| PositionedChar { ch: ' ', row, col: (from + k) as u16, width: 1 },
    )
}

/// The characters of a cell's symbol laid out from column `col`, and the
/// column after them. A zero-width character is drawn over the column
/// before it.
pub open spec fn symbol_chars(s: Seq<char>, row: u16, col: u16) -> (Seq<PositionedChar>, u16)
    decreases s.len(),
{
    if s.len() == 0 {
        (Seq::empty(), col)
    } else {
        let before = symbol_chars(s.drop_last(), row, col);
        let prev = before.0;
        let at = before.1;
        let ch = s.last();
        let w = char_columns(ch);
        let placed = PositionedChar {
            ch,
            row,
            col: if w == 0 {
                saturating_sub_u16(at, 1)
            } else {
                at
            },
            width: w,
        };
        (prev.push(placed), saturating_add_u16(at, w))
    }
}

/// Cells of one row, in drawing order, laid out as characters: gaps before a
/// cell are filled with blanks. Also gives the first column not yet filled.
pub open spec fn layout_row(cells: Seq<SnapshotCell>, row: u16) -> (Seq<PositionedChar>, u16)
    decreases cells.len(),
{
    if cells.len() == 0 {
        (Seq::empty(), 0)
    } else {
        let (prev, next) = layout_row(cells.drop_last(), row);
        let cell = cells.last();
        let after_gap = if next < cell.col {
            cell.col
        } else {
            next
        };
        let (sym, sym_end) = symbol_chars(cell.symbol@, row, cell.col);
        (
            prev + gap_chars(row, next, cell.col) + sym,
            if after_gap < sym_end {
                sym_end
            } else {
                after_gap
            },
        )
    }
}

/// The characters of `row` of a snapshot, left to right.
pub open spec fn row_chars_spec(cells: Seq<SnapshotCell>, row: u16) -> Seq<PositionedChar> {
    layout_row(sorted_row_cells(cells, row), row).0
}

/// The logical lines completed within the first `n` rows, and the line still
/// open after them (rows that wrap continue the line).
pub open spec fn lines_through(snapshot: TerminalSnapshot, n: int) -> (
    Seq<Seq<PositionedChar>>,
    Seq<PositionedChar>,
)
    decreases n,
{
    if n <= 0 {
        (Seq::empty(), Seq::empty())
    } else {
        let (lines, current) = lines_through(snapshot, n - 1);
        let joined = current + row_chars_spec(snapshot.cells@, (n - 1) as u16);
        if snapshot.wraps((n - 1) as u16) {
            (lines, joined)
        } else {
            (lines.push(joined), Seq::empty())
        }
    }
}

/// The logical lines of a snapshot: each is a row together with the rows
/// that wrapped into it; a line left open at the bottom counts if it is not
/// empty.
pub open spec fn logical_lines_spec(snapshot: TerminalSnapshot) -> Seq<Seq<PositionedChar>> {
    let (lines, current) = lines_through(snapshot, snapshot.rows as int);
    if current.len() > 0 {
        lines.push(current)
    } else {
        lines
    }
}

/// The characters of a line.
pub open spec fn line_chars(line: Seq<PositionedChar>) -> Seq<char> {
    Seq::new(line.len(), |i: int| line[i].ch)
}

/// A character that ends a link: whitespace or an ASCII control character.
pub open spec fn ends_link(c: char) -> bool {
    has_white_space_property(c) || is_ascii_control(c)
}

/// The first index from `i` on that holds a character ending a link, or the
/// length of `chars`.
pub open spec fn link_scan_end(chars: Seq<char>, i: int) -> int
    decreases chars.len() - i,
{
    if i >= chars.len() || ends_link(chars[i]) {
        i
    } else {
        link_scan_end(chars, i + 1)
    }
}

/// `chars[start..]` begins with `prefix`.
pub open spec fn starts_with_at(chars: Seq<char>, start: int, prefix: Seq<char>) -> bool {
    start + prefix.len() <= chars.len() && chars.subrange(start, start + prefix.len()) == prefix
}

/// A link begins at `start`.
pub open spec fn url_starts_at(chars: Seq<char>, start: int) -> bool {
    starts_with_at(chars, start, "https://"@) || starts_with_at(chars, start, "http://"@)
}

/// The spans covering the visible characters of `chars`: each visible
/// character joins the last span when it is on the same row and starts no
/// later than where that span ends, else it opens a new span.
pub open spec fn spans_spec(chars: Seq<PositionedChar>) -> Seq<TerminalLinkSpan>
    decreases chars.len(),
{
    if chars.len() == 0 {
        Seq::empty()
    } else {
        let prev = spans_spec(chars.drop_last());
        let p = chars.last();
        if p.width == 0 {
            prev
        } else {
            let end_col = saturating_add_u16(p.col, p.width);
            if prev.len() > 0 && prev.last().row == p.row && p.col <= prev.last().end_col {
                let last = prev.last();
                prev.update(
                    prev.len() - 1,
                    TerminalLinkSpan {
                        row: last.row,
                        start_col: last.start_col,
                        end_col: if last.end_col < end_col {
                            end_col
                        } else {
                            last.end_col
                        },
                    },
                )
            } else {
                prev.push(TerminalLinkSpan { row: p.row, start_col: p.col, end_col })
            }
        }
    }
}

/// The link that starts at index `start` of a line, if one does: a URL prefix
/// there, followed by everything up to whitespace or a control character,
/// less trailing punctuation.
pub open spec fn link_at(line: Seq<PositionedChar>, start: int) -> Option<LinkView> {
    let chars = line_chars(line);
    let end = trimmed_end(chars, start, link_scan_end(chars, start));
    if url_starts_at(chars, start) && end > start {
        Some((chars.subrange(start, end), spans_spec(line.subrange(start, end))))
    } else {
        None
    }
}

/// The links that start among the first `n` indices of a line, in order.
pub open spec fn links_through(line: Seq<PositionedChar>, n: int) -> Seq<LinkView>
    decreases n,
{
    if n <= 0 {
        Seq::empty()
    } else {
        let prev = links_through(line, n - 1);
        match link_at(line, n - 1) {
            Some(link) => prev.push(link),
            None => prev,
        }
    }
}

/// The links of a line, by where they start.
pub open spec fn line_links(line: Seq<PositionedChar>) -> Seq<LinkView> {
    links_through(line, line.len() as int)
}

/// The links of a sequence of lines, line by line.
pub open spec fn lines_links(lines: Seq<Seq<PositionedChar>>) -> Seq<LinkView>
    decreases lines.len(),
{
    if lines.len() == 0 {
        Seq::empty()
    } else {
        lines_links(lines.drop_last()) + line_links(lines.last())
    }
}

/// The links of a snapshot.
pub open spec fn snapshot_links(snapshot: TerminalSnapshot) -> Seq<LinkView> {
    lines_links(logical_lines_spec(snapshot))
}

/// A span holds a grid position.
pub open spec fn span_holds(span: TerminalLinkSpan, pos: TermGridPos) -> bool {
    span.row == pos.row && span.start_col <= pos.col && pos.col < span.end_col
}

/// Some span of a link holds a grid position.
pub open spec fn link_holds(link: LinkView, pos: TermGridPos) -> bool {
    exists|k: int| 0 <= k < link.1.len() && span_holds(#[trigger] link.1[k], pos)
}

/// The text of the first link that holds `pos`.
pub open spec fn first_link_at(links: Seq<LinkView>, pos: TermGridPos) -> Option<Seq<char>>
    decreases links.len(),
{
    if links.len() == 0 {
        None
    } else if link_holds(links[0], pos) {
        Some(links[0].0)
    } else {
        first_link_at(links.drop_first(), pos)
    }
}

/// The number of columns a cell occupies for hit testing: the display width
/// of its symbol, at least one.
pub open spec fn cell_columns(cell: SnapshotCell) -> u16 {
    let w = unicode_str_width(cell.symbol@);
    let at_least_one = if w < 1 {
        1
    } else {
        w
    };
    if at_least_one <= u16::MAX {
        at_least_one as u16
    } else {
        1
    }
}

/// A span shares a column with a cell.
pub open spec fn span_overlaps_cell(span: TerminalLinkSpan, cell: SnapshotCell) -> bool {
    span.row == cell.row && cell.col < span.end_col && saturating_add_u16(
        cell.col,
        cell_columns(cell),
    ) > span.start_col
}

/// Some span of a link shares a column with a cell.
pub open spec fn link_overlaps_cell(link: LinkView, cell: SnapshotCell) -> bool {
    exists|k: int| 0 <= k < link.1.len() && span_overlaps_cell(#[trigger] link.1[k], cell)
}

/// The text of the first link that shares a column with `cell`.
pub open spec fn first_link_over(links: Seq<LinkView>, cell: SnapshotCell) -> Option<Seq<char>>
    decreases links.len(),
{
    if links.len() == 0 {
        None
    } else if link_overlaps_cell(links[0], cell) {
        Some(links[0].0)
    } else {
        first_link_over(links.drop_first(), cell)
    }
}

/// How many more `open` delimiters than `close` delimiters `s` holds.
pub open spec fn delimiter_balance(s: Seq<char>, open: char, close: char) -> int
    decreases s.len(),
{
    if s.len() == 0 {
        0
    } else {
        delimiter_balance(s.drop_last(), open, close) + if s.last() == open {
            1int
        } else if s.last() == close {
            -1int
        } else {
            0int
        }
    }
}

/// Some prefix of `s` closes more `close` delimiters than it opens `open` ones.
pub open spec fn closes_unmatched(s: Seq<char>, open: char, close: char) -> bool {
    exists|k: int| 0 <= k <= s.len() && #[trigger] delimiter_balance(s.take(k), open, close) < 0
}

/// Punctuation that ends a sentence rather than a link.
pub open spec fn is_sentence_punctuation(c: char) -> bool {
    c == '.' || c == ',' || c == ';' || c == ':' || c == '!' || c == '?' || c == '"' || c == '\''
}

/// The last character of `chars[start..end]` is trailing punctuation: sentence
/// punctuation, or a closing bracket without a matching opening one.
pub open spec fn trims_last(chars: Seq<char>, start: int, end: int) -> bool {
    let c = chars[end - 1];
    let s = chars.subrange(start, end);
    if c == ')' {
        closes_unmatched(s, '(', ')')
    } else if c == ']' {
        closes_unmatched(s, '[', ']')
    } else if c == '}' {
        closes_unmatched(s, '{', '}')
    } else {
        is_sentence_punctuation(c)
    }
}

/// The end of `chars[start..end]` once trailing punctuation is dropped, one
/// character at a time from the right.
pub open spec fn trimmed_end(chars: Seq<char>, start: int, end: int) -> int
    decreases end - start,
{
    if end <= start {
        end
    } else if trims_last(chars, start, end) {
        trimmed_end(chars, start, end - 1)
    } else {
        end
    }
}

/// Trimming only drops characters, and never more than the candidate holds.
pub proof fn lemma_trimmed_end_bounds(chars: Seq<char>, start: int, end: int)
    ensures
        trimmed_end(chars, start, end) <= end,
        end <= start ==> trimmed_end(chars, start, end) == end,
        start <= end ==> start <= trimmed_end(chars, start, end),
    decreases end - start,
{
    if end > start && trims_last(chars, start, end) {
        lemma_trimmed_end_bounds(chars, start, end - 1);
    }
}

/// Whether `chars[start..end]` closes a `close` delimiter that it never opened.
pub fn unmatched_closing_delimiter(
    chars: &[char],
    start: usize,
    end: usize,
    open: char,
    close: char,
) -> (r: bool)
    requires
        start <= end <= chars@.len(),
    ensures
        r == closes_unmatched(chars@.subrange(start as int, end as int), open, close),
{
    let ghost s = chars@.subrange(start as int, end as int);
    let mut depth: usize = 0;
    let mut i: usize = start;
    assert(s.take(0) =~= Seq::<char>::empty());
    while i < end
        invariant
            start <= i <= end <= chars@.len(),
            s == chars@.subrange(start as int, end as int),
            depth <= i - start,
            depth == delimiter_balance(s.take(i - start), open, close),
            forall|k: int| 0 <= k <= i - start ==> #[trigger] delimiter_balance(s.take(k), open, close) >= 0,
        decreases end - i,
    {
        let ch = chars[i];
        assert(s.take(i - start + 1).drop_last() =~= s.take(i - start));
        assert(s.take(i - start + 1).last() == ch);
        if ch == open {
            depth = depth.saturating_add(1);
        } else if ch == close {
            match depth.checked_sub(1) {
                Some(next_depth) => {
                    depth = next_depth;
                },
                None => {
                    assert(delimiter_balance(s.take(i - start + 1), open, close) < 0);
                    return true;
                },
            }
        }
        i = i + 1;
    }
    assert(s.take(end - start) =~= s);
    false
}

/// Drops trailing punctuation from the candidate link `chars[start..end]` and
/// returns its new end.
pub fn trim_trailing_punctuation(chars: &[char], start: usize, end: usize) -> (r: usize)
    requires
        start < end ==> end <= chars@.len(),
    ensures
        r == trimmed_end(chars@, start as int, end as int),
{
    let mut cut = end;
    while cut > start
        invariant
            start < cut ==> cut <= chars@.len(),
            trimmed_end(chars@, start as int, cut as int) == trimmed_end(
                chars@,
                start as int,
                end as int,
            ),
        decreases cut,
    {
        let trailing = chars[cut - 1];
        let should_trim = if trailing == ')' {
            unmatched_closing_delimiter(chars, start, cut, '(', ')')
        } else if trailing == ']' {
            unmatched_closing_delimiter(chars, start, cut, '[', ']')
        } else if trailing == '}' {
            unmatched_closing_delimiter(chars, start, cut, '{', '}')
        } else {
            trailing == '.' || trailing == ',' || trailing == ';' || trailing == ':'
                || trailing == '!' || trailing == '?' || trailing == '"' || trailing == '\''
        };
        assert(should_trim == trims_last(chars@, start as int, cut as int));
        if !should_trim {
            return cut;
        }
        cut = cut - 1;
    }
    cut
}

/// Whether `chars[start..]` begins with the characters of `prefix`.
pub fn chars_start_with(chars: &[char], start: usize, prefix: &str) -> (r: bool)
    ensures
        r == (start + prefix@.len() <= chars@.len() && chars@.subrange(
            start as int,
            start + prefix@.len(),
        ) == prefix@),
{
    let prefix_len = prefix.unicode_len();
    let chars_len = chars.len();
    match start.checked_add(prefix_len) {
        None => return false,
        Some(prefix_end) => {
            if prefix_end > chars_len {
                return false;
            }
        },
    }
    let mut k: usize = 0;
    while k < prefix_len
        invariant
            prefix_len == prefix@.len(),
            chars_len == chars@.len(),
            start + prefix_len <= chars@.len(),
            k <= prefix_len,
            forall|j: int| 0 <= j < k ==> chars@[start + j] == prefix@[j],
        decreases prefix_len - k,
    {
        if chars[start + k] != prefix.get_char(k) {
            assert(chars@.subrange(start as int, start + prefix@.len())[k as int] != prefix@[k as int]);
            return false;
        }
        k = k + 1;
    }
    assert(chars@.subrange(start as int, start + prefix@.len()) =~= prefix@);
    true
}

impl TerminalLinkRange {
    /// Whether some span of this link holds `pos`.
    pub fn contains(&self, pos: TermGridPos) -> (r: bool)
        ensures
            r == link_holds(self@, pos),
    {
        let mut k: usize = 0;
        while k < self.spans.len()
            invariant
                k <= self.spans@.len(),
                forall|j: int| 0 <= j < k ==> !span_holds(#[trigger] self.spans@[j], pos),
            decreases self.spans@.len() - k,
        {
            let span = self.spans[k];
            if span.row == pos.row && pos.col >= span.start_col && pos.col < span.end_col {
                assert(span_holds(self@.1[k as int], pos));
                return true;
            }
            k = k + 1;
        }
        false
    }
}

/// The spans that the visible characters of `chars` cover on screen.
pub fn spans_for_chars(chars: &[PositionedChar]) -> (r: Vec<TerminalLinkSpan>)
    ensures
        r@ == spans_spec(chars@),
{
    let mut spans: Vec<TerminalLinkSpan> = Vec::new();
    let mut i: usize = 0;
    while i < chars.len()
        invariant
            i <= chars@.len(),
            spans@ == spans_spec(chars@.take(i as int)),
        decreases chars@.len() - i,
    {
        let positioned = chars[i];
        assert(chars@.take(i + 1).drop_last() =~= chars@.take(i as int));
        assert(chars@.take(i + 1).last() == positioned);
        if positioned.width > 0 {
            let end_col = positioned.col.saturating_add(positioned.width);
            let count = spans.len();
            if count > 0 && spans[count - 1].row == positioned.row
                && positioned.col <= spans[count - 1].end_col {
                let last = spans[count - 1];
                let merged_end = if last.end_col < end_col {
                    end_col
                } else {
                    last.end_col
                };
                spans.set(
                    count - 1,
                    TerminalLinkSpan { row: last.row, start_col: last.start_col, end_col: merged_end },
                );
            } else {
                spans.push(TerminalLinkSpan { row: positioned.row, start_col: positioned.col, end_col });
            }
        }
        i = i + 1;
    }
    assert(chars@.take(chars@.len() as int) =~= chars@);
    spans
}

/// `insert_by_col` inserts at `insert_position`, which lies within the sequence.
proof fn lemma_insert_by_col(s: Seq<SnapshotCell>, x: SnapshotCell)
    ensures
        0 <= insert_position(s, x) <= s.len(),
        insert_by_col(s, x) == s.insert(insert_position(s, x), x),
    decreases s.len(),
{
    if s.len() == 0 || s.last().col <= x.col {
        assert(s.push(x) =~= s.insert(s.len() as int, x));
    } else {
        lemma_insert_by_col(s.drop_last(), x);
        let p = insert_position(s.drop_last(), x);
        assert(s.drop_last().insert(p, x).push(s.last()) =~= s.insert(p, x));
    }
}

/// The cells that `order` picks out of `cells`, in that order.
pub open spec fn picked_cells(cells: Seq<SnapshotCell>, order: Seq<usize>) -> Seq<SnapshotCell> {
    Seq::new(order.len(), |k: int| cells[order[k] as int])
}

/// The indices of the cells of `row`, ordered by column (stably).
fn sorted_row_indices(cells: &Vec<SnapshotCell>, row: u16) -> (order: Vec<usize>)
    ensures
        forall|k: int| 0 <= k < order@.len() ==> order@[k] < cells@.len(),
        picked_cells(cells@, order@) == sorted_row_cells(cells@, row),
{
    let mut order: Vec<usize> = Vec::new();
    let mut i: usize = 0;
    while i < cells.len()
        invariant
            i <= cells@.len(),
            forall|k: int| 0 <= k < order@.len() ==> order@[k] < i,
            picked_cells(cells@, order@) == sorted_row_cells(cells@.take(i as int), row),
        decreases cells@.len() - i,
    {
        let ghost prefix = cells@.take(i as int);
        assert(cells@.take(i + 1).drop_last() =~= prefix);
        assert(cells@.take(i + 1).last() == cells@[i as int]);
        if cells[i].row == row {
            let ghost sorted = picked_cells(cells@, order@);
            let x = &cells[i];
            let mut j: usize = order.len();
            assert(sorted.take(j as int) =~= sorted);
            while j > 0 && cells[order[j - 1]].col > x.col
                invariant
                    j <= order@.len(),
                    sorted == picked_cells(cells@, order@),
                    forall|k: int| 0 <= k < order@.len() ==> order@[k] < i,
                    i < cells@.len(),
                    *x == cells@[i as int],
                    insert_position(sorted, *x) == insert_position(sorted.take(j as int), *x),
                decreases j,
            {
                assert(sorted.take(j as int).drop_last() =~= sorted.take(j - 1));
                j = j - 1;
            }
            proof {
                lemma_insert_by_col(sorted, *x);
                if j > 0 {
                    assert(sorted.take(j as int).last() == sorted[j - 1]);
                }
            }
            order.insert(j, i);
            assert(picked_cells(cells@, order@) =~= sorted.insert(j as int, *x));
        }
        i = i + 1;
    }
    assert(cells@.take(cells@.len() as int) =~= cells@);
    order
}

/// The characters of one row of a snapshot, left to right: cells in column
/// order, blanks where no cell starts, and each character of a cell's symbol
/// at the column its width puts it.
pub fn row_chars(snapshot: &TerminalSnapshot, row: u16) -> (r: Vec<PositionedChar>)
    ensures
        r@ == row_chars_spec(snapshot.cells@, row),
{
    let cells = &snapshot.cells;
    let order = sorted_row_indices(cells, row);
    let ghost picked = picked_cells(cells@, order@);
    let mut chars: Vec<PositionedChar> = Vec::new();
    let mut next_col: u16 = 0;
    let mut t: usize = 0;
    while t < order.len()
        invariant
            t <= order@.len(),
            picked == picked_cells(cells@, order@),
            forall|k: int| 0 <= k < order@.len() ==> order@[k] < cells@.len(),
            (chars@, next_col) == layout_row(picked.take(t as int), row),
        decreases order@.len() - t,
    {
        let cell = &cells[order[t]];
        assert(picked.take(t + 1).drop_last() =~= picked.take(t as int));
        assert(picked.take(t + 1).last() == *cell);
        let ghost before_gap = chars@;
        let ghost gap_from = next_col;
        while next_col < cell.col
            invariant
                gap_from <= next_col,
                next_col <= cell.col || next_col == gap_from,
                chars@ == before_gap + gap_chars(row, gap_from, next_col),
            decreases cell.col - next_col,
        {
            chars.push(PositionedChar { ch: ' ', row, col: next_col, width: 1 });
            assert(gap_chars(row, gap_from, next_col).push(
                PositionedChar { ch: ' ', row, col: next_col, width: 1 },
            ) =~= gap_chars(row, gap_from, (next_col + 1) as u16));
            next_col = next_col.saturating_add(1);
        }
        assert(gap_chars(row, gap_from, next_col) =~= gap_chars(row, gap_from, cell.col));
        let ghost before_symbol = chars@;
        let symbol = cell.symbol.as_str();
        let symbol_len = symbol.unicode_len();
        let mut symbol_col = cell.col;
        let mut k: usize = 0;
        assert(symbol@.take(0) =~= Seq::<char>::empty());
        while k < symbol_len
            invariant
                symbol_len == symbol@.len(),
                symbol@ == cell.symbol@,
                k <= symbol_len,
                chars@ == before_symbol + symbol_chars(symbol@.take(k as int), row, cell.col).0,
                symbol_col == symbol_chars(symbol@.take(k as int), row, cell.col).1,
            decreases symbol_len - k,
        {
            let ch = symbol.get_char(k);
            assert(symbol@.take(k + 1).drop_last() =~= symbol@.take(k as int));
            assert(symbol@.take(k + 1).last() == ch);
            let width: u16 = match char_width(ch) {
                Some(w) => if w <= 65535 {
                    w as u16
                } else {
                    0
                },
                None => 0,
            };
            let col = if width == 0 {
                symbol_col.saturating_sub(1)
            } else {
                symbol_col
            };
            chars.push(PositionedChar { ch, row, col, width });
            symbol_col = symbol_col.saturating_add(width);
            k = k + 1;
        }
        assert(symbol@.take(symbol_len as int) =~= symbol@);
        if next_col < symbol_col {
            next_col = symbol_col;
        }
        assert(chars@ =~= before_gap + gap_chars(row, gap_from, cell.col) + symbol_chars(
            cell.symbol@,
            row,
            cell.col,
        ).0);
        t = t + 1;
    }
    assert(picked.take(order@.len() as int) =~= picked);
    chars
}

/// The lines as values.
pub open spec fn lines_view(lines: Seq<Vec<PositionedChar>>) -> Seq<Seq<PositionedChar>> {
    Seq::new(lines.len(), |i: int| lines[i]@)
}

/// The logical lines of a snapshot: rows joined while they wrap.
pub fn logical_lines(snapshot: &TerminalSnapshot) -> (r: Vec<Vec<PositionedChar>>)
    ensures
        lines_view(r@) == logical_lines_spec(*snapshot),
{
    let mut lines: Vec<Vec<PositionedChar>> = Vec::new();
    let mut current: Vec<PositionedChar> = Vec::new();
    let mut row: u16 = 0;
    while row < snapshot.rows
        invariant
            row <= snapshot.rows,
            (lines_view(lines@), current@) == lines_through(*snapshot, row as int),
        decreases snapshot.rows - row,
    {
        let mut row_part = row_chars(snapshot, row);
        current.append(&mut row_part);
        if !snapshot.row_wraps(row) {
            let ghost before = lines_view(lines@);
            lines.push(current);
            assert(lines_view(lines@) =~= before.push(lines@.last()@));
            current = Vec::new();
        }
        row = row + 1;
    }
    if current.len() > 0 {
        let ghost before = lines_view(lines@);
        lines.push(current);
        assert(lines_view(lines@) =~= before.push(lines@.last()@));
    }
    lines
}

/// Calls `String::push`; the contract claims what its documentation says:
/// the string's characters gain `c` at the end.
#[verifier::external_body]
fn push_char(s: &mut String, c: char)
    ensures
        final(s)@ == old(s)@.push(c),
{
    s.push(c);
}

/// The links that start in a logical line, in order of where they start.
pub fn ranges_for_line(line: &[PositionedChar]) -> (r: Vec<TerminalLinkRange>)
    ensures
        link_views(r@) == line_links(line@),
{
    let mut chars: Vec<char> = Vec::new();
    let mut i: usize = 0;
    while i < line.len()
        invariant
            i <= line@.len(),
            chars@ == line_chars(line@.take(i as int)),
        decreases line@.len() - i,
    {
        chars.push(line[i].ch);
        assert(chars@ =~= line_chars(line@.take(i + 1)));
        i = i + 1;
    }
    assert(line@.take(line@.len() as int) =~= line@);
    let ghost text = chars@;
    let mut ranges: Vec<TerminalLinkRange> = Vec::new();
    let mut start: usize = 0;
    while start < chars.len()
        invariant
            chars@ == text,
            text == line_chars(line@),
            text.len() == line@.len(),
            start <= text.len(),
            link_views(ranges@) == links_through(line@, start as int),
        decreases text.len() - start,
    {
        let ghost before = link_views(ranges@);
        if chars_start_with(chars.as_slice(), start, "https://") || chars_start_with(
            chars.as_slice(),
            start,
            "http://",
        ) {
            let mut end = start;
            while end < chars.len() && !is_whitespace(chars[end]) && (chars[end] as u32) > 0x1f
                && (chars[end] as u32) != 0x7f
                invariant
                    chars@ == text,
                    start <= end <= text.len(),
                    link_scan_end(text, start as int) == link_scan_end(text, end as int),
                decreases text.len() - end,
            {
                end = end + 1;
            }
            let end = trim_trailing_punctuation(chars.as_slice(), start, end);
            proof {
                lemma_trimmed_end_bounds(text, start as int, link_scan_end(text, start as int));
            }
            if end > start {
                let mut url = String::new();
                let mut k: usize = start;
                while k < end
                    invariant
                        chars@ == text,
                        start <= k <= end,
                        end <= text.len(),
                        url@ == text.subrange(start as int, k as int),
                    decreases end - k,
                {
                    push_char(&mut url, chars[k]);
                    assert(url@ =~= text.subrange(start as int, k + 1));
                    k = k + 1;
                }
                let spans = spans_for_chars(&line[start..end]);
                ranges.push(TerminalLinkRange { url, spans });
                assert(link_views(ranges@) =~= before.push(ranges@.last()@));
            }
        }
        start = start + 1;
    }
    ranges
}

/// Every link in the snapshot, line by line and, within a line, by where it
/// starts.
pub fn ranges(snapshot: &TerminalSnapshot) -> (r: Vec<TerminalLinkRange>)
    ensures
        link_views(r@) == snapshot_links(*snapshot),
        forall|k: int| 0 <= k < r@.len() ==> reads_as_link((#[trigger] r@[k]).url@),
{
    let lines = logical_lines(snapshot);
    let ghost all_lines = lines_view(lines@);
    let mut result: Vec<TerminalLinkRange> = Vec::new();
    let mut i: usize = 0;
    while i < lines.len()
        invariant
            i <= lines@.len(),
            all_lines == lines_view(lines@),
            link_views(result@) == lines_links(all_lines.take(i as int)),
        decreases lines@.len() - i,
    {
        let ghost before = link_views(result@);
        let mut found = ranges_for_line(lines[i].as_slice());
        let ghost added = link_views(found@);
        result.append(&mut found);
        assert(link_views(result@) =~= before + added);
        assert(all_lines.take(i + 1).drop_last() =~= all_lines.take(i as int));
        assert(all_lines.take(i + 1).last() == lines@[i as int]@);
        i = i + 1;
    }
    assert(all_lines.take(lines@.len() as int) =~= all_lines);
    proof {
        lemma_snapshot_links_read_as_links(*snapshot);
        assert(link_views(result@) == snapshot_links(*snapshot));
        assert forall|k: int| 0 <= k < result@.len() implies reads_as_link(
            (#[trigger] result@[k]).url@,
        ) by {
            assert(link_views(result@)[k] == result@[k]@);
            assert(reads_as_link(snapshot_links(*snapshot)[k].0));
        }
    }
    result
}

/// The text of the first link in the snapshot that covers `pos`.
pub fn url_at_grid_pos(snapshot: &TerminalSnapshot, pos: TermGridPos) -> (r: Option<String>)
    ensures
        r.deep_view() == first_link_at(snapshot_links(*snapshot), pos),
        match r {
            Some(url) => exists|k: int|
                0 <= k < snapshot_links(*snapshot).len() && (#[trigger] snapshot_links(
                    *snapshot,
                )[k]).0 == url@ && covers_position(snapshot_links(*snapshot)[k], pos) && forall|
                    j: int,
                | 0 <= j < k ==> !covers_position(#[trigger] snapshot_links(*snapshot)[j], pos),
            None => forall|k: int|
                0 <= k < snapshot_links(*snapshot).len() ==> !covers_position(
                    #[trigger] snapshot_links(*snapshot)[k],
                    pos,
                ),
        },
{
    proof {
        lemma_first_link_at_is_earliest_cover(snapshot_links(*snapshot), pos);
    }
    let ranges = ranges(snapshot);
    let ghost links = link_views(ranges@);
    assert(links.skip(0) =~= links);
    let mut i: usize = 0;
    while i < ranges.len()
        invariant
            i <= ranges@.len(),
            links == link_views(ranges@),
            links == snapshot_links(*snapshot),
            first_link_at(links, pos) == first_link_at(links.skip(i as int), pos),
        decreases ranges@.len() - i,
    {
        assert(links.skip(i as int)[0] == ranges@[i as int]@);
        assert(links.skip(i as int).drop_first() =~= links.skip(i + 1));
        assert(links.skip(i as int).len() > 0);
        if ranges[i].contains(pos) {
            let url = ranges[i].url.clone();
            assert(first_link_at(links.skip(i as int), pos) == Some(url@));
            proof {
                lemma_first_link_at_is_earliest_cover(links, pos);
            }
            return Some(url);
        }
        i = i + 1;
    }
    None
}

/// The text of the first of `ranges` that shares a column with `cell`; a cell
/// spans as many columns as its symbol is wide, and at least one.
pub fn url_for_cell<'a>(cell: &SnapshotCell, ranges: &'a [TerminalLinkRange]) -> (r: Option<
    &'a str,
>)
    ensures
        match r {
            Some(url) => first_link_over(link_views(ranges@), *cell) == Some(url@),
            None => first_link_over(link_views(ranges@), *cell) is None,
        },
        match r {
            Some(url) => exists|k: int|
                0 <= k < ranges@.len() && (#[trigger] ranges@[k]).url@ == url@ && shares_column(
                    ranges@[k]@,
                    *cell,
                ) && forall|j: int| 0 <= j < k ==> !shares_column((#[trigger] ranges@[j])@, *cell),
            None => forall|k: int|
                0 <= k < ranges@.len() ==> !shares_column((#[trigger] ranges@[k])@, *cell),
        },
{
    proof {
        lemma_first_link_over_is_earliest_overlap(link_views(ranges@), *cell);
        assert forall|k: int| 0 <= k < ranges@.len() implies link_views(ranges@)[k] == (
        #[trigger] ranges@[k])@ by {}
    }
    let symbol_width = str_width(cell.symbol.as_str());
    let at_least_one = if symbol_width < 1 {
        1
    } else {
        symbol_width
    };
    let cell_width: u16 = if at_least_one <= 65535 {
        at_least_one as u16
    } else {
        1
    };
    let cell_end = cell.col.saturating_add(cell_width);
    let ghost links = link_views(ranges@);
    assert(links.skip(0) =~= links);
    let mut i: usize = 0;
    while i < ranges.len()
        invariant
            i <= ranges@.len(),
            links == link_views(ranges@),
            cell_width == cell_columns(*cell),
            cell_end == saturating_add_u16(cell.col, cell_width),
            first_link_over(links, *cell) == first_link_over(links.skip(i as int), *cell),
        decreases ranges@.len() - i,
    {
        assert(links.skip(i as int)[0] == ranges@[i as int]@);
        assert(links.skip(i as int).drop_first() =~= links.skip(i + 1));
        let range = &ranges[i];
        let mut k: usize = 0;
        while k < range.spans.len()
            invariant
                k <= range.spans@.len(),
                i < ranges@.len(),
                links == link_views(ranges@),
                links.skip(i as int).len() > 0,
                range@ == links.skip(i as int)[0],
                first_link_over(links, *cell) == first_link_over(links.skip(i as int), *cell),
                cell_end == saturating_add_u16(cell.col, cell_columns(*cell)),
                forall|j: int| 0 <= j < k ==> !span_overlaps_cell(#[trigger] range.spans@[j], *cell),
            decreases range.spans@.len() - k,
        {
            let span = range.spans[k];
            if span.row == cell.row && cell.col < span.end_col && cell_end > span.start_col {
                assert(span_overlaps_cell(range@.1[k as int], *cell));
                assert(links.skip(i as int).len() > 0);
                assert(link_overlaps_cell(links.skip(i as int)[0], *cell));
                proof {
                    lemma_first_link_over_is_earliest_overlap(links, *cell);
                    assert forall|m: int| 0 <= m < ranges@.len() implies links[m] == (
                    #[trigger] ranges@[m])@ by {}
                }
                return Some(range.url.as_str());
            }
            k = k + 1;
        }
        i = i + 1;
    }
    None
}

/// The scan for the end of a link stops at the first character that ends a
/// link, and passes only over characters that do not.
pub proof fn lemma_link_scan_end(chars: Seq<char>, i: int)
    requires
        0 <= i <= chars.len(),
    ensures
        i <= link_scan_end(chars, i) <= chars.len(),
        forall|k: int| i <= k < link_scan_end(chars, i) ==> !ends_link(#[trigger] chars[k]),
        link_scan_end(chars, i) < chars.len() ==> ends_link(chars[link_scan_end(chars, i)]),
    decreases chars.len() - i,
{
    if i < chars.len() && !ends_link(chars[i]) {
        lemma_link_scan_end(chars, i + 1);
    }
}

/// Trimming trailing punctuation twice is trimming it once: what is left
/// never ends in trailing punctuation.
pub proof fn lemma_trim_idempotent(chars: Seq<char>, start: int, end: int)
    ensures
        trimmed_end(chars, start, trimmed_end(chars, start, end)) == trimmed_end(chars, start, end),
    decreases end - start,
{
    if end > start && trims_last(chars, start, end) {
        lemma_trim_idempotent(chars, start, end - 1);
    }
}

/// Every detected link holds no whitespace or ASCII control character and
/// does not end in trailing punctuation (sentence punctuation, or a closing
/// bracket it never opened); and it begins with `https://` or `http://`.
pub proof fn lemma_link_shape(line: Seq<PositionedChar>, start: int)
    requires
        0 <= start < line.len(),
        link_at(line, start) is Some,
    ensures
        ({
            let url = link_at(line, start).unwrap().0;
            &&& forall|k: int| 0 <= k < url.len() ==> !ends_link(#[trigger] url[k])
            &&& !trims_last(url, 0, url.len() as int)
            &&& starts_with_at(url, 0, "https://"@) || starts_with_at(url, 0, "http://"@)
        }),
{
    let chars = line_chars(line);
    let scan = link_scan_end(chars, start);
    let end = trimmed_end(chars, start, scan);
    let url = chars.subrange(start, end);
    lemma_link_scan_end(chars, start);
    lemma_trimmed_end_bounds(chars, start, scan);
    lemma_trim_idempotent(chars, start, scan);
    assert(link_at(line, start).unwrap().0 == url);
    assert forall|k: int| 0 <= k < url.len() implies !ends_link(#[trigger] url[k]) by {
        assert(url[k] == chars[start + k]);
    }
    if trims_last(chars, start, end) {
        lemma_trimmed_end_bounds(chars, start, end - 1);
        assert(trimmed_end(chars, start, end) <= end - 1);
    }
    assert(!trims_last(chars, start, end));
    assert(chars.subrange(start, end).subrange(0, url.len() as int) =~= url);
    assert(url[url.len() - 1] == chars[end - 1]);
    {
        reveal_strlit("https://");
        reveal_strlit("http://");
        let plen: int = if starts_with_at(chars, start, "https://"@) {
            8
        } else {
            7
        };
        let prefix: Seq<char> = if plen == 8 {
            "https://"@
        } else {
            "http://"@
        };
        assert(starts_with_at(chars, start, prefix));
        assert(prefix.len() == plen && prefix[plen - 1] == '/');
        assert(chars[start + plen - 1] == chars.subrange(start, start + plen)[plen - 1]);
        assert forall|k: int| start <= k < start + plen implies !ends_link(chars[k]) by {
            let c = chars[k];
            assert(c == prefix[k - start]);
            assert(prefix[k - start] == 'h' || prefix[k - start] == 't' || prefix[k - start]
                == 'p' || prefix[k - start] == 's' || prefix[k - start] == ':'
                || prefix[k - start] == '/');
            assert("https://"@[0] == 'h' && "https://"@[1] == 't' && "https://"@[3] == 'p'
                && "https://"@[4] == 's' && "https://"@[5] == ':' && "https://"@[6] == '/');
        }
        if scan < start + plen {
            assert(!ends_link(chars[scan]));
        }
        lemma_trim_keeps_scheme(chars, start, scan, plen);
        assert(url.subrange(0, plen) =~= chars.subrange(start, start + plen));
    }
}

/// Trimming stops at the `/` that ends a scheme prefix.
proof fn lemma_trim_keeps_scheme(chars: Seq<char>, start: int, end: int, plen: int)
    requires
        0 <= start,
        plen >= 1,
        start + plen <= end <= chars.len(),
        chars[start + plen - 1] == '/',
    ensures
        trimmed_end(chars, start, end) >= start + plen,
    decreases end - start,
{
    if end > start + plen && trims_last(chars, start, end) {
        lemma_trim_keeps_scheme(chars, start, end - 1, plen);
    }
}

/// A span holds every column of a visible character.
pub open spec fn span_covers(span: TerminalLinkSpan, c: PositionedChar) -> bool {
    &&& span.row == c.row
    &&& span.start_col <= c.col
    &&& saturating_add_u16(c.col, c.width) <= span.end_col
}

/// One of `spans` holds every column of `c`.
pub open spec fn some_span_covers(spans: Seq<TerminalLinkSpan>, c: PositionedChar) -> bool {
    exists|k: int| 0 <= k < spans.len() && span_covers(#[trigger] spans[k], c)
}

/// `span` starts at a visible character of `chars`.
pub open spec fn span_opened_in(chars: Seq<PositionedChar>, span: TerminalLinkSpan) -> bool {
    exists|i: int|
        0 <= i < chars.len() && (#[trigger] chars[i]).width > 0 && chars[i].row == span.row
            && chars[i].col == span.start_col
}

/// The visible characters of each row of `chars` run left to right.
pub open spec fn visible_left_to_right(chars: Seq<PositionedChar>) -> bool {
    forall|i: int, j: int|
        0 <= i < j < chars.len() && chars[i].row == chars[j].row && chars[i].width > 0
            && chars[j].width > 0 ==> #[trigger] chars[i].col <= #[trigger] chars[j].col
}

/// Every visible character of `chars` lies inside one of the spans built from
/// them, when the visible characters of each row run left to right; and each
/// span starts where one of those characters does.
pub proof fn lemma_spans_cover_visible_chars(chars: Seq<PositionedChar>)
    requires
        visible_left_to_right(chars),
    ensures
        forall|i: int|
            0 <= i < chars.len() && (#[trigger] chars[i]).width > 0 ==> some_span_covers(
                spans_spec(chars),
                chars[i],
            ),
        forall|k: int|
            0 <= k < spans_spec(chars).len() ==> span_opened_in(
                chars,
                #[trigger] spans_spec(chars)[k],
            ),
    decreases chars.len(),
{
    if chars.len() > 0 {
        let rest = chars.drop_last();
        let n = chars.len() - 1;
        assert(visible_left_to_right(rest)) by {
            assert forall|i: int, j: int|
                0 <= i < j < rest.len() && rest[i].row == rest[j].row && rest[i].width > 0
                    && rest[j].width > 0 implies #[trigger] rest[i].col <= #[trigger] rest[j].col by {
                assert(rest[i] == chars[i] && rest[j] == chars[j]);
            }
        }
        lemma_spans_cover_visible_chars(rest);
        let prev = spans_spec(rest);
        let now = spans_spec(chars);
        let p = chars[n];
        assert(chars.last() == p);
        if p.width == 0 {
            assert(now == prev);
            assert forall|i: int| 0 <= i < chars.len() && (#[trigger] chars[i]).width > 0 implies some_span_covers(now, chars[i]) by {
                assert(rest[i] == chars[i]);
            }
            assert forall|k: int| 0 <= k < now.len() implies span_opened_in(chars, #[trigger] now[k]) by {
                assert(span_opened_in(rest, prev[k]));
                let i = choose|i: int|
                    0 <= i < rest.len() && (#[trigger] rest[i]).width > 0 && rest[i].row == prev[k].row
                        && rest[i].col == prev[k].start_col;
                assert(chars[i] == rest[i]);
            }
        } else {
            lemma_spans_step(chars);
        }
    }
}

/// The step of `lemma_spans_cover_visible_chars` for a visible last character.
proof fn lemma_spans_step(chars: Seq<PositionedChar>)
    requires
        chars.len() > 0,
        chars.last().width > 0,
        visible_left_to_right(chars),
        forall|i: int|
            0 <= i < chars.drop_last().len() && (#[trigger] chars.drop_last()[i]).width > 0
                ==> some_span_covers(spans_spec(chars.drop_last()), chars.drop_last()[i]),
        forall|k: int|
            0 <= k < spans_spec(chars.drop_last()).len() ==> span_opened_in(
                chars.drop_last(),
                #[trigger] spans_spec(chars.drop_last())[k],
            ),
    ensures
        forall|i: int|
            0 <= i < chars.len() && (#[trigger] chars[i]).width > 0 ==> some_span_covers(
                spans_spec(chars),
                chars[i],
            ),
        forall|k: int|
            0 <= k < spans_spec(chars).len() ==> span_opened_in(
                chars,
                #[trigger] spans_spec(chars)[k],
            ),
{
    let rest = chars.drop_last();
    let prev = spans_spec(rest);
    let p = chars.last();
    if prev.len() > 0 && prev.last().row == p.row && p.col <= prev.last().end_col {
        let m = prev.len() - 1;
        let end_col = saturating_add_u16(p.col, p.width);
        let merged = TerminalLinkSpan {
            row: prev[m].row,
            start_col: prev[m].start_col,
            end_col: if prev[m].end_col < end_col {
                end_col
            } else {
                prev[m].end_col
            },
        };
        assert(spans_spec(chars) == prev.update(m, merged));
        lemma_spans_merge_step(chars, rest, prev, merged);
    } else {
        lemma_spans_push_step(chars, rest, prev, spans_spec(chars));
    }
}

/// `lemma_spans_step` when the last character extends the last span.
proof fn lemma_spans_merge_step(
    chars: Seq<PositionedChar>,
    rest: Seq<PositionedChar>,
    prev: Seq<TerminalLinkSpan>,
    merged: TerminalLinkSpan,
)
    requires
        chars.len() > 0,
        rest == chars.drop_last(),
        chars.last().width > 0,
        prev.len() > 0,
        prev.last().row == chars.last().row,
        chars.last().col <= prev.last().end_col,
        merged.row == prev.last().row,
        merged.start_col == prev.last().start_col,
        prev.last().end_col <= merged.end_col,
        saturating_add_u16(chars.last().col, chars.last().width) <= merged.end_col,
        visible_left_to_right(chars),
        forall|i: int|
            0 <= i < rest.len() && (#[trigger] rest[i]).width > 0 ==> some_span_covers(prev, rest[i]),
        forall|k: int| 0 <= k < prev.len() ==> span_opened_in(rest, #[trigger] prev[k]),
    ensures
        ({
            let now = prev.update(prev.len() - 1, merged);
            &&& forall|i: int|
                0 <= i < chars.len() && (#[trigger] chars[i]).width > 0 ==> some_span_covers(
                    now,
                    chars[i],
                )
            &&& forall|k: int| 0 <= k < now.len() ==> span_opened_in(chars, #[trigger] now[k])
        }),
{
    let n = chars.len() - 1;
    let p = chars[n];
    let m = prev.len() - 1;
    let now = prev.update(m, merged);
    assert(chars.last() == p);
    assert forall|i: int| 0 <= i < rest.len() implies rest[i] == chars[i] by {}
    assert(now.len() == prev.len());
    assert forall|k: int| 0 <= k < now.len() implies now[k].row == prev[k].row && now[k].start_col
        == prev[k].start_col && prev[k].end_col <= now[k].end_col by {}
    assert(span_opened_in(rest, prev[m]));
    let j = choose|i: int|
        0 <= i < rest.len() && (#[trigger] rest[i]).width > 0 && rest[i].row == prev[m].row
            && rest[i].col == prev[m].start_col;
    assert(chars[j] == rest[j]);
    assert(chars[j].col <= chars[n].col);
    assert(span_covers(now[m], p));
    assert forall|i: int| 0 <= i < chars.len() && (#[trigger] chars[i]).width > 0 implies some_span_covers(now, chars[i]) by {
        if i == n {
            assert(span_covers(now[m], chars[i]));
        } else {
            assert(rest[i] == chars[i]);
            assert(some_span_covers(prev, rest[i]));
            let k = choose|k: int| 0 <= k < prev.len() && span_covers(#[trigger] prev[k], rest[i]);
            assert(span_covers(now[k], chars[i]));
        }
    }
    assert forall|k: int| 0 <= k < now.len() implies span_opened_in(chars, #[trigger] now[k]) by {
        assert(span_opened_in(rest, prev[k]));
        let i = choose|i: int|
            0 <= i < rest.len() && (#[trigger] rest[i]).width > 0 && rest[i].row == prev[k].row
                && rest[i].col == prev[k].start_col;
        assert(chars[i] == rest[i]);
    }
}

/// `lemma_spans_step` when the last character opens a new span.
proof fn lemma_spans_push_step(
    chars: Seq<PositionedChar>,
    rest: Seq<PositionedChar>,
    prev: Seq<TerminalLinkSpan>,
    now: Seq<TerminalLinkSpan>,
)
    requires
        chars.len() > 0,
        rest == chars.drop_last(),
        prev == spans_spec(rest),
        now == spans_spec(chars),
        chars.last().width > 0,
        !(prev.len() > 0 && prev.last().row == chars.last().row && chars.last().col
            <= prev.last().end_col),
        forall|i: int|
            0 <= i < rest.len() && (#[trigger] rest[i]).width > 0 ==> some_span_covers(prev, rest[i]),
        forall|k: int| 0 <= k < prev.len() ==> span_opened_in(rest, #[trigger] prev[k]),
    ensures
        forall|i: int|
            0 <= i < chars.len() && (#[trigger] chars[i]).width > 0 ==> some_span_covers(now, chars[i]),
        forall|k: int| 0 <= k < now.len() ==> span_opened_in(chars, #[trigger] now[k]),
{
    let n = chars.len() - 1;
    let p = chars[n];
    assert(chars.last() == p);
    assert forall|i: int| 0 <= i < rest.len() implies rest[i] == chars[i] by {}
    let opened = TerminalLinkSpan {
        row: p.row,
        start_col: p.col,
        end_col: saturating_add_u16(p.col, p.width),
    };
    assert(now == prev.push(opened));
    assert(span_covers(now[now.len() - 1], p));
    assert forall|i: int| 0 <= i < chars.len() && (#[trigger] chars[i]).width > 0 implies some_span_covers(now, chars[i]) by {
        if i == n {
            assert(span_covers(now[now.len() - 1], chars[i]));
        } else {
            assert(rest[i] == chars[i]);
            assert(some_span_covers(prev, rest[i]));
            let k = choose|k: int| 0 <= k < prev.len() && span_covers(#[trigger] prev[k], rest[i]);
            assert(now[k] == prev[k]);
        }
    }
    assert forall|k: int| 0 <= k < now.len() implies span_opened_in(chars, #[trigger] now[k]) by {
        if k == now.len() - 1 {
            assert(chars[n].width > 0 && chars[n].col == now[k].start_col);
        } else {
            assert(now[k] == prev[k]);
            assert(span_opened_in(rest, prev[k]));
            let i = choose|i: int|
                0 <= i < rest.len() && (#[trigger] rest[i]).width > 0 && rest[i].row == prev[k].row
                    && rest[i].col == prev[k].start_col;
            assert(chars[i] == rest[i]);
        }
    }
}

/// The cells of `row`, in the order they are given.
pub open spec fn row_cells(cells: Seq<SnapshotCell>, row: u16) -> Seq<SnapshotCell>
    decreases cells.len(),
{
    if cells.len() == 0 {
        Seq::empty()
    } else if cells.last().row == row {
        row_cells(cells.drop_last(), row).push(cells.last())
    } else {
        row_cells(cells.drop_last(), row)
    }
}

/// Cells ordered by column, each inserted after those of no greater column.
pub open spec fn sort_by_col(cells: Seq<SnapshotCell>) -> Seq<SnapshotCell>
    decreases cells.len(),
{
    if cells.len() == 0 {
        Seq::empty()
    } else {
        insert_by_col(sort_by_col(cells.drop_last()), cells.last())
    }
}

/// Sorting a row's cells is sorting the cells of that row as given.
proof fn lemma_sorted_row_cells(cells: Seq<SnapshotCell>, row: u16)
    ensures
        sorted_row_cells(cells, row) == sort_by_col(row_cells(cells, row)),
    decreases cells.len(),
{
    if cells.len() > 0 {
        lemma_sorted_row_cells(cells.drop_last(), row);
        if cells.last().row == row {
            let prev = row_cells(cells.drop_last(), row);
            assert(prev.push(cells.last()).drop_last() =~= prev);
        }
    }
}

/// Appending a character of `row` to characters of `row` keeps them all on it.
proof fn lemma_push_keeps_row(chars: Seq<PositionedChar>, p: PositionedChar, row: u16)
    requires
        forall|i: int| 0 <= i < chars.len() ==> (#[trigger] chars[i]).row == row,
        p.row == row,
    ensures
        forall|i: int| 0 <= i < chars.push(p).len() ==> (#[trigger] chars.push(p)[i]).row == row,
{
    assert forall|i: int| 0 <= i < chars.push(p).len() implies (#[trigger] chars.push(p)[i]).row
        == row by {
        if i < chars.len() {
            assert(chars.push(p)[i] == chars[i]);
        }
    }
}

/// Every character laid out from a symbol is on the given row.
proof fn lemma_symbol_chars_row(s: Seq<char>, row: u16, col: u16)
    ensures
        forall|i: int|
            0 <= i < symbol_chars(s, row, col).0.len() ==> (#[trigger] symbol_chars(s, row, col).0[i]).row
                == row,
    decreases s.len(),
{
    if s.len() > 0 {
        lemma_symbol_chars_row(s.drop_last(), row, col);
        let before = symbol_chars(s.drop_last(), row, col);
        let prev = before.0;
        let at = before.1;
        let ch = s.last();
        let w = char_columns(ch);
        let placed_col: u16 = if w == 0 {
            saturating_sub_u16(at, 1)
        } else {
            at
        };
        let placed = PositionedChar { ch, row, col: placed_col, width: w };
        let all = symbol_chars(s, row, col).0;
        assert(all == prev.push(placed));
        lemma_push_keeps_row(prev, placed, row);
    }
}

/// Every character laid out for a row is on that row.
proof fn lemma_layout_row_row(cells: Seq<SnapshotCell>, row: u16)
    ensures
        forall|i: int|
            0 <= i < layout_row(cells, row).0.len() ==> (#[trigger] layout_row(cells, row).0[i]).row
                == row,
    decreases cells.len(),
{
    if cells.len() > 0 {
        lemma_layout_row_row(cells.drop_last(), row);
        let (prev, next) = layout_row(cells.drop_last(), row);
        let cell = cells.last();
        let gap = gap_chars(row, next, cell.col);
        let sym = symbol_chars(cell.symbol@, row, cell.col).0;
        lemma_symbol_chars_row(cell.symbol@, row, cell.col);
        let all = layout_row(cells, row).0;
        assert(all == prev + gap + sym);
        assert forall|i: int| 0 <= i < all.len() implies (#[trigger] all[i]).row == row by {
            if i < prev.len() {
                assert(all[i] == prev[i]);
            } else if i < prev.len() + gap.len() {
                assert(all[i] == gap[i - prev.len()]);
            } else {
                assert(all[i] == sym[i - prev.len() - gap.len()]);
            }
        }
    }
}

/// A row's characters depend only on that row's cells, in the order given,
/// whatever the other rows hold; and each of them is on that row.
pub proof fn lemma_row_chars_depend_on_row_cells(
    cells: Seq<SnapshotCell>,
    other_cells: Seq<SnapshotCell>,
    row: u16,
)
    requires
        row_cells(cells, row) == row_cells(other_cells, row),
    ensures
        row_chars_spec(cells, row) == row_chars_spec(other_cells, row),
        forall|i: int|
            0 <= i < row_chars_spec(cells, row).len() ==> (#[trigger] row_chars_spec(cells, row)[i]).row
                == row,
{
    lemma_sorted_row_cells(cells, row);
    lemma_sorted_row_cells(other_cells, row);
    lemma_layout_row_row(sorted_row_cells(cells, row), row);
}

/// The text of a link reads as a link: it begins with `https://` or
/// `http://`, holds no whitespace or ASCII control character, and its last
/// character is none of `.`, `,`, `;`, `:`, `!`, `?`, `"`, `'`.
pub open spec fn reads_as_link(url: Seq<char>) -> bool {
    &&& (url.len() >= 8 && url.take(8) == "https://"@) || (url.len() >= 7 && url.take(7)
        == "http://"@)
    &&& forall|i: int|
        0 <= i < url.len() ==> !has_white_space_property(#[trigger] url[i]) && !((url[i] as u32)
            <= 0x1f || (url[i] as u32) == 0x7f)
    &&& {
        let c = url.last();
        !(c == '.' || c == ',' || c == ';' || c == ':' || c == '!' || c == '?' || c == '"'
            || c == '\'')
    }
}

/// Every link among the first `n` starts of a line is the link at one of them.
proof fn lemma_links_through_members(line: Seq<PositionedChar>, n: int)
    requires
        0 <= n <= line.len(),
    ensures
        forall|k: int|
            0 <= k < links_through(line, n).len() ==> exists|s: int|
                0 <= s < n && link_at(line, s) == Some(#[trigger] links_through(line, n)[k]),
    decreases n,
{
    if n > 0 {
        lemma_links_through_members(line, n - 1);
        let prev = links_through(line, n - 1);
        let now = links_through(line, n);
        assert forall|k: int| 0 <= k < now.len() implies exists|s: int|
            0 <= s < n && link_at(line, s) == Some(#[trigger] now[k]) by {
            if k < prev.len() {
                assert(now[k] == prev[k]);
                let s = choose|s: int| 0 <= s < n - 1 && link_at(line, s) == Some(#[trigger] prev[k]);
                assert(link_at(line, s) == Some(now[k]));
            } else {
                assert(link_at(line, n - 1) == Some(now[k]));
            }
        }
    }
}

/// Every link of a sequence of lines is the link at some start of one of them.
proof fn lemma_lines_links_members(lines: Seq<Seq<PositionedChar>>)
    ensures
        forall|k: int|
            0 <= k < lines_links(lines).len() ==> exists|l: int, s: int|
                0 <= l < lines.len() && 0 <= s < lines[l].len() && link_at(lines[l], s) == Some(
                    #[trigger] lines_links(lines)[k],
                ),
    decreases lines.len(),
{
    if lines.len() > 0 {
        let rest = lines.drop_last();
        let last = lines.last();
        lemma_lines_links_members(rest);
        lemma_links_through_members(last, last.len() as int);
        let prev = lines_links(rest);
        let now = lines_links(lines);
        assert(now == prev + line_links(last));
        assert forall|k: int| 0 <= k < now.len() implies exists|l: int, s: int|
            0 <= l < lines.len() && 0 <= s < lines[l].len() && link_at(lines[l], s) == Some(
                #[trigger] now[k],
            ) by {
            if k < prev.len() {
                assert(now[k] == prev[k]);
                let (l, s) = choose|l: int, s: int|
                    0 <= l < rest.len() && 0 <= s < rest[l].len() && link_at(rest[l], s) == Some(
                        #[trigger] prev[k],
                    );
                assert(rest[l] == lines[l]);
            } else {
                let m = k - prev.len();
                assert(now[k] == line_links(last)[m]);
                let s = choose|s: int|
                    0 <= s < last.len() && link_at(last, s) == Some(
                        #[trigger] links_through(last, last.len() as int)[m],
                    );
                assert(lines[lines.len() - 1] == last);
            }
        }
    }
}

/// Every link found in a snapshot reads as a link: it begins with a URL
/// scheme, holds no whitespace or control character, and does not end in
/// sentence punctuation.
pub proof fn lemma_snapshot_links_read_as_links(snapshot: TerminalSnapshot)
    ensures
        forall|k: int|
            0 <= k < snapshot_links(snapshot).len() ==> reads_as_link(
                (#[trigger] snapshot_links(snapshot)[k]).0,
            ),
{
    let lines = logical_lines_spec(snapshot);
    lemma_lines_links_members(lines);
    assert forall|k: int| 0 <= k < snapshot_links(snapshot).len() implies reads_as_link(
        (#[trigger] snapshot_links(snapshot)[k]).0,
    ) by {
        let link = snapshot_links(snapshot)[k];
        let (l, s) = choose|l: int, s: int|
            0 <= l < lines.len() && 0 <= s < lines[l].len() && link_at(lines[l], s) == Some(
                #[trigger] lines_links(lines)[k],
            );
        lemma_link_shape(lines[l], s);
        let url = link.0;
        reveal_strlit("https://");
        reveal_strlit("http://");
        assert(url.len() >= 7);
        assert forall|i: int| 0 <= i < url.len() implies !has_white_space_property(
            #[trigger] url[i],
        ) && !((url[i] as u32) <= 0x1f || (url[i] as u32) == 0x7f) by {
            assert(!ends_link(url[i]));
        }
        let c = url.last();
        assert(c == url[url.len() - 1]);
        if starts_with_at(url, 0, "https://"@) {
            assert(url.subrange(0, 8) == url.take(8));
        } else {
            assert(url.subrange(0, 7) == url.take(7));
        }
    }
}

/// A span of the link holds the position.
pub open spec fn covers_position(link: LinkView, pos: TermGridPos) -> bool {
    exists|m: int|
        0 <= m < link.1.len() && (#[trigger] link.1[m]).row == pos.row && link.1[m].start_col
            <= pos.col && pos.col < link.1[m].end_col
}

/// The link hit at a position is the earliest that covers it; none is hit
/// when none covers it.
pub proof fn lemma_first_link_at_is_earliest_cover(links: Seq<LinkView>, pos: TermGridPos)
    ensures
        match first_link_at(links, pos) {
            Some(url) => exists|k: int|
                0 <= k < links.len() && (#[trigger] links[k]).0 == url && covers_position(
                    links[k],
                    pos,
                ) && forall|j: int| 0 <= j < k ==> !covers_position(#[trigger] links[j], pos),
            None => forall|k: int| 0 <= k < links.len() ==> !covers_position(#[trigger] links[k], pos),
        },
    decreases links.len(),
{
    if links.len() > 0 {
        let rest = links.drop_first();
        lemma_first_link_at_is_earliest_cover(rest, pos);
        assert forall|k: int| 0 <= k < rest.len() implies rest[k] == links[k + 1] by {}
        assert(covers_position(links[0], pos) == link_holds(links[0], pos));
        if link_holds(links[0], pos) {
            assert(links[0].0 == first_link_at(links, pos).unwrap());
        } else {
            match first_link_at(rest, pos) {
                Some(url) => {
                    let k = choose|k: int|
                        0 <= k < rest.len() && (#[trigger] rest[k]).0 == url && covers_position(
                            rest[k],
                            pos,
                        ) && forall|j: int| 0 <= j < k ==> !covers_position(#[trigger] rest[j], pos);
                    assert(links[k + 1] == rest[k]);
                    assert forall|j: int| 0 <= j < k + 1 implies !covers_position(
                        #[trigger] links[j],
                        pos,
                    ) by {
                        if j > 0 {
                            assert(links[j] == rest[j - 1]);
                        }
                    }
                },
                None => {
                    assert forall|k: int| 0 <= k < links.len() implies !covers_position(
                        #[trigger] links[k],
                        pos,
                    ) by {
                        if k > 0 {
                            assert(links[k] == rest[k - 1]);
                        }
                    }
                },
            }
        }
    }
}

/// The columns a cell occupies for hit testing: the display width of its
/// symbol, at least one, and one when the width does not fit in `u16`.
pub open spec fn hit_width(cell: SnapshotCell) -> int {
    let w = unicode_str_width(cell.symbol@);
    if w < 1 {
        1
    } else if w <= u16::MAX {
        w as int
    } else {
        1
    }
}

/// A span of the link shares a column with the cell: the cell starts before
/// the span ends, and ends (capped at the last column) after the span starts.
pub open spec fn shares_column(link: LinkView, cell: SnapshotCell) -> bool {
    exists|m: int|
        0 <= m < link.1.len() && (#[trigger] link.1[m]).row == cell.row && cell.col
            < link.1[m].end_col && (if cell.col + hit_width(cell) > u16::MAX {
            u16::MAX as int
        } else {
            cell.col + hit_width(cell)
        }) > link.1[m].start_col
}

/// The link a cell hits is the earliest that shares a column with it; none
/// when none does.
pub proof fn lemma_first_link_over_is_earliest_overlap(links: Seq<LinkView>, cell: SnapshotCell)
    ensures
        match first_link_over(links, cell) {
            Some(url) => exists|k: int|
                0 <= k < links.len() && (#[trigger] links[k]).0 == url && shares_column(
                    links[k],
                    cell,
                ) && forall|j: int| 0 <= j < k ==> !shares_column(#[trigger] links[j], cell),
            None => forall|k: int| 0 <= k < links.len() ==> !shares_column(#[trigger] links[k], cell),
        },
    decreases links.len(),
{
    if links.len() > 0 {
        let rest = links.drop_first();
        lemma_first_link_over_is_earliest_overlap(rest, cell);
        assert forall|k: int| 0 <= k < rest.len() implies rest[k] == links[k + 1] by {}
        assert forall|k: int| 0 <= k < links.len() implies shares_column(links[k], cell)
            == link_overlaps_cell(links[k], cell) by {
            assert forall|m: int| 0 <= m < links[k].1.len() implies span_overlaps_cell(
                links[k].1[m],
                cell,
            ) == ((links[k].1[m]).row == cell.row && cell.col < links[k].1[m].end_col && (
            if cell.col + hit_width(cell) > u16::MAX {
                u16::MAX as int
            } else {
                cell.col + hit_width(cell)
            }) > links[k].1[m].start_col) by {}
        }
        if link_overlaps_cell(links[0], cell) {
            assert(links[0].0 == first_link_over(links, cell).unwrap());
        } else {
            match first_link_over(rest, cell) {
                Some(url) => {
                    let k = choose|k: int|
                        0 <= k < rest.len() && (#[trigger] rest[k]).0 == url && shares_column(
                            rest[k],
                            cell,
                        ) && forall|j: int| 0 <= j < k ==> !shares_column(#[trigger] rest[j], cell);
                    assert(links[k + 1] == rest[k]);
                    assert forall|j: int| 0 <= j < k + 1 implies !shares_column(
                        #[trigger] links[j],
                        cell,
                    ) by {
                        if j > 0 {
                            assert(links[j] == rest[j - 1]);
                        }
                    }
                },
                None => {
                    assert forall|k: int| 0 <= k < links.len() implies !shares_column(
                        #[trigger] links[k],
                        cell,
                    ) by {
                        if k > 0 {
                            assert(links[k] == rest[k - 1]);
                        }
                    }
                },
            }
        }
    }
}

} // verus!
