//! The state of the interactive report, and the layout arithmetic of its heatmap.

use vstd::prelude::*;
use vstd::utf8::{decode_utf8, encode_utf8, encode_utf8_decode_utf8, is_char_boundary};

verus! {

/// The selection of a scrollable table: the first row shown and the selected row.
pub struct TableSelection {
    pub offset: usize,
    pub selected: Option<usize>,
}

impl TableSelection {
    /// Selects `index`; clearing the selection also scrolls back to the first row.
    pub fn select(&mut self, index: Option<usize>)
        ensures
            final(self).selected == index,
            final(self).offset == (if index is None { 0 } else { old(self).offset }),
    {
        self.selected = index;
        if index.is_none() {
            self.offset = 0;
        }
    }
}

/// State of the report that survives between frames: the monthly table's selection, how
/// many months it lists, and the month the chart and heatmap mark.
pub struct AppState {
    pub monthly_table: TableSelection,
    pub monthly_len: usize,
    pub selected_month_idx: Option<usize>,
}

impl AppState {
    /// The first month selected, nothing listed yet, nothing marked.
    pub fn new() -> (state: Self)
        ensures
            state.monthly_table.selected == Some(0usize),
            state.monthly_table.offset == 0,
            state.monthly_len == 0,
            state.selected_month_idx is None,
    {
        let mut monthly_table = TableSelection { offset: 0, selected: None };
        monthly_table.select(Some(0));
        Self { monthly_table, monthly_len: 0, selected_month_idx: None }
    }

    /// Moves the selection `n` rows up, stopping at the first row (no selection counts as
    /// the first row).
    pub fn scroll_up(&mut self, n: usize)
        ensures
            final(self).monthly_table.selected == Some(
                row_after_up(old(self).monthly_table.selected, n as int) as usize,
            ),
            final(self).monthly_table.offset == old(self).monthly_table.offset,
            final(self).monthly_len == old(self).monthly_len,
            final(self).selected_month_idx == old(self).selected_month_idx,
    {
        let current = match self.monthly_table.selected {
            Some(i) => i,
            None => 0,
        };
        let i = current.saturating_sub(n);
        self.monthly_table.select(Some(i));
    }

    /// Moves the selection `n` rows down, stopping at the last listed month (no selection
    /// counts as the first row; with no months listed the first row is selected).
    pub fn scroll_down(&mut self, n: usize)
        requires
            can_move_down(old(self).monthly_table.selected, n as int),
        ensures
            final(self).monthly_table.selected == Some(
                row_after_down(
                    old(self).monthly_table.selected,
                    old(self).monthly_len as int,
                    n as int,
                ) as usize,
            ),
            final(self).monthly_table.offset == old(self).monthly_table.offset,
            final(self).monthly_len == old(self).monthly_len,
            final(self).selected_month_idx == old(self).selected_month_idx,
    {
        let current = match self.monthly_table.selected {
            Some(i) => i,
            None => 0,
        };
        let moved = current + n;
        let last = self.monthly_len.saturating_sub(1);
        let i = if moved <= last { moved } else { last };
        self.monthly_table.select(Some(i));
    }

    /// Reacts to a key: `q` or Esc quits (the answer is `true`); Up or `k` moves up a row,
    /// Down or `j` down a row, Page Up and Page Down ten rows; other keys change nothing.
    pub fn on_key(&mut self, key: KeyPress) -> (quit: bool)
        requires
            scroll_of(key) > 0 ==> can_move_down(old(self).monthly_table.selected, scroll_of(key)),
        ensures
            quit == quits(key),
            scroll_of(key) < 0 ==> final(self).monthly_table.selected == Some(
                row_after_up(old(self).monthly_table.selected, -scroll_of(key)) as usize,
            ),
            scroll_of(key) > 0 ==> final(self).monthly_table.selected == Some(
                row_after_down(
                    old(self).monthly_table.selected,
                    old(self).monthly_len as int,
                    scroll_of(key),
                ) as usize,
            ),
            scroll_of(key) == 0 ==> final(self).monthly_table.selected == old(
                self,
            ).monthly_table.selected,
            final(self).monthly_table.selected == selection_after_key(
                key,
                old(self).monthly_table.selected,
                old(self).monthly_len as int,
            ),
            final(self).monthly_table.offset == old(self).monthly_table.offset,
            final(self).monthly_len == old(self).monthly_len,
            final(self).selected_month_idx == old(self).selected_month_idx,
    {
        match key {
            KeyPress::Char('q') | KeyPress::Esc => true,
            KeyPress::Up | KeyPress::Char('k') => {
                self.scroll_up(1);
                false
            },
            KeyPress::Down | KeyPress::Char('j') => {
                self.scroll_down(1);
                false
            },
            KeyPress::PageUp => {
                self.scroll_up(10);
                false
            },
            KeyPress::PageDown => {
                self.scroll_down(10);
                false
            },
            _ => false,
        }
    }
}

/// A key pressed in the report.
pub enum KeyPress {
    Char(char),
    Esc,
    Up,
    Down,
    PageUp,
    PageDown,
    Other,
}

/// The key ends the report.
pub open spec fn quits(key: KeyPress) -> bool {
    key == KeyPress::Char('q') || key == KeyPress::Esc
}

/// How many rows the key moves the selection: up is negative, down positive, 0 for none.
pub open spec fn scroll_of(key: KeyPress) -> int {
    match key {
        KeyPress::Up => -1,
        KeyPress::Char('k') => -1,
        KeyPress::Down => 1,
        KeyPress::Char('j') => 1,
        KeyPress::PageUp => -10,
        KeyPress::PageDown => 10,
        _ => 0,
    }
}

/// The selected row, no selection counting as the first.
pub open spec fn row_of(selected: Option<usize>) -> int {
    match selected {
        Some(i) => i as int,
        None => 0,
    }
}

/// The row `n` rows above the selection, at least the first.
pub open spec fn row_after_up(selected: Option<usize>, n: int) -> int {
    if row_of(selected) >= n { row_of(selected) - n } else { 0 }
}

/// The row `n` rows below the selection, at most the last of `len` rows (the first when
/// there are none).
pub open spec fn row_after_down(selected: Option<usize>, len: int, n: int) -> int {
    let last = if len >= 1 { len - 1 } else { 0 };
    if row_of(selected) + n <= last { row_of(selected) + n } else { last }
}

/// Moving the selection `n` rows down stays within `usize`.
pub open spec fn can_move_down(selected: Option<usize>, n: int) -> bool {
    row_of(selected) + n <= usize::MAX
}

/// A rectangle of terminal cells, as the heatmap's inner area.
pub struct Area {
    pub x: u16,
    pub y: u16,
    pub width: u16,
    pub height: u16,
}

/// What the heatmap draws: the byte length of each data row's label and how many values
/// the row holds, the number of columns, and the totals row's label length and value count.
pub struct HeatmapShape {
    pub label_lens: Vec<usize>,
    pub value_counts: Vec<usize>,
    pub n_cols: usize,
    pub total: Option<(usize, usize)>,
}

/// Where the heatmap's parts go.
pub struct HeatmapLayout {
    /// Width of the label column.
    pub label_width: u16,
    /// Width of each value column.
    pub cell_width: u16,
    /// Left edge of each value column, for as many columns as the header or a drawn row has.
    pub cell_xs: Vec<u16>,
    /// Top of each data row that fits, in order.
    pub row_ys: Vec<u16>,
    /// Top of the totals row, when there is one and it fits.
    pub total_y: Option<u16>,
}

/// The largest of the label lengths, 0 when there are none.
pub open spec fn max_label_len(lens: Seq<usize>, total: Option<(usize, usize)>) -> int
    decreases lens.len(),
{
    if lens.len() == 0 {
        match total {
            Some((label, _count)) => label as int,
            None => 0,
        }
    } else {
        let rest = max_label_len(lens.drop_last(), total);
        if lens.last() > rest { lens.last() as int } else { rest }
    }
}

/// How many values the totals row holds (none without a totals row).
pub open spec fn total_count(shape: HeatmapShape) -> int {
    match shape.total {
        Some((_label, count)) => count as int,
        None => 0,
    }
}

/// The label column's width: the longest label, at least 8, as a `u16` (keeping the low
/// sixteen bits, as `as u16` does).
pub open spec fn label_width_of(shape: HeatmapShape) -> int {
    let m = max_label_len(shape.label_lens@, shape.total);
    (if m > 8 { m } else { 8 }) % 65536
}

/// The value columns' width: what is left of the area after the label column and a gap,
/// shared evenly among the columns (their count as a `u16`), at least 1.
pub open spec fn cell_width_of(area: Area, label_width: int, n_cols: int) -> int {
    let left = if area.width >= label_width + 1 { area.width - label_width - 1 } else { 0 };
    let share = left / (n_cols % 65536);
    if share >= 1 { share } else { 1 }
}

/// How many data rows fit below the header.
pub open spec fn rows_drawn(area: Area, shape: HeatmapShape) -> int {
    if shape.label_lens@.len() < area.height - 1 {
        shape.label_lens@.len() as int
    } else {
        area.height - 1
    }
}

/// The totals row fits below the data rows and a blank row.
pub open spec fn total_drawn(area: Area, shape: HeatmapShape) -> bool {
    shape.total is Some && rows_drawn(area, shape) + 2 < area.height
}

/// The heatmap draws something: the area has room for a header and a row, and there is a column.
pub open spec fn draws_anything(area: Area, shape: HeatmapShape) -> bool {
    area.height >= 2 && area.width >= 4 && shape.n_cols > 0
}

/// The positions the heatmap computes all stay within `u16`, and the label width plus its
/// gap and the column count (as a `u16`) can serve as divisor and offset.
pub open spec fn layout_fits(area: Area, shape: HeatmapShape) -> bool {
    let lw = label_width_of(shape);
    let cw = cell_width_of(area, lw, shape.n_cols as int);
    let x0 = area.x + lw + 1;
    &&& area.y + area.height <= 65535
    &&& lw < 65535
    &&& shape.n_cols % 65536 != 0
    &&& x0 <= 65535
    &&& x0 + shape.n_cols * cw <= 65535
    &&& forall|k: int|
        0 <= k < rows_drawn(area, shape) ==> x0 + (#[trigger] shape.value_counts@[k]) * cw <= 65535
    &&& shape.total is Some ==> area.y + rows_drawn(area, shape) + 2 <= 65535
    &&& total_drawn(area, shape) ==> x0 + total_count(shape) * cw <= 65535
}

/// `layout` is where the heatmap's parts go in `area`.
pub open spec fn is_layout_of(layout: HeatmapLayout, area: Area, shape: HeatmapShape) -> bool {
    let lw = label_width_of(shape);
    let cw = cell_width_of(area, lw, shape.n_cols as int);
    let x0 = area.x + lw + 1;
    &&& layout.label_width == lw
    &&& layout.cell_width == cw
    &&& layout.cell_xs@.len() >= shape.n_cols
    &&& forall|k: int| 0 <= k < rows_drawn(area, shape) ==> layout.cell_xs@.len() >= #[trigger] shape.value_counts@[k]
    &&& total_drawn(area, shape) ==> layout.cell_xs@.len() >= total_count(shape)
    &&& forall|c: int| 0 <= c < layout.cell_xs@.len() ==> #[trigger] layout.cell_xs@[c] == x0 + c * cw
    &&& layout.row_ys@.len() == rows_drawn(area, shape)
    &&& forall|k: int| 0 <= k < layout.row_ys@.len() ==> #[trigger] layout.row_ys@[k] == area.y + 1 + k
    &&& layout.total_y == (if total_drawn(area, shape) {
        Some((area.y + rows_drawn(area, shape) + 2) as u16)
    } else {
        None
    })
}

/// The length of the longest row label, the total row's label included.
fn longest_label(shape: &HeatmapShape) -> (longest: usize)
    ensures
        longest == max_label_len(shape.label_lens@, shape.total),
{
    let mut longest: usize = match shape.total {
        Some((label, _count)) => label,
        None => 0,
    };
    let mut i: usize = 0;
    assert(shape.label_lens@.take(0) =~= Seq::<usize>::empty());
    while i < shape.label_lens.len()
        invariant
            0 <= i <= shape.label_lens@.len(),
            longest == max_label_len(shape.label_lens@.take(i as int), shape.total),
        decreases shape.label_lens@.len() - i,
    {
        assert(shape.label_lens@.take(i + 1).drop_last() =~= shape.label_lens@.take(i as int));
        if shape.label_lens[i] > longest {
            longest = shape.label_lens[i];
        }
        i = i + 1;
    }
    assert(shape.label_lens@.take(i as int) =~= shape.label_lens@);
    longest
}

/// Where the heatmap's label column, value columns, rows and totals row go in `area`:
/// nothing when the area is under 2 rows or 4 columns, or there is no column. The label
/// column is as wide as the longest label (at least 8); the value columns share the rest.
/// Data rows go one per line below the header while they fit; the totals row goes after a
/// blank line, if it fits.
pub fn heatmap_layout(area: &Area, shape: &HeatmapShape) -> (layout: Option<HeatmapLayout>)
    requires
        shape.value_counts@.len() == shape.label_lens@.len(),
        draws_anything(*area, *shape) ==> layout_fits(*area, *shape),
    ensures
        match layout {
            Some(l) => draws_anything(*area, *shape) && is_layout_of(l, *area, *shape),
            None => !draws_anything(*area, *shape),
        },
{
    if area.height < 2 || area.width < 4 || shape.n_cols == 0 {
        return None;
    }
    let longest = longest_label(shape);
    let wide = if longest > 8 { longest } else { 8 };
    let label_width = (wide % 65536) as u16;
    let cols = (shape.n_cols % 65536) as u16;
    let left = area.width.saturating_sub(label_width + 1);
    let share = left / cols;
    let cell_width = if share >= 1 { share } else { 1 };
    let x0 = area.x + label_width + 1;
    // rows that fit
    let n_rows = shape.label_lens.len();
    let mut row_ys: Vec<u16> = Vec::new();
    let mut widest: usize = shape.n_cols;
    let mut k: usize = 0;
    while k < n_rows && (k as u64) + 1 < area.height as u64
        invariant
            0 <= k <= n_rows,
            n_rows == shape.label_lens@.len(),
            n_rows == shape.value_counts@.len(),
            k <= area.height - 1,
            area.y + area.height <= 65535,
            row_ys@.len() == k,
            forall|r: int| 0 <= r < k ==> #[trigger] row_ys@[r] == area.y + 1 + r,
            widest >= shape.n_cols,
            forall|r: int| 0 <= r < k ==> widest >= #[trigger] shape.value_counts@[r],
            forall|r: int|
                0 <= r < rows_drawn(*area, *shape) ==> x0 + (#[trigger] shape.value_counts@[r])
                    * cell_width <= 65535,
            x0 + shape.n_cols * cell_width <= 65535,
            widest == shape.n_cols || exists|r: int| 0 <= r < k && widest == #[trigger] shape.value_counts@[r],
        decreases n_rows - k,
    {
        row_ys.push(area.y + 1 + k as u16);
        if shape.value_counts[k] > widest {
            widest = shape.value_counts[k];
        }
        k = k + 1;
    }
    assert(k == rows_drawn(*area, *shape));
    let total_y = match shape.total {
        Some((_label, count)) => {
            let y = area.y + (k as u16) + 2;
            if (k as u64) + 2 < area.height as u64 {
                if count > widest {
                    widest = count;
                }
                Some(y)
            } else {
                None
            }
        },
        None => None,
    };
    // left edges of the value columns
    let mut cell_xs: Vec<u16> = Vec::new();
    let mut c: usize = 0;
    let mut x: u16 = x0;
    while c < widest
        invariant
            0 <= c <= widest,
            cell_xs@.len() == c,
            x == x0 + c * cell_width,
            x0 + widest * cell_width <= 65535,
            forall|d: int| 0 <= d < c ==> #[trigger] cell_xs@[d] == x0 + d * cell_width,
        decreases widest - c,
    {
        cell_xs.push(x);
        proof {
            assert(x0 + (c + 1) * cell_width <= x0 + widest * cell_width) by (nonlinear_arith)
                requires
                    c + 1 <= widest,
                    cell_width >= 0,
            ;
            assert((c + 1) * cell_width == c * cell_width + cell_width) by (nonlinear_arith);
        }
        x = x + cell_width;
        c = c + 1;
    }
    Some(HeatmapLayout { label_width, cell_width, cell_xs, row_ys, total_y })
}


/// `count` columns of `cell_width` after `x0` stay within `u16`.
fn columns_fit(x0: u64, count: usize, cell_width: u64) -> (ok: bool)
    requires
        x0 <= 65535,
        1 <= cell_width <= 65535,
    ensures
        ok == (x0 + count * cell_width <= 65535),
{
    let room = 65535 - x0;
    let most = room / cell_width;
    proof {
        let c = count as int;
        let w = cell_width as int;
        let m = room as int;
        let q = most as int;
        vstd::arithmetic::div_mod::lemma_fundamental_div_mod(m, w);
        assert(c <= q ==> c * w <= m) by (nonlinear_arith)
            requires
                m == w * q + m % w,
                0 <= m % w < w,
                w >= 1,
        ;
        assert(c > q ==> c * w > m) by (nonlinear_arith)
            requires
                m == w * q + m % w,
                0 <= m % w < w,
                w >= 1,
        ;
    }
    count as u64 <= most
}

/// Whether the positions the heatmap computes in `area` all stay within `u16` (see
/// `layout_fits`); what `heatmap_layout` needs of an area it draws in.
pub fn heatmap_fits(area: &Area, shape: &HeatmapShape) -> (ok: bool)
    requires
        shape.value_counts@.len() == shape.label_lens@.len(),
    ensures
        ok == (draws_anything(*area, *shape) ==> layout_fits(*area, *shape)),
{
    if area.height < 2 || area.width < 4 || shape.n_cols == 0 {
        return true;
    }
    let longest = longest_label(shape);
    let wide = if longest > 8 { longest } else { 8 };
    let lw = (wide % 65536) as u64;
    if area.y as u64 + area.height as u64 > 65535 || lw >= 65535 || shape.n_cols % 65536 == 0 {
        return false;
    }
    let x0 = area.x as u64 + lw + 1;
    if x0 > 65535 {
        return false;
    }
    let left: u64 = if area.width as u64 >= lw + 1 { area.width as u64 - lw - 1 } else { 0 };
    let share = left / ((shape.n_cols % 65536) as u64);
    let cw: u64 = if share >= 1 { share } else { 1 };
    assert(cw <= 65535) by {
        assert(left / ((shape.n_cols % 65536) as u64) <= left) by (nonlinear_arith)
            requires
                (shape.n_cols % 65536) >= 1,
                left >= 0,
        ;
    }
    if !columns_fit(x0, shape.n_cols, cw) {
        return false;
    }
    let n_rows = shape.label_lens.len();
    let drawn: usize = if (n_rows as u64) < (area.height as u64) - 1 {
        n_rows
    } else {
        (area.height - 1) as usize
    };
    assert(drawn == rows_drawn(*area, *shape));
    let mut k: usize = 0;
    while k < drawn
        invariant
            0 <= k <= drawn,
            drawn == rows_drawn(*area, *shape),
            drawn <= shape.value_counts@.len(),
            draws_anything(*area, *shape),
            x0 == area.x + label_width_of(*shape) + 1,
            cw == cell_width_of(*area, label_width_of(*shape), shape.n_cols as int),
            x0 <= 65535,
            1 <= cw <= 65535,
            forall|r: int| 0 <= r < k ==> x0 + (#[trigger] shape.value_counts@[r]) * cw <= 65535,
        decreases drawn - k,
    {
        if !columns_fit(x0, shape.value_counts[k], cw) {
            return false;
        }
        k = k + 1;
    }
    match shape.total {
        Some((_label, count)) => {
            if area.y as u64 + drawn as u64 + 2 > 65535 {
                return false;
            }
            if (drawn as u64) + 2 < area.height as u64 && !columns_fit(x0, count, cw) {
                return false;
            }
            true
        },
        None => true,
    }
}

/// At most the first `n` characters of `s`.
pub fn truncate_chars(s: &str, n: usize) -> (t: String)
    ensures
        t@ == s@.take(if n < s@.len() { n as int } else { s@.len() as int }),
{
    let len = s.unicode_len();
    let end = if n < len { n } else { len };
    String::from_str(s.substring_char(0, end))
}

/// `s` followed by spaces up to `width` characters (as `{:width$}` pads text).
pub fn pad_to_width(s: &str, width: usize) -> (t: String)
    ensures
        t@ == s@ + Seq::new(
            (if s@.len() < width { width - s@.len() } else { 0 }) as nat,
            |i: int| ' ',
        ),
{
    let len = s.unicode_len();
    let mut t = String::from_str(s);
    let mut i = len;
    while i < width
        invariant
            len == s@.len(),
            len <= i <= (if len < width { width } else { len }),
            t@ == s@ + Seq::new((i - len) as nat, |k: int| ' '),
        decreases width - i,
    {
        t.append(" ");
        proof {
            reveal_strlit(" ");
        }
        assert(t@ =~= s@ + Seq::new((i + 1 - len) as nat, |k: int| ' '));
        i = i + 1;
    }
    assert(t@ =~= s@ + Seq::new(
        (if s@.len() < width { width - s@.len() } else { 0 }) as nat,
        |i: int| ' ',
    ));
    t
}

/// The heatmap's label for the column of `month`: what follows its fifth byte (`MM` of
/// `YYYY-MM`), or the whole month when it has no such whole part.
pub open spec fn column_label_text(month: Seq<char>) -> Seq<char> {
    let b = encode_utf8(month);
    if b.len() >= 5 && is_char_boundary(b, 5) {
        decode_utf8(b.subrange(5, b.len() as int))
    } else {
        month
    }
}

/// The heatmap's label for the column of `month`.
pub fn column_label(month: &str) -> (label: String)
    ensures
        label@ == column_label_text(month@),
{
    if month.as_bytes().len() >= 5 && month.is_char_boundary(5) {
        let (_head, tail) = month.split_at(5);
        proof {
            encode_utf8_decode_utf8(tail@);
        }
        String::from_str(tail)
    } else {
        String::from_str(month)
    }
}

/// The selection after `key`, as `on_key` leaves it: moved up by an up key, down by a down
/// key, unchanged by any other key.
pub open spec fn selection_after_key(key: KeyPress, selected: Option<usize>, len: int) -> Option<usize> {
    if scroll_of(key) < 0 {
        Some(row_after_up(selected, -scroll_of(key)) as usize)
    } else if scroll_of(key) > 0 {
        Some(row_after_down(selected, len, scroll_of(key)) as usize)
    } else {
        selected
    }
}

/// Scrolling down `n` rows selects the lesser of the row `n` below and the last row (the
/// first when nothing is listed): never past the last row, never more than `n` rows on,
/// and, from a row at or above the last, never above where it started.
pub proof fn lemma_scroll_down_stops_at_last(selected: Option<usize>, len: usize, n: int)
    requires
        n >= 0,
    ensures
        ({
            let row = row_of(selected);
            let last = if len >= 1 { len - 1 } else { 0 };
            let moved = row_after_down(selected, len as int, n);
            &&& moved <= last
            &&& moved <= row + n
            &&& (moved == row + n || moved == last)
            &&& (row <= last ==> row <= moved)
            &&& (row < last && n >= 1 ==> row < moved)
        }),
{
}

/// Scrolling up `n` rows selects the greater of the row `n` above and the first row:
/// never above the first row, never more than `n` rows back, never below where it started.
pub proof fn lemma_scroll_up_stops_at_first(selected: Option<usize>, n: int)
    requires
        n >= 0,
    ensures
        ({
            let row = row_of(selected);
            let moved = row_after_up(selected, n);
            &&& 0 <= moved <= row
            &&& moved >= row - n
            &&& (moved == row - n || moved == 0)
        }),
{
}

/// What each key does to the selection of a table of `len` months: Down and `j` alike
/// select the lesser of the next row and the last; Up and `k` alike the greater of the
/// previous row and the first; Page Down and Page Up move ten rows the same way; other
/// keys leave the selection as it was. A moving key always leaves a row selected.
pub proof fn lemma_keys_move_selection(selected: Option<usize>, len: usize)
    ensures
        ({
            let row = row_of(selected);
            let last = if len >= 1 { len - 1 } else { 0 };
            let down = selection_after_key(KeyPress::Down, selected, len as int);
            let page_down = selection_after_key(KeyPress::PageDown, selected, len as int);
            let up = selection_after_key(KeyPress::Up, selected, len as int);
            let page_up = selection_after_key(KeyPress::PageUp, selected, len as int);
            &&& selection_after_key(KeyPress::Char('j'), selected, len as int) == down
            &&& selection_after_key(KeyPress::Char('k'), selected, len as int) == up
            &&& down is Some && up is Some && page_down is Some && page_up is Some
            &&& row_of(down) <= last && row_of(down) <= row + 1
            &&& (row_of(down) == row + 1 || row_of(down) == last)
            &&& row_of(page_down) <= last && row_of(page_down) <= row + 10
            &&& (row_of(page_down) == row + 10 || row_of(page_down) == last)
            &&& (row <= last ==> row <= row_of(down) && row <= row_of(page_down))
            &&& 0 <= row_of(up) <= row && row_of(up) >= row - 1
            &&& (row_of(up) == row - 1 || row_of(up) == 0)
            &&& 0 <= row_of(page_up) <= row && row_of(page_up) >= row - 10
            &&& (row_of(page_up) == row - 10 || row_of(page_up) == 0)
            &&& selection_after_key(KeyPress::Other, selected, len as int) == selected
            &&& selection_after_key(KeyPress::Esc, selected, len as int) == selected
            &&& selection_after_key(KeyPress::Char('q'), selected, len as int) == selected
        }),
{
    lemma_scroll_down_stops_at_last(selected, len, 1);
    lemma_scroll_down_stops_at_last(selected, len, 10);
    lemma_scroll_up_stops_at_first(selected, 1);
    lemma_scroll_up_stops_at_first(selected, 10);
}

/// The largest label length bounds every label, the totals row's among them, and is one of
/// them (0 when there are none).
pub proof fn lemma_max_label_len_is_largest(lens: Seq<usize>, total: Option<(usize, usize)>)
    ensures
        forall|k: int| 0 <= k < lens.len() ==> #[trigger] lens[k] <= max_label_len(lens, total),
        total matches Some((label, _count)) ==> label <= max_label_len(lens, total),
        0 <= max_label_len(lens, total),
        (lens.len() == 0 && total is None && max_label_len(lens, total) == 0)
            || (exists|k: int| 0 <= k < lens.len() && #[trigger] lens[k] == max_label_len(lens, total))
            || (total matches Some((label, _count)) && label == max_label_len(lens, total)),
    decreases lens.len(),
{
    if lens.len() > 0 {
        let init = lens.drop_last();
        lemma_max_label_len_is_largest(init, total);
        assert forall|k: int| 0 <= k < lens.len() implies #[trigger] lens[k] <= max_label_len(lens, total) by {
            if k < init.len() {
                assert(lens[k] == init[k]);
            }
        }
        let m = max_label_len(lens, total);
        if lens.last() > max_label_len(init, total) {
            assert(lens[lens.len() - 1] == m);
        } else if exists|k: int| 0 <= k < init.len() && #[trigger] init[k] == max_label_len(init, total) {
            let k = choose|k: int| 0 <= k < init.len() && #[trigger] init[k] == max_label_len(init, total);
            assert(lens[k] == init[k]);
        }
    }
}

/// The heatmap's label column is as wide as its longest label, and at least 8: when the
/// widest label fits in a `u16`, the label column is wide enough for every data row's label
/// and the totals row's, and no wider than the widest of them or 8.
pub proof fn lemma_label_column_holds_every_label(shape: HeatmapShape)
    requires
        max_label_len(shape.label_lens@, shape.total) < 65536,
    ensures
        label_width_of(shape) >= 8,
        forall|k: int| 0 <= k < shape.label_lens@.len() ==> #[trigger] shape.label_lens@[k] <= label_width_of(shape),
        shape.total matches Some((label, _count)) ==> label <= label_width_of(shape),
        label_width_of(shape) == 8
            || (exists|k: int| 0 <= k < shape.label_lens@.len() && #[trigger] shape.label_lens@[k] == label_width_of(shape))
            || (shape.total matches Some((label, _count)) && label == label_width_of(shape)),
{
    lemma_max_label_len_is_largest(shape.label_lens@, shape.total);
    let m = max_label_len(shape.label_lens@, shape.total);
    let w = if m > 8 { m } else { 8 };
    assert(w % 65536 == w);
    if m > 8 {
        if exists|k: int| 0 <= k < shape.label_lens@.len() && #[trigger] shape.label_lens@[k] == m {
            let k = choose|k: int| 0 <= k < shape.label_lens@.len() && #[trigger] shape.label_lens@[k] == m;
            assert(shape.label_lens@[k] == label_width_of(shape));
        }
    }
}
}
