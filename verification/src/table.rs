//! A table made of the frames of a stream of lines: one row for each line
//! whose frame holds something, one column for each key or keyword name,
//! in the order in which they first appear.

use vstd::prelude::*;
use crate::frame::{frame_of, pairs_view, read_frame};
use crate::pattern::{get_reserved_matchers, reserved_matchers};
use crate::tally::{tally_counts, totals_of, totals_view};
use crate::text::strings_view;

verus! {

/// A table: its number of rows, its column names, and its cells, each at
/// (row, column) with its text, in the order in which they were first
/// written.
pub struct TableModel {
    pub rows: nat,
    pub cols: Seq<Seq<char>>,
    pub entries: Seq<((nat, nat), Seq<char>)>,
}

/// The table with no rows and no columns.
pub open spec fn empty_table() -> TableModel {
    TableModel { rows: 0, cols: seq![], entries: seq![] }
}

/// `k` names a column.
pub open spec fn has_col(cols: Seq<Seq<char>>, k: Seq<char>) -> bool {
    exists|i: int| 0 <= i < cols.len() && cols[i] == k
}

/// The column that `k` names: its own where there is one, else the next.
pub open spec fn col_of(cols: Seq<Seq<char>>, k: Seq<char>) -> int {
    if has_col(cols, k) {
        choose|i: int| 0 <= i < cols.len() && cols[i] == k
    } else {
        cols.len() as int
    }
}

/// The columns once `k` names one.
pub open spec fn with_col(cols: Seq<Seq<char>>, k: Seq<char>) -> Seq<Seq<char>> {
    if has_col(cols, k) {
        cols
    } else {
        cols.push(k)
    }
}

/// A cell is written at `idx`.
pub open spec fn has_cell(e: Seq<((nat, nat), Seq<char>)>, idx: (nat, nat)) -> bool {
    exists|i: int| 0 <= i < e.len() && e[i].0 == idx
}

/// The cells once `v` is written at `idx`: over the cell there, if any,
/// else as a new last cell.
pub open spec fn put_entry(e: Seq<((nat, nat), Seq<char>)>, idx: (nat, nat), v: Seq<char>) -> Seq<
    ((nat, nat), Seq<char>),
> {
    if has_cell(e, idx) {
        e.map_values(
            |x: ((nat, nat), Seq<char>)|
                if x.0 == idx {
                    (idx, v)
                } else {
                    x
                },
        )
    } else {
        e.push((idx, v))
    }
}

/// The table once `v` is written in the row being made, in the column
/// that `k` names.
pub open spec fn put_cell(t: TableModel, k: Seq<char>, v: Seq<char>) -> TableModel {
    TableModel {
        rows: t.rows,
        cols: with_col(t.cols, k),
        entries: put_entry(t.entries, (t.rows, col_of(t.cols, k) as nat), v),
    }
}

/// The table once the pairs are written, left to right, in the row being
/// made.
pub open spec fn put_cells(t: TableModel, cells: Seq<(Seq<char>, Seq<char>)>) -> TableModel
    decreases cells.len(),
{
    if cells.len() == 0 {
        t
    } else {
        put_cell(put_cells(t, cells.drop_last()), cells.last().0, cells.last().1)
    }
}

/// The table once a line with these keyword strings and these counts
/// (key and text of the total) is added: nothing changes where both are
/// empty; else the strings and then the counts are written in a new row.
pub open spec fn add_row(
    t: TableModel,
    strings: Seq<(Seq<char>, Seq<char>)>,
    counts: Seq<(Seq<char>, Seq<char>)>,
) -> TableModel {
    if strings.len() + counts.len() == 0 {
        t
    } else {
        let t2 = put_cells(t, strings + counts);
        TableModel { rows: t2.rows + 1, cols: t2.cols, entries: t2.entries }
    }
}

/// Keyword strings and counts of each line, by their views.
pub type RowsView = Seq<(Seq<(Seq<char>, Seq<char>)>, Seq<(Seq<char>, Seq<char>)>)>;

/// The table made of the lines' strings and counts, in order.
pub open spec fn table_of(rows: RowsView) -> TableModel
    decreases rows.len(),
{
    if rows.len() == 0 {
        empty_table()
    } else {
        add_row(table_of(rows.drop_last()), rows.last().0, rows.last().1)
    }
}

/// Cells by their views.
pub open spec fn entries_view(v: Seq<((usize, usize), String)>) -> Seq<((nat, nat), Seq<char>)> {
    v.map_values(|x: ((usize, usize), String)| ((x.0.0 as nat, x.0.1 as nat), x.1@))
}

/// The parts of a table as it is handed out: its size (rows, columns), its
/// cells and its column names.
pub type TableParts = ((usize, usize), Vec<((usize, usize), String)>, Vec<String>);

/// The handed-out parts hold the table `t`.
pub open spec fn parts_hold(p: TableParts, t: TableModel) -> bool {
    &&& p.0.0 == t.rows
    &&& p.0.1 == t.cols.len()
    &&& entries_view(p.1@) == t.entries
    &&& strings_view(p.2@) == t.cols
}

/// No column name occurs twice, no cell is written twice, and each cell
/// lies in a row and a column of the table (the row being made counts,
/// from `row_start` on).
pub open spec fn model_wf(t: TableModel, row_start: int, open_row: bool) -> bool {
    &&& forall|i: int, j: int| 0 <= i < j < t.cols.len() ==> t.cols[i] != t.cols[j]
    &&& forall|i: int, j: int| 0 <= i < j < t.entries.len() ==> t.entries[i].0 != t.entries[j].0
    &&& 0 <= row_start <= t.entries.len()
    &&& forall|i: int| 0 <= i < t.entries.len() ==> #[trigger] t.entries[i].0.1 < t.cols.len()
    &&& forall|i: int| 0 <= i < row_start ==> #[trigger] t.entries[i].0.0 < t.rows
    &&& forall|i: int|
        row_start <= i < t.entries.len() ==> open_row && #[trigger] t.entries[i].0.0 == t.rows
}

/// A table as it is built, line by line.
pub struct KvcTable {
    /// The number of rows.
    pub rows: usize,
    /// The column names, by column.
    pub col_names: Vec<String>,
    /// The cells: (row, column) and text.
    pub entries: Vec<((usize, usize), String)>,
}

impl KvcTable {
    /// The table by the views of its parts.
    pub open spec fn view(&self) -> TableModel {
        TableModel {
            rows: self.rows as nat,
            cols: strings_view(self.col_names@),
            entries: entries_view(self.entries@),
        }
    }

    /// The table is well formed: see `model_wf`.
    pub open spec fn wf(&self) -> bool {
        model_wf(self.view(), self.entries@.len() as int, false)
    }

    /// A table with no rows and no columns.
    pub fn new() -> (t: KvcTable)
        ensures
            t.wf(),
            t.view() == empty_table(),
    {
        let t = KvcTable { rows: 0, col_names: Vec::new(), entries: Vec::new() };
        assert(t.view().cols =~= Seq::<Seq<char>>::empty());
        assert(t.view().entries =~= Seq::<((nat, nat), Seq<char>)>::empty());
        t
    }

    /// The column that `key` names, made where there is none.
    fn column(&mut self, key: &String, row_start: usize) -> (c: usize)
        requires
            model_wf(old(self).view(), row_start as int, true),
        ensures
            model_wf(final(self).view(), row_start as int, true),
            final(self).view() == (TableModel { cols: with_col(old(self).view().cols, key@), ..old(self).view() }),
            c == col_of(old(self).view().cols, key@),
            c < final(self).view().cols.len(),
    {
        let n = self.col_names.len();
        let mut i: usize = 0;
        while i < n
            invariant
                n == self.col_names@.len(),
                i <= n,
                self.view() == old(self).view(),
                model_wf(self.view(), row_start as int, true),
                forall|j: int| 0 <= j < i ==> self.view().cols[j] != key@,
            decreases n - i,
        {
            if self.col_names[i] == *key {
                proof {
                    let cols = self.view().cols;
                    assert(cols[i as int] == key@);
                    assert(has_col(cols, key@));
                    let k = choose|k: int| 0 <= k < cols.len() && cols[k] == key@;
                    if k < i {
                        assert(cols[k] != cols[i as int]);
                    } else if k > i {
                        assert(cols[i as int] != cols[k]);
                    }
                }
                return i;
            }
            i = i + 1;
        }
        let ghost before = self.view();
        assert(!has_col(before.cols, key@));
        self.col_names.push(key.clone());
        assert(self.view().cols =~= before.cols.push(key@));
        assert(self.view().entries == before.entries);
        n
    }

    /// Writes `value` in the row being made, in the column that `key`
    /// names.
    fn put_cell(&mut self, key: &String, value: &String, row_start: usize)
        requires
            model_wf(old(self).view(), row_start as int, true),
        ensures
            model_wf(final(self).view(), row_start as int, true),
            final(self).view() == put_cell(old(self).view(), key@, value@),
    {
        let ghost t0 = self.view();
        let c = self.column(key, row_start);
        let ghost t1 = self.view();
        let idx: (usize, usize) = (self.rows, c);
        let ghost gidx: (nat, nat) = (self.rows as nat, c as nat);
        let n = self.entries.len();
        let mut j: usize = row_start;
        while j < n
            invariant
                n == self.entries@.len(),
                row_start <= j <= n,
                self.view() == t1,
                t0 == old(self).view(),
                t1 == (TableModel { cols: with_col(t0.cols, key@), ..t0 }),
                c == col_of(t0.cols, key@),
                model_wf(t1, row_start as int, true),
                c < t1.cols.len(),
                idx == (self.rows, c),
                gidx == (self.rows as nat, c as nat),
                forall|k: int| row_start <= k < j ==> t1.entries[k].0 != gidx,
            decreases n - j,
        {
            if self.entries[j].0.1 == c {
                proof {
                    assert(t1.entries[j as int].0.0 == t1.rows);
                    assert(t1.entries[j as int].0 == gidx);
                    assert(has_cell(t1.entries, gidx));
                }
                self.entries.set(j, (idx, value.clone()));
                proof {
                    assert forall|k: int| 0 <= k < t1.entries.len() && k != j implies t1.entries[k].0
                        != gidx by {
                        if k < j {
                            assert(t1.entries[k].0 != t1.entries[j as int].0);
                        } else {
                            assert(t1.entries[j as int].0 != t1.entries[k].0);
                        }
                    }
                    assert(self.view().entries =~= put_entry(t1.entries, gidx, value@));
                    assert(self.view().cols == t1.cols);
                    assert(self.view().rows == t0.rows);
                    assert(self.view() == put_cell(t0, key@, value@));
                }
                return;
            }
            j = j + 1;
        }
        proof {
            assert forall|k: int| 0 <= k < t1.entries.len() implies t1.entries[k].0 != gidx by {
                if k < row_start {
                    assert(t1.entries[k].0.0 < t1.rows);
                }
            }
            assert(!has_cell(t1.entries, gidx));
        }
        self.entries.push((idx, value.clone()));
        assert(self.view().entries =~= t1.entries.push((gidx, value@)));
        assert(self.view().cols == t1.cols);
        assert(self.view() == put_cell(t0, key@, value@));
    }

    /// Adds a line with these keyword strings and these counts (key and
    /// text of the total): nothing changes where both are empty; else the
    /// strings and then the counts are written in a new row, each in the
    /// column that its key names (a new column where there is none), over
    /// what was written in that cell of the row before.
    pub fn add_row(&mut self, strings: &Vec<(String, String)>, counts: &Vec<(String, String)>)
        requires
            old(self).wf(),
            old(self).rows < usize::MAX,
        ensures
            final(self).wf(),
            final(self).view() == add_row(old(self).view(), pairs_view(strings@), pairs_view(counts@)),
    {
        let ghost t0 = self.view();
        let ghost sv = pairs_view(strings@);
        let ghost cv = pairs_view(counts@);
        if strings.len() == 0 && counts.len() == 0 {
            return;
        }
        let row_start = self.entries.len();
        let ns = strings.len();
        let mut i: usize = 0;
        assert(sv.take(0) =~= Seq::<(Seq<char>, Seq<char>)>::empty());
        while i < ns
            invariant
                ns == strings@.len(),
                sv == pairs_view(strings@),
                i <= ns,
                self.rows == t0.rows,
                model_wf(self.view(), row_start as int, true),
                self.view() == put_cells(t0, sv.take(i as int)),
            decreases ns - i,
        {
            self.put_cell(&strings[i].0, &strings[i].1, row_start);
            assert(sv.take(i + 1).drop_last() =~= sv.take(i as int));
            i = i + 1;
        }
        let nc = counts.len();
        let mut k: usize = 0;
        assert(sv + cv.take(0) =~= sv.take(ns as int));
        while k < nc
            invariant
                nc == counts@.len(),
                cv == pairs_view(counts@),
                sv.len() == ns,
                k <= nc,
                self.rows == t0.rows,
                model_wf(self.view(), row_start as int, true),
                self.view() == put_cells(t0, sv + cv.take(k as int)),
            decreases nc - k,
        {
            self.put_cell(&counts[k].0, &counts[k].1, row_start);
            assert((sv + cv.take(k + 1)).drop_last() =~= sv + cv.take(k as int));
            k = k + 1;
        }
        assert(sv + cv.take(nc as int) =~= sv + cv);
        let ghost t2 = self.view();
        self.rows = self.rows + 1;
        proof {
            let t3 = self.view();
            assert(t3.entries == t2.entries);
            assert forall|j: int| 0 <= j < t3.entries.len() implies #[trigger] t3.entries[j].0.0
                < t3.rows by {
                if j < row_start {
                    assert(t2.entries[j].0.0 < t2.rows);
                } else {
                    assert(t2.entries[j].0.0 == t2.rows);
                }
            }
            assert(t3.cols == t2.cols);
            assert(model_wf(t3, t3.entries.len() as int, false));
        }
    }

    /// The table's size (rows, columns), its cells and its column names.
    pub fn into_parts(self) -> (p: TableParts)
        ensures
            parts_hold(p, self.view()),
    {
        let cols = self.col_names.len();
        ((self.rows, cols), self.entries, self.col_names)
    }
}

/// Writing cells leaves the number of rows as it is.
pub proof fn lemma_put_cells_rows(t: TableModel, cells: Seq<(Seq<char>, Seq<char>)>)
    ensures
        put_cells(t, cells).rows == t.rows,
    decreases cells.len(),
{
    if cells.len() > 0 {
        lemma_put_cells_rows(t, cells.drop_last());
    }
}

/// Keys with the texts of their totals, by their views.
pub open spec fn totals_text(t: Seq<(Seq<char>, String)>) -> Seq<(Seq<char>, Seq<char>)> {
    t.map_values(|p: (Seq<char>, String)| (p.0, p.1@))
}

/// `row` holds the keyword strings of the frame on `line` and the totals
/// that `total` gave for its count groups.
pub open spec fn row_read<F: Fn(&Vec<String>) -> Option<String>>(
    total: F,
    line: Seq<char>,
    kw: Seq<(Seq<char>, Seq<char>)>,
    start: Seq<char>,
    row: (Seq<(Seq<char>, Seq<char>)>, Seq<(Seq<char>, Seq<char>)>),
) -> bool {
    &&& row.0 == frame_of(line, kw, start).0
    &&& exists|t: Seq<(Seq<char>, String)>|
        #[trigger] totals_of(total, frame_of(line, kw, start).1, t) && totals_text(t) == row.1
}

/// `rows` holds, line by line, what `row_read` says.
pub open spec fn rows_read<F: Fn(&Vec<String>) -> Option<String>>(
    total: F,
    lines: Seq<Seq<char>>,
    kw: Seq<(Seq<char>, Seq<char>)>,
    start: Seq<char>,
    rows: RowsView,
) -> bool {
    &&& rows.len() == lines.len()
    &&& forall|i: int| 0 <= i < lines.len() ==> row_read(total, lines[i], kw, start, #[trigger] rows[i])
}

/// Some pair has an empty key.
pub open spec fn has_empty_key(pairs: Seq<(Seq<char>, Seq<char>)>) -> bool {
    exists|j: int| 0 <= j < pairs.len() && #[trigger] pairs[j].0.len() == 0
}

/// Some line's keyword strings or counts have an empty key or name, which
/// would name a column with nothing.
pub open spec fn any_empty_key(rows: RowsView) -> bool {
    exists|i: int| 0 <= i < rows.len() && (has_empty_key(#[trigger] rows[i].0) || has_empty_key(rows[i].1))
}

/// `p` is the table made of the lines, read with the keyword patterns `kw`
/// and the start sequence `start`, with the totals that `total` gave: no
/// table where some line would name a column with nothing, else its parts.
pub open spec fn loads_as<F: Fn(&Vec<String>) -> Option<String>>(
    total: F,
    lines: Seq<Seq<char>>,
    kw: Seq<(Seq<char>, Seq<char>)>,
    start: Seq<char>,
    p: Option<TableParts>,
) -> bool {
    exists|rows: RowsView|
        #[trigger] rows_read(total, lines, kw, start, rows) && (p is None <==> any_empty_key(rows))
            && (p matches Some(q) ==> parts_hold(q, table_of(rows)) && model_wf(
            table_of(rows),
            table_of(rows).entries.len() as int,
            false,
        ))
}

/// Whether some pair has an empty key.
pub fn pairs_have_empty_key(v: &Vec<(String, String)>) -> (b: bool)
    ensures
        b == has_empty_key(pairs_view(v@)),
{
    let n = v.len();
    let mut i: usize = 0;
    while i < n
        invariant
            n == v@.len(),
            i <= n,
            forall|j: int| 0 <= j < i ==> #[trigger] pairs_view(v@)[j].0.len() != 0,
        decreases n - i,
    {
        if v[i].0.as_str().unicode_len() == 0 {
            assert(pairs_view(v@)[i as int].0.len() == 0);
            return true;
        }
        i = i + 1;
    }
    false
}

/// Makes a table of the lines: each line is read as `read_frame` does,
/// the totals of its count groups come from `total` (as `tally_counts`
/// says), and the line is added as `KvcTable::add_row` says. A table has
/// no column without a name: where some line's keyword strings or counts
/// have an empty key or name, there is no table (`None`); every column
/// name of a table is non-empty.
pub fn load_table_from_kvc_stream<F: Fn(&Vec<String>) -> Option<String>>(
    lines: &Vec<String>,
    keywords: &Vec<(String, String)>,
    start_sequence: &str,
    total: &F,
) -> (p: Option<TableParts>)
    requires
        forall|v: &Vec<String>| call_requires(*total, (v,)),
    ensures
        loads_as(*total, strings_view(lines@), pairs_view(keywords@), start_sequence@, p),
        p matches Some(q) ==> forall|c: int| 0 <= c < q.2@.len() ==> #[trigger] q.2@[c]@.len() > 0,
{
    let ghost lv = strings_view(lines@);
    let ghost kw = pairs_view(keywords@);
    let ghost mut rows: RowsView = seq![];
    let mut table = KvcTable::new();
    let mut empty_key = false;
    let n = lines.len();
    let mut i: usize = 0;
    while i < n
        invariant
            n == lines@.len(),
            lv == strings_view(lines@),
            kw == pairs_view(keywords@),
            i <= n,
            forall|v: &Vec<String>| call_requires(*total, (v,)),
            table.wf(),
            table.rows <= i,
            table.view() == table_of(rows),
            rows_read(*total, lv.take(i as int), kw, start_sequence@, rows),
            empty_key == any_empty_key(rows),
        decreases n - i,
    {
        let frame = read_frame(lines[i].as_str(), keywords, start_sequence);
        let counts = tally_counts(&frame.counts, total);
        let ghost row = (pairs_view(frame.strings@), pairs_view(counts@));
        if pairs_have_empty_key(&frame.strings) || pairs_have_empty_key(&counts) {
            empty_key = true;
        }
        proof {
            assert(lv[i as int] == lines@[i as int]@);
            assert(totals_text(totals_view(counts@)) =~= pairs_view(counts@));
            assert(totals_of(*total, frame_of(lv[i as int], kw, start_sequence@).1, totals_view(counts@)));
            assert(row_read(*total, lv[i as int], kw, start_sequence@, row));
            let rows2 = rows.push(row);
            assert(lv.take(i + 1).drop_last() =~= lv.take(i as int));
            assert forall|j: int| 0 <= j < i + 1 implies row_read(
                *total,
                lv.take(i + 1)[j],
                kw,
                start_sequence@,
                #[trigger] rows2[j],
            ) by {
                if j < i {
                    assert(lv.take(i + 1)[j] == lv.take(i as int)[j]);
                    assert(rows2[j] == rows[j]);
                }
            }
            assert(rows2.drop_last() =~= rows);
            if any_empty_key(rows) {
                let j = choose|j: int| 0 <= j < rows.len() && (has_empty_key(#[trigger] rows[j].0) || has_empty_key(rows[j].1));
                assert(rows2[j] == rows[j]);
            }
            if has_empty_key(row.0) || has_empty_key(row.1) {
                assert(rows2[i as int] == row);
            }
            if any_empty_key(rows2) {
                let j = choose|j: int| 0 <= j < rows2.len() && (has_empty_key(#[trigger] rows2[j].0) || has_empty_key(rows2[j].1));
                if j < i {
                    assert(rows2[j] == rows[j]);
                }
            }
            lemma_put_cells_rows(table.view(), row.0 + row.1);
        }
        table.add_row(&frame.strings, &counts);
        proof {
            rows = rows.push(row);
        }
        i = i + 1;
    }
    assert(lv.take(n as int) =~= lv);
    if empty_key {
        assert(rows_read(*total, lv, kw, start_sequence@, rows));
        return None;
    }
    let p = table.into_parts();
    proof {
        law_columns_named(rows);
        assert forall|c: int| 0 <= c < p.2@.len() implies #[trigger] p.2@[c]@.len() > 0 by {
            assert(p.2@[c]@ == table_of(rows).cols[c]);
        }
    }
    let res = Some(p);
    assert(rows_read(*total, lv, kw, start_sequence@, rows) && (res is None <==> any_empty_key(rows))
        && (res matches Some(q) ==> parts_hold(q, table_of(rows)) && model_wf(
        table_of(rows),
        table_of(rows).entries.len() as int,
        false,
    )));
    res
}

/// `load_table_from_kvc_stream` with the default keyword patterns and no
/// start sequence.
pub fn load_table_from_kvc_stream_default<F: Fn(&Vec<String>) -> Option<String>>(
    lines: &Vec<String>,
    total: &F,
) -> (p: Option<TableParts>)
    requires
        forall|v: &Vec<String>| call_requires(*total, (v,)),
    ensures
        loads_as(*total, strings_view(lines@), reserved_matchers(), ""@, p),
        p matches Some(q) ==> forall|c: int| 0 <= c < q.2@.len() ==> #[trigger] q.2@[c]@.len() > 0,
{
    let keywords = get_reserved_matchers();
    load_table_from_kvc_stream(lines, &keywords, "", total)
}

/// The text in the cell at (`r`, `c`): the one written last there, if any.
pub open spec fn cell_text(e: Seq<((nat, nat), Seq<char>)>, r: nat, c: nat) -> Option<Seq<char>>
    decreases e.len(),
{
    if e.len() == 0 {
        None
    } else if e.last().0 == (r, c) {
        Some(e.last().1)
    } else {
        cell_text(e.drop_last(), r, c)
    }
}

/// The text that a table shows for a cell: its own, or `N/A` where none
/// was written.
pub open spec fn shown_text(e: Seq<((nat, nat), Seq<char>)>, r: nat, c: nat) -> Seq<char> {
    match cell_text(e, r, c) {
        Some(t) => t,
        None => seq!['N', '/', 'A'],
    }
}

/// The grid of a table's cells, `rows` rows of `cols` texts: each cell's
/// text, or `N/A` where none was written. Cells outside the grid are left
/// out.
pub fn table_grid(rows: usize, cols: usize, entries: &Vec<((usize, usize), String)>) -> (g: Vec<
    Vec<String>,
>)
    ensures
        g@.len() == rows,
        forall|r: int| 0 <= r < rows ==> #[trigger] g@[r]@.len() == cols,
        forall|r: int, c: int|
            0 <= r < rows && 0 <= c < cols ==> #[trigger] g@[r]@[c]@ == shown_text(
                entries_view(entries@),
                r as nat,
                c as nat,
            ),
{
    let ghost ev = entries_view(entries@);
    let mut g: Vec<Vec<String>> = Vec::new();
    let mut i: usize = 0;
    while i < rows
        invariant
            i <= rows,
            g@.len() == i,
            forall|r: int| 0 <= r < i ==> #[trigger] g@[r]@.len() == cols,
            forall|r: int, c: int|
                0 <= r < i && 0 <= c < cols ==> #[trigger] g@[r]@[c]@ == seq!['N', '/', 'A'],
        decreases rows - i,
    {
        let mut row: Vec<String> = Vec::new();
        let mut j: usize = 0;
        while j < cols
            invariant
                j <= cols,
                row@.len() == j,
                forall|c: int| 0 <= c < j ==> #[trigger] row@[c]@ == seq!['N', '/', 'A'],
            decreases cols - j,
        {
            let na = String::from_str("N/A");
            proof {
                reveal_strlit("N/A");
            }
            assert(na@ =~= seq!['N', '/', 'A']);
            row.push(na);
            j = j + 1;
        }
        g.push(row);
        i = i + 1;
    }
    let n = entries.len();
    let mut k: usize = 0;
    assert(ev.take(0) =~= Seq::<((nat, nat), Seq<char>)>::empty());
    while k < n
        invariant
            n == entries@.len(),
            ev == entries_view(entries@),
            k <= n,
            g@.len() == rows,
            forall|r: int| 0 <= r < rows ==> #[trigger] g@[r]@.len() == cols,
            forall|r: int, c: int|
                0 <= r < rows && 0 <= c < cols ==> #[trigger] g@[r]@[c]@ == shown_text(
                    ev.take(k as int),
                    r as nat,
                    c as nat,
                ),
        decreases n - k,
    {
        let r = entries[k].0.0;
        let c = entries[k].0.1;
        let ghost before = g@;
        assert(ev.take(k + 1).drop_last() =~= ev.take(k as int));
        if r < rows && c < cols {
            let t = entries[k].1.clone();
            let mut row = g.remove(r);
            row.set(c, t);
            g.insert(r, row);
            assert forall|r2: int, c2: int|
                0 <= r2 < rows && 0 <= c2 < cols implies #[trigger] g@[r2]@[c2]@ == shown_text(
                ev.take(k + 1),
                r2 as nat,
                c2 as nat,
            ) by {
                if r2 == r as int && c2 == c as int {
                } else {
                    assert(g@[r2]@[c2] == before[r2]@[c2]);
                }
            }
        }
        k = k + 1;
    }
    assert(ev.take(n as int) =~= ev);
    g
}

/// The number of rows that hold something.
pub open spec fn nonempty_rows(rows: RowsView) -> nat
    decreases rows.len(),
{
    if rows.len() == 0 {
        0
    } else {
        nonempty_rows(rows.drop_last()) + if rows.last().0.len() + rows.last().1.len() == 0 {
            0nat
        } else {
            1nat
        }
    }
}

/// A table has one row for each line that holds something.
pub proof fn law_table_rows(rows: RowsView)
    ensures
        table_of(rows).rows == nonempty_rows(rows),
    decreases rows.len(),
{
    if rows.len() > 0 {
        law_table_rows(rows.drop_last());
        let t = table_of(rows.drop_last());
        lemma_put_cells_rows(t, rows.last().0 + rows.last().1);
    }
}

/// The value that the pairs give `k` last, if any.
pub open spec fn last_value(pairs: Seq<(Seq<char>, Seq<char>)>, k: Seq<char>) -> Option<Seq<char>>
    decreases pairs.len(),
{
    if pairs.len() == 0 {
        None
    } else if pairs.last().0 == k {
        Some(pairs.last().1)
    } else {
        last_value(pairs.drop_last(), k)
    }
}

/// The text in row `r` of the table, in the column named `k`, if any.
pub open spec fn table_value(t: TableModel, r: nat, k: Seq<char>) -> Option<Seq<char>> {
    if has_col(t.cols, k) {
        cell_text(t.entries, r, col_of(t.cols, k) as nat)
    } else {
        None
    }
}

proof fn lemma_cell_text_put_entry(e: Seq<((nat, nat), Seq<char>)>, idx: (nat, nat), v: Seq<char>, r: nat, c: nat)
    ensures
        cell_text(put_entry(e, idx, v), r, c) == if (r, c) == idx {
            Some(v)
        } else {
            cell_text(e, r, c)
        },
{
    if has_cell(e, idx) {
        lemma_cell_text_map(e, idx, v, r, c);
        assert(put_entry(e, idx, v) == e.map_values(
            |x: ((nat, nat), Seq<char>)|
                if x.0 == idx {
                    (idx, v)
                } else {
                    x
                },
        ));
    } else {
        let p = e.push((idx, v));
        assert(p.drop_last() =~= e);
        assert(p.last() == (idx, v));
        assert(put_entry(e, idx, v) == p);
    }
}

proof fn lemma_cell_text_map(e: Seq<((nat, nat), Seq<char>)>, idx: (nat, nat), v: Seq<char>, r: nat, c: nat)
    requires
        has_cell(e, idx),
    ensures
        cell_text(
            e.map_values(
                |x: ((nat, nat), Seq<char>)|
                    if x.0 == idx {
                        (idx, v)
                    } else {
                        x
                    },
            ),
            r,
            c,
        ) == if (r, c) == idx {
            Some(v)
        } else {
            cell_text(e, r, c)
        },
    decreases e.len(),
{
    let f = |x: ((nat, nat), Seq<char>)|
        if x.0 == idx {
            (idx, v)
        } else {
            x
        };
    let m = e.map_values(f);
    assert(m.drop_last() =~= e.drop_last().map_values(f));
    if e.last().0 != idx {
        let i = choose|i: int| 0 <= i < e.len() && e[i].0 == idx;
        assert(e.drop_last()[i] == e[i]);
        lemma_cell_text_map(e.drop_last(), idx, v, r, c);
    } else if (r, c) != idx {
        if e.len() > 1 && has_cell(e.drop_last(), idx) {
            lemma_cell_text_map(e.drop_last(), idx, v, r, c);
        } else {
            lemma_cell_text_map_absent(e.drop_last(), idx, v, r, c);
        }
    }
}

proof fn lemma_cell_text_map_absent(e: Seq<((nat, nat), Seq<char>)>, idx: (nat, nat), v: Seq<char>, r: nat, c: nat)
    requires
        (r, c) != idx,
    ensures
        cell_text(
            e.map_values(
                |x: ((nat, nat), Seq<char>)|
                    if x.0 == idx {
                        (idx, v)
                    } else {
                        x
                    },
            ),
            r,
            c,
        ) == cell_text(e, r, c),
    decreases e.len(),
{
    if e.len() > 0 {
        let f = |x: ((nat, nat), Seq<char>)|
            if x.0 == idx {
                (idx, v)
            } else {
                x
            };
        assert(e.map_values(f).drop_last() =~= e.drop_last().map_values(f));
        lemma_cell_text_map_absent(e.drop_last(), idx, v, r, c);
    }
}

/// A column name keeps its column once more columns are named.
proof fn lemma_col_of_with_col(cols: Seq<Seq<char>>, k: Seq<char>, k2: Seq<char>)
    requires
        forall|i: int, j: int| 0 <= i < j < cols.len() ==> cols[i] != cols[j],
    ensures
        has_col(with_col(cols, k), k2) == (has_col(cols, k2) || k2 == k),
        has_col(with_col(cols, k), k2) ==> col_of(with_col(cols, k), k2) == col_of(cols, k2),
        forall|i: int, j: int|
            0 <= i < j < with_col(cols, k).len() ==> with_col(cols, k)[i] != with_col(cols, k)[j],
        has_col(cols, k2) ==> 0 <= col_of(cols, k2) < cols.len() && cols[col_of(cols, k2)] == k2,
{
    let w = with_col(cols, k);
    if has_col(cols, k2) {
        let i = col_of(cols, k2);
        assert(w[i] == k2);
        let j = col_of(w, k2);
        if j != i {
            if j < i {
                assert(w[j] != w[i]);
            } else {
                assert(w[i] != w[j]);
            }
        }
    } else if k2 == k {
        assert(w[cols.len() as int] == k);
        let j = col_of(w, k2);
        if j < cols.len() {
            assert(cols[j] == k2);
        }
    } else if has_col(w, k2) {
        let j = choose|j: int| 0 <= j < w.len() && w[j] == k2;
        if j < cols.len() {
            assert(cols[j] == k2);
        }
    }
    if !has_col(cols, k) {
        assert forall|i: int, j: int| 0 <= i < j < w.len() implies w[i] != w[j] by {
            if j == cols.len() {
                assert(w[i] == cols[i]);
            }
        }
    }
}

/// Writing a cell keeps the table well formed.
proof fn lemma_put_cell_wf(t: TableModel, k: Seq<char>, v: Seq<char>, rs: int)
    requires
        model_wf(t, rs, true),
    ensures
        model_wf(put_cell(t, k, v), rs, true),
{
    let t2 = put_cell(t, k, v);
    let idx = (t.rows, col_of(t.cols, k) as nat);
    lemma_col_of_with_col(t.cols, k, k);
    assert(col_of(t.cols, k) < with_col(t.cols, k).len());
    if has_cell(t.entries, idx) {
        assert(t2.entries.len() == t.entries.len());
        assert forall|i: int| 0 <= i < t2.entries.len() implies #[trigger] t2.entries[i].0 == t.entries[i].0 by {}
        assert forall|i: int| 0 <= i < t2.entries.len() implies #[trigger] t2.entries[i].0.1
            < t2.cols.len() by {
            assert(t.entries[i].0.1 < t.cols.len());
        }
        assert forall|i: int| 0 <= i < rs implies #[trigger] t2.entries[i].0.0 < t2.rows by {
            assert(t.entries[i].0.0 < t.rows);
        }
        assert forall|i: int| rs <= i < t2.entries.len() implies #[trigger] t2.entries[i].0.0
            == t2.rows by {
            assert(t.entries[i].0.0 == t.rows);
        }
    } else {
        assert forall|i: int| 0 <= i < t2.entries.len() implies #[trigger] t2.entries[i].0.1
            < t2.cols.len() by {
            if i < t.entries.len() {
                assert(t.entries[i].0.1 < t.cols.len());
            }
        }
        assert forall|i: int| 0 <= i < rs implies #[trigger] t2.entries[i].0.0 < t2.rows by {
            assert(t.entries[i].0.0 < t.rows);
        }
        assert forall|i: int| rs <= i < t2.entries.len() implies #[trigger] t2.entries[i].0.0
            == t2.rows by {
            if i < t.entries.len() {
                assert(t.entries[i].0.0 == t.rows);
            }
        }
        assert forall|i: int, j: int| 0 <= i < j < t2.entries.len() implies t2.entries[i].0
            != t2.entries[j].0 by {
            if j == t.entries.len() {
                assert(t2.entries[i] == t.entries[i]);
            }
        }
    }
}

/// Writing `v` under `k` in the row being made changes that cell alone.
proof fn lemma_put_cell_value(t: TableModel, k: Seq<char>, v: Seq<char>, rs: int, r: nat, k2: Seq<char>)
    requires
        model_wf(t, rs, true),
    ensures
        table_value(put_cell(t, k, v), r, k2) == if r == t.rows && k2 == k {
            Some(v)
        } else {
            table_value(t, r, k2)
        },
{
    let t2 = put_cell(t, k, v);
    let idx = (t.rows, col_of(t.cols, k) as nat);
    lemma_col_of_with_col(t.cols, k, k2);
    lemma_col_of_with_col(t.cols, k, k);
    if has_col(t2.cols, k2) {
        let c2 = col_of(t.cols, k2) as nat;
        assert(col_of(t2.cols, k2) == c2);
        lemma_cell_text_put_entry(t.entries, idx, v, r, c2);
        if k2 == k {
            assert((r, c2) == idx <==> r == t.rows);
            if !has_col(t.cols, k) && r != t.rows {
                assert forall|i: int| 0 <= i < t.entries.len() implies t.entries[i].0 != (r, c2) by {
                    assert(t.entries[i].0.1 < t.cols.len());
                }
                lemma_cell_text_absent(t.entries, r, c2);
            }
        } else {
            assert(has_col(t.cols, k2));
            if has_col(t.cols, k) {
                assert(t.cols[col_of(t.cols, k)] == k);
                assert(col_of(t.cols, k) != col_of(t.cols, k2));
            } else {
                assert(col_of(t.cols, k2) < t.cols.len());
            }
            assert((r, c2) != idx);
        }
    }
}

proof fn lemma_cell_text_absent(e: Seq<((nat, nat), Seq<char>)>, r: nat, c: nat)
    requires
        forall|i: int| 0 <= i < e.len() ==> e[i].0 != (r, c),
    ensures
        cell_text(e, r, c) is None,
    decreases e.len(),
{
    if e.len() > 0 {
        assert(e.last().0 != (r, c));
        assert forall|i: int| 0 <= i < e.drop_last().len() implies e.drop_last()[i].0 != (r, c) by {
            assert(e.drop_last()[i] == e[i]);
        }
        lemma_cell_text_absent(e.drop_last(), r, c);
    }
}

/// Writing the pairs of a row: each key's cell in that row holds the
/// value that the pairs give it last; the other cells keep their text.
proof fn lemma_put_cells_value(t: TableModel, cells: Seq<(Seq<char>, Seq<char>)>, rs: int, r: nat, k: Seq<char>)
    requires
        model_wf(t, rs, true),
    ensures
        model_wf(put_cells(t, cells), rs, true),
        put_cells(t, cells).rows == t.rows,
        table_value(put_cells(t, cells), r, k) == if r == t.rows && last_value(cells, k) is Some {
            last_value(cells, k)
        } else {
            table_value(t, r, k)
        },
    decreases cells.len(),
{
    if cells.len() > 0 {
        lemma_put_cells_value(t, cells.drop_last(), rs, r, k);
        let t1 = put_cells(t, cells.drop_last());
        lemma_put_cell_wf(t1, cells.last().0, cells.last().1, rs);
        lemma_put_cell_value(t1, cells.last().0, cells.last().1, rs, r, k);
    }
}

/// A well-formed table holds nothing in rows it does not have yet.
proof fn lemma_no_value_past_rows(t: TableModel, r: nat, k: Seq<char>)
    requires
        model_wf(t, t.entries.len() as int, false),
        r >= t.rows,
    ensures
        table_value(t, r, k) is None,
{
    lemma_cell_text_none(t.entries, r, col_of(t.cols, k) as nat, t.rows);
}

proof fn lemma_cell_text_none(e: Seq<((nat, nat), Seq<char>)>, r: nat, c: nat, rows: nat)
    requires
        forall|i: int| 0 <= i < e.len() ==> #[trigger] e[i].0.0 < rows,
        r >= rows,
    ensures
        cell_text(e, r, c) is None,
    decreases e.len(),
{
    if e.len() > 0 {
        assert(e.last().0.0 < rows);
        assert forall|i: int| 0 <= i < e.drop_last().len() implies #[trigger] e.drop_last()[i].0.0
            < rows by {
            assert(e.drop_last()[i] == e[i]);
        }
        lemma_cell_text_none(e.drop_last(), r, c, rows);
    }
}

/// Adding a line keeps the table well formed.
proof fn lemma_add_row_wf(t: TableModel, s: Seq<(Seq<char>, Seq<char>)>, c: Seq<(Seq<char>, Seq<char>)>)
    requires
        model_wf(t, t.entries.len() as int, false),
    ensures
        model_wf(add_row(t, s, c), add_row(t, s, c).entries.len() as int, false),
{
    if s.len() + c.len() > 0 {
        let rs = t.entries.len() as int;
        lemma_put_cells_value(t, s + c, rs, 0, seq![]);
        let t2 = put_cells(t, s + c);
        let t3 = add_row(t, s, c);
        assert forall|i: int| 0 <= i < t3.entries.len() implies #[trigger] t3.entries[i].0.0
            < t3.rows by {
            if i < rs {
                assert(t2.entries[i].0.0 < t2.rows);
            } else {
                assert(t2.entries[i].0.0 == t2.rows);
            }
        }
        assert forall|i: int| 0 <= i < t3.entries.len() implies #[trigger] t3.entries[i].0.1
            < t3.cols.len() by {
            assert(t2.entries[i].0.1 < t2.cols.len());
        }
    }
}

/// A table made of lines is well formed: column names differ, no cell is
/// written twice, and each cell lies in one of its rows and columns.
pub proof fn law_table_wf(rows: RowsView)
    ensures
        model_wf(table_of(rows), table_of(rows).entries.len() as int, false),
    decreases rows.len(),
{
    if rows.len() > 0 {
        law_table_wf(rows.drop_last());
        lemma_add_row_wf(table_of(rows.drop_last()), rows.last().0, rows.last().1);
    }
}

/// Each line that holds something has a row of its own: the lines before
/// it that hold something number it. In that row, the column named `k`
/// holds the value that the line gave `k` last (its keyword strings come
/// before its counts), and nothing where the line gave `k` none.
pub proof fn law_table_values(rows: RowsView, i: int, k: Seq<char>)
    requires
        0 <= i < rows.len(),
        rows[i].0.len() + rows[i].1.len() > 0,
    ensures
        nonempty_rows(rows.take(i)) < table_of(rows).rows,
        table_value(table_of(rows), nonempty_rows(rows.take(i)), k) == last_value(
            rows[i].0 + rows[i].1,
            k,
        ),
    decreases rows.len(),
{
    let prefix = rows.drop_last();
    let t1 = table_of(prefix);
    law_table_wf(prefix);
    law_table_rows(prefix);
    law_table_rows(rows);
    let r = nonempty_rows(rows.take(i));
    let last = rows.last();
    let rs = t1.entries.len() as int;
    if i == rows.len() - 1 {
        assert(rows.take(i) =~= prefix);
        lemma_put_cells_value(t1, last.0 + last.1, rs, r, k);
        lemma_no_value_past_rows(t1, r, k);
    } else {
        assert(rows.take(i) =~= prefix.take(i));
        assert(prefix[i] == rows[i]);
        law_table_values(prefix, i, k);
        if last.0.len() + last.1.len() > 0 {
            lemma_put_cells_value(t1, last.0 + last.1, rs, r, k);
        }
    }
}

/// Every column of a table made of lines whose keys and names are all
/// non-empty has a non-empty name.
pub proof fn law_columns_named(rows: RowsView)
    requires
        !any_empty_key(rows),
    ensures
        forall|c: int| 0 <= c < table_of(rows).cols.len() ==> #[trigger] table_of(rows).cols[c].len() > 0,
    decreases rows.len(),
{
    if rows.len() > 0 {
        let prefix = rows.drop_last();
        if any_empty_key(prefix) {
            let j = choose|j: int| 0 <= j < prefix.len() && (has_empty_key(#[trigger] prefix[j].0) || has_empty_key(prefix[j].1));
            assert(prefix[j] == rows[j]);
        }
        law_columns_named(prefix);
        let last = rows[rows.len() - 1];
        assert(!has_empty_key(last.0) && !has_empty_key(last.1));
        let cells = last.0 + last.1;
        assert forall|j: int| 0 <= j < cells.len() implies #[trigger] cells[j].0.len() > 0 by {
            if j < last.0.len() {
                assert(cells[j] == last.0[j]);
                assert(!(#[trigger] last.0[j].0.len() == 0));
            } else {
                assert(cells[j] == last.1[j - last.0.len()]);
                assert(!(#[trigger] last.1[j - last.0.len()].0.len() == 0));
            }
        }
        lemma_put_cells_named(table_of(prefix), cells);
    }
}

proof fn lemma_put_cells_named(t: TableModel, cells: Seq<(Seq<char>, Seq<char>)>)
    requires
        forall|c: int| 0 <= c < t.cols.len() ==> #[trigger] t.cols[c].len() > 0,
        forall|j: int| 0 <= j < cells.len() ==> #[trigger] cells[j].0.len() > 0,
    ensures
        forall|c: int| 0 <= c < put_cells(t, cells).cols.len() ==> #[trigger] put_cells(t, cells).cols[c].len() > 0,
    decreases cells.len(),
{
    if cells.len() > 0 {
        let prev = cells.drop_last();
        assert forall|j: int| 0 <= j < prev.len() implies #[trigger] prev[j].0.len() > 0 by {
            assert(prev[j] == cells[j]);
        }
        lemma_put_cells_named(t, prev);
        assert(cells[cells.len() - 1].0.len() > 0);
        let t1 = put_cells(t, prev);
        let k = cells.last().0;
        let w = with_col(t1.cols, k);
        assert forall|c: int| 0 <= c < w.len() implies #[trigger] w[c].len() > 0 by {
            if c < t1.cols.len() {
                assert(w[c] == t1.cols[c]);
            }
        }
    }
}

/// The column names once the keys of the pairs are seen, left to right:
/// a key not seen before names the next column.
pub open spec fn add_keys(cols: Seq<Seq<char>>, pairs: Seq<(Seq<char>, Seq<char>)>) -> Seq<Seq<char>>
    decreases pairs.len(),
{
    if pairs.len() == 0 {
        cols
    } else {
        with_col(add_keys(cols, pairs.drop_last()), pairs.last().0)
    }
}

/// The column names of lines: their keys in order of first appearance,
/// line by line, a line's keyword strings before its counts.
pub open spec fn column_order(rows: RowsView) -> Seq<Seq<char>>
    decreases rows.len(),
{
    if rows.len() == 0 {
        seq![]
    } else {
        add_keys(column_order(rows.drop_last()), rows.last().0 + rows.last().1)
    }
}

proof fn lemma_put_cells_cols(t: TableModel, cells: Seq<(Seq<char>, Seq<char>)>)
    ensures
        put_cells(t, cells).cols == add_keys(t.cols, cells),
    decreases cells.len(),
{
    if cells.len() > 0 {
        lemma_put_cells_cols(t, cells.drop_last());
    }
}

/// The columns of a table are named by the lines' keys and keyword names
/// in order of first appearance, a line's keyword strings before its
/// counts.
pub proof fn law_column_order(rows: RowsView)
    ensures
        table_of(rows).cols == column_order(rows),
    decreases rows.len(),
{
    if rows.len() > 0 {
        law_column_order(rows.drop_last());
        let last = rows.last();
        lemma_put_cells_cols(table_of(rows.drop_last()), last.0 + last.1);
        if last.0.len() + last.1.len() == 0 {
            assert(last.0 + last.1 =~= Seq::<(Seq<char>, Seq<char>)>::empty());
        }
    }
}

/// `k` is a key of one of the pairs.
pub open spec fn pairs_have_key(pairs: Seq<(Seq<char>, Seq<char>)>, k: Seq<char>) -> bool {
    exists|j: int| 0 <= j < pairs.len() && #[trigger] pairs[j].0 == k
}

proof fn lemma_add_keys_has(cols: Seq<Seq<char>>, pairs: Seq<(Seq<char>, Seq<char>)>, k: Seq<char>)
    requires
        forall|i: int, j: int| 0 <= i < j < cols.len() ==> cols[i] != cols[j],
    ensures
        forall|i: int, j: int|
            0 <= i < j < add_keys(cols, pairs).len() ==> add_keys(cols, pairs)[i] != add_keys(cols, pairs)[j],
        has_col(add_keys(cols, pairs), k) == (has_col(cols, k) || pairs_have_key(pairs, k)),
    decreases pairs.len(),
{
    if pairs.len() > 0 {
        let prev = pairs.drop_last();
        lemma_add_keys_has(cols, prev, k);
        let a = add_keys(cols, prev);
        lemma_col_of_with_col(a, pairs.last().0, k);
        if pairs_have_key(prev, k) {
            let j = choose|j: int| 0 <= j < prev.len() && #[trigger] prev[j].0 == k;
            assert(pairs[j] == prev[j]);
        }
        if pairs_have_key(pairs, k) && pairs.last().0 != k {
            let j = choose|j: int| 0 <= j < pairs.len() && #[trigger] pairs[j].0 == k;
            assert(prev[j] == pairs[j]);
        }
        if pairs.last().0 == k {
            assert(pairs[pairs.len() - 1].0 == k);
        }
    }
}

/// A name is a column of the table exactly where some line has it as a
/// key or a keyword name.
pub proof fn law_columns_are_keys(rows: RowsView, k: Seq<char>)
    ensures
        has_col(table_of(rows).cols, k) <==> exists|i: int|
            0 <= i < rows.len() && #[trigger] pairs_have_key(rows[i].0 + rows[i].1, k),
    decreases rows.len(),
{
    law_column_order(rows);
    law_table_wf(rows);
    if rows.len() > 0 {
        let prefix = rows.drop_last();
        law_columns_are_keys(prefix, k);
        law_column_order(prefix);
        law_table_wf(prefix);
        let last = rows.last();
        lemma_add_keys_has(column_order(prefix), last.0 + last.1, k);
        if exists|i: int| 0 <= i < prefix.len() && #[trigger] pairs_have_key(prefix[i].0 + prefix[i].1, k) {
            let i = choose|i: int| 0 <= i < prefix.len() && #[trigger] pairs_have_key(prefix[i].0 + prefix[i].1, k);
            assert(rows[i] == prefix[i]);
        }
        if exists|i: int| 0 <= i < rows.len() && #[trigger] pairs_have_key(rows[i].0 + rows[i].1, k) {
            let i = choose|i: int| 0 <= i < rows.len() && #[trigger] pairs_have_key(rows[i].0 + rows[i].1, k);
            if i < prefix.len() {
                assert(rows[i] == prefix[i]);
            }
        }
        assert(rows[rows.len() - 1] == last);
    } else {
        assert(table_of(rows).cols =~= Seq::<Seq<char>>::empty());
    }
}

/// A line that holds nothing takes no row: putting it anywhere among the
/// lines leaves the table as it is.
pub proof fn law_empty_line_takes_no_row(
    rows: RowsView,
    i: int,
    e: (Seq<(Seq<char>, Seq<char>)>, Seq<(Seq<char>, Seq<char>)>),
)
    requires
        0 <= i <= rows.len(),
        e.0.len() + e.1.len() == 0,
    ensures
        table_of(rows.insert(i, e)) == table_of(rows),
    decreases rows.len(),
{
    let ins = rows.insert(i, e);
    if i == rows.len() {
        assert(ins.drop_last() =~= rows);
    } else {
        assert(ins.drop_last() =~= rows.drop_last().insert(i, e));
        assert(ins.last() == rows.last());
        law_empty_line_takes_no_row(rows.drop_last(), i, e);
    }
}

} // verus!
