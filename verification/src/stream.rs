//! A journal as a stream of records: each frame that holds something gets
//! the next frame number, and yields one record (number, key, text) for
//! each of its keyword strings and then for each of its counts.

use vstd::prelude::*;
use crate::frame::{frame_of, pairs_view, read_frame};
use crate::table::{row_read, rows_read, totals_text, RowsView, table_of, nonempty_rows, law_table_rows};
use crate::tally::{tally_counts, totals_of, totals_view};
use crate::text::strings_view;

verus! {

/// A record by its view: frame number, key or keyword name, text.
pub type RecordView = (int, Seq<char>, Seq<char>);

/// The records of one frame, numbered `n`: its keyword strings, then its
/// counts.
pub open spec fn row_records(
    n: int,
    row: (Seq<(Seq<char>, Seq<char>)>, Seq<(Seq<char>, Seq<char>)>),
) -> Seq<RecordView> {
    (row.0 + row.1).map_values(|p: (Seq<char>, Seq<char>)| (n, p.0, p.1))
}

/// The number of frames that hold something, and the records of the
/// rows, the frames numbered from `line_start + 1` on.
pub open spec fn stream_of(rows: RowsView, line_start: int) -> (int, Seq<RecordView>)
    decreases rows.len(),
{
    if rows.len() == 0 {
        (0, seq![])
    } else {
        let prev = stream_of(rows.drop_last(), line_start);
        let row = rows.last();
        if row.0.len() + row.1.len() == 0 {
            prev
        } else {
            (prev.0 + 1, prev.1 + row_records(line_start + prev.0 + 1, row))
        }
    }
}

/// Records by their views.
pub open spec fn records_view(v: Seq<(i32, String, String)>) -> Seq<RecordView> {
    v.map_values(|x: (i32, String, String)| (x.0 as int, x.1@, x.2@))
}

/// The frame numbers from `line_start + 1` up to `line_start + n` are
/// `i32` values, and so is `n`.
pub open spec fn numbers_fit(line_start: int, n: int) -> bool {
    n <= i32::MAX && line_start + n <= i32::MAX
}

/// `res` is what the lines give, read with the keyword patterns `kw` and
/// the start sequence `start`, with the totals that `total` gave: nothing
/// where the frame numbers would not fit in an `i32`, else the number of
/// frames that hold something and their records.
pub open spec fn streams_as<F: Fn(&Vec<String>) -> Option<String>>(
    total: F,
    lines: Seq<Seq<char>>,
    kw: Seq<(Seq<char>, Seq<char>)>,
    start: Seq<char>,
    line_start: int,
    res: Option<(i32, Seq<(i32, String, String)>)>,
) -> bool {
    exists|rows: RowsView|
        #[trigger] rows_read(total, lines, kw, start, rows) && (res is None <==> !numbers_fit(
            line_start,
            stream_of(rows, line_start).0,
        )) && (res matches Some(q) ==> q.0 == stream_of(rows, line_start).0 && records_view(q.1)
            == stream_of(rows, line_start).1)
}

/// The records of the lines, as the stream tool writes them: the frames
/// that hold something are numbered from `line_start + 1` on; the records
/// of a frame are its keyword strings, then its counts (the texts of the
/// totals that `total` gives), each with the frame's number. Also the
/// number of such frames. Nothing where a frame number, or the number of
/// frames, would not fit in an `i32`.
pub fn stream_records<F: Fn(&Vec<String>) -> Option<String>>(
    lines: &Vec<String>,
    line_start: i32,
    keywords: &Vec<(String, String)>,
    start_sequence: &str,
    total: &F,
) -> (res: Option<(i32, Vec<(i32, String, String)>)>)
    requires
        forall|v: &Vec<String>| call_requires(*total, (v,)),
    ensures
        streams_as(
            *total,
            strings_view(lines@),
            pairs_view(keywords@),
            start_sequence@,
            line_start as int,
            match res {
                Some(q) => Some((q.0, q.1@)),
                None => None,
            },
        ),
{
    let ghost lv = strings_view(lines@);
    let ghost kw = pairs_view(keywords@);
    let ghost mut rows: RowsView = seq![];
    let mut records: Vec<(i32, String, String)> = Vec::new();
    let mut count: usize = 0;
    let mut overflow = false;
    let n = lines.len();
    let mut i: usize = 0;
    assert(records_view(records@) =~= Seq::<RecordView>::empty());
    while i < n
        invariant
            n == lines@.len(),
            lv == strings_view(lines@),
            kw == pairs_view(keywords@),
            i <= n,
            rows.len() == i,
            count <= i,
            forall|v: &Vec<String>| call_requires(*total, (v,)),
            rows_read(*total, lv.take(i as int), kw, start_sequence@, rows),
            count == stream_of(rows, line_start as int).0,
            overflow == !numbers_fit(line_start as int, count as int),
            !overflow ==> records_view(records@) == stream_of(rows, line_start as int).1,
        decreases n - i,
    {
        let frame = read_frame(lines[i].as_str(), keywords, start_sequence);
        let counts = tally_counts(&frame.counts, total);
        let ghost row = (pairs_view(frame.strings@), pairs_view(counts@));
        proof {
            assert(lv[i as int] == lines@[i as int]@);
            assert(totals_text(totals_view(counts@)) =~= pairs_view(counts@));
            assert(totals_of(*total, frame_of(lv[i as int], kw, start_sequence@).1, totals_view(counts@)));
            assert(row_read(*total, lv[i as int], kw, start_sequence@, row));
            let rows2 = rows.push(row);
            assert(lv.take(i + 1).drop_last() =~= lv.take(i as int));
            assert forall|j: int| 0 <= j < i + 1 implies row_read(
                *total,
                lv.take(i + 1)[j],
                kw,
                start_sequence@,
                #[trigger] rows2[j],
            ) by {
                if j < i {
                    assert(lv.take(i + 1)[j] == lv.take(i as int)[j]);
                    assert(rows2[j] == rows[j]);
                }
            }
            assert(rows2.drop_last() =~= rows);
        }
        if frame.strings.len() > 0 || counts.len() > 0 {
            count = count + 1;
            let mut number: i32 = 0;
            if !overflow && count <= 2147483647usize {
                match line_start.checked_add(count as i32) {
                    Some(k) => {
                        number = k;
                    },
                    None => {
                        overflow = true;
                    },
                }
            } else {
                overflow = true;
            }
            if !overflow {
                let ghost before = records_view(records@);
                let ns = frame.strings.len();
                let mut j: usize = 0;
                while j < ns
                    invariant
                        ns == frame.strings@.len(),
                        j <= ns,
                        records_view(records@) == before + row_records(number as int, row).take(
                            j as int,
                        ),
                        row.0 == pairs_view(frame.strings@),
                    decreases ns - j,
                {
                    let ghost prev = records@;
                    records.push((number, frame.strings[j].0.clone(), frame.strings[j].1.clone()));
                    proof {
                        let rr = row_records(number as int, row);
                        assert((row.0 + row.1)[j as int] == row.0[j as int]);
                        assert(rr[j as int] == (
                            number as int,
                            frame.strings@[j as int].0@,
                            frame.strings@[j as int].1@,
                        ));
                        assert(records_view(records@) =~= records_view(prev).push(rr[j as int]));
                        assert(rr.take(j + 1) =~= rr.take(j as int).push(rr[j as int]));
                    }
                    j = j + 1;
                }
                let nc = counts.len();
                let mut k: usize = 0;
                while k < nc
                    invariant
                        nc == counts@.len(),
                        ns == row.0.len(),
                        k <= nc,
                        records_view(records@) == before + row_records(number as int, row).take(
                            ns + k,
                        ),
                        row.1 == pairs_view(counts@),
                    decreases nc - k,
                {
                    let ghost prev = records@;
                    records.push((number, counts[k].0.clone(), counts[k].1.clone()));
                    proof {
                        let rr = row_records(number as int, row);
                        assert((row.0 + row.1)[ns + k] == row.1[k as int]);
                        assert(rr[ns + k] == (number as int, counts@[k as int].0@, counts@[k as int].1@));
                        assert(records_view(records@) =~= records_view(prev).push(rr[ns + k]));
                        assert(rr.take(ns + k + 1) =~= rr.take(ns + k).push(rr[ns + k]));
                    }
                    k = k + 1;
                }
                assert(row_records(number as int, row).take(ns + nc) =~= row_records(
                    number as int,
                    row,
                ));
            }
        }
        proof {
            rows = rows.push(row);
        }
        i = i + 1;
    }
    assert(lv.take(n as int) =~= lv);
    if overflow {
        return None;
    }
    Some((count as i32, records))
}

/// The stream numbers as many frames as the table made of the same lines
/// has rows.
pub proof fn law_stream_counts_table_rows(rows: RowsView, line_start: int)
    ensures
        stream_of(rows, line_start).0 == table_of(rows).rows,
    decreases rows.len(),
{
    law_table_rows(rows);
    lemma_stream_nonempty(rows, line_start);
}

proof fn lemma_stream_nonempty(rows: RowsView, line_start: int)
    ensures
        stream_of(rows, line_start).0 == nonempty_rows(rows),
    decreases rows.len(),
{
    if rows.len() > 0 {
        lemma_stream_nonempty(rows.drop_last(), line_start);
    }
}

/// A line that holds nothing yields no record and takes no number:
/// putting it anywhere among the lines leaves the stream as it is.
pub proof fn law_empty_line_no_record(
    rows: RowsView,
    line_start: int,
    i: int,
    e: (Seq<(Seq<char>, Seq<char>)>, Seq<(Seq<char>, Seq<char>)>),
)
    requires
        0 <= i <= rows.len(),
        e.0.len() + e.1.len() == 0,
    ensures
        stream_of(rows.insert(i, e), line_start) == stream_of(rows, line_start),
    decreases rows.len(),
{
    let ins = rows.insert(i, e);
    if i == rows.len() {
        assert(ins.drop_last() =~= rows);
    } else {
        assert(ins.drop_last() =~= rows.drop_last().insert(i, e));
        assert(ins.last() == rows.last());
        law_empty_line_no_record(rows.drop_last(), line_start, i, e);
    }
}

/// The number of keyword strings and counts that the lines hold.
pub open spec fn pair_count(rows: RowsView) -> nat
    decreases rows.len(),
{
    if rows.len() == 0 {
        0
    } else {
        pair_count(rows.drop_last()) + rows.last().0.len() + rows.last().1.len()
    }
}

proof fn lemma_pair_count_take(rows: RowsView, i: int)
    requires
        0 <= i < rows.len(),
    ensures
        pair_count(rows.take(i)) + rows[i].0.len() + rows[i].1.len() <= pair_count(rows),
    decreases rows.len(),
{
    if i < rows.len() - 1 {
        assert(rows.take(i) =~= rows.drop_last().take(i));
        assert(rows.drop_last()[i] == rows[i]);
        lemma_pair_count_take(rows.drop_last(), i);
    } else {
        assert(rows.take(i) =~= rows.drop_last());
    }
}

/// The stream has one record for each keyword string and each count of
/// the lines, in order: line by line, a line's keyword strings and then
/// its counts. Every record of line `i` carries the same frame number,
/// `line_start` plus the number of lines before it that hold something,
/// plus one; and the number of frames is the number of lines that hold
/// something.
pub proof fn law_stream_records(rows: RowsView, line_start: int, i: int, p: int)
    requires
        0 <= i < rows.len(),
        0 <= p < rows[i].0.len() + rows[i].1.len(),
    ensures
        stream_of(rows, line_start).0 == nonempty_rows(rows),
        stream_of(rows, line_start).1.len() == pair_count(rows),
        pair_count(rows.take(i)) + p < pair_count(rows),
        stream_of(rows, line_start).1[pair_count(rows.take(i)) + p] == (
            line_start + nonempty_rows(rows.take(i)) + 1,
            (rows[i].0 + rows[i].1)[p].0,
            (rows[i].0 + rows[i].1)[p].1,
        ),
    decreases rows.len(),
{
    lemma_stream_nonempty(rows, line_start);
    lemma_stream_len(rows, line_start);
    lemma_pair_count_take(rows, i);
    let prefix = rows.drop_last();
    let last = rows.last();
    lemma_stream_nonempty(prefix, line_start);
    lemma_stream_len(prefix, line_start);
    if i == rows.len() - 1 {
        assert(rows.take(i) =~= prefix);
    } else {
        assert(rows.take(i) =~= prefix.take(i));
        assert(prefix[i] == rows[i]);
        law_stream_records(prefix, line_start, i, p);
    }
}

proof fn lemma_stream_len(rows: RowsView, line_start: int)
    ensures
        stream_of(rows, line_start).1.len() == pair_count(rows),
    decreases rows.len(),
{
    if rows.len() > 0 {
        lemma_stream_len(rows.drop_last(), line_start);
    }
}

} // verus!
