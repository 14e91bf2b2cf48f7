//! Turns the sparse intervals of several columns into dense rows, one for
//! each position that some non-zero interval holds.

use crate::codec::Interval;
use vstd::prelude::*;

verus! {

/// One dense row: a position and one value for each column.
#[derive(Clone, Debug)]
pub struct DenseRow {
    pub position: usize,
    pub values: Vec<i32>,
}

pub open spec fn holds(iv: Interval, p: int) -> bool {
    iv.start <= p <= iv.end
}

/// Some non-zero interval of the list holds `p`.
pub open spec fn span_covers(ivs: Seq<Interval>, p: int) -> bool {
    exists|i: int| 0 <= i < ivs.len() && (#[trigger] ivs[i]).value != 0 && holds(ivs[i], p)
}

/// Some non-zero interval of some column holds `p`.
pub open spec fn covered(cols: Seq<Vec<Interval>>, p: int) -> bool {
    exists|c: int| 0 <= c < cols.len() && span_covers((#[trigger] cols[c])@, p)
}

/// The value of a column at `p`: that of the last interval in the list that
/// holds `p`, and 0 where none does.
pub open spec fn value_at(ivs: Seq<Interval>, p: int) -> i32
    decreases ivs.len(),
{
    if ivs.len() == 0 {
        0
    } else if holds(ivs.last(), p) {
        ivs.last().value
    } else {
        value_at(ivs.drop_last(), p)
    }
}

/// More than one interval of the list holds `p`.
pub open spec fn overlaps_at(ivs: Seq<Interval>, p: int) -> bool {
    exists|i: int, j: int|
        0 <= i < j < ivs.len() && holds(#[trigger] ivs[i], p) && holds(#[trigger] ivs[j], p)
}

/// The row of position `p`.
pub open spec fn is_row_of(cols: Seq<Vec<Interval>>, row: DenseRow) -> bool {
    &&& row.values@.len() == cols.len()
    &&& forall|c: int|
        0 <= c < cols.len() ==> #[trigger] row.values@[c] == value_at(
            cols[c]@,
            row.position as int,
        )
}

/// `rows` are the dense rows of `cols`: one for each covered position, in
/// ascending order of position.
pub open spec fn is_dense_table(cols: Seq<Vec<Interval>>, rows: Seq<DenseRow>) -> bool {
    &&& forall|r: int|
        0 <= r < rows.len() ==> is_row_of(cols, #[trigger] rows[r]) && covered(
            cols,
            rows[r].position as int,
        )
    &&& forall|r: int, s: int|
        0 <= r < s < rows.len() ==> (#[trigger] rows[r]).position < (#[trigger] rows[s]).position
    &&& forall|p: int|
        covered(cols, p) ==> exists|r: int|
            0 <= r < rows.len() && (#[trigger] rows[r]).position == p
}

/// Value of one column at `p`.
pub fn column_value(ivs: &[Interval], p: usize) -> (v: i32)
    ensures
        v == value_at(ivs@, p as int),
{
    let mut v: i32 = 0;
    let mut i: usize = 0;
    while i < ivs.len()
        invariant
            i <= ivs@.len(),
            v == value_at(ivs@.take(i as int), p as int),
        decreases ivs@.len() - i,
    {
        proof {
            assert(ivs@.take(i + 1).drop_last() =~= ivs@.take(i as int));
        }
        if ivs[i].start <= p && p <= ivs[i].end {
            v = ivs[i].value;
        }
        i += 1;
    }
    proof {
        assert(ivs@.take(i as int) =~= ivs@);
    }
    v
}

/// Whether two intervals of the list hold `p`: a sign of a damaged encoding,
/// since the runs of one row never overlap.
pub fn column_overlaps(ivs: &[Interval], p: usize) -> (r: bool)
    ensures
        r == overlaps_at(ivs@, p as int),
{
    let mut seen: usize = 0;
    let ghost mut first: int = 0;
    let mut i: usize = 0;
    while i < ivs.len()
        invariant
            i <= ivs@.len(),
            seen <= 1,
            seen == 0 ==> forall|k: int| 0 <= k < i ==> !holds(#[trigger] ivs@[k], p as int),
            seen == 1 ==> 0 <= first < i && holds(ivs@[first], p as int) && forall|k: int|
                0 <= k < i && k != first ==> !holds(#[trigger] ivs@[k], p as int),
        decreases ivs@.len() - i,
    {
        if ivs[i].start <= p && p <= ivs[i].end {
            if seen == 1 {
                assert(holds(ivs@[first], p as int) && holds(ivs@[i as int], p as int));
                return true;
            }
            seen = 1;
            proof {
                first = i as int;
            }
        }
        i += 1;
    }
    false
}

/// The dense row of position `p`.
pub fn row_at(cols: &Vec<Vec<Interval>>, p: usize) -> (row: DenseRow)
    ensures
        row.position == p,
        is_row_of(cols@, row),
{
    let mut values: Vec<i32> = Vec::new();
    let mut c: usize = 0;
    while c < cols.len()
        invariant
            c <= cols@.len(),
            values@.len() == c,
            forall|k: int| 0 <= k < c ==> #[trigger] values@[k] == value_at(cols@[k]@, p as int),
        decreases cols@.len() - c,
    {
        let v = column_value(cols[c].as_slice(), p);
        values.push(v);
        c += 1;
    }
    DenseRow { position: p, values }
}

/// All non-zero intervals of all columns in one list.
pub fn collect_spans(cols: &Vec<Vec<Interval>>) -> (spans: Vec<Interval>)
    ensures
        forall|p: int| span_covers(spans@, p) <==> covered(cols@, p),
        forall|i: int| 0 <= i < spans@.len() ==> (#[trigger] spans@[i]).value != 0,
{
    let mut spans: Vec<Interval> = Vec::new();
    let mut c: usize = 0;
    while c < cols.len()
        invariant
            c <= cols@.len(),
            forall|p: int| span_covers(spans@, p) <==> covered(cols@.take(c as int), p),
            forall|i: int| 0 <= i < spans@.len() ==> (#[trigger] spans@[i]).value != 0,
        decreases cols@.len() - c,
    {
        let col = &cols[c];
        let ghost before = spans@;
        let mut i: usize = 0;
        while i < col.len()
            invariant
                i <= col@.len(),
                forall|p: int|
                    span_covers(spans@, p) <==> (span_covers(before, p) || span_covers(
                        col@.take(i as int),
                        p,
                    )),
                forall|k: int| 0 <= k < spans@.len() ==> (#[trigger] spans@[k]).value != 0,
            decreases col@.len() - i,
        {
            let ghost prev = spans@;
            let iv = col[i];
            if iv.value != 0 {
                spans.push(iv);
            }
            proof {
                let t0 = col@.take(i as int);
                let t1 = col@.take(i + 1);
                assert forall|p: int|
                    span_covers(spans@, p) <==> (span_covers(before, p) || span_covers(
                        t1,
                        p,
                    )) by {
                    if span_covers(spans@, p) {
                        let k = choose|k: int|
                            0 <= k < spans@.len() && (#[trigger] spans@[k]).value != 0 && holds(
                                spans@[k],
                                p,
                            );
                        if k < prev.len() {
                            assert(prev[k] == spans@[k]);
                            assert(span_covers(prev, p));
                            if span_covers(t0, p) {
                                let j = choose|j: int|
                                    0 <= j < t0.len() && (#[trigger] t0[j]).value != 0 && holds(
                                        t0[j],
                                        p,
                                    );
                                assert(t1[j] == t0[j]);
                            }
                        } else {
                            assert(t1[i as int] == iv);
                        }
                    }
                    if span_covers(before, p) {
                        assert(span_covers(prev, p));
                        let k = choose|k: int|
                            0 <= k < prev.len() && (#[trigger] prev[k]).value != 0 && holds(
                                prev[k],
                                p,
                            );
                        assert(spans@[k] == prev[k]);
                    }
                    if span_covers(t1, p) {
                        let j = choose|j: int|
                            0 <= j < t1.len() && (#[trigger] t1[j]).value != 0 && holds(t1[j], p);
                        if j < i {
                            assert(t0[j] == t1[j]);
                            assert(span_covers(t0, p));
                            assert(span_covers(prev, p));
                            let k = choose|k: int|
                                0 <= k < prev.len() && (#[trigger] prev[k]).value != 0 && holds(
                                    prev[k],
                                    p,
                                );
                            assert(spans@[k] == prev[k]);
                        } else {
                            assert(spans@[prev.len() as int] == iv);
                        }
                    }
                }
            }
            i += 1;
        }
        proof {
            assert(col@.take(i as int) =~= col@);
            let c0 = cols@.take(c as int);
            let c1 = cols@.take(c + 1);
            assert forall|p: int| span_covers(spans@, p) <==> covered(c1, p) by {
                if covered(c1, p) {
                    let k = choose|k: int| 0 <= k < c1.len() && span_covers((#[trigger] c1[k])@, p);
                    if k < c {
                        assert(c0[k] == c1[k]);
                        assert(covered(c0, p));
                    }
                }
                if span_covers(before, p) {
                    assert(covered(c0, p));
                    let k = choose|k: int| 0 <= k < c0.len() && span_covers((#[trigger] c0[k])@, p);
                    assert(c1[k] == c0[k]);
                }
                if span_covers(col@, p) {
                    assert(c1[c as int] == cols@[c as int]);
                }
            }
        }
        c += 1;
    }
    proof {
        assert(cols@.take(c as int) =~= cols@);
    }
    spans
}

/// The first position at or after `from` that a span holds.
pub fn next_covered(spans: &[Interval], from: usize) -> (r: Option<usize>)
    requires
        forall|i: int| 0 <= i < spans@.len() ==> (#[trigger] spans@[i]).value != 0,
    ensures
        match r {
            Some(p) => p >= from && span_covers(spans@, p as int) && forall|q: int|
                from <= q < p ==> !span_covers(spans@, q),
            None => forall|q: int| from <= q ==> !span_covers(spans@, q),
        },
{
    let mut best: Option<usize> = None;
    let mut i: usize = 0;
    while i < spans.len()
        invariant
            i <= spans@.len(),
            forall|k: int| 0 <= k < spans@.len() ==> (#[trigger] spans@[k]).value != 0,
            match best {
                Some(p) => p >= from && (exists|k: int|
                    0 <= k < i && holds(#[trigger] spans@[k], p as int)) && forall|k: int, q: int|
                    0 <= k < i && from <= q < p ==> !#[trigger] holds(spans@[k], q),
                None => forall|k: int, q: int|
                    0 <= k < i && from <= q ==> !#[trigger] holds(spans@[k], q),
            },
        decreases spans@.len() - i,
    {
        let iv = spans[i];
        if iv.start <= iv.end && iv.end >= from {
            let cand: usize = if iv.start >= from {
                iv.start
            } else {
                from
            };
            assert(holds(spans@[i as int], cand as int));
            match best {
                Some(p) => {
                    if cand < p {
                        best = Some(cand);
                    }
                },
                None => {
                    best = Some(cand);
                },
            }
        }
        i += 1;
    }
    best
}

/// Builds the dense rows of the columns: every position that a non-zero
/// interval of any column holds gets one row, with each column's value at
/// that position; the rows ascend by position.
pub fn densify(cols: &Vec<Vec<Interval>>) -> (rows: Vec<DenseRow>)
    ensures
        is_dense_table(cols@, rows@),
{
    let spans = collect_spans(cols);
    let mut rows: Vec<DenseRow> = Vec::new();
    let mut from: usize = 0;
    let mut open: bool = true;
    while open
        invariant
            forall|p: int| span_covers(spans@, p) <==> covered(cols@, p),
            forall|i: int| 0 <= i < spans@.len() ==> (#[trigger] spans@[i]).value != 0,
            forall|r: int|
                0 <= r < rows@.len() ==> is_row_of(cols@, #[trigger] rows@[r]) && covered(
                    cols@,
                    rows@[r].position as int,
                ),
            forall|r: int, s: int|
                0 <= r < s < rows@.len() ==> (#[trigger] rows@[r]).position < (
                #[trigger] rows@[s]).position,
            open ==> forall|r: int| 0 <= r < rows@.len() ==> (#[trigger] rows@[r]).position < from,
            open ==> forall|p: int|
                covered(cols@, p) && p < from ==> exists|r: int|
                    0 <= r < rows@.len() && (#[trigger] rows@[r]).position == p,
            !open ==> forall|p: int|
                covered(cols@, p) ==> exists|r: int|
                    0 <= r < rows@.len() && (#[trigger] rows@[r]).position == p,
        decreases if open { usize::MAX - from + 1 } else { 0 },
    {
        let ghost prev = rows@;
        match next_covered(spans.as_slice(), from) {
            Some(p) => {
                let row = row_at(cols, p);
                rows.push(row);
                proof {
                    assert(rows@[prev.len() as int].position == p);
                    assert forall|q: int| covered(cols@, q) && q <= p implies exists|r: int|
                        0 <= r < rows@.len() && (#[trigger] rows@[r]).position == q by {
                        if q < from {
                            let r = choose|r: int|
                                0 <= r < prev.len() && (#[trigger] prev[r]).position == q;
                            assert(rows@[r].position == q);
                        } else {
                            assert(span_covers(spans@, q));
                            assert(q == p);
                        }
                    }
                }
                if p == usize::MAX {
                    open = false;
                    proof {
                        assert forall|q: int| covered(cols@, q) implies exists|r: int|
                            0 <= r < rows@.len() && (#[trigger] rows@[r]).position == q by {
                            assert(span_covers(spans@, q));
                            let k = choose|k: int|
                                0 <= k < spans@.len() && (#[trigger] spans@[k]).value != 0
                                    && holds(spans@[k], q);
                            assert(q <= p);
                        }
                    }
                } else {
                    from = p + 1;
                }
            },
            None => {
                open = false;
                proof {
                    assert forall|q: int| covered(cols@, q) implies exists|r: int|
                        0 <= r < rows@.len() && (#[trigger] rows@[r]).position == q by {
                        assert(span_covers(spans@, q));
                        assert(q < from);
                    }
                }
            },
        }
    }
    rows
}

/// In some column, more than one interval holds `p`.
pub open spec fn row_overlaps(cols: Seq<Vec<Interval>>, p: int) -> bool {
    exists|c: int| 0 <= c < cols.len() && overlaps_at((#[trigger] cols[c])@, p)
}

/// Whether, in some column, more than one interval holds `p`.
pub fn position_overlaps(cols: &Vec<Vec<Interval>>, p: usize) -> (r: bool)
    ensures
        r == row_overlaps(cols@, p as int),
{
    let mut c: usize = 0;
    while c < cols.len()
        invariant
            c <= cols@.len(),
            forall|k: int| 0 <= k < c ==> !overlaps_at((#[trigger] cols@[k])@, p as int),
        decreases cols@.len() - c,
    {
        if column_overlaps(cols[c].as_slice(), p) {
            return true;
        }
        c += 1;
    }
    false
}

/// The first of the rows at whose position intervals of one column
/// overlap, if there is one. The runs of a well-formed row never overlap,
/// so a row found here tells of damaged input; its value in that column is
/// that of the later interval.
pub fn first_overlap(cols: &Vec<Vec<Interval>>, rows: &Vec<DenseRow>) -> (r: Option<usize>)
    ensures
        match r {
            Some(i) => i < rows@.len() && row_overlaps(cols@, rows@[i as int].position as int)
                && forall|k: int|
                0 <= k < i ==> !row_overlaps(cols@, (#[trigger] rows@[k]).position as int),
            None => forall|k: int|
                0 <= k < rows@.len() ==> !row_overlaps(
                    cols@,
                    (#[trigger] rows@[k]).position as int,
                ),
        },
{
    let mut i: usize = 0;
    while i < rows.len()
        invariant
            i <= rows@.len(),
            forall|k: int|
                0 <= k < i ==> !row_overlaps(cols@, (#[trigger] rows@[k]).position as int),
        decreases rows@.len() - i,
    {
        if position_overlaps(cols, rows[i].position) {
            return Some(i);
        }
        i += 1;
    }
    None
}

} // verus!
