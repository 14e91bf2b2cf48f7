//! Work on one group of records: its output lines, its columns, and the
//! split of all groups among workers.

use crate::codec::Interval;
use crate::lines::{tokv, tokv_spec};
use crate::scan::{is_group_list, is_record_list, record_ok, Group, Record};
use crate::text::{decimal, push_decimal};
use vstd::prelude::*;
use vstd::slice::*;

verus! {

/// The records lie within the buffer and the group within the records.
pub open spec fn group_in_bounds(buf: Seq<u8>, recs: Seq<Record>, group: Group) -> bool {
    &&& group.first < group.end <= recs.len()
    &&& forall|k: int|
        group.first <= k < group.end ==> (#[trigger] recs[k]).start <= recs[k].end <= buf.len()
}

/// The groups of scanned records lie within bounds.
pub proof fn lemma_scanned_group_in_bounds(
    buf: Seq<u8>,
    sep: u8,
    recs: Seq<Record>,
    groups: Seq<Group>,
    g: int,
)
    requires
        is_record_list(buf, sep, recs),
        is_group_list(recs, groups),
        0 <= g < groups.len(),
    ensures
        group_in_bounds(buf, recs, groups[g]),
{
    assert(groups[g].first < groups[g].end <= recs.len());
    assert forall|k: int| groups[g].first <= k < groups[g].end implies (#[trigger] recs[k]).start
        <= recs[k].end <= buf.len() by {
        assert(record_ok(buf, sep, recs[k]));
    }
}

/// The bytes of a record.
pub open spec fn span(buf: Seq<u8>, r: Record) -> Seq<u8> {
    buf.subrange(r.start as int, r.end as int)
}

/// `s` without its line feeds.
pub open spec fn without_feeds(s: Seq<u8>) -> Seq<u8>
    decreases s.len(),
{
    if s.len() == 0 {
        Seq::empty()
    } else if s.last() == 10 {
        without_feeds(s.drop_last())
    } else {
        without_feeds(s.drop_last()).push(s.last())
    }
}

/// `s` with a comma for each line feed.
pub open spec fn feeds_to_commas(s: Seq<u8>) -> Seq<u8> {
    Seq::new(s.len(), |i: int| if s[i] == 10 { 44u8 } else { s[i] })
}

/// `,0,0` occurs in `s`.
pub open spec fn has_zero_pair(s: Seq<u8>) -> bool {
    exists|i: int|
        0 <= i && i + 3 < s.len() && #[trigger] s[i] == 44 && s[i + 1] == 48 && s[i + 2] == 44
            && s[i + 3] == 48
}

/// Appends `s` without its line feeds.
pub fn push_without_feeds(out: &mut Vec<u8>, s: &[u8])
    ensures
        final(out)@ == old(out)@ + without_feeds(s@),
{
    let mut i: usize = 0;
    proof {
        assert(out@ =~= old(out)@ + without_feeds(s@.take(0)));
    }
    while i < s.len()
        invariant
            i <= s@.len(),
            out@ == old(out)@ + without_feeds(s@.take(i as int)),
        decreases s@.len() - i,
    {
        proof {
            assert(s@.take(i + 1).drop_last() =~= s@.take(i as int));
        }
        if s[i] != 10 {
            out.push(s[i]);
            proof {
                assert(out@ =~= old(out)@ + without_feeds(s@.take(i + 1)));
            }
        }
        i += 1;
    }
    proof {
        assert(s@.take(i as int) =~= s@);
    }
}

/// Whether `,0,0` occurs in `s`.
pub fn contains_zero_pair(s: &[u8]) -> (r: bool)
    ensures
        r == has_zero_pair(s@),
{
    if s.len() < 4 {
        return false;
    }
    let mut i: usize = 0;
    while i < s.len() - 3
        invariant
            s@.len() >= 4,
            i + 3 <= s@.len(),
            forall|k: int|
                0 <= k < i ==> !(#[trigger] s@[k] == 44 && s@[k + 1] == 48 && s@[k + 2] == 44 && s@[k
                    + 3] == 48),
        decreases s@.len() - i,
    {
        if s[i] == 44 && s[i + 1] == 48 && s[i + 2] == 44 && s[i + 3] == 48 {
            return true;
        }
        i += 1;
    }
    false
}

/// The output line of a data record: the title with commas for its line
/// feeds, the number of the record within its group, a comma, and the
/// record without its line feeds.
pub open spec fn csv_group_line(title: Seq<u8>, index: nat, content: Seq<u8>) -> Seq<u8> {
    feeds_to_commas(title) + decimal(index) + seq![44u8] + without_feeds(content)
}

/// The output lines of the first `k` data records of a group; a record
/// that holds `,0,0` gives none.
pub open spec fn csv_group_text(buf: Seq<u8>, recs: Seq<Record>, first: int, k: int) -> Seq<Seq<u8>>
    decreases k,
{
    if k <= 0 {
        Seq::empty()
    } else {
        let prev = csv_group_text(buf, recs, first, k - 1);
        let content = span(buf, recs[first + k]);
        if has_zero_pair(content) {
            prev
        } else {
            prev.push(csv_group_line(span(buf, recs[first]), k as nat, content))
        }
    }
}

/// The views of a list of lines.
pub open spec fn line_views(lines: Seq<Vec<u8>>) -> Seq<Seq<u8>> {
    Seq::new(lines.len(), |i: int| lines[i]@)
}

/// Writes the output lines of one group of a table with a count and a
/// depth in each data record.
pub fn csv_group_lines(buf: &[u8], recs: &[Record], group: Group) -> (lines: Vec<Vec<u8>>)
    requires
        group_in_bounds(buf@, recs@, group),
    ensures
        line_views(lines@) == csv_group_text(
            buf@,
            recs@,
            group.first as int,
            group.end - group.first - 1,
        ),
{
    let t = recs[group.first];
    let title = slice_subrange(buf, t.start, t.end);
    let mut lines: Vec<Vec<u8>> = Vec::new();
    let mut k: usize = 1;
    proof {
        assert(line_views(lines@) =~= csv_group_text(buf@, recs@, group.first as int, 0));
    }
    while group.first + k < group.end
        invariant
            1 <= k,
            group.first + k <= group.end,
            group_in_bounds(buf@, recs@, group),
            title@ == span(buf@, recs@[group.first as int]),
            line_views(lines@) == csv_group_text(buf@, recs@, group.first as int, k - 1),
        decreases group.end - group.first - k,
    {
        let r = recs[group.first + k];
        let content = slice_subrange(buf, r.start, r.end);
        if !contains_zero_pair(content) {
            let mut line: Vec<u8> = Vec::new();
            let mut i: usize = 0;
            while i < title.len()
                invariant
                    i <= title@.len(),
                    line@ == feeds_to_commas(title@).take(i as int),
                decreases title@.len() - i,
            {
                if title[i] == 10 {
                    line.push(44);
                } else {
                    line.push(title[i]);
                }
                proof {
                    assert(line@ =~= feeds_to_commas(title@).take(i + 1));
                }
                i += 1;
            }
            proof {
                assert(feeds_to_commas(title@).take(i as int) =~= feeds_to_commas(title@));
            }
            push_decimal(&mut line, k as u128);
            line.push(44);
            push_without_feeds(&mut line, content);
            let ghost before = line_views(lines@);
            let ghost lv = line@;
            proof {
                assert(lv =~= csv_group_line(title@, k as nat, content@));
            }
            lines.push(line);
            proof {
                assert(line_views(lines@) =~= before.push(lv));
            }
        }
        k += 1;
    }
    lines
}

/// The columns of the first `k` data records of a group: the non-zero
/// intervals of each; `None` where a record cannot be read.
pub open spec fn group_columns_spec(buf: Seq<u8>, recs: Seq<Record>, first: int, k: int) -> Option<
    Seq<Seq<Interval>>,
>
    decreases k,
{
    if k <= 0 {
        Some(Seq::empty())
    } else {
        match (
            group_columns_spec(buf, recs, first, k - 1),
            tokv_spec(span(buf, recs[first + k])),
        ) {
            (Some(cols), Some(col)) => Some(cols.push(col)),
            _ => None,
        }
    }
}

/// The views of a list of columns.
pub open spec fn column_views(cols: Seq<Vec<Interval>>) -> Seq<Seq<Interval>> {
    Seq::new(cols.len(), |i: int| cols[i]@)
}

pub proof fn lemma_columns_none_extends(buf: Seq<u8>, recs: Seq<Record>, first: int, k: int, n: int)
    requires
        0 <= k <= n,
        group_columns_spec(buf, recs, first, k) is None,
    ensures
        group_columns_spec(buf, recs, first, n) is None,
    decreases n,
{
    if k < n {
        lemma_columns_none_extends(buf, recs, first, k, n - 1);
    }
}

/// Reads the columns of one group of a run-length coded table, one from
/// each data record; `None` where a record cannot be read.
pub fn group_columns(buf: &[u8], recs: &[Record], group: Group) -> (r: Option<Vec<Vec<Interval>>>)
    requires
        group_in_bounds(buf@, recs@, group),
    ensures
        match r {
            Some(cols) => group_columns_spec(
                buf@,
                recs@,
                group.first as int,
                group.end - group.first - 1,
            ) == Some(column_views(cols@)),
            None => group_columns_spec(
                buf@,
                recs@,
                group.first as int,
                group.end - group.first - 1,
            ) is None,
        },
{
    let mut cols: Vec<Vec<Interval>> = Vec::new();
    let mut k: usize = 1;
    proof {
        assert(column_views(cols@) =~= Seq::<Seq<Interval>>::empty());
    }
    while group.first + k < group.end
        invariant
            1 <= k,
            group.first + k <= group.end,
            group_in_bounds(buf@, recs@, group),
            group_columns_spec(buf@, recs@, group.first as int, k - 1) == Some(
                column_views(cols@),
            ),
        decreases group.end - group.first - k,
    {
        let r = recs[group.first + k];
        match tokv(slice_subrange(buf, r.start, r.end)) {
            Some(col) => {
                let ghost before = column_views(cols@);
                let ghost cv = col@;
                cols.push(col);
                proof {
                    assert(column_views(cols@) =~= before.push(cv));
                }
            },
            None => {
                proof {
                    assert(group_columns_spec(buf@, recs@, group.first as int, k as int) is None);
                    lemma_columns_none_extends(
                        buf@,
                        recs@,
                        group.first as int,
                        k as int,
                        group.end - group.first - 1,
                    );
                }
                return None;
            },
        }
        k += 1;
    }
    Some(cols)
}

/// The title of a group: the bytes of its first record without line
/// feeds.
pub fn group_title(buf: &[u8], recs: &[Record], group: Group) -> (title: Vec<u8>)
    requires
        group_in_bounds(buf@, recs@, group),
    ensures
        title@ == without_feeds(span(buf@, recs@[group.first as int])),
{
    let t = recs[group.first];
    let mut title: Vec<u8> = Vec::new();
    push_without_feeds(&mut title, slice_subrange(buf, t.start, t.end));
    title
}

/// First group of chunk `c` where `n` groups are split among `workers`
/// chunks by count: the first `n % workers` chunks hold one group more.
pub open spec fn chunk_start(n: int, workers: int, c: int) -> int {
    let base = n / workers;
    let extra = n % workers;
    c * base + if c < extra {
        c
    } else {
        extra
    }
}

/// Splits `n` groups among `workers` chunks by count. The chunks are
/// contiguous, in order, cover all groups, and differ in size by at most
/// one.
pub fn partition_groups(n: usize, workers: usize) -> (chunks: Vec<(usize, usize)>)
    requires
        workers >= 1,
    ensures
        chunks@.len() == workers,
        forall|c: int|
            0 <= c < workers ==> (#[trigger] chunks@[c]).0 == chunk_start(
                n as int,
                workers as int,
                c,
            ) && chunks@[c].1 == chunk_start(n as int, workers as int, c + 1),
        forall|c: int| 0 <= c < workers ==> (#[trigger] chunks@[c]).0 <= chunks@[c].1 <= n,
        chunks@[0].0 == 0,
        chunks@[workers - 1].1 == n,
{
    let base: usize = n / workers;
    let extra: usize = n % workers;
    let mut chunks: Vec<(usize, usize)> = Vec::new();
    let mut start: usize = 0;
    let mut c: usize = 0;
    proof {
        assert(n == base * workers + extra) by (nonlinear_arith)
            requires
                base == n / workers,
                extra == n % workers,
                workers >= 1,
        ;
    }
    while c < workers
        invariant
            c <= workers,
            workers >= 1,
            base == n / workers,
            extra == n % workers,
            extra < workers,
            n == base * workers + extra,
            chunks@.len() == c,
            start == chunk_start(n as int, workers as int, c as int),
            start <= n,
            forall|k: int|
                0 <= k < c ==> (#[trigger] chunks@[k]).0 == chunk_start(
                    n as int,
                    workers as int,
                    k,
                ) && chunks@[k].1 == chunk_start(n as int, workers as int, k + 1),
            forall|k: int| 0 <= k < c ==> (#[trigger] chunks@[k]).0 <= chunks@[k].1 <= n,
        decreases workers - c,
    {
        proof {
            assert(base + 1 <= n || extra == 0) by (nonlinear_arith)
                requires
                    n == base * workers + extra,
                    workers >= 1,
            ;
        }
        let size: usize = if c < extra {
            base + 1
        } else {
            base
        };
        proof {
            let next = chunk_start(n as int, workers as int, c + 1);
            assert(next == start + size) by (nonlinear_arith)
                requires
                    start == c * base + (if c < extra { c as int } else { extra as int }),
                    next == (c + 1) * base + (if c + 1 < extra { c + 1 } else { extra as int }),
                    size == (if c < extra { base + 1 } else { base as int }),
            ;
            assert(next <= n) by (nonlinear_arith)
                requires
                    next == (c + 1) * base + (if c + 1 < extra { c + 1 } else { extra as int }),
                    n == base * workers + extra,
                    c < workers,
                    extra < workers,
            ;
        }
        chunks.push((start, start + size));
        start = start + size;
        c += 1;
    }
    proof {
        assert(chunk_start(n as int, workers as int, workers as int) == n) by (nonlinear_arith)
            requires
                n == base * workers + extra,
                extra < workers,
                base == n / workers,
                extra == n % workers,
        ;
    }
    chunks
}

} // verus!
