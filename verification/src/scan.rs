//! Splits a byte buffer into line records and groups them under their
//! title records.

use vstd::prelude::*;

verus! {

/// One record of the buffer: the bytes `start..end`. A title record opens a
/// group.
#[derive(Clone, Copy, Debug, PartialEq, Eq, Structural)]
pub struct Record {
    pub start: usize,
    pub end: usize,
    pub is_title: bool,
}

/// The records `first..end` (by index): a title and the data records under it.
#[derive(Clone, Copy, Debug, PartialEq, Eq, Structural)]
pub struct Group {
    pub first: usize,
    pub end: usize,
}

pub open spec fn is_alpha(b: u8) -> bool {
    (65 <= b && b <= 90) || (97 <= b && b <= 122)
}

/// Whether `b` is an ASCII letter.
pub fn byte_is_alpha(b: u8) -> (r: bool)
    ensures
        r == is_alpha(b),
{
    (65 <= b && b <= 90) || (97 <= b && b <= 122)
}

/// A new record begins at `c`: a line feed stands before it and a letter at
/// it.
pub open spec fn is_cut(buf: Seq<u8>, c: int) -> bool {
    0 < c < buf.len() && buf[c - 1] == 10 && is_alpha(buf[c])
}

/// The byte `b` occurs in `buf[lo..hi]`.
pub open spec fn has_byte(buf: Seq<u8>, lo: int, hi: int, b: u8) -> bool {
    exists|j: int| lo <= j < hi && #[trigger] buf[j] == b
}

pub open spec fn no_alpha_before(buf: Seq<u8>, i: int) -> bool {
    forall|j: int| 0 <= j < i ==> !is_alpha(#[trigger] buf[j])
}

pub open spec fn no_cut_between(buf: Seq<u8>, lo: int, hi: int) -> bool {
    forall|c: int| lo < c < hi ==> !#[trigger] is_cut(buf, c)
}

/// A record is a title when a further record follows it and the separator
/// does not occur in it.
pub open spec fn record_ok(buf: Seq<u8>, sep: u8, r: Record) -> bool {
    &&& r.start < r.end <= buf.len()
    &&& no_cut_between(buf, r.start as int, r.end as int)
    &&& r.is_title == (r.end < buf.len() && !has_byte(buf, r.start as int, r.end - 1, sep))
}

/// The records chain: each begins at a cut, where the one before it ends.
pub open spec fn records_chain(buf: Seq<u8>, sep: u8, recs: Seq<Record>) -> bool {
    &&& forall|k: int| 0 <= k < recs.len() ==> record_ok(buf, sep, #[trigger] recs[k])
    &&& forall|k: int|
        0 < k < recs.len() ==> (#[trigger] recs[k]).start == recs[k - 1].end && is_cut(
            buf,
            recs[k].start as int,
        )
}

/// `recs` are the records of `buf`: none if the buffer holds no letter, else
/// the spans from the first letter to the end, cut at every line feed that a
/// letter follows.
pub open spec fn is_record_list(buf: Seq<u8>, sep: u8, recs: Seq<Record>) -> bool {
    if no_alpha_before(buf, buf.len() as int) {
        recs.len() == 0
    } else {
        &&& recs.len() > 0
        &&& is_alpha(buf[recs[0].start as int])
        &&& no_alpha_before(buf, recs[0].start as int)
        &&& recs.last().end == buf.len()
        &&& records_chain(buf, sep, recs)
    }
}

/// Scans `buf` into its records and marks the titles; `sep` is the byte that
/// a title never holds.
pub fn scan_records(buf: &[u8], sep: u8) -> (recs: Vec<Record>)
    ensures
        is_record_list(buf@, sep, recs@),
{
    let n: usize = buf.len();
    let mut recs: Vec<Record> = Vec::new();
    let mut start: usize = 0;
    while start < n && !byte_is_alpha(buf[start])
        invariant
            n == buf@.len(),
            start <= n,
            no_alpha_before(buf@, start as int),
        decreases n - start,
    {
        start += 1;
    }
    if start == n {
        return recs;
    }
    let ghost first: int = start as int;
    let mut has_sep: bool = false;
    let mut i: usize = start;
    while i < n
        invariant
            n == buf@.len(),
            start <= i <= n,
            start < n,
            is_alpha(buf@[first]),
            no_alpha_before(buf@, first),
            0 <= first < n,
            is_alpha(buf@[start as int]),
            records_chain(buf@, sep, recs@),
            recs@.len() == 0 ==> start == first,
            recs@.len() > 0 ==> recs@[0].start == first && recs@.last().end == start && is_cut(
                buf@,
                start as int,
            ),
            forall|c: int| start < c <= i ==> !#[trigger] is_cut(buf@, c),
            has_sep == has_byte(buf@, start as int, i as int, sep),
        decreases n - i,
    {
        if buf[i] == 10 && i + 1 < n && byte_is_alpha(buf[i + 1]) {
            let r = Record { start, end: i + 1, is_title: !has_sep };
            proof {
                assert(record_ok(buf@, sep, r));
                assert(is_cut(buf@, i + 1));
            }
            recs.push(r);
            start = i + 1;
            has_sep = false;
        } else {
            proof {
                assert(!is_cut(buf@, i + 1));
                if buf@[i as int] == sep {
                    assert(has_byte(buf@, start as int, i + 1, sep));
                } else if has_byte(buf@, start as int, i + 1, sep) {
                    assert(has_byte(buf@, start as int, i as int, sep));
                }
            }
            if buf[i] == sep {
                has_sep = true;
            }
        }
        i += 1;
    }
    let r = Record { start, end: n, is_title: false };
    proof {
        assert(record_ok(buf@, sep, r));
    }
    recs.push(r);
    proof {
        assert(!no_alpha_before(buf@, buf@.len() as int));
    }
    recs
}

/// Number of titles among the first `k` records.
pub open spec fn title_count(recs: Seq<Record>, k: int) -> nat
    decreases k,
{
    if k <= 0 {
        0
    } else {
        title_count(recs, k - 1) + if recs[k - 1].is_title {
            1nat
        } else {
            0nat
        }
    }
}

pub open spec fn no_title_between(recs: Seq<Record>, lo: int, hi: int) -> bool {
    forall|k: int| lo <= k < hi ==> !(#[trigger] recs[k]).is_title
}

/// `groups` are the groups of `recs`: one for each title, from that title up
/// to the next one, the last up to the end. Records before the first title
/// belong to no group.
pub open spec fn is_group_list(recs: Seq<Record>, groups: Seq<Group>) -> bool {
    &&& groups.len() == title_count(recs, recs.len() as int)
    &&& forall|g: int|
        0 <= g < groups.len() ==> {
            &&& (#[trigger] groups[g]).first < groups[g].end <= recs.len()
            &&& recs[groups[g].first as int].is_title
            &&& no_title_between(recs, groups[g].first + 1, groups[g].end as int)
        }
    &&& forall|g: int| 0 < g < groups.len() ==> (#[trigger] groups[g]).first == groups[g - 1].end
    &&& groups.len() > 0 ==> groups.last().end == recs.len() && no_title_between(
        recs,
        0,
        groups[0].first as int,
    )
}

/// Groups the records under their titles.
pub fn group_records(recs: &[Record]) -> (groups: Vec<Group>)
    ensures
        is_group_list(recs@, groups@),
        recs@.len() > 0 && recs@[0].is_title ==> groups@.len() > 0 && groups@[0].first == 0,
{
    let n: usize = recs.len();
    let mut groups: Vec<Group> = Vec::new();
    let mut open: Option<usize> = None;
    let mut i: usize = 0;
    while i < n
        invariant
            n == recs@.len(),
            i <= n,
            match open {
                None => groups@.len() == 0 && no_title_between(recs@, 0, i as int),
                Some(f) => {
                    &&& f < i
                    &&& recs@[f as int].is_title
                    &&& no_title_between(recs@, f + 1, i as int)
                    &&& groups@.len() > 0 ==> groups@.last().end == f
                    &&& groups@.len() == 0 ==> no_title_between(recs@, 0, f as int)
                },
            },
            groups@.len() + (if open.is_some() { 1nat } else { 0nat }) == title_count(
                recs@,
                i as int,
            ),
            forall|g: int|
                0 <= g < groups@.len() ==> {
                    &&& (#[trigger] groups@[g]).first < groups@[g].end <= i
                    &&& recs@[groups@[g].first as int].is_title
                    &&& no_title_between(recs@, groups@[g].first + 1, groups@[g].end as int)
                },
            forall|g: int|
                0 < g < groups@.len() ==> (#[trigger] groups@[g]).first == groups@[g - 1].end,
            groups@.len() > 0 ==> no_title_between(recs@, 0, groups@[0].first as int),
            recs@.len() > 0 && recs@[0].is_title && i > 0 ==> (match open {
                None => false,
                Some(f) => if groups@.len() > 0 { groups@[0].first == 0 } else { f == 0 },
            }),
        decreases n - i,
    {
        if recs[i].is_title {
            match open {
                Some(f) => {
                    groups.push(Group { first: f, end: i });
                },
                None => {},
            }
            open = Some(i);
        }
        i += 1;
    }
    match open {
        Some(f) => {
            groups.push(Group { first: f, end: n });
        },
        None => {},
    }
    groups
}

/// Groups do not overlap: an earlier group ends before a later one begins.
pub proof fn lemma_groups_apart(recs: Seq<Record>, groups: Seq<Group>, g: int, h: int)
    requires
        is_group_list(recs, groups),
        0 <= g < h < groups.len(),
    ensures
        groups[g].end <= groups[h].first,
    decreases h - g,
{
    if g + 1 < h {
        lemma_groups_apart(recs, groups, g, h - 1);
        assert(groups[h].first == groups[h - 1].end);
        assert(groups[h - 1].first < groups[h - 1].end);
    } else {
        assert(groups[h].first == groups[h - 1].end);
    }
}

proof fn lemma_group_from(recs: Seq<Record>, groups: Seq<Group>, k: int, g: int) -> (h: int)
    requires
        is_group_list(recs, groups),
        0 <= g < groups.len(),
        groups[g].first <= k < recs.len(),
    ensures
        g <= h < groups.len(),
        groups[h].first <= k < groups[h].end,
    decreases groups.len() - g,
{
    if k < groups[g].end {
        g
    } else {
        assert(g + 1 < groups.len()) by {
            if g + 1 == groups.len() {
                assert(groups.last() == groups[g]);
            }
        }
        assert(groups[g + 1].first == groups[g].end);
        lemma_group_from(recs, groups, k, g + 1)
    }
}

/// Every record from the first title on lies in exactly one group.
pub proof fn lemma_groups_cover(recs: Seq<Record>, groups: Seq<Group>, k: int)
    requires
        is_group_list(recs, groups),
        groups.len() > 0,
        groups[0].first <= k < recs.len(),
    ensures
        exists|g: int| 0 <= g < groups.len() && (#[trigger] groups[g]).first <= k < groups[g].end,
        forall|g: int, h: int|
            0 <= g < groups.len() && 0 <= h < groups.len() && (#[trigger] groups[g]).first <= k
                < groups[g].end && (#[trigger] groups[h]).first <= k < groups[h].end ==> g == h,
{
    let g0 = lemma_group_from(recs, groups, k, 0);
    assert(groups[g0].first <= k < groups[g0].end);
    assert forall|g: int, h: int|
        0 <= g < groups.len() && 0 <= h < groups.len() && (#[trigger] groups[g]).first <= k
            < groups[g].end && (#[trigger] groups[h]).first <= k < groups[h].end implies g
        == h by {
        if g < h {
            lemma_groups_apart(recs, groups, g, h);
        } else if h < g {
            lemma_groups_apart(recs, groups, h, g);
        }
    }
}

} // verus!
