//! The rows of the per-gene report: which positions count.

use crate::text::{parse_u32, split, split_fields, u32_value, views};
use vstd::prelude::*;

verus! {

/// The counts of one position of a gene.
pub struct ReportRow {
    pub chr_id: Vec<u8>,
    pub gene_id: Vec<u8>,
    pub position: Vec<u8>,
    pub rf_count: u32,
    pub rf_depth: u32,
    pub pipe_count: u32,
    pub pipe_depth: u32,
}

/// A field read as a count; 0 where it writes none.
pub open spec fn u32_or_zero(s: Seq<u8>) -> u32 {
    match u32_value(s) {
        Some(v) => v,
        None => 0,
    }
}

/// Both depths exceed `depth`, and each count is below a quarter of its
/// depth.
pub open spec fn counts(
    rf_count: u32,
    rf_depth: u32,
    pipe_count: u32,
    pipe_depth: u32,
    depth: u32,
) -> bool {
    rf_depth > depth && pipe_depth > depth && rf_count * 4 < rf_depth && pipe_count * 4
        < pipe_depth
}

/// Whether a position counts towards the report at the given depth.
pub fn passes_depth(rf_count: u32, rf_depth: u32, pipe_count: u32, pipe_depth: u32, depth: u32) -> (r:
    bool)
    ensures
        r == counts(rf_count, rf_depth, pipe_count, pipe_depth, depth),
{
    rf_depth > depth && pipe_depth > depth && (rf_count as u64) * 4 < rf_depth as u64 && (
    pipe_count as u64) * 4 < pipe_depth as u64
}

fn count_field(f: &Vec<Vec<u8>>, i: usize) -> (r: u32)
    requires
        i < f@.len(),
    ensures
        r == u32_or_zero(views(f@)[i as int]),
{
    proof {
        assert(views(f@)[i as int] == f@[i as int]@);
    }
    match parse_u32(f[i].as_slice()) {
        Some(v) => v,
        None => 0,
    }
}

/// Reads one line of the gene table: chromosome, gene and position are
/// fields 0, 1 and 3; the four counts are fields 6, 7, 23 and 24, a count
/// that cannot be read being 0. `None` where the line has fewer than 25
/// fields.
pub fn parse_report_line(line: &[u8]) -> (r: Option<ReportRow>)
    ensures
        match r {
            None => split(line@, 44).len() < 25,
            Some(row) => {
                let f = split(line@, 44);
                &&& f.len() >= 25
                &&& row.chr_id@ == f[0]
                &&& row.gene_id@ == f[1]
                &&& row.position@ == f[3]
                &&& row.rf_count == u32_or_zero(f[6])
                &&& row.rf_depth == u32_or_zero(f[7])
                &&& row.pipe_count == u32_or_zero(f[23])
                &&& row.pipe_depth == u32_or_zero(f[24])
            },
        },
{
    let f = split_fields(line, 44);
    if f.len() < 25 {
        return None;
    }
    proof {
        assert(views(f@)[0] == f@[0]@);
        assert(views(f@)[1] == f@[1]@);
        assert(views(f@)[3] == f@[3]@);
    }
    Some(
        ReportRow {
            chr_id: f[0].clone(),
            gene_id: f[1].clone(),
            position: f[3].clone(),
            rf_count: count_field(&f, 6),
            rf_depth: count_field(&f, 7),
            pipe_count: count_field(&f, 23),
            pipe_depth: count_field(&f, 24),
        },
    )
}

} // verus!
