//! Per-position records under gene annotations.

use crate::merge::{bytes_side, Side};
use crate::text::{
    decimal, find_byte, parse_usize, position_of, push_bytes, push_decimal, split, split_fields,
    split_words, usize_value, views, words,
};
use rand::rngs::ThreadRng;
use rand::Rng;
use std::collections::HashSet;
use vstd::prelude::*;
use vstd::slice::*;
use vstd::std_specs::hash::*;

verus! {

/// Counts of the four bases at one position.
#[derive(Clone, Copy, Debug, PartialEq, Eq, Structural)]
pub struct BaseCounts {
    pub a: usize,
    pub c: usize,
    pub g: usize,
    pub t: usize,
}

/// A field read as a count; 0 where it writes none.
pub open spec fn count_or_zero(s: Seq<u8>) -> usize {
    match usize_value(s) {
        Some(v) => v,
        None => 0,
    }
}

/// The three counts in the fields `at`, `at + 1` and `at + 2`, if the fields
/// are there and each writes a count.
pub open spec fn counts_at(fields: Seq<Seq<u8>>, at: int) -> Option<(usize, usize, usize)> {
    if fields.len() >= at + 3 {
        match (usize_value(fields[at]), usize_value(fields[at + 1]), usize_value(fields[at + 2])) {
            (Some(x), Some(y), Some(z)) => Some((x, y, z)),
            _ => None,
        }
    } else {
        None
    }
}

/// The base counts that the fields of a position give. The reference base
/// is the first byte of field 0; it gets the depth (field 2) less the
/// mutations (field 1), never below 0. The other three bases get the three
/// fields of that reference base: from field 3 for `A`, 6 for `C`, 9 for `G`
/// and 12 for `T`. Another reference base gives four zeros.
pub open spec fn base_counts(fields: Seq<Seq<u8>>) -> Option<BaseCounts> {
    if fields.len() < 3 || fields[0].len() == 0 {
        None
    } else {
        let mutated = count_or_zero(fields[1]);
        let depth = count_or_zero(fields[2]);
        let rest: usize = if depth >= mutated {
            (depth - mutated) as usize
        } else {
            0
        };
        let base = fields[0][0];
        if base == 65 {
            match counts_at(fields, 3) {
                Some((x, y, z)) => Some(BaseCounts { a: rest, c: x, g: y, t: z }),
                None => None,
            }
        } else if base == 67 {
            match counts_at(fields, 6) {
                Some((x, y, z)) => Some(BaseCounts { a: x, c: rest, g: y, t: z }),
                None => None,
            }
        } else if base == 71 {
            match counts_at(fields, 9) {
                Some((x, y, z)) => Some(BaseCounts { a: x, c: y, g: rest, t: z }),
                None => None,
            }
        } else if base == 84 {
            match counts_at(fields, 12) {
                Some((x, y, z)) => Some(BaseCounts { a: x, c: y, g: z, t: rest }),
                None => None,
            }
        } else {
            Some(BaseCounts { a: 0, c: 0, g: 0, t: 0 })
        }
    }
}

/// The four counts, each after a comma.
pub open spec fn counts_text(n: BaseCounts) -> Seq<u8> {
    seq![44u8] + decimal(n.a as nat) + seq![44u8] + decimal(n.c as nat) + seq![44u8] + decimal(
        n.g as nat,
    ) + seq![44u8] + decimal(n.t as nat)
}

/// The info of a position with its four base counts appended; `None` where
/// the fields that the counts are read from are missing or write no number.
pub open spec fn extended_info(info: Seq<u8>) -> Option<Seq<u8>> {
    match base_counts(split(info, 44)) {
        Some(n) => Some(info + counts_text(n)),
        None => None,
    }
}

fn read_counts(fields: &Vec<Vec<u8>>, at: usize) -> (r: Option<(usize, usize, usize)>)
    requires
        at <= 12,
    ensures
        r == counts_at(views(fields@), at as int),
{
    if fields.len() < at + 3 {
        return None;
    }
    proof {
        assert(views(fields@)[at as int] == fields@[at as int]@);
        assert(views(fields@)[at + 1] == fields@[at + 1]@);
        assert(views(fields@)[at + 2] == fields@[at + 2]@);
    }
    let x = parse_usize(fields[at].as_slice());
    let y = parse_usize(fields[at + 1].as_slice());
    let z = parse_usize(fields[at + 2].as_slice());
    match (x, y, z) {
        (Some(x), Some(y), Some(z)) => Some((x, y, z)),
        _ => None,
    }
}

/// Reads the base counts from the fields of a position.
pub fn count_bases(fields: &Vec<Vec<u8>>) -> (r: Option<BaseCounts>)
    ensures
        r == base_counts(views(fields@)),
{
    if fields.len() < 3 || fields[0].len() == 0 {
        proof {
            if fields@.len() >= 1 {
                assert(views(fields@)[0] == fields@[0]@);
            }
        }
        return None;
    }
    proof {
        assert(views(fields@)[0] == fields@[0]@);
        assert(views(fields@)[1] == fields@[1]@);
        assert(views(fields@)[2] == fields@[2]@);
    }
    let mutated: usize = match parse_usize(fields[1].as_slice()) {
        Some(v) => v,
        None => 0,
    };
    let depth: usize = match parse_usize(fields[2].as_slice()) {
        Some(v) => v,
        None => 0,
    };
    let rest: usize = if depth >= mutated {
        depth - mutated
    } else {
        0
    };
    let base: u8 = fields[0][0];
    if base == 65 {
        match read_counts(fields, 3) {
            Some((x, y, z)) => Some(BaseCounts { a: rest, c: x, g: y, t: z }),
            None => None,
        }
    } else if base == 67 {
        match read_counts(fields, 6) {
            Some((x, y, z)) => Some(BaseCounts { a: x, c: rest, g: y, t: z }),
            None => None,
        }
    } else if base == 71 {
        match read_counts(fields, 9) {
            Some((x, y, z)) => Some(BaseCounts { a: x, c: y, g: rest, t: z }),
            None => None,
        }
    } else if base == 84 {
        match read_counts(fields, 12) {
            Some((x, y, z)) => Some(BaseCounts { a: x, c: y, g: z, t: rest }),
            None => None,
        }
    } else {
        Some(BaseCounts { a: 0, c: 0, g: 0, t: 0 })
    }
}

/// Appends the counts of the four bases to the info of a position.
pub fn parse_and_extend_info(info: &[u8]) -> (r: Option<Vec<u8>>)
    ensures
        match r {
            Some(out) => extended_info(info@) == Some(out@),
            None => extended_info(info@) is None,
        },
{
    let fields = split_fields(info, 44);
    match count_bases(&fields) {
        Some(n) => {
            let mut out: Vec<u8> = Vec::new();
            push_bytes(&mut out, info);
            out.push(44);
            push_decimal(&mut out, n.a as u128);
            out.push(44);
            push_decimal(&mut out, n.c as u128);
            out.push(44);
            push_decimal(&mut out, n.g as u128);
            out.push(44);
            push_decimal(&mut out, n.t as u128);
            proof {
                assert(out@ =~= info@ + counts_text(n));
            }
            Some(out)
        },
        None => None,
    }
}

/// One observed position of a chromosome.
#[derive(Clone, Debug)]
pub struct Record {
    pub strand: Vec<u8>,
    pub position: usize,
    pub info: Vec<u8>,
}

/// One annotated span of a chromosome.
#[derive(Clone, Debug)]
pub struct BedRecord {
    pub start: usize,
    pub end: usize,
    pub strand: Vec<u8>,
    pub name: Vec<u8>,
    pub tname: Vec<u8>,
}

/// The record lies on the strand and within the span of the annotation.
pub open spec fn passes(bed: BedRecord, rec: Record) -> bool {
    rec.strand@ == bed.strand@ && bed.start <= rec.position <= bed.end
}

/// Record `j` passes, and no record before it that passes has its position.
pub open spec fn first_at(bed: BedRecord, recs: Seq<Record>, j: int) -> bool {
    &&& passes(bed, recs[j])
    &&& forall|i: int|
        0 <= i < j && passes(bed, #[trigger] recs[i]) ==> recs[i].position != recs[j].position
}

/// The indices below `k` of the records that an annotation selects, in
/// ascending order.
pub open spec fn selected(bed: BedRecord, recs: Seq<Record>, k: int) -> Seq<usize>
    decreases k,
{
    if k <= 0 {
        Seq::empty()
    } else if first_at(bed, recs, k - 1) {
        selected(bed, recs, k - 1).push((k - 1) as usize)
    } else {
        selected(bed, recs, k - 1)
    }
}

/// The positions of the records below `k` that pass.
pub open spec fn seen_positions(bed: BedRecord, recs: Seq<Record>, k: int) -> Set<usize> {
    Set::new(
        |p: usize| exists|i: int| 0 <= i < k && passes(bed, #[trigger] recs[i]) && recs[i].position == p,
    )
}

/// The records that an annotation selects: those on its strand and within
/// its span, the first only of each position.
pub fn select_records(bed: &BedRecord, records: &Vec<Record>) -> (picked: Vec<usize>)
    ensures
        picked@ == selected(*bed, records@, records@.len() as int),
        forall|k: int| 0 <= k < picked@.len() ==> #[trigger] picked@[k] < records@.len(),
{
    broadcast use group_hash_axioms;

    let mut picked: Vec<usize> = Vec::new();
    let mut seen: HashSet<usize> = HashSet::new();
    let mut j: usize = 0;
    while j < records.len()
        invariant
            j <= records@.len(),
            picked@ == selected(*bed, records@, j as int),
            seen@ =~= seen_positions(*bed, records@, j as int),
            forall|k: int| 0 <= k < picked@.len() ==> #[trigger] picked@[k] < records@.len(),
        decreases records@.len() - j,
    {
        let r = &records[j];
        let on_strand = bytes_side(r.strand.as_slice(), bed.strand.as_slice()) == Side::Same;
        if on_strand && r.position >= bed.start && r.position <= bed.end {
            let fresh = seen.insert(r.position);
            proof {
                assert(passes(*bed, records@[j as int]));
                assert(fresh == first_at(*bed, records@, j as int)) by {
                    if !fresh {
                        let i = choose|i: int|
                            0 <= i < j && passes(*bed, #[trigger] records@[i])
                                && records@[i].position == r.position;
                    }
                }
                assert(seen@ =~= seen_positions(*bed, records@, j + 1));
            }
            if fresh {
                picked.push(j);
            }
        } else {
            proof {
                assert(!passes(*bed, records@[j as int]));
                assert(seen@ =~= seen_positions(*bed, records@, j + 1));
            }
        }
        j += 1;
    }
    picked
}

/// One line of the report: the chromosome, the gene and transcript of the
/// annotation, the position, the strand, the extended info and a bit.
pub open spec fn line_text(prefix: Seq<u8>, bed: BedRecord, rec: Record, ext: Seq<u8>, bit: u8) -> Seq<
    u8,
> {
    prefix + seq![44u8] + bed.name@ + seq![44u8] + bed.tname@ + seq![44u8] + decimal(
        rec.position as nat,
    ) + seq![44u8] + bed.strand@ + seq![44u8] + ext + seq![44u8] + decimal(bit as nat) + seq![10u8]
}

/// Writes one line of the report; `None` where the info of the record
/// cannot be extended.
pub fn gene_line(prefix: &[u8], bed: &BedRecord, rec: &Record, bit: u8) -> (r: Option<Vec<u8>>)
    ensures
        match r {
            Some(line) => extended_info(rec.info@) is Some && line@ == line_text(
                prefix@,
                *bed,
                *rec,
                extended_info(rec.info@).unwrap(),
                bit,
            ),
            None => extended_info(rec.info@) is None,
        },
{
    match parse_and_extend_info(rec.info.as_slice()) {
        None => None,
        Some(ext) => {
            let mut out: Vec<u8> = Vec::new();
            push_bytes(&mut out, prefix);
            out.push(44);
            push_bytes(&mut out, bed.name.as_slice());
            out.push(44);
            push_bytes(&mut out, bed.tname.as_slice());
            out.push(44);
            push_decimal(&mut out, rec.position as u128);
            out.push(44);
            push_bytes(&mut out, bed.strand.as_slice());
            out.push(44);
            push_bytes(&mut out, ext.as_slice());
            out.push(44);
            push_decimal(&mut out, bit as u128);
            out.push(10);
            proof {
                assert(out@ =~= line_text(prefix@, *bed, *rec, ext@, bit));
            }
            Some(out)
        },
    }
}

/// The lines of one annotation for the chosen records, with the bits in
/// the order of the lines; `None` where an info cannot be extended.
pub open spec fn bed_text(
    prefix: Seq<u8>,
    bed: BedRecord,
    recs: Seq<Record>,
    picked: Seq<usize>,
    bits: Seq<u8>,
) -> Option<Seq<u8>>
    decreases picked.len(),
{
    if picked.len() == 0 {
        Some(Seq::empty())
    } else {
        let rec = recs[picked.last() as int];
        match (
            bed_text(prefix, bed, recs, picked.drop_last(), bits),
            extended_info(rec.info@),
        ) {
            (Some(t), Some(ext)) => Some(
                t + line_text(prefix, bed, rec, ext, bits[picked.len() - 1]),
            ),
            _ => None,
        }
    }
}

/// The thread-local random number generator of the crate `rand`; nothing
/// is seen of its state.
#[verifier::external_type_specification]
#[verifier::external_body]
pub struct ExThreadRng(rand::rngs::ThreadRng);

/// The random number generator of the calling thread.
///
/// Calls `rand::thread_rng`, which hands out the generator that the thread
/// keeps, seeded by the system. Nothing is claimed of the generator. (The
/// call fails only where the system gives no seed at all.)
#[verifier::external_body]
fn thread_generator() -> (rng: ThreadRng) {
    rand::thread_rng()
}

/// A random number between `low` and `high`, both included.
///
/// Calls `rand::Rng::gen_range` on the range `low..=high`. The call panics
/// on an empty range, which `low <= high` rules out, and returns a value
/// within the range; of which value it is, nothing is claimed.
#[verifier::external_body]
fn random_between(rng: &mut ThreadRng, low: u8, high: u8) -> (r: u8)
    requires
        low <= high,
    ensures
        low <= r <= high,
{
    rng.gen_range(low..=high)
}

/// What `process_bed` has done, for the bits it drew: one bit of 0 or 1
/// for each selected record; success exactly where every info could be
/// extended, and then the lines appended.
pub open spec fn bed_outcome(
    prefix: Seq<u8>,
    bed: BedRecord,
    recs: Seq<Record>,
    bits: Seq<u8>,
    ok: bool,
    before: Seq<u8>,
    after: Seq<u8>,
) -> bool {
    let picked = selected(bed, recs, recs.len() as int);
    &&& bits.len() == picked.len()
    &&& forall|k: int| 0 <= k < bits.len() ==> #[trigger] bits[k] <= 1
    &&& ok == bed_text(prefix, bed, recs, picked, bits).is_some()
    &&& ok ==> after == before + bed_text(prefix, bed, recs, picked, bits).unwrap()
    &&& before.len() <= after.len() && after.take(before.len() as int) == before
}

/// Appends the report lines of one annotation to `result`, each with a
/// random bit. Returns `false`, with the lines written up to there, at a
/// record whose info cannot be extended.
pub fn process_bed(
    prefix: &[u8],
    bed: &BedRecord,
    records: &Vec<Record>,
    rng: &mut ThreadRng,
    result: &mut Vec<u8>,
) -> (ok: bool)
    ensures
        exists|bits: Seq<u8>| #[trigger]
            bed_outcome(prefix@, *bed, records@, bits, ok, old(result)@, final(result)@),
{
    let picked = select_records(bed, records);
    let ghost mut bits: Seq<u8> = Seq::empty();
    let mut k: usize = 0;
    proof {
        assert(result@ =~= old(result)@ + Seq::<u8>::empty());
    }
    while k < picked.len()
        invariant
            k <= picked@.len(),
            picked@ == selected(*bed, records@, records@.len() as int),
            forall|i: int| 0 <= i < picked@.len() ==> #[trigger] picked@[i] < records@.len(),
            bits.len() == k,
            forall|i: int| 0 <= i < bits.len() ==> #[trigger] bits[i] <= 1,
            bed_text(prefix@, *bed, records@, picked@.take(k as int), bits) is Some,
            result@ == old(result)@ + bed_text(
                prefix@,
                *bed,
                records@,
                picked@.take(k as int),
                bits,
            ).unwrap(),
        decreases picked@.len() - k,
    {
        let bit = random_between(rng, 0, 1);
        let ghost bits0 = bits;
        let ghost bits1 = bits.push(bit);
        proof {
            assert(picked@.take(k + 1).drop_last() =~= picked@.take(k as int));
            assert(picked@.take(k + 1).last() == picked@[k as int]);
            assert(bits1.take(bits0.len() as int) =~= bits0);
            lemma_bed_text_bits(prefix@, *bed, records@, picked@.take(k as int), bits0, bits1);
        }
        match gene_line(prefix, bed, &records[picked[k]], bit) {
            Some(line) => {
                push_bytes(result, line.as_slice());
                proof {
                    bits = bits1;
                    assert(result@ =~= old(result)@ + bed_text(
                        prefix@,
                        *bed,
                        records@,
                        picked@.take(k + 1),
                        bits,
                    ).unwrap());
                }
            },
            None => {
                proof {
                    let rest = Seq::new((picked@.len() - k - 1) as nat, |i: int| 0u8);
                    let all = bits1 + rest;
                    assert(bed_text(prefix@, *bed, records@, picked@.take(k + 1), bits1) is None);
                    assert(all.take(bits1.len() as int) =~= bits1);
                    lemma_bed_text_bits(prefix@, *bed, records@, picked@.take(k + 1), bits1, all);
                    lemma_bed_text_none_extends(prefix@, *bed, records@, picked@, all, k + 1);
                    assert(result@.take(old(result)@.len() as int) =~= old(result)@);
                    assert(bed_outcome(
                        prefix@,
                        *bed,
                        records@,
                        all,
                        false,
                        old(result)@,
                        result@,
                    ));
                }
                return false;
            },
        }
        k += 1;
    }
    proof {
        assert(picked@.take(k as int) =~= picked@);
        assert(result@.take(old(result)@.len() as int) =~= old(result)@);
        assert(bed_outcome(prefix@, *bed, records@, bits, true, old(result)@, result@));
    }
    true
}

/// Only the bits of the chosen records matter.
pub proof fn lemma_bed_text_bits(
    prefix: Seq<u8>,
    bed: BedRecord,
    recs: Seq<Record>,
    picked: Seq<usize>,
    bits: Seq<u8>,
    more: Seq<u8>,
)
    requires
        picked.len() <= bits.len() <= more.len(),
        more.take(bits.len() as int) == bits,
    ensures
        bed_text(prefix, bed, recs, picked, more) == bed_text(prefix, bed, recs, picked, bits),
    decreases picked.len(),
{
    if picked.len() > 0 {
        lemma_bed_text_bits(prefix, bed, recs, picked.drop_last(), bits, more);
        assert(more.take(bits.len() as int)[picked.len() - 1] == more[picked.len() - 1]);
    }
}

pub proof fn lemma_bed_text_none_extends(
    prefix: Seq<u8>,
    bed: BedRecord,
    recs: Seq<Record>,
    picked: Seq<usize>,
    bits: Seq<u8>,
    k: int,
)
    requires
        0 <= k <= picked.len(),
        bed_text(prefix, bed, recs, picked.take(k), bits) is None,
    ensures
        bed_text(prefix, bed, recs, picked, bits) is None,
    decreases picked.len(),
{
    if k < picked.len() {
        assert(picked.drop_last().take(k) =~= picked.take(k));
        lemma_bed_text_none_extends(prefix, bed, recs, picked.drop_last(), bits, k);
    } else {
        assert(picked.take(k) =~= picked);
    }
}

/// The lines of all annotations, with the bits of each; `None` where an
/// info cannot be extended.
pub open spec fn beds_text(
    prefix: Seq<u8>,
    beds: Seq<BedRecord>,
    recs: Seq<Record>,
    bits: Seq<Seq<u8>>,
) -> Option<Seq<u8>>
    decreases beds.len(),
{
    if beds.len() == 0 {
        Some(Seq::empty())
    } else {
        let bed = beds.last();
        match (
            beds_text(prefix, beds.drop_last(), recs, bits),
            bed_text(
                prefix,
                bed,
                recs,
                selected(bed, recs, recs.len() as int),
                bits[beds.len() - 1],
            ),
        ) {
            (Some(a), Some(b)) => Some(a + b),
            _ => None,
        }
    }
}

/// What `process_records` has done, for the bits it drew: bits of 0 or 1
/// for each annotation; success exactly where every info could be
/// extended, and then the lines appended.
pub open spec fn records_outcome(
    prefix: Seq<u8>,
    beds: Seq<BedRecord>,
    recs: Seq<Record>,
    bits: Seq<Seq<u8>>,
    ok: bool,
    before: Seq<u8>,
    after: Seq<u8>,
) -> bool {
    &&& bits.len() == beds.len()
    &&& forall|n: int, k: int|
        0 <= n < bits.len() && 0 <= k < bits[n].len() ==> #[trigger] bits[n][k] <= 1
    &&& ok == beds_text(prefix, beds, recs, bits).is_some()
    &&& ok ==> after == before + beds_text(prefix, beds, recs, bits).unwrap()
    &&& before.len() <= after.len() && after.take(before.len() as int) == before
}

/// Only the bits of the annotations at hand matter.
pub proof fn lemma_beds_text_bits(
    prefix: Seq<u8>,
    beds: Seq<BedRecord>,
    recs: Seq<Record>,
    bits: Seq<Seq<u8>>,
    more: Seq<Seq<u8>>,
)
    requires
        beds.len() <= bits.len() <= more.len(),
        more.take(bits.len() as int) == bits,
    ensures
        beds_text(prefix, beds, recs, more) == beds_text(prefix, beds, recs, bits),
    decreases beds.len(),
{
    if beds.len() > 0 {
        lemma_beds_text_bits(prefix, beds.drop_last(), recs, bits, more);
        assert(more.take(bits.len() as int)[beds.len() - 1] == more[beds.len() - 1]);
    }
}

pub proof fn lemma_beds_text_none_extends(
    prefix: Seq<u8>,
    beds: Seq<BedRecord>,
    recs: Seq<Record>,
    bits: Seq<Seq<u8>>,
    k: int,
)
    requires
        0 <= k <= beds.len(),
        beds_text(prefix, beds.take(k), recs, bits) is None,
    ensures
        beds_text(prefix, beds, recs, bits) is None,
    decreases beds.len(),
{
    if k < beds.len() {
        assert(beds.drop_last().take(k) =~= beds.take(k));
        lemma_beds_text_none_extends(prefix, beds.drop_last(), recs, bits, k);
    } else {
        assert(beds.take(k) =~= beds);
    }
}

/// Appends the report lines of all annotations of a chromosome to
/// `result`, in the order of the annotations, each line with a random bit.
/// Returns `false`, with the lines written up to there, at a record whose
/// info cannot be extended.
pub fn process_records(
    prefix: &[u8],
    bed_records: &Vec<BedRecord>,
    records: &Vec<Record>,
    result: &mut Vec<u8>,
) -> (ok: bool)
    ensures
        exists|bits: Seq<Seq<u8>>| #[trigger]
            records_outcome(
                prefix@,
                bed_records@,
                records@,
                bits,
                ok,
                old(result)@,
                final(result)@,
            ),
{
    let mut rng = thread_generator();
    let ghost mut bits: Seq<Seq<u8>> = Seq::empty();
    let mut n: usize = 0;
    proof {
        assert(result@ =~= old(result)@ + Seq::<u8>::empty());
    }
    while n < bed_records.len()
        invariant
            n <= bed_records@.len(),
            bits.len() == n,
            forall|i: int, k: int|
                0 <= i < bits.len() && 0 <= k < bits[i].len() ==> #[trigger] bits[i][k] <= 1,
            beds_text(prefix@, bed_records@.take(n as int), records@, bits) is Some,
            result@ == old(result)@ + beds_text(
                prefix@,
                bed_records@.take(n as int),
                records@,
                bits,
            ).unwrap(),
        decreases bed_records@.len() - n,
    {
        let ghost before = result@;
        let ok = process_bed(prefix, &bed_records[n], records, &mut rng, result);
        let ghost b = choose|b: Seq<u8>| #[trigger]
            bed_outcome(prefix@, bed_records@[n as int], records@, b, ok, before, result@);
        let ghost bits0 = bits;
        let ghost bits1 = bits.push(b);
        proof {
            assert(bed_records@.take(n + 1).drop_last() =~= bed_records@.take(n as int));
            assert(bed_records@.take(n + 1).last() == bed_records@[n as int]);
            assert(bits1.take(bits0.len() as int) =~= bits0);
            lemma_beds_text_bits(prefix@, bed_records@.take(n as int), records@, bits0, bits1);
            assert(bits1[n as int] == b);
        }
        if !ok {
            proof {
                let rest = Seq::new(
                    (bed_records@.len() - n - 1) as nat,
                    |i: int| Seq::<u8>::empty(),
                );
                let all = bits1 + rest;
                assert(beds_text(prefix@, bed_records@.take(n + 1), records@, bits1) is None);
                assert(all.take(bits1.len() as int) =~= bits1);
                lemma_beds_text_bits(prefix@, bed_records@.take(n + 1), records@, bits1, all);
                lemma_beds_text_none_extends(prefix@, bed_records@, records@, all, n + 1);
                assert(result@.take(old(result)@.len() as int) =~= old(result)@.take(
                    old(result)@.len() as int,
                )) by {
                    assert(result@.take(before.len() as int) == before);
                    assert(result@.take(old(result)@.len() as int) =~= before.take(
                        old(result)@.len() as int,
                    ));
                }
                assert(old(result)@.take(old(result)@.len() as int) =~= old(result)@);
                assert forall|i: int, k: int|
                    0 <= i < all.len() && 0 <= k < all[i].len() implies #[trigger] all[i][k]
                    <= 1 by {
                    if i < n {
                        assert(all[i] == bits0[i]);
                    }
                }
                assert(records_outcome(
                    prefix@,
                    bed_records@,
                    records@,
                    all,
                    false,
                    old(result)@,
                    result@,
                ));
            }
            return false;
        }
        proof {
            bits = bits1;
            assert forall|i: int, k: int|
                0 <= i < bits.len() && 0 <= k < bits[i].len() implies #[trigger] bits[i][k]
                <= 1 by {
                if i < n {
                    assert(bits[i] == bits0[i]);
                }
            }
            assert(result@ =~= old(result)@ + beds_text(
                prefix@,
                bed_records@.take(n + 1),
                records@,
                bits,
            ).unwrap());
        }
        n += 1;
    }
    proof {
        assert(bed_records@.take(n as int) =~= bed_records@);
        assert(result@.take(old(result)@.len() as int) =~= old(result)@);
        assert(records_outcome(prefix@, bed_records@, records@, bits, true, old(result)@, result@));
    }
    true
}

/// What is left of a comma-separated line after its first `n` fields and
/// their commas; nothing where it has no more than `n` fields.
pub open spec fn after_fields(line: Seq<u8>, n: nat) -> Seq<u8>
    decreases n,
{
    if n == 0 {
        line
    } else {
        let i = position_of(line, 44);
        if i >= line.len() {
            Seq::empty()
        } else {
            after_fields(line.skip(i + 1), (n - 1) as nat)
        }
    }
}

/// Reads one line of the merged table: chromosome, strand, position, and
/// the rest as info. `None` where the line has fewer than three fields or
/// its position is no number.
pub fn parse_record_line(line: &[u8]) -> (r: Option<(Vec<u8>, Record)>)
    ensures
        match r {
            Some((chr, rec)) => {
                &&& split(line@, 44).len() >= 3
                &&& chr@ == split(line@, 44)[0]
                &&& rec.strand@ == split(line@, 44)[1]
                &&& usize_value(split(line@, 44)[2]) == Some(rec.position)
                &&& rec.info@ == after_fields(line@, 3)
            },
            None => split(line@, 44).len() < 3 || usize_value(split(line@, 44)[2]) is None,
        },
{
    let f = split_fields(line, 44);
    if f.len() < 3 {
        return None;
    }
    proof {
        assert(views(f@)[0] == f@[0]@);
        assert(views(f@)[1] == f@[1]@);
        assert(views(f@)[2] == f@[2]@);
    }
    match parse_usize(f[2].as_slice()) {
        None => None,
        Some(position) => {
            let mut rest: &[u8] = line;
            let mut n: usize = 0;
            while n < 3
                invariant
                    n <= 3,
                    after_fields(line@, 3) == after_fields(rest@, (3 - n) as nat),
                decreases 3 - n,
            {
                let i = find_byte(rest, 44);
                if i >= rest.len() {
                    rest = slice_subrange(rest, rest.len(), rest.len());
                    proof {
                        assert(rest@ =~= Seq::<u8>::empty());
                        lemma_after_fields_empty((3 - n - 1) as nat);
                    }
                } else {
                    let ghost before = rest@;
                    rest = slice_subrange(rest, i + 1, rest.len());
                    proof {
                        assert(rest@ =~= before.skip(i + 1));
                    }
                }
                n += 1;
            }
            Some(
                (
                    f[0].clone(),
                    Record { strand: f[1].clone(), position, info: slice_to_vec(rest) },
                ),
            )
        },
    }
}

pub proof fn lemma_after_fields_empty(n: nat)
    ensures
        after_fields(Seq::empty(), n) == Seq::<u8>::empty(),
{
    if n > 0 {
        assert(position_of(Seq::<u8>::empty(), 44) == 0);
    }
}

/// What a line of the annotation table gives.
pub enum BedLine {
    /// The line holds no word.
    Blank,
    /// A chromosome name and its annotation.
    Row(Vec<u8>, BedRecord),
    /// The line has fewer than six words, or its bounds are no numbers.
    Malformed,
}

/// Reads one line of the annotation table: chromosome, start, end, strand,
/// gene and transcript, separated by white space. Of the gene, what stands
/// before its first `=` is kept.
pub fn parse_bed_line(line: &[u8]) -> (r: BedLine)
    ensures
        match r {
            BedLine::Blank => words(line@).len() == 0,
            BedLine::Malformed => words(line@).len() > 0 && (words(line@).len() < 6 || usize_value(
                words(line@)[1],
            ) is None || usize_value(words(line@)[2]) is None),
            BedLine::Row(chr, bed) => {
                let w = words(line@);
                &&& w.len() >= 6
                &&& chr@ == w[0]
                &&& usize_value(w[1]) == Some(bed.start)
                &&& usize_value(w[2]) == Some(bed.end)
                &&& bed.strand@ == w[3]
                &&& bed.name@ == w[4].take(position_of(w[4], 61))
                &&& bed.tname@ == w[5]
            },
        },
{
    let w = split_words(line);
    if w.len() == 0 {
        return BedLine::Blank;
    }
    if w.len() < 6 {
        return BedLine::Malformed;
    }
    proof {
        assert(views(w@)[0] == w@[0]@);
        assert(views(w@)[1] == w@[1]@);
        assert(views(w@)[2] == w@[2]@);
        assert(views(w@)[3] == w@[3]@);
        assert(views(w@)[4] == w@[4]@);
        assert(views(w@)[5] == w@[5]@);
    }
    match (parse_usize(w[1].as_slice()), parse_usize(w[2].as_slice())) {
        (Some(start), Some(end)) => {
            let gene = w[4].as_slice();
            let cut = find_byte(gene, 61);
            let name = slice_to_vec(slice_subrange(gene, 0, cut));
            proof {
                assert(name@ =~= w@[4]@.take(cut as int));
            }
            BedLine::Row(
                w[0].clone(),
                BedRecord { start, end, strand: w[3].clone(), name, tname: w[5].clone() },
            )
        },
        _ => BedLine::Malformed,
    }
}

} // verus!
