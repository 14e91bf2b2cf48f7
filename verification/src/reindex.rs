//! Replaces the chromosome and strand of each data line by the number of
//! that pair in an index that grows as new pairs come.

use crate::merge::{bytes_side, Side};
use crate::text::{
    decimal, find_byte, lemma_split_without_sep, position_of, push_bytes, push_decimal, split,
    split_fields, views,
};
use vstd::prelude::*;
use vstd::slice::*;

verus! {

/// The pairs of chromosome and strand seen so far, in the order in which
/// they came.
pub struct PairIndex {
    pub names: Vec<Vec<u8>>,
    pub strands: Vec<Vec<u8>>,
}

impl PairIndex {
    /// Each name has its strand.
    pub open spec fn wf(&self) -> bool {
        self.names@.len() == self.strands@.len()
    }

    /// An index without pairs.
    pub fn new() -> (r: PairIndex)
        ensures
            r.wf(),
            r.names@.len() == 0,
    {
        PairIndex { names: Vec::new(), strands: Vec::new() }
    }
}

/// The pair stands at `i`.
pub open spec fn pair_at(index: PairIndex, i: int, chr: Seq<u8>, strand: Seq<u8>) -> bool {
    index.names@[i]@ == chr && index.strands@[i]@ == strand
}

/// `k` is the place of the pair: the first where it stands, or the length
/// of the index where it stands nowhere.
pub open spec fn is_pair_place(index: PairIndex, k: int, chr: Seq<u8>, strand: Seq<u8>) -> bool {
    &&& 0 <= k <= index.names@.len()
    &&& forall|i: int| 0 <= i < k ==> !#[trigger] pair_at(index, i, chr, strand)
    &&& k < index.names@.len() ==> pair_at(index, k, chr, strand)
}

/// A line after its second comma, with a comma before it; nothing where
/// the line has two fields only.
pub open spec fn tail_after_pair(line: Seq<u8>) -> Seq<u8> {
    let i = position_of(line, 44);
    let rest = line.skip(i + 1);
    let j = position_of(rest, 44);
    if j >= rest.len() {
        Seq::empty()
    } else {
        rest.skip(j)
    }
}

/// Finds the place of a pair in the index.
pub fn find_pair(index: &PairIndex, chr: &[u8], strand: &[u8]) -> (k: usize)
    requires
        index.wf(),
    ensures
        is_pair_place(*index, k as int, chr@, strand@),
{
    let mut k: usize = 0;
    while k < index.names.len()
        invariant
            index.wf(),
            k <= index.names@.len(),
            forall|i: int| 0 <= i < k ==> !#[trigger] pair_at(*index, i, chr@, strand@),
        decreases index.names@.len() - k,
    {
        if bytes_side(index.names[k].as_slice(), chr) == Side::Same && bytes_side(
            index.strands[k].as_slice(),
            strand,
        ) == Side::Same {
            return k;
        }
        k += 1;
    }
    k
}

/// Rewrites one data line: its first two fields, chromosome and strand,
/// give way to the number of that pair, counted from 1; a new pair is added
/// to the index. `None`, and the index unchanged, where the line has fewer
/// than two fields.
pub fn reindex_line(index: &mut PairIndex, line: &[u8]) -> (r: Option<Vec<u8>>)
    requires
        old(index).wf(),
    ensures
        final(index).wf(),
        split(line@, 44).len() < 2 ==> r is None && *final(index) == *old(index),
        split(line@, 44).len() >= 2 ==> exists|k: int|
            {
                &&& #[trigger] is_pair_place(*old(index), k, split(line@, 44)[0], split(line@, 44)[1])
                &&& r is Some
                &&& r.unwrap()@ == decimal((k + 1) as nat) + tail_after_pair(line@)
                &&& k < old(index).names@.len() ==> *final(index) == *old(index)
                &&& k == old(index).names@.len() ==> {
                    &&& views(final(index).names@) == views(old(index).names@).push(
                        split(line@, 44)[0],
                    )
                    &&& views(final(index).strands@) == views(old(index).strands@).push(
                        split(line@, 44)[1],
                    )
                }
            },
{
    let f = split_fields(line, 44);
    if f.len() < 2 {
        return None;
    }
    proof {
        assert(views(f@)[0] == f@[0]@);
        assert(views(f@)[1] == f@[1]@);
    }
    let k = find_pair(index, f[0].as_slice(), f[1].as_slice());
    if k == index.names.len() {
        let ghost nv = views(index.names@);
        let ghost sv = views(index.strands@);
        index.names.push(f[0].clone());
        index.strands.push(f[1].clone());
        proof {
            assert(views(index.names@) =~= nv.push(f@[0]@));
            assert(views(index.strands@) =~= sv.push(f@[1]@));
        }
    }
    let mut out: Vec<u8> = Vec::new();
    push_decimal(&mut out, k as u128 + 1);
    let i = find_byte(line, 44);
    proof {
        if i == line@.len() {
            lemma_split_without_sep(line@, 44);
            assert(views(f@).len() == f@.len());
        }
        assert(i < line@.len());
    }
    let n: usize = line.len();
    let rest = slice_subrange(line, i + 1, n);
    let j = find_byte(rest, 44);
    proof {
        assert(rest@ =~= line@.skip(i + 1));
    }
    if j < rest.len() {
        push_bytes(&mut out, slice_subrange(rest, j, rest.len()));
        proof {
            assert(rest@.subrange(j as int, rest@.len() as int) =~= rest@.skip(j as int));
        }
    }
    proof {
        assert(out@ =~= decimal((k + 1) as nat) + tail_after_pair(line@));
        assert(is_pair_place(*old(index), k as int, split(line@, 44)[0], split(line@, 44)[1]));
    }
    Some(out)
}

} // verus!
