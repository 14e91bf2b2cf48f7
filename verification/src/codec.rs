//! Run-length codec for rows of small integers.

use vstd::prelude::*;

verus! {

/// A run of `count` copies of `value`.
#[derive(Clone, Copy, Debug, PartialEq, Eq, Structural)]
pub struct Token {
    pub value: i32,
    pub count: usize,
}

/// The positions `start..=end` all carry `value`.
#[derive(Clone, Copy, Debug, PartialEq, Eq, Structural)]
pub struct Interval {
    pub value: i32,
    pub start: usize,
    pub end: usize,
}

/// Every run is non-empty.
pub open spec fn tokens_wf(tokens: Seq<Token>) -> bool {
    forall|i: int| 0 <= i < tokens.len() ==> (#[trigger] tokens[i]).count >= 1
}

/// No two neighbouring runs carry the same value.
pub open spec fn runs_maximal(tokens: Seq<Token>) -> bool {
    forall|i: int| 0 < i < tokens.len() ==> (#[trigger] tokens[i]).value != tokens[i - 1].value
}

/// Sum of the run lengths.
pub open spec fn total_count(tokens: Seq<Token>) -> nat
    decreases tokens.len(),
{
    if tokens.len() == 0 {
        0
    } else {
        total_count(tokens.drop_last()) + tokens.last().count as nat
    }
}

/// The dense row that a token list stands for.
pub open spec fn expand(tokens: Seq<Token>) -> Seq<i32>
    decreases tokens.len(),
{
    if tokens.len() == 0 {
        Seq::empty()
    } else {
        expand(tokens.drop_last()) + Seq::new(
            tokens.last().count as nat,
            |k: int| tokens.last().value,
        )
    }
}

/// The non-zero intervals of a token list whose first run begins at `offset`.
pub open spec fn decode_spec(tokens: Seq<Token>, offset: nat) -> Seq<Interval>
    decreases tokens.len(),
{
    if tokens.len() == 0 {
        Seq::empty()
    } else {
        let rest = decode_spec(tokens.drop_last(), offset);
        let last = tokens.last();
        let s = offset + total_count(tokens.drop_last());
        if last.value == 0 {
            rest
        } else {
            rest.push(
                Interval {
                    value: last.value,
                    start: s as usize,
                    end: (s + last.count - 1) as usize,
                },
            )
        }
    }
}

/// Some interval of `ivs` holds position `p` and carries `v`.
pub open spec fn covers(ivs: Seq<Interval>, p: int, v: i32) -> bool {
    exists|i: int|
        0 <= i < ivs.len() && (#[trigger] ivs[i]).start <= p <= ivs[i].end && ivs[i].value == v
}

pub proof fn lemma_expand_len(tokens: Seq<Token>)
    ensures
        expand(tokens).len() == total_count(tokens),
    decreases tokens.len(),
{
    if tokens.len() > 0 {
        lemma_expand_len(tokens.drop_last());
    }
}

pub proof fn lemma_expand_push(tokens: Seq<Token>, t: Token)
    ensures
        expand(tokens.push(t)) == expand(tokens) + Seq::new(t.count as nat, |k: int| t.value),
        total_count(tokens.push(t)) == total_count(tokens) + t.count,
{
    assert(tokens.push(t).drop_last() =~= tokens);
}

/// Encodes a dense row as its maximal runs.
pub fn encode(values: &[i32]) -> (tokens: Vec<Token>)
    ensures
        expand(tokens@) == values@,
        tokens_wf(tokens@),
        runs_maximal(tokens@),
        total_count(tokens@) == values@.len(),
{
    let mut tokens: Vec<Token> = Vec::new();
    let n: usize = values.len();
    let mut i: usize = 0;
    while i < n
        invariant
            n == values@.len(),
            i <= n,
            expand(tokens@) == values@.take(i as int),
            tokens_wf(tokens@),
            runs_maximal(tokens@),
            tokens@.len() > 0 && i < n ==> tokens@.last().value != values@[i as int],
        decreases n - i,
    {
        let v: i32 = values[i];
        let mut j: usize = i + 1;
        while j < n && values[j] == v
            invariant
                n == values@.len(),
                i < j <= n,
                forall|k: int| i <= k < j ==> values@[k] == v,
            decreases n - j,
        {
            j += 1;
        }
        let t = Token { value: v, count: j - i };
        proof {
            lemma_expand_push(tokens@, t);
            assert(values@.take(j as int) =~= values@.take(i as int) + Seq::new(
                t.count as nat,
                |k: int| t.value,
            ));
        }
        tokens.push(t);
        i = j;
    }
    proof {
        assert(values@.take(n as int) =~= values@);
        lemma_expand_len(tokens@);
    }
    tokens
}

/// Rebuilds the non-zero intervals of a row from its tokens; the first run
/// begins at position `offset`.
pub fn decode(tokens: &[Token], offset: usize) -> (ivs: Vec<Interval>)
    requires
        tokens_wf(tokens@),
        offset + total_count(tokens@) <= usize::MAX,
    ensures
        ivs@ == decode_spec(tokens@, offset as nat),
{
    let mut ivs: Vec<Interval> = Vec::new();
    let mut pos: usize = offset;
    let mut i: usize = 0;
    while i < tokens.len()
        invariant
            i <= tokens@.len(),
            tokens_wf(tokens@),
            offset + total_count(tokens@) <= usize::MAX,
            pos == offset + total_count(tokens@.take(i as int)),
            ivs@ == decode_spec(tokens@.take(i as int), offset as nat),
        decreases tokens@.len() - i,
    {
        let t = tokens[i];
        proof {
            assert(tokens@.take(i + 1).drop_last() =~= tokens@.take(i as int));
            lemma_total_count_prefix(tokens@, i + 1);
        }
        if t.value != 0 {
            ivs.push(Interval { value: t.value, start: pos, end: pos + (t.count - 1) });
        }
        pos = pos + t.count;
        i += 1;
    }
    proof {
        assert(tokens@.take(i as int) =~= tokens@);
    }
    ivs
}

pub proof fn lemma_total_count_prefix(tokens: Seq<Token>, k: int)
    requires
        0 <= k <= tokens.len(),
    ensures
        total_count(tokens.take(k)) <= total_count(tokens),
    decreases tokens.len(),
{
    if k < tokens.len() {
        lemma_total_count_prefix(tokens.drop_last(), k);
        assert(tokens.drop_last().take(k) =~= tokens.take(k));
    } else {
        assert(tokens.take(k) =~= tokens);
    }
}

/// Decoding the tokens of a row gives back exactly its non-zero cells: an
/// interval of the decoded list covers position `p` with value `v` if and
/// only if the row holds the non-zero value `v` at `p - offset`.
pub proof fn lemma_decode_roundtrip(tokens: Seq<Token>, offset: nat, p: int, v: i32)
    requires
        tokens_wf(tokens),
        offset + total_count(tokens) <= usize::MAX,
    ensures
        covers(decode_spec(tokens, offset), p, v) <==> (v != 0 && offset <= p < offset + expand(
            tokens,
        ).len() && expand(tokens)[p - offset] == v),
    decreases tokens.len(),
{
    if tokens.len() > 0 {
        let front = tokens.drop_last();
        let last = tokens.last();
        lemma_decode_roundtrip(front, offset, p, v);
        lemma_expand_len(front);
        lemma_expand_len(tokens);
        let rest = decode_spec(front, offset);
        let s = offset + total_count(front);
        let all = decode_spec(tokens, offset);
        if last.value != 0 {
            let iv = Interval {
                value: last.value,
                start: s as usize,
                end: (s + last.count - 1) as usize,
            };
            assert(all == rest.push(iv));
            if covers(all, p, v) {
                let i = choose|i: int|
                    0 <= i < all.len() && (#[trigger] all[i]).start <= p <= all[i].end
                        && all[i].value == v;
                if i < rest.len() {
                    assert(rest[i] == all[i]);
                }
            }
            if covers(rest, p, v) {
                let i = choose|i: int|
                    0 <= i < rest.len() && (#[trigger] rest[i]).start <= p <= rest[i].end
                        && rest[i].value == v;
                assert(all[i] == rest[i]);
            }
            if v != 0 && s <= p < s + last.count && last.value == v {
                assert(all[rest.len() as int] == iv);
            }
        }
    }
}

/// Decoding what `encode` made of a row gives back its non-zero cells.
pub proof fn lemma_encode_decode(values: Seq<i32>, tokens: Seq<Token>, p: int, v: i32)
    requires
        tokens_wf(tokens),
        expand(tokens) == values,
        values.len() <= usize::MAX,
    ensures
        covers(decode_spec(tokens, 0), p, v) <==> (v != 0 && 0 <= p < values.len() && values[p]
            == v),
{
    lemma_expand_len(tokens);
    lemma_decode_roundtrip(tokens, 0, p, v);
}

/// The number of positions that the tokens span, where it fits a `usize`.
pub fn total_len(tokens: &[Token]) -> (r: Option<usize>)
    ensures
        r == (if total_count(tokens@) <= usize::MAX {
            Some(total_count(tokens@) as usize)
        } else {
            None
        }),
{
    let mut sum: usize = 0;
    let mut i: usize = 0;
    while i < tokens.len()
        invariant
            i <= tokens@.len(),
            sum == total_count(tokens@.take(i as int)),
        decreases tokens@.len() - i,
    {
        proof {
            assert(tokens@.take(i + 1).drop_last() =~= tokens@.take(i as int));
            lemma_total_count_prefix(tokens@, i + 1);
        }
        if tokens[i].count > usize::MAX - sum {
            return None;
        }
        sum = sum + tokens[i].count;
        i += 1;
    }
    proof {
        assert(tokens@.take(i as int) =~= tokens@);
    }
    Some(sum)
}

/// Whether the tokens span exactly `width` positions, as a row of that
/// width must.
pub fn has_width(tokens: &[Token], width: usize) -> (r: bool)
    ensures
        r == (total_count(tokens@) == width),
{
    match total_len(tokens) {
        Some(n) => n == width,
        None => false,
    }
}

} // verus!
