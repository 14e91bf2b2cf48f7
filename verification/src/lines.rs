//! The text forms of run-length coded rows and of dense rows.

use crate::codec::{decode, decode_spec, total_count, total_len, Interval, Token, tokens_wf};
use crate::densify::{densify, is_dense_table, DenseRow};
use crate::merge::{bytes_side, Side};
use crate::text::{
    decimal, find_byte, i32_value, parse_i32, parse_usize, position_of, push_bytes, push_decimal,
    push_signed, signed_decimal, split, split_fields, trim, trimmed, usize_value, views,
};
use vstd::prelude::*;
use vstd::slice::*;

verus! {

/// The maximal runs of equal neighbours in a list of fields, each with its
/// length.
pub open spec fn group_runs(parts: Seq<Seq<u8>>) -> Seq<(Seq<u8>, nat)>
    decreases parts.len(),
{
    if parts.len() == 0 {
        Seq::empty()
    } else {
        let g = group_runs(parts.drop_last());
        if g.len() > 0 && g.last().0 == parts.last() {
            g.drop_last().push((parts.last(), g.last().1 + 1))
        } else {
            g.push((parts.last(), 1nat))
        }
    }
}

/// A run of one is written as the field; a longer one as the field, `x` and
/// the length.
pub open spec fn render_run(run: (Seq<u8>, nat)) -> Seq<u8> {
    if run.1 > 1 {
        run.0 + seq![120u8] + decimal(run.1)
    } else {
        run.0
    }
}

/// The runs, written and joined by commas.
pub open spec fn render_runs(g: Seq<(Seq<u8>, nat)>) -> Seq<u8>
    decreases g.len(),
{
    if g.len() == 0 {
        Seq::empty()
    } else if g.len() == 1 {
        render_run(g[0])
    } else {
        render_runs(g.drop_last()) + seq![44u8] + render_run(g.last())
    }
}

/// A line with the comma-separated fields after its first tab run-length
/// coded; a line without a tab as it is.
pub open spec fn compressed_line(line: Seq<u8>) -> Seq<u8> {
    let t = position_of(line, 9);
    if t >= line.len() {
        line
    } else {
        line.take(t) + seq![9u8] + render_runs(group_runs(split(line.skip(t + 1), 44)))
    }
}

fn emit_run(out: &mut Vec<u8>, text: &[u8], count: usize)
    ensures
        final(out)@ == old(out)@ + render_run((text@, count as nat)),
{
    push_bytes(out, text);
    if count > 1 {
        out.push(120);
        push_decimal(out, count as u128);
    }
    proof {
        assert(final(out)@ =~= old(out)@ + render_run((text@, count as nat)));
    }
}

/// Run-length codes the fields of one line.
pub fn process_line(line: &[u8]) -> (out: Vec<u8>)
    ensures
        out@ == compressed_line(line@),
{
    let t = find_byte(line, 9);
    if t == line.len() {
        return slice_to_vec(line);
    }
    let rest = slice_subrange(line, t + 1, line.len());
    let parts = split_fields(rest, 44);
    let mut out: Vec<u8> = Vec::new();
    push_bytes(&mut out, slice_subrange(line, 0, t));
    out.push(9);
    let ghost head = out@;
    let ghost pv = views(parts@);
    proof {
        assert(rest@ =~= line@.skip(t + 1));
        assert(head =~= line@.take(t as int) + seq![9u8]);
        assert(pv.take(1).drop_last() =~= Seq::<Seq<u8>>::empty());
        assert(group_runs(pv.take(1).drop_last()) =~= Seq::<(Seq<u8>, nat)>::empty());
        assert(out@ =~= head + Seq::<u8>::empty());
    }
    let mut count: usize = 1;
    let mut i: usize = 1;
    while i < parts.len()
        invariant
            1 <= i <= parts@.len(),
            pv == views(parts@),
            1 <= count <= i,
            group_runs(pv.take(i as int)).len() >= 1,
            group_runs(pv.take(i as int)).last() == (pv[i - 1], count as nat),
            out@ == head + (if group_runs(pv.take(i as int)).len() > 1 {
                render_runs(group_runs(pv.take(i as int)).drop_last()) + seq![44u8]
            } else {
                Seq::<u8>::empty()
            }),
        decreases parts@.len() - i,
    {
        let ghost g = group_runs(pv.take(i as int));
        proof {
            assert(pv.take(i + 1).drop_last() =~= pv.take(i as int));
            assert(pv.take(i + 1).last() == pv[i as int]);
            assert(pv[i as int] == parts@[i as int]@);
            assert(pv[i - 1] == parts@[i - 1]@);
        }
        if bytes_side(parts[i].as_slice(), parts[i - 1].as_slice()) == Side::Same {
            count += 1;
            proof {
                let g2 = group_runs(pv.take(i + 1));
                assert(g2 == g.drop_last().push((pv[i as int], g.last().1 + 1)));
                assert(g2.drop_last() =~= g.drop_last());
            }
        } else {
            emit_run(&mut out, parts[i - 1].as_slice(), count);
            out.push(44);
            count = 1;
            proof {
                let g2 = group_runs(pv.take(i + 1));
                assert(g2 == g.push((pv[i as int], 1nat)));
                assert(g2.drop_last() =~= g);
                assert(out@ =~= head + (render_runs(g) + seq![44u8]));
            }
        }
        i += 1;
    }
    let ghost g = group_runs(pv.take(i as int));
    proof {
        assert(pv.take(i as int) =~= pv);
    }
    emit_run(&mut out, parts[i - 1].as_slice(), count);
    proof {
        assert(out@ =~= head + render_runs(g));
        assert(out@ =~= compressed_line(line@));
    }
    out
}

/// The token that one item of a coded row writes: `value`, or `value`, `x`
/// and a count of at least one.
pub open spec fn token_of(item: Seq<u8>) -> Option<Token> {
    let parts = split(item, 120);
    if parts.len() >= 2 {
        match (i32_value(parts[0]), usize_value(parts[1])) {
            (Some(v), Some(c)) => if c >= 1 {
                Some(Token { value: v, count: c })
            } else {
                None
            },
            _ => None,
        }
    } else {
        match i32_value(item) {
            Some(v) => Some(Token { value: v, count: 1 }),
            None => None,
        }
    }
}

/// The tokens that the items write, if each writes one.
pub open spec fn tokens_of(items: Seq<Seq<u8>>) -> Option<Seq<Token>>
    decreases items.len(),
{
    if items.len() == 0 {
        Some(Seq::empty())
    } else {
        match (tokens_of(items.drop_last()), token_of(items.last())) {
            (Some(ts), Some(t)) => Some(ts.push(t)),
            _ => None,
        }
    }
}

/// Parses one item of a coded row.
pub fn parse_token(item: &[u8]) -> (r: Option<Token>)
    ensures
        r == token_of(item@),
{
    let parts = split_fields(item, 120);
    if parts.len() >= 2 {
        proof {
            assert(views(parts@)[0] == parts@[0]@);
            assert(views(parts@)[1] == parts@[1]@);
        }
        match (parse_i32(parts[0].as_slice()), parse_usize(parts[1].as_slice())) {
            (Some(v), Some(c)) => {
                if c >= 1 {
                    Some(Token { value: v, count: c })
                } else {
                    None
                }
            },
            _ => None,
        }
    } else {
        match parse_i32(item) {
            Some(v) => Some(Token { value: v, count: 1 }),
            None => None,
        }
    }
}

pub proof fn lemma_tokens_of_wf(items: Seq<Seq<u8>>)
    ensures
        tokens_of(items) is Some ==> tokens_wf(tokens_of(items).unwrap()) && tokens_of(
            items,
        ).unwrap().len() == items.len(),
    decreases items.len(),
{
    if items.len() > 0 {
        lemma_tokens_of_wf(items.drop_last());
    }
}

/// Parses the comma-separated token list of a coded row; `None` where an
/// item is no token.
pub fn parse_tokens(field: &[u8]) -> (r: Option<Vec<Token>>)
    ensures
        match r {
            Some(ts) => tokens_of(split(field@, 44)) == Some(ts@) && tokens_wf(ts@),
            None => tokens_of(split(field@, 44)) is None,
        },
{
    let items = split_fields(field, 44);
    let ghost iv = views(items@);
    let mut tokens: Vec<Token> = Vec::new();
    let mut i: usize = 0;
    while i < items.len()
        invariant
            i <= items@.len(),
            iv == views(items@),
            iv == split(field@, 44),
            tokens_of(iv.take(i as int)) == Some(tokens@),
        decreases items@.len() - i,
    {
        proof {
            assert(iv.take(i + 1).drop_last() =~= iv.take(i as int));
            assert(iv.take(i + 1).last() == items@[i as int]@);
        }
        match parse_token(items[i].as_slice()) {
            Some(t) => {
                tokens.push(t);
            },
            None => {
                proof {
                    assert(token_of(iv.take(i + 1).last()) is None);
                    assert(tokens_of(iv.take(i + 1)) is None);
                    lemma_tokens_none_extends(iv, i + 1);
                }
                return None;
            },
        }
        i += 1;
    }
    proof {
        assert(iv.take(i as int) =~= iv);
        lemma_tokens_of_wf(iv);
    }
    Some(tokens)
}

pub proof fn lemma_tokens_none_extends(items: Seq<Seq<u8>>, k: int)
    requires
        0 <= k <= items.len(),
        tokens_of(items.take(k)) is None,
    ensures
        tokens_of(items) is None,
    decreases items.len(),
{
    if k < items.len() {
        assert(items.drop_last().take(k) =~= items.take(k));
        lemma_tokens_none_extends(items.drop_last(), k);
    } else {
        assert(items.take(k) =~= items);
    }
}

/// The non-zero intervals that a coded data record writes: its second
/// tab-separated field, trimmed, is the token list, and the first run begins
/// at position 0. `None` where the record has no second field, an item is no
/// token, or the runs together exceed the machine's range.
pub open spec fn tokv_spec(record: Seq<u8>) -> Option<Seq<Interval>> {
    let fields = split(record, 9);
    if fields.len() < 2 {
        None
    } else {
        match tokens_of(split(trimmed(fields[1]), 44)) {
            Some(ts) => if total_count(ts) <= usize::MAX {
                Some(decode_spec(ts, 0))
            } else {
                None
            },
            None => None,
        }
    }
}

/// Reads the non-zero intervals of one coded data record.
pub fn tokv(record: &[u8]) -> (r: Option<Vec<Interval>>)
    ensures
        match r {
            Some(ivs) => tokv_spec(record@) == Some(ivs@),
            None => tokv_spec(record@) is None,
        },
{
    let fields = split_fields(record, 9);
    if fields.len() < 2 {
        return None;
    }
    proof {
        assert(views(fields@)[1] == fields@[1]@);
    }
    let list = trim(fields[1].as_slice());
    match parse_tokens(list) {
        Some(tokens) => {
            match total_len(tokens.as_slice()) {
                Some(_n) => Some(decode(tokens.as_slice(), 0)),
                None => None,
            }
        },
        None => None,
    }
}

/// The values of a dense row, each after a comma and a space.
pub open spec fn values_text(values: Seq<i32>) -> Seq<u8>
    decreases values.len(),
{
    if values.len() == 0 {
        Seq::empty()
    } else {
        values_text(values.drop_last()) + seq![44u8, 32u8] + signed_decimal(values.last() as int)
    }
}

/// The text of a dense row: the trimmed title, the position counted from 1,
/// and the values, separated by a comma and a space.
pub open spec fn dense_row_text(title: Seq<u8>, position: usize, values: Seq<i32>) -> Seq<u8> {
    trimmed(title) + seq![44u8, 32u8] + decimal((position + 1) as nat) + values_text(values)
}

/// Writes one dense row under its title.
pub fn format_dense_row(title: &[u8], row: &DenseRow) -> (out: Vec<u8>)
    ensures
        out@ == dense_row_text(title@, row.position, row.values@),
{
    let mut out: Vec<u8> = Vec::new();
    push_bytes(&mut out, trim(title));
    out.push(44);
    out.push(32);
    push_decimal(&mut out, row.position as u128 + 1);
    let ghost head = out@;
    proof {
        assert(head =~= trimmed(title@) + seq![44u8, 32u8] + decimal((row.position + 1) as nat));
    }
    let mut i: usize = 0;
    while i < row.values.len()
        invariant
            i <= row.values@.len(),
            out@ == head + values_text(row.values@.take(i as int)),
        decreases row.values@.len() - i,
    {
        proof {
            assert(row.values@.take(i + 1).drop_last() =~= row.values@.take(i as int));
        }
        out.push(44);
        out.push(32);
        push_signed(&mut out, row.values[i] as i64);
        proof {
            assert(out@ =~= head + values_text(row.values@.take(i + 1)));
        }
        i += 1;
    }
    proof {
        assert(row.values@.take(i as int) =~= row.values@);
    }
    out
}

/// Densifies the columns of one group and writes each row under the
/// group's title.
pub fn outputline(cols: &Vec<Vec<Interval>>, title: &[u8]) -> (lines: Vec<Vec<u8>>)
    ensures
        exists|rows: Seq<DenseRow>|
            {
                &&& is_dense_table(cols@, rows)
                &&& #[trigger] rows.len() == lines@.len()
                &&& forall|i: int|
                    0 <= i < rows.len() ==> (#[trigger] lines@[i])@ == dense_row_text(
                        title@,
                        rows[i].position,
                        rows[i].values@,
                    )
            },
{
    let rows = densify(cols);
    let mut lines: Vec<Vec<u8>> = Vec::new();
    let mut i: usize = 0;
    while i < rows.len()
        invariant
            i <= rows@.len(),
            lines@.len() == i,
            forall|k: int|
                0 <= k < i ==> (#[trigger] lines@[k])@ == dense_row_text(
                    title@,
                    rows@[k].position,
                    rows@[k].values@,
                ),
        decreases rows@.len() - i,
    {
        let line = format_dense_row(title, &rows[i]);
        lines.push(line);
        i += 1;
    }
    proof {
        assert(rows@.len() == lines@.len());
    }
    lines
}

} // verus!
