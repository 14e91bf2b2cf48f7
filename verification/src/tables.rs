//! The three source tables of the merge as text lines, and the merged table
//! as comma-separated rows.

use crate::merge::{
    GeneEntry, KeyView, Patch, PatchView, PositionKey, RowView, SourceRow, MUTATION_WIDTH,
};
use crate::merge::{all_mutation, all_termination, all_truncation, row_views};
use crate::text::{
    decimal, first_byte, first_of, has_prefix, i32_value, is_space, parse_i32, parse_u32,
    parse_usize, push_bytes, push_decimal, push_signed, signed_decimal, split_trimmed,
    split_words, starts_with, trimmed_fields, u32_value, usize_value, views, words,
};
use vstd::prelude::*;
use vstd::slice::*;
use vstd::string::*;

verus! {

/// A line that begins with `@` carries metadata, no data.
pub open spec fn is_meta(line: Seq<u8>) -> bool {
    line.len() > 0 && line[0] == 64
}

/// The row that a line of the termination table writes, on the `+` strand:
/// name, position, base, count and depth. A metadata line, one of fewer than
/// five fields or one whose numbers cannot be read gives none.
pub open spec fn termination_row(line: Seq<u8>) -> Option<RowView> {
    let p = trimmed_fields(line);
    if is_meta(line) || p.len() < 5 {
        None
    } else {
        match (u32_value(p[1]), i32_value(p[3]), i32_value(p[4])) {
            (Some(position), Some(rt), Some(bd)) => Some(
                RowView {
                    key: KeyView { chr: p[0], strand: 43, position },
                    patch: PatchView::Termination { base1: first_byte(p[2]), rt_1: rt, bd_1: bd },
                },
            ),
            _ => None,
        }
    }
}

/// A count that cannot be read counts as 0.
pub open spec fn i32_or_zero(s: Seq<u8>) -> i32 {
    match i32_value(s) {
        Some(v) => v,
        None => 0,
    }
}

/// The row that a line of the mutation table writes, on the `+` strand:
/// name, position and fourteen counts. A metadata line, one of fewer than
/// sixteen fields or one whose position cannot be read gives none.
pub open spec fn mutation_row(line: Seq<u8>) -> Option<RowView> {
    let p = trimmed_fields(line);
    if is_meta(line) || p.len() < 16 {
        None
    } else {
        match u32_value(p[1]) {
            Some(position) => Some(
                RowView {
                    key: KeyView { chr: p[0], strand: 43, position },
                    patch: PatchView::Mutation {
                        mutations: Seq::new(14, |i: int| i32_or_zero(p[i + 2])),
                    },
                },
            ),
            None => None,
        }
    }
}

/// What a line of the truncation table gives.
pub enum Parsed {
    /// A row.
    Row(SourceRow),
    /// Nothing: the line is skipped.
    Skip,
    /// The line names a chromosome that the index tables do not hold.
    BadIndex,
}

pub enum ParsedView {
    Row(RowView),
    Skip,
    BadIndex,
}

impl View for Parsed {
    type V = ParsedView;

    open spec fn view(&self) -> ParsedView {
        match *self {
            Parsed::Row(r) => ParsedView::Row(r@),
            Parsed::Skip => ParsedView::Skip,
            Parsed::BadIndex => ParsedView::BadIndex,
        }
    }
}

/// What a line of the truncation table writes: the number of a chromosome
/// (counted from 1) in the two index tables, position, base, count and
/// depth. A metadata line, one of fewer than five fields or one whose
/// numbers cannot be read is skipped; a chromosome number outside the
/// tables is an error.
pub open spec fn truncation_row(line: Seq<u8>, names: Seq<Seq<u8>>, strands: Seq<u8>) -> ParsedView {
    let p = trimmed_fields(line);
    if is_meta(line) || p.len() < 5 {
        ParsedView::Skip
    } else {
        match usize_value(p[0]) {
            None => ParsedView::Skip,
            Some(n) => if n == 0 || n > names.len() || n > strands.len() {
                ParsedView::BadIndex
            } else {
                match (u32_value(p[1]), i32_value(p[3]), i32_value(p[4])) {
                    (Some(position), Some(rt), Some(bd)) => ParsedView::Row(
                        RowView {
                            key: KeyView { chr: names[n - 1], strand: strands[n - 1], position },
                            patch: PatchView::Truncation {
                                base3: first_byte(p[2]),
                                rt_3: rt,
                                bd_3: bd,
                            },
                        },
                    ),
                    _ => ParsedView::Skip,
                }
            },
        }
    }
}

/// Reads one line of the termination table.
pub fn parse_termination_line(line: &[u8]) -> (r: Option<SourceRow>)
    ensures
        match r {
            Some(row) => termination_row(line@) == Some(row@),
            None => termination_row(line@) is None,
        },
{
    if line.len() > 0 && line[0] == 64 {
        return None;
    }
    let p = split_trimmed(line);
    if p.len() < 5 {
        return None;
    }
    proof {
        assert(views(p@)[0] == p@[0]@);
        assert(views(p@)[1] == p@[1]@);
        assert(views(p@)[2] == p@[2]@);
        assert(views(p@)[3] == p@[3]@);
        assert(views(p@)[4] == p@[4]@);
    }
    let position = parse_u32(p[1].as_slice());
    let rt = parse_i32(p[3].as_slice());
    let bd = parse_i32(p[4].as_slice());
    match (position, rt, bd) {
        (Some(position), Some(rt), Some(bd)) => Some(
            SourceRow {
                key: PositionKey { chr_id: p[0].clone(), strand: 43, position },
                patch: Patch::Termination { base1: first_of(p[2].as_slice()), rt_1: rt, bd_1: bd },
            },
        ),
        _ => None,
    }
}

/// Reads one line of the mutation table.
pub fn parse_mutation_line(line: &[u8]) -> (r: Option<SourceRow>)
    ensures
        match r {
            Some(row) => mutation_row(line@) == Some(row@),
            None => mutation_row(line@) is None,
        },
{
    if line.len() > 0 && line[0] == 64 {
        return None;
    }
    let p = split_trimmed(line);
    if p.len() < 16 {
        return None;
    }
    proof {
        assert(views(p@)[0] == p@[0]@);
        assert(views(p@)[1] == p@[1]@);
    }
    match parse_u32(p[1].as_slice()) {
        Some(position) => {
            let mut mutations: [i32; 14] = [0i32; 14];
            let mut i: usize = 0;
            while i < MUTATION_WIDTH
                invariant
                    i <= MUTATION_WIDTH,
                    p@.len() >= 16,
                    forall|k: int|
                        0 <= k < i ==> #[trigger] mutations@[k] == i32_or_zero(views(p@)[k + 2]),
                decreases MUTATION_WIDTH - i,
            {
                proof {
                    assert(views(p@)[i + 2] == p@[i + 2]@);
                }
                let v: i32 = match parse_i32(p[i + 2].as_slice()) {
                    Some(v) => v,
                    None => 0,
                };
                mutations[i] = v;
                i += 1;
            }
            proof {
                assert(mutations@ =~= Seq::new(14, |i: int| i32_or_zero(views(p@)[i + 2])));
            }
            Some(
                SourceRow {
                    key: PositionKey { chr_id: p[0].clone(), strand: 43, position },
                    patch: Patch::Mutation { mutations },
                },
            )
        },
        None => None,
    }
}

/// Reads one line of the truncation table against the two index tables.
pub fn parse_truncation_line(line: &[u8], names: &Vec<Vec<u8>>, strands: &Vec<u8>) -> (r: Parsed)
    ensures
        r@ == truncation_row(line@, views(names@), strands@),
{
    if line.len() > 0 && line[0] == 64 {
        return Parsed::Skip;
    }
    let p = split_trimmed(line);
    if p.len() < 5 {
        return Parsed::Skip;
    }
    proof {
        assert(views(p@)[0] == p@[0]@);
        assert(views(p@)[1] == p@[1]@);
        assert(views(p@)[2] == p@[2]@);
        assert(views(p@)[3] == p@[3]@);
        assert(views(p@)[4] == p@[4]@);
    }
    match parse_usize(p[0].as_slice()) {
        None => Parsed::Skip,
        Some(n) => {
            if n == 0 || n > names.len() || n > strands.len() {
                return Parsed::BadIndex;
            }
            proof {
                assert(views(names@)[n - 1] == names@[n - 1]@);
            }
            let position = parse_u32(p[1].as_slice());
            let rt = parse_i32(p[3].as_slice());
            let bd = parse_i32(p[4].as_slice());
            match (position, rt, bd) {
                (Some(position), Some(rt), Some(bd)) => Parsed::Row(
                    SourceRow {
                        key: PositionKey {
                            chr_id: names[n - 1].clone(),
                            strand: strands[n - 1],
                            position,
                        },
                        patch: Patch::Truncation {
                            base3: first_of(p[2].as_slice()),
                            rt_3: rt,
                            bd_3: bd,
                        },
                    },
                ),
                _ => Parsed::Skip,
            }
        },
    }
}

/// The chromosome names of an index line: its words but the first.
pub open spec fn index_names(line: Seq<u8>) -> Seq<Seq<u8>> {
    if words(line).len() == 0 {
        Seq::empty()
    } else {
        words(line).skip(1)
    }
}

/// The strands of a strand line: the first byte of each word but the first.
pub open spec fn index_strands(line: Seq<u8>) -> Seq<u8> {
    Seq::new(index_names(line).len(), |i: int| index_names(line)[i][0])
}

/// Reads the chromosome names of an index line.
pub fn parse_index_names(line: &[u8]) -> (r: Vec<Vec<u8>>)
    ensures
        views(r@) == index_names(line@),
{
    let mut w = split_words(line);
    if w.len() > 0 {
        let ghost before = views(w@);
        w.remove(0);
        proof {
            assert(views(w@) =~= before.skip(1));
        }
    } else {
        proof {
            assert(views(w@) =~= Seq::<Seq<u8>>::empty());
        }
    }
    w
}

pub proof fn lemma_words_nonempty(s: Seq<u8>, k: int)
    requires
        0 <= k < words(s).len(),
    ensures
        words(s)[k].len() > 0,
    decreases s.len(),
{
    if s.len() > 0 {
        let w = words(s.drop_last());
        if is_space(s.last()) {
            lemma_words_nonempty(s.drop_last(), k);
        } else if s.len() >= 2 && !is_space(s[s.len() - 2]) && w.len() > 0 {
            if k < w.len() - 1 {
                lemma_words_nonempty(s.drop_last(), k);
            }
        } else {
            if k < w.len() {
                lemma_words_nonempty(s.drop_last(), k);
            }
        }
    }
}

/// Reads the strands of a strand line.
pub fn parse_index_strands(line: &[u8]) -> (r: Vec<u8>)
    ensures
        r@ == index_strands(line@),
{
    let w = split_words(line);
    let mut r: Vec<u8> = Vec::new();
    if w.len() == 0 {
        proof {
            assert(r@ =~= index_strands(line@));
        }
        return r;
    }
    let mut i: usize = 1;
    while i < w.len()
        invariant
            1 <= i <= w@.len(),
            views(w@) == words(line@),
            r@.len() == i - 1,
            forall|k: int| 0 <= k < i - 1 ==> #[trigger] r@[k] == w@[k + 1]@[0],
        decreases w@.len() - i,
    {
        proof {
            lemma_words_nonempty(line@, i as int);
            assert(views(w@)[i as int] == w@[i as int]@);
        }
        r.push(w[i][0]);
        i += 1;
    }
    proof {
        assert forall|k: int| 0 <= k < r@.len() implies r@[k] == index_strands(line@)[k] by {
            assert(views(w@)[k + 1] == w@[k + 1]@);
        }
        assert(r@ =~= index_strands(line@));
    }
    r
}

/// A base as it is written: `N` where there is none.
pub open spec fn base_or_n(b: Option<u8>) -> u8 {
    match b {
        Some(c) => c,
        None => 78,
    }
}

/// A count as it is written: 0 where there is none.
pub open spec fn count_or_zero(v: Option<i32>) -> int {
    match v {
        Some(n) => n as int,
        None => 0,
    }
}

/// The first `k` mutation counts, each after a comma.
pub open spec fn mutations_text(m: Seq<i32>, k: int) -> Seq<u8>
    decreases k,
{
    if k <= 0 {
        Seq::empty()
    } else {
        mutations_text(m, k - 1) + seq![44u8] + signed_decimal(m[k - 1] as int)
    }
}

/// The comma-separated row of a merged entry: key, the termination fields,
/// the fourteen mutation counts and the truncation fields.
pub open spec fn csv_row_text(e: GeneEntry) -> Seq<u8> {
    e.key.chr_id@ + seq![44u8, e.key.strand, 44u8] + decimal(e.key.position as nat) + seq![
        44u8,
        base_or_n(e.base1),
        44u8,
    ] + signed_decimal(count_or_zero(e.rt_1)) + seq![44u8] + signed_decimal(count_or_zero(e.bd_1))
        + mutations_text(e.mutations@, 14) + seq![44u8, base_or_n(e.base3), 44u8] + signed_decimal(
        count_or_zero(e.rt_3),
    ) + seq![44u8] + signed_decimal(count_or_zero(e.bd_3))
}

fn push_count(out: &mut Vec<u8>, v: Option<i32>)
    ensures
        final(out)@ == old(out)@ + signed_decimal(count_or_zero(v)),
{
    match v {
        Some(n) => push_signed(out, n as i64),
        None => push_signed(out, 0),
    }
}

fn push_base(out: &mut Vec<u8>, b: Option<u8>)
    ensures
        final(out)@ == old(out)@ + seq![base_or_n(b)],
{
    match b {
        Some(c) => out.push(c),
        None => out.push(78),
    }
    proof {
        assert(final(out)@ =~= old(out)@ + seq![base_or_n(b)]);
    }
}

/// Writes the row of one merged entry.
pub fn csv_row(e: &GeneEntry) -> (out: Vec<u8>)
    ensures
        out@ == csv_row_text(*e),
{
    let mut out: Vec<u8> = Vec::new();
    push_bytes(&mut out, e.key.chr_id.as_slice());
    out.push(44);
    out.push(e.key.strand);
    out.push(44);
    push_decimal(&mut out, e.key.position as u128);
    out.push(44);
    push_base(&mut out, e.base1);
    out.push(44);
    push_count(&mut out, e.rt_1);
    out.push(44);
    push_count(&mut out, e.bd_1);
    let ghost head = out@;
    proof {
        assert(head =~= e.key.chr_id@ + seq![44u8, e.key.strand, 44u8] + decimal(
            e.key.position as nat,
        ) + seq![44u8, base_or_n(e.base1), 44u8] + signed_decimal(count_or_zero(e.rt_1)) + seq![
            44u8,
        ] + signed_decimal(count_or_zero(e.bd_1)));
    }
    let mut i: usize = 0;
    while i < MUTATION_WIDTH
        invariant
            i <= MUTATION_WIDTH,
            out@ == head + mutations_text(e.mutations@, i as int),
        decreases MUTATION_WIDTH - i,
    {
        out.push(44);
        push_signed(&mut out, e.mutations[i] as i64);
        proof {
            assert(out@ =~= head + mutations_text(e.mutations@, i + 1));
        }
        i += 1;
    }
    out.push(44);
    push_base(&mut out, e.base3);
    out.push(44);
    push_count(&mut out, e.rt_3);
    out.push(44);
    push_count(&mut out, e.bd_3);
    proof {
        assert(out@ =~= csv_row_text(*e));
    }
    out
}

/// The rows of the termination table, in the order of their lines.
pub open spec fn termination_rows(lines: Seq<Seq<u8>>) -> Seq<RowView>
    decreases lines.len(),
{
    if lines.len() == 0 {
        Seq::empty()
    } else {
        match termination_row(lines.last()) {
            Some(r) => termination_rows(lines.drop_last()).push(r),
            None => termination_rows(lines.drop_last()),
        }
    }
}

/// The rows of the mutation table, in the order of their lines.
pub open spec fn mutation_rows(lines: Seq<Seq<u8>>) -> Seq<RowView>
    decreases lines.len(),
{
    if lines.len() == 0 {
        Seq::empty()
    } else {
        match mutation_row(lines.last()) {
            Some(r) => mutation_rows(lines.drop_last()).push(r),
            None => mutation_rows(lines.drop_last()),
        }
    }
}

/// The rows of the truncation table, in the order of their lines; `None`
/// where a line names a chromosome outside the index tables.
pub open spec fn truncation_rows(lines: Seq<Seq<u8>>, names: Seq<Seq<u8>>, strands: Seq<u8>) -> Option<
    Seq<RowView>,
>
    decreases lines.len(),
{
    if lines.len() == 0 {
        Some(Seq::empty())
    } else {
        match truncation_rows(lines.drop_last(), names, strands) {
            None => None,
            Some(rows) => match truncation_row(lines.last(), names, strands) {
                ParsedView::Row(r) => Some(rows.push(r)),
                ParsedView::Skip => Some(rows),
                ParsedView::BadIndex => None,
            },
        }
    }
}

/// The tag of the line that lists the chromosome names.
pub open spec fn names_tag() -> Seq<u8> {
    "@ChrID_Index".spec_bytes()
}

/// The tag of the line that lists the strands.
pub open spec fn strands_tag() -> Seq<u8> {
    "@ChrID_Strand".spec_bytes()
}

/// The chromosome names that the last index line among `lines` lists.
pub open spec fn names_of(lines: Seq<Seq<u8>>) -> Seq<Seq<u8>>
    decreases lines.len(),
{
    if lines.len() == 0 {
        Seq::empty()
    } else if has_prefix(lines.last(), names_tag()) {
        index_names(lines.last())
    } else {
        names_of(lines.drop_last())
    }
}

/// The strands that the last strand line among `lines` lists; a line that
/// lists names is no strand line.
pub open spec fn strands_of(lines: Seq<Seq<u8>>) -> Seq<u8>
    decreases lines.len(),
{
    if lines.len() == 0 {
        Seq::empty()
    } else if !has_prefix(lines.last(), names_tag()) && has_prefix(lines.last(), strands_tag()) {
        index_strands(lines.last())
    } else {
        strands_of(lines.drop_last())
    }
}

/// Reads the termination table from its lines.
pub fn parse_file1(lines: &Vec<Vec<u8>>) -> (rows: Vec<SourceRow>)
    ensures
        row_views(rows@) == termination_rows(views(lines@)),
{
    let mut rows: Vec<SourceRow> = Vec::new();
    let ghost lv = views(lines@);
    let mut i: usize = 0;
    proof {
        assert(row_views(rows@) =~= termination_rows(lv.take(0)));
    }
    while i < lines.len()
        invariant
            i <= lines@.len(),
            lv == views(lines@),
            row_views(rows@) == termination_rows(lv.take(i as int)),
        decreases lines@.len() - i,
    {
        proof {
            assert(lv.take(i + 1).drop_last() =~= lv.take(i as int));
            assert(lv.take(i + 1).last() == lines@[i as int]@);
        }
        let ghost before = row_views(rows@);
        match parse_termination_line(lines[i].as_slice()) {
            Some(row) => {
                let ghost rv = row@;
                rows.push(row);
                proof {
                    assert(row_views(rows@) =~= before.push(rv));
                }
            },
            None => {},
        }
        i += 1;
    }
    proof {
        assert(lv.take(i as int) =~= lv);
    }
    rows
}

/// Reads the mutation table from its lines.
pub fn parse_file2(lines: &Vec<Vec<u8>>) -> (rows: Vec<SourceRow>)
    ensures
        row_views(rows@) == mutation_rows(views(lines@)),
{
    let mut rows: Vec<SourceRow> = Vec::new();
    let ghost lv = views(lines@);
    let mut i: usize = 0;
    proof {
        assert(row_views(rows@) =~= mutation_rows(lv.take(0)));
    }
    while i < lines.len()
        invariant
            i <= lines@.len(),
            lv == views(lines@),
            row_views(rows@) == mutation_rows(lv.take(i as int)),
        decreases lines@.len() - i,
    {
        proof {
            assert(lv.take(i + 1).drop_last() =~= lv.take(i as int));
            assert(lv.take(i + 1).last() == lines@[i as int]@);
        }
        let ghost before = row_views(rows@);
        match parse_mutation_line(lines[i].as_slice()) {
            Some(row) => {
                let ghost rv = row@;
                rows.push(row);
                proof {
                    assert(row_views(rows@) =~= before.push(rv));
                }
            },
            None => {},
        }
        i += 1;
    }
    proof {
        assert(lv.take(i as int) =~= lv);
    }
    rows
}

/// Reads the two index tables from the lines of the truncation table.
pub fn parse_index_tables(lines: &Vec<Vec<u8>>) -> (r: (Vec<Vec<u8>>, Vec<u8>))
    ensures
        views(r.0@) == names_of(views(lines@)),
        r.1@ == strands_of(views(lines@)),
{
    let mut names: Vec<Vec<u8>> = Vec::new();
    let mut strands: Vec<u8> = Vec::new();
    let ghost lv = views(lines@);
    let mut i: usize = 0;
    proof {
        assert(views(names@) =~= names_of(lv.take(0)));
        assert(strands@ =~= strands_of(lv.take(0)));
    }
    while i < lines.len()
        invariant
            i <= lines@.len(),
            lv == views(lines@),
            views(names@) == names_of(lv.take(i as int)),
            strands@ == strands_of(lv.take(i as int)),
        decreases lines@.len() - i,
    {
        proof {
            assert(lv.take(i + 1).drop_last() =~= lv.take(i as int));
            assert(lv.take(i + 1).last() == lines@[i as int]@);
        }
        let line = lines[i].as_slice();
        if starts_with(line, "@ChrID_Index".as_bytes()) {
            names = parse_index_names(line);
        } else if starts_with(line, "@ChrID_Strand".as_bytes()) {
            strands = parse_index_strands(line);
        }
        i += 1;
    }
    proof {
        assert(lv.take(i as int) =~= lv);
    }
    (names, strands)
}

/// Reads the truncation table from its lines: first the index tables, then
/// the rows. `None` where a line names a chromosome outside the tables.
pub fn parse_file3(lines: &Vec<Vec<u8>>) -> (r: Option<Vec<SourceRow>>)
    ensures
        match r {
            Some(rows) => truncation_rows(
                views(lines@),
                names_of(views(lines@)),
                strands_of(views(lines@)),
            ) == Some(row_views(rows@)),
            None => truncation_rows(
                views(lines@),
                names_of(views(lines@)),
                strands_of(views(lines@)),
            ) is None,
        },
{
    let (names, strands) = parse_index_tables(lines);
    let mut rows: Vec<SourceRow> = Vec::new();
    let ghost lv = views(lines@);
    let ghost nv = views(names@);
    let mut i: usize = 0;
    proof {
        assert(row_views(rows@) =~= Seq::<RowView>::empty());
    }
    while i < lines.len()
        invariant
            i <= lines@.len(),
            lv == views(lines@),
            nv == views(names@),
            nv == names_of(lv),
            strands@ == strands_of(lv),
            truncation_rows(lv.take(i as int), nv, strands@) == Some(row_views(rows@)),
        decreases lines@.len() - i,
    {
        proof {
            assert(lv.take(i + 1).drop_last() =~= lv.take(i as int));
            assert(lv.take(i + 1).last() == lines@[i as int]@);
        }
        let ghost before = row_views(rows@);
        match parse_truncation_line(lines[i].as_slice(), &names, &strands) {
            Parsed::Row(row) => {
                let ghost rv = row@;
                rows.push(row);
                proof {
                    assert(row_views(rows@) =~= before.push(rv));
                }
            },
            Parsed::Skip => {},
            Parsed::BadIndex => {
                proof {
                    assert(truncation_row(lv.take(i + 1).last(), nv, strands@) is BadIndex);
                    assert(truncation_rows(lv.take(i + 1), nv, strands@) is None);
                    lemma_truncation_none_extends(lv, nv, strands@, i + 1);
                }
                return None;
            },
        }
        i += 1;
    }
    proof {
        assert(lv.take(i as int) =~= lv);
    }
    Some(rows)
}

pub proof fn lemma_truncation_none_extends(
    lines: Seq<Seq<u8>>,
    names: Seq<Seq<u8>>,
    strands: Seq<u8>,
    k: int,
)
    requires
        0 <= k <= lines.len(),
        truncation_rows(lines.take(k), names, strands) is None,
    ensures
        truncation_rows(lines, names, strands) is None,
    decreases lines.len(),
{
    if k < lines.len() {
        assert(lines.drop_last().take(k) =~= lines.take(k));
        lemma_truncation_none_extends(lines.drop_last(), names, strands, k);
    } else {
        assert(lines.take(k) =~= lines);
    }
}

/// The heading of the merged table.
pub fn csv_header() -> (r: Vec<u8>)
    ensures
        r@ == "ChrID,Strand,Position,Base1,RT1,BD1,AC,AG,AT,CA,CG,CT,GA,GC,GT,TA,TC,TG,Ins,Del,Base3,RT3,BD3".spec_bytes(),
{
    slice_to_vec(
        "ChrID,Strand,Position,Base1,RT1,BD1,AC,AG,AT,CA,CG,CT,GA,GC,GT,TA,TC,TG,Ins,Del,Base3,RT3,BD3".as_bytes(),
    )
}

/// Every row read from the termination table is of its kind.
pub proof fn lemma_termination_rows_kind(lines: Seq<Seq<u8>>)
    ensures
        all_termination(termination_rows(lines)),
    decreases lines.len(),
{
    if lines.len() > 0 {
        lemma_termination_rows_kind(lines.drop_last());
    }
}

/// Every row read from the mutation table is of its kind.
pub proof fn lemma_mutation_rows_kind(lines: Seq<Seq<u8>>)
    ensures
        all_mutation(mutation_rows(lines)),
    decreases lines.len(),
{
    if lines.len() > 0 {
        lemma_mutation_rows_kind(lines.drop_last());
    }
}

/// Every row read from the truncation table is of its kind.
pub proof fn lemma_truncation_rows_kind(lines: Seq<Seq<u8>>, names: Seq<Seq<u8>>, strands: Seq<u8>)
    ensures
        truncation_rows(lines, names, strands) is Some ==> all_truncation(
            truncation_rows(lines, names, strands).unwrap(),
        ),
    decreases lines.len(),
{
    if lines.len() > 0 {
        lemma_truncation_rows_kind(lines.drop_last(), names, strands);
    }
}

} // verus!
