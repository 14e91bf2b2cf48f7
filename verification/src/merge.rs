//! Outer join of three keyed tables into one table of entries, ordered by
//! key.

use vstd::prelude::*;

verus! {

/// Identity of one observed position.
#[derive(Clone, Debug)]
pub struct PositionKey {
    pub chr_id: Vec<u8>,
    pub strand: u8,
    pub position: u32,
}

pub struct KeyView {
    pub chr: Seq<u8>,
    pub strand: u8,
    pub position: u32,
}

impl View for PositionKey {
    type V = KeyView;

    open spec fn view(&self) -> KeyView {
        KeyView { chr: self.chr_id@, strand: self.strand, position: self.position }
    }
}

/// What one source table says of a key. Each variant owns its own fields of
/// an entry.
#[derive(Clone, Debug)]
pub enum Patch {
    Termination { base1: Option<u8>, rt_1: i32, bd_1: i32 },
    Mutation { mutations: [i32; 14] },
    Truncation { base3: Option<u8>, rt_3: i32, bd_3: i32 },
}

pub enum PatchView {
    Termination { base1: Option<u8>, rt_1: i32, bd_1: i32 },
    Mutation { mutations: Seq<i32> },
    Truncation { base3: Option<u8>, rt_3: i32, bd_3: i32 },
}

impl View for Patch {
    type V = PatchView;

    open spec fn view(&self) -> PatchView {
        match *self {
            Patch::Termination { base1, rt_1, bd_1 } => PatchView::Termination {
                base1,
                rt_1,
                bd_1,
            },
            Patch::Mutation { mutations } => PatchView::Mutation { mutations: mutations@ },
            Patch::Truncation { base3, rt_3, bd_3 } => PatchView::Truncation { base3, rt_3, bd_3 },
        }
    }
}

/// One row of a source table.
#[derive(Clone, Debug)]
pub struct SourceRow {
    pub key: PositionKey,
    pub patch: Patch,
}

pub struct RowView {
    pub key: KeyView,
    pub patch: PatchView,
}

impl View for SourceRow {
    type V = RowView;

    open spec fn view(&self) -> RowView {
        RowView { key: self.key@, patch: self.patch@ }
    }
}

/// One row of the merged table.
#[derive(Clone, Debug)]
pub struct GeneEntry {
    pub key: PositionKey,
    pub base1: Option<u8>,
    pub base3: Option<u8>,
    pub rt_1: Option<i32>,
    pub bd_1: Option<i32>,
    pub mutations: [i32; 14],
    pub rt_3: Option<i32>,
    pub bd_3: Option<i32>,
}

pub struct FieldsView {
    pub base1: Option<u8>,
    pub base3: Option<u8>,
    pub rt_1: Option<i32>,
    pub bd_1: Option<i32>,
    pub mutations: Seq<i32>,
    pub rt_3: Option<i32>,
    pub bd_3: Option<i32>,
}

impl GeneEntry {
    pub open spec fn fields(&self) -> FieldsView {
        FieldsView {
            base1: self.base1,
            base3: self.base3,
            rt_1: self.rt_1,
            bd_1: self.bd_1,
            mutations: self.mutations@,
            rt_3: self.rt_3,
            bd_3: self.bd_3,
        }
    }
}

/// Width of the mutation vector.
pub const MUTATION_WIDTH: usize = 14;

/// The fields of a key that no table has spoken of yet.
pub open spec fn default_fields() -> FieldsView {
    FieldsView {
        base1: None,
        base3: None,
        rt_1: None,
        bd_1: None,
        mutations: Seq::new(14, |i: int| 0i32),
        rt_3: None,
        bd_3: None,
    }
}

/// Writes the fields that `p` owns and leaves the others.
pub open spec fn patched(f: FieldsView, p: PatchView) -> FieldsView {
    match p {
        PatchView::Termination { base1, rt_1, bd_1 } => FieldsView {
            base1,
            rt_1: Some(rt_1),
            bd_1: Some(bd_1),
            ..f
        },
        PatchView::Mutation { mutations } => FieldsView { mutations, ..f },
        PatchView::Truncation { base3, rt_3, bd_3 } => FieldsView {
            base3: if base3.is_some() {
                base3
            } else {
                f.base3
            },
            rt_3: Some(rt_3),
            bd_3: Some(bd_3),
            ..f
        },
    }
}

pub type Table = Map<KeyView, FieldsView>;

/// Folds one row into a table: an absent key gets a default entry first.
pub open spec fn step(m: Table, r: RowView) -> Table {
    let base = if m.contains_key(r.key) {
        m[r.key]
    } else {
        default_fields()
    };
    m.insert(r.key, patched(base, r.patch))
}

/// Folds the rows into a table, first row first.
pub open spec fn fold_rows(m: Table, rows: Seq<RowView>) -> Table
    decreases rows.len(),
{
    if rows.len() == 0 {
        m
    } else {
        step(fold_rows(m, rows.drop_last()), rows.last())
    }
}

pub open spec fn row_views(rows: Seq<SourceRow>) -> Seq<RowView> {
    Seq::new(rows.len(), |i: int| rows[i]@)
}

/// The merged table of three sources.
pub open spec fn merge_spec(t1: Seq<SourceRow>, t2: Seq<SourceRow>, t3: Seq<SourceRow>) -> Table {
    fold_rows(fold_rows(fold_rows(Map::empty(), row_views(t1)), row_views(t2)), row_views(t3))
}

/// The keys of a list of rows.
pub open spec fn key_set(rows: Seq<RowView>) -> Set<KeyView> {
    Set::new(|k: KeyView| exists|i: int| 0 <= i < rows.len() && (#[trigger] rows[i]).key == k)
}

/// Byte strings in dictionary order.
pub open spec fn bytes_lt(a: Seq<u8>, b: Seq<u8>) -> bool
    decreases a.len(),
{
    if b.len() == 0 {
        false
    } else if a.len() == 0 {
        true
    } else if a[0] != b[0] {
        a[0] < b[0]
    } else {
        bytes_lt(a.skip(1), b.skip(1))
    }
}

/// Keys in output order: by chromosome name in dictionary order, then
/// strand, then position.
pub open spec fn key_lt(a: KeyView, b: KeyView) -> bool {
    ||| bytes_lt(a.chr, b.chr)
    ||| (a.chr == b.chr && a.strand < b.strand)
    ||| (a.chr == b.chr && a.strand == b.strand && a.position < b.position)
}

pub open spec fn strictly_sorted(es: Seq<GeneEntry>) -> bool {
    forall|i: int, j: int| 0 <= i < j < es.len() ==> key_lt(es[i].key@, es[j].key@)
}

/// `es` holds exactly the keys of `m`, each with its fields.
pub open spec fn represents(es: Seq<GeneEntry>, m: Table) -> bool {
    &&& forall|i: int|
        0 <= i < es.len() ==> m.contains_key((#[trigger] es[i]).key@) && m[es[i].key@]
            == es[i].fields()
    &&& forall|k: KeyView|
        m.contains_key(k) ==> exists|i: int| 0 <= i < es.len() && (#[trigger] es[i]).key@ == k
}

pub proof fn lemma_bytes_lt_irreflexive(a: Seq<u8>)
    ensures
        !bytes_lt(a, a),
    decreases a.len(),
{
    if a.len() > 0 {
        lemma_bytes_lt_irreflexive(a.skip(1));
    }
}

pub proof fn lemma_bytes_lt_transitive(a: Seq<u8>, b: Seq<u8>, c: Seq<u8>)
    requires
        bytes_lt(a, b),
        bytes_lt(b, c),
    ensures
        bytes_lt(a, c),
    decreases a.len(),
{
    if a.len() > 0 && a[0] == b[0] && b[0] == c[0] {
        lemma_bytes_lt_transitive(a.skip(1), b.skip(1), c.skip(1));
    }
}

pub proof fn lemma_bytes_lt_total(a: Seq<u8>, b: Seq<u8>)
    ensures
        bytes_lt(a, b) || bytes_lt(b, a) || a == b,
    decreases a.len(),
{
    if a.len() > 0 && b.len() > 0 && a[0] == b[0] {
        lemma_bytes_lt_total(a.skip(1), b.skip(1));
        if a.skip(1) == b.skip(1) {
            assert(a =~= seq![a[0]] + a.skip(1));
            assert(b =~= seq![b[0]] + b.skip(1));
        }
    } else if a.len() == 0 && b.len() == 0 {
        assert(a =~= b);
    }
}

/// The key order is a strict total order.
pub proof fn lemma_key_lt_irreflexive(a: KeyView)
    ensures
        !key_lt(a, a),
{
    lemma_bytes_lt_irreflexive(a.chr);
}

pub proof fn lemma_key_lt_transitive(a: KeyView, b: KeyView, c: KeyView)
    requires
        key_lt(a, b),
        key_lt(b, c),
    ensures
        key_lt(a, c),
{
    lemma_bytes_lt_irreflexive(a.chr);
    lemma_bytes_lt_irreflexive(b.chr);
    if bytes_lt(a.chr, b.chr) && bytes_lt(b.chr, c.chr) {
        lemma_bytes_lt_transitive(a.chr, b.chr, c.chr);
    }
}

pub proof fn lemma_key_lt_total(a: KeyView, b: KeyView)
    ensures
        key_lt(a, b) || key_lt(b, a) || a == b,
{
    lemma_bytes_lt_total(a.chr, b.chr);
}

/// Where one value stands to another in an order.
#[derive(Clone, Copy, Debug, PartialEq, Eq, Structural)]
pub enum Side {
    Before,
    Same,
    After,
}

/// Places `a` against `b` in dictionary order.
pub fn bytes_side(a: &[u8], b: &[u8]) -> (r: Side)
    ensures
        (r == Side::Before) == bytes_lt(a@, b@),
        (r == Side::After) == bytes_lt(b@, a@),
        (r == Side::Same) == (a@ == b@),
{
    let mut i: usize = 0;
    proof {
        assert(a@.skip(0) =~= a@);
        assert(b@.skip(0) =~= b@);
    }
    while i < a.len() && i < b.len()
        invariant
            i <= a@.len(),
            i <= b@.len(),
            a@.take(i as int) == b@.take(i as int),
            bytes_lt(a@, b@) == bytes_lt(a@.skip(i as int), b@.skip(i as int)),
            bytes_lt(b@, a@) == bytes_lt(b@.skip(i as int), a@.skip(i as int)),
        decreases a@.len() - i,
    {
        proof {
            assert(a@.skip(i as int).skip(1) =~= a@.skip(i + 1));
            assert(b@.skip(i as int).skip(1) =~= b@.skip(i + 1));
            assert(a@.skip(i as int)[0] == a@[i as int]);
            assert(b@.skip(i as int)[0] == b@[i as int]);
        }
        if a[i] < b[i] {
            assert(a@ != b@);
            return Side::Before;
        }
        if a[i] > b[i] {
            assert(a@ != b@);
            return Side::After;
        }
        proof {
            assert(a@.take(i + 1) =~= a@.take(i as int).push(a@[i as int]));
            assert(b@.take(i + 1) =~= b@.take(i as int).push(b@[i as int]));
        }
        i += 1;
    }
    if i < b.len() {
        assert(a@.len() != b@.len());
        Side::Before
    } else if i < a.len() {
        assert(a@.len() != b@.len());
        Side::After
    } else {
        proof {
            assert(a@.take(i as int) =~= a@);
            assert(b@.take(i as int) =~= b@);
            lemma_bytes_lt_irreflexive(a@);
        }
        Side::Same
    }
}

/// Places key `a` against key `b` in output order.
pub fn key_side(a: &PositionKey, b: &PositionKey) -> (r: Side)
    ensures
        (r == Side::Before) == key_lt(a@, b@),
        (r == Side::After) == key_lt(b@, a@),
        (r == Side::Same) == (a@ == b@),
{
    proof {
        lemma_bytes_lt_irreflexive(a@.chr);
        if bytes_lt(a@.chr, b@.chr) && bytes_lt(b@.chr, a@.chr) {
            lemma_bytes_lt_transitive(a@.chr, b@.chr, a@.chr);
        }
    }
    match bytes_side(a.chr_id.as_slice(), b.chr_id.as_slice()) {
        Side::Before => Side::Before,
        Side::After => Side::After,
        Side::Same => {
            if a.strand < b.strand {
                Side::Before
            } else if b.strand < a.strand {
                Side::After
            } else if a.position < b.position {
                Side::Before
            } else if b.position < a.position {
                Side::After
            } else {
                Side::Same
            }
        },
    }
}

/// Finds `key` among sorted entries: its index and `true`, or the index
/// where it would be inserted and `false`.
fn locate(acc: &Vec<GeneEntry>, key: &PositionKey) -> (r: (usize, bool))
    requires
        strictly_sorted(acc@),
    ensures
        r.0 <= acc@.len(),
        forall|i: int| 0 <= i < r.0 ==> key_lt(#[trigger] acc@[i].key@, key@),
        r.1 ==> r.0 < acc@.len() && acc@[r.0 as int].key@ == key@,
        r.1 ==> forall|i: int| r.0 < i < acc@.len() ==> key_lt(key@, #[trigger] acc@[i].key@),
        !r.1 ==> forall|i: int| r.0 <= i < acc@.len() ==> key_lt(key@, #[trigger] acc@[i].key@),
{
    let mut lo: usize = 0;
    let mut hi: usize = acc.len();
    while lo < hi
        invariant
            lo <= hi <= acc@.len(),
            strictly_sorted(acc@),
            forall|i: int| 0 <= i < lo ==> key_lt(#[trigger] acc@[i].key@, key@),
            forall|i: int| hi <= i < acc@.len() ==> key_lt(key@, #[trigger] acc@[i].key@),
        decreases hi - lo,
    {
        let mid: usize = lo + (hi - lo) / 2;
        let side = key_side(&acc[mid].key, key);
        proof {
            let mk = acc@[mid as int].key@;
            if side == Side::Before {
                assert forall|i: int| 0 <= i < mid + 1 implies key_lt(
                    #[trigger] acc@[i].key@,
                    key@,
                ) by {
                    if i < mid {
                        lemma_key_lt_transitive(acc@[i].key@, mk, key@);
                    }
                }
            } else {
                assert forall|i: int| mid < i < acc@.len() implies key_lt(
                    key@,
                    #[trigger] acc@[i].key@,
                ) by {
                    if side == Side::After {
                        lemma_key_lt_transitive(key@, mk, acc@[i].key@);
                    }
                }
                if side == Side::Same {
                    assert forall|i: int| 0 <= i < mid implies key_lt(
                        #[trigger] acc@[i].key@,
                        key@,
                    ) by {}
                }
            }
        }
        match side {
            Side::Before => {
                lo = mid + 1;
            },
            Side::After => {
                hi = mid;
            },
            Side::Same => {
                return (mid, true);
            },
        }
    }
    (lo, false)
}

fn clone_key(key: &PositionKey) -> (r: PositionKey)
    ensures
        r@ == key@,
{
    PositionKey { chr_id: key.chr_id.clone(), strand: key.strand, position: key.position }
}

fn zero_mutations() -> (v: [i32; 14])
    ensures
        v@ == default_fields().mutations,
{
    let v: [i32; 14] = [0i32; 14];
    assert(v@ =~= default_fields().mutations);
    v
}

/// Folds one row into the sorted entries.
fn apply_row(acc: &mut Vec<GeneEntry>, row: &SourceRow, Ghost(m): Ghost<Table>)
    requires
        strictly_sorted(old(acc)@),
        represents(old(acc)@, m),
    ensures
        strictly_sorted(final(acc)@),
        represents(final(acc)@, step(m, row@)),
{
    let (idx, found) = locate(acc, &row.key);
    let ghost before = acc@;
    if !found {
        let e = GeneEntry {
            key: clone_key(&row.key),
            base1: None,
            base3: None,
            rt_1: None,
            bd_1: None,
            mutations: zero_mutations(),
            rt_3: None,
            bd_3: None,
        };
        acc.insert(idx, e);
        proof {
            assert(acc@[idx as int].fields() == default_fields());
            assert forall|i: int, j: int| 0 <= i < j < acc@.len() implies key_lt(
                acc@[i].key@,
                acc@[j].key@,
            ) by {
                if i < idx && j > idx {
                    assert(acc@[i] == before[i]);
                    assert(acc@[j] == before[j - 1]);
                } else if i < idx && j < idx {
                    assert(acc@[i] == before[i]);
                    assert(acc@[j] == before[j]);
                } else if i > idx {
                    assert(acc@[i] == before[i - 1]);
                    assert(acc@[j] == before[j - 1]);
                } else if i == idx {
                    assert(acc@[j] == before[j - 1]);
                } else {
                    assert(acc@[i] == before[i]);
                }
            }
            assert(!m.contains_key(row.key@)) by {
                if m.contains_key(row.key@) {
                    let i = choose|i: int|
                        0 <= i < before.len() && (#[trigger] before[i]).key@ == row.key@;
                    lemma_key_lt_irreflexive(row.key@);
                }
            }
        }
    }
    let ghost mid = acc@;
    let ghost base = if m.contains_key(row.key@) {
        m[row.key@]
    } else {
        default_fields()
    };
    assert(mid[idx as int].fields() == base);
    assert(mid[idx as int].key@ == row.key@);
    match &row.patch {
        Patch::Termination { base1, rt_1, bd_1 } => {
            acc[idx].base1 = *base1;
            acc[idx].rt_1 = Some(*rt_1);
            acc[idx].bd_1 = Some(*bd_1);
        },
        Patch::Mutation { mutations } => {
            acc[idx].mutations = *mutations;
        },
        Patch::Truncation { base3, rt_3, bd_3 } => {
            if base3.is_some() {
                acc[idx].base3 = *base3;
            }
            acc[idx].rt_3 = Some(*rt_3);
            acc[idx].bd_3 = Some(*bd_3);
        },
    }
    proof {
        let m2 = step(m, row@);
        assert(acc@.len() == mid.len());
        assert(acc@[idx as int].key@ == row.key@);
        assert(acc@[idx as int].fields() == patched(base, row.patch@));
        assert forall|i: int| 0 <= i < acc@.len() && i != idx implies acc@[i] == mid[i] by {}
        assert forall|i: int, j: int| 0 <= i < j < acc@.len() implies key_lt(
            acc@[i].key@,
            acc@[j].key@,
        ) by {
            assert(acc@[i].key@ == mid[i].key@);
            assert(acc@[j].key@ == mid[j].key@);
        }
        assert forall|i: int| 0 <= i < acc@.len() implies m2.contains_key(
            (#[trigger] acc@[i]).key@,
        ) && m2[acc@[i].key@] == acc@[i].fields() by {
            if i != idx {
                assert(acc@[i] == mid[i]);
                if i < idx {
                    assert(key_lt(mid[i].key@, mid[idx as int].key@));
                } else {
                    assert(key_lt(mid[idx as int].key@, mid[i].key@));
                }
                lemma_key_lt_irreflexive(row.key@);
                assert(acc@[i].key@ != row.key@);
                if found {
                    assert(mid[i] == before[i]);
                } else if i < idx {
                    assert(mid[i] == before[i]);
                } else {
                    assert(mid[i] == before[i - 1]);
                }
            }
        }
        assert forall|k: KeyView| m2.contains_key(k) implies exists|i: int|
            0 <= i < acc@.len() && (#[trigger] acc@[i]).key@ == k by {
            if k == row.key@ {
                assert(acc@[idx as int].key@ == k);
            } else {
                assert(m.contains_key(k));
                let i0 = choose|i: int| 0 <= i < before.len() && (#[trigger] before[i]).key@ == k;
                if found {
                    assert(acc@[i0].key@ == k);
                } else if i0 < idx {
                    assert(mid[i0] == before[i0]);
                    assert(acc@[i0].key@ == k);
                } else {
                    assert(mid[i0 + 1] == before[i0]);
                    assert(acc@[i0 + 1].key@ == k);
                }
            }
        }
    }
}

/// Folds a whole table into the sorted entries, first row first.
fn apply_table(acc: &mut Vec<GeneEntry>, rows: &[SourceRow], Ghost(m): Ghost<Table>)
    requires
        strictly_sorted(old(acc)@),
        represents(old(acc)@, m),
    ensures
        strictly_sorted(final(acc)@),
        represents(final(acc)@, fold_rows(m, row_views(rows@))),
{
    let mut i: usize = 0;
    let ghost all = row_views(rows@);
    while i < rows.len()
        invariant
            i <= rows@.len(),
            all == row_views(rows@),
            strictly_sorted(acc@),
            represents(acc@, fold_rows(m, all.take(i as int))),
        decreases rows@.len() - i,
    {
        proof {
            assert(all.take(i + 1).drop_last() =~= all.take(i as int));
            assert(all.take(i + 1).last() == rows@[i as int]@);
        }
        apply_row(acc, &rows[i], Ghost(fold_rows(m, all.take(i as int))));
        i += 1;
    }
    proof {
        assert(all.take(i as int) =~= all);
    }
}

/// Outer join of three tables. Every key of any table gets one entry; each
/// table writes only the fields it owns, a later row of a key over an
/// earlier one. The entries come out in ascending key order.
pub fn merge_data(t1: &[SourceRow], t2: &[SourceRow], t3: &[SourceRow]) -> (out: Vec<GeneEntry>)
    ensures
        strictly_sorted(out@),
        represents(out@, merge_spec(t1@, t2@, t3@)),
{
    let mut acc: Vec<GeneEntry> = Vec::new();
    let ghost m0: Table = Map::empty();
    let ghost m1 = fold_rows(m0, row_views(t1@));
    let ghost m2 = fold_rows(m1, row_views(t2@));
    apply_table(&mut acc, t1, Ghost(m0));
    apply_table(&mut acc, t2, Ghost(m1));
    apply_table(&mut acc, t3, Ghost(m2));
    acc
}

/// Folding rows into a table adds their keys to its keys and nothing else.
pub proof fn lemma_fold_keys(m: Table, rows: Seq<RowView>)
    ensures
        fold_rows(m, rows).dom() =~= m.dom().union(key_set(rows)),
    decreases rows.len(),
{
    if rows.len() > 0 {
        let front = rows.drop_last();
        lemma_fold_keys(m, front);
        let mf = fold_rows(m, front);
        assert forall|k: KeyView| key_set(rows).contains(k) <==> (key_set(front).contains(k) || k
            == rows.last().key) by {
            if key_set(front).contains(k) {
                let i = choose|i: int| 0 <= i < front.len() && (#[trigger] front[i]).key == k;
                assert(rows[i].key == k);
            }
            if k == rows.last().key {
                assert(rows[rows.len() - 1].key == k);
            }
            if key_set(rows).contains(k) {
                let i = choose|i: int| 0 <= i < rows.len() && (#[trigger] rows[i]).key == k;
                if i < front.len() {
                    assert(front[i].key == k);
                }
            }
        }
    }
}

/// The keys of the merged table are exactly the keys of the three sources
/// together.
pub proof fn lemma_merge_keys(t1: Seq<SourceRow>, t2: Seq<SourceRow>, t3: Seq<SourceRow>)
    ensures
        merge_spec(t1, t2, t3).dom() =~= key_set(row_views(t1)).union(
            key_set(row_views(t2)),
        ).union(key_set(row_views(t3))),
{
    let m0: Table = Map::empty();
    let m1 = fold_rows(m0, row_views(t1));
    let m2 = fold_rows(m1, row_views(t2));
    lemma_fold_keys(m0, row_views(t1));
    lemma_fold_keys(m1, row_views(t2));
    lemma_fold_keys(m2, row_views(t3));
}

/// What a table says of one key.
pub open spec fn at_key(m: Table, k: KeyView) -> Option<FieldsView> {
    if m.contains_key(k) {
        Some(m[k])
    } else {
        None
    }
}

/// What folding one row does to the fields of key `k`.
pub open spec fn step_at(x: Option<FieldsView>, r: RowView, k: KeyView) -> Option<FieldsView> {
    if r.key == k {
        Some(
            patched(
                match x {
                    Some(f) => f,
                    None => default_fields(),
                },
                r.patch,
            ),
        )
    } else {
        x
    }
}

/// What folding the rows does to the fields of key `k`.
pub open spec fn fold_at(x: Option<FieldsView>, rows: Seq<RowView>, k: KeyView) -> Option<
    FieldsView,
>
    decreases rows.len(),
{
    if rows.len() == 0 {
        x
    } else {
        step_at(fold_at(x, rows.drop_last(), k), rows.last(), k)
    }
}

/// A fold acts on each key by itself.
pub proof fn lemma_fold_at(m: Table, rows: Seq<RowView>, k: KeyView)
    ensures
        at_key(fold_rows(m, rows), k) == fold_at(at_key(m, k), rows, k),
    decreases rows.len(),
{
    if rows.len() > 0 {
        lemma_fold_at(m, rows.drop_last(), k);
    }
}

/// A patch writes only the fields of its own table.
pub proof fn lemma_patch_keeps_other_fields(f: FieldsView, p: PatchView)
    ensures
        !(p is Termination) ==> patched(f, p).base1 == f.base1 && patched(f, p).rt_1 == f.rt_1
            && patched(f, p).bd_1 == f.bd_1,
        !(p is Mutation) ==> patched(f, p).mutations == f.mutations,
        !(p is Truncation) ==> patched(f, p).base3 == f.base3 && patched(f, p).rt_3 == f.rt_3
            && patched(f, p).bd_3 == f.bd_3,
{
}

proof fn lemma_fold_congruent(
    a: Option<FieldsView>,
    b: Option<FieldsView>,
    r: RowView,
    rows: Seq<RowView>,
    k: KeyView,
)
    requires
        r.key == k,
        step_at(a, r, k) == step_at(b, r, k),
    ensures
        step_at(fold_at(a, rows, k), r, k) == step_at(fold_at(b, rows, k), r, k),
    decreases rows.len(),
{
    if rows.len() > 0 {
        lemma_fold_congruent(a, b, r, rows.drop_last(), k);
    }
}

proof fn lemma_fold_at_idempotent(x: Option<FieldsView>, rows: Seq<RowView>, k: KeyView)
    ensures
        fold_at(fold_at(x, rows, k), rows, k) == fold_at(x, rows, k),
    decreases rows.len(),
{
    if rows.len() > 0 {
        let front = rows.drop_last();
        let r = rows.last();
        let z = fold_at(x, front, k);
        lemma_fold_at_idempotent(x, front, k);
        if r.key == k {
            let w = step_at(z, r, k);
            assert(step_at(w, r, k) == w);
            lemma_fold_congruent(w, z, r, front, k);
        }
    }
}

/// Two tables that say the same of every key are one table.
pub proof fn lemma_tables_equal(a: Table, b: Table)
    requires
        forall|k: KeyView| at_key(a, k) == at_key(b, k),
    ensures
        a == b,
{
    assert forall|k: KeyView| a.contains_key(k) == b.contains_key(k) by {
        assert(at_key(a, k) == at_key(b, k));
    }
    assert forall|k: KeyView| a.contains_key(k) implies a[k] == b[k] by {
        assert(at_key(a, k) == at_key(b, k));
    }
    assert(a =~= b);
}

/// Folding a table a second time into what it has already been folded into
/// changes nothing.
pub proof fn lemma_fold_idempotent(m: Table, rows: Seq<RowView>)
    ensures
        fold_rows(fold_rows(m, rows), rows) == fold_rows(m, rows),
{
    let once = fold_rows(m, rows);
    let twice = fold_rows(once, rows);
    assert forall|k: KeyView| at_key(twice, k) == at_key(once, k) by {
        lemma_fold_at(m, rows, k);
        lemma_fold_at(once, rows, k);
        lemma_fold_at_idempotent(at_key(m, k), rows, k);
    }
    lemma_tables_equal(twice, once);
}

/// The two patches come from different tables.
pub open spec fn kind_differs(p: PatchView, q: PatchView) -> bool {
    ||| (p is Termination && !(q is Termination))
    ||| (p is Mutation && !(q is Mutation))
    ||| (p is Truncation && !(q is Truncation))
}

/// No row of `t` is of the kind of a row of `u`.
pub open spec fn kinds_apart(t: Seq<RowView>, u: Seq<RowView>) -> bool {
    forall|i: int, j: int|
        0 <= i < t.len() && 0 <= j < u.len() ==> kind_differs(
            (#[trigger] t[i]).patch,
            (#[trigger] u[j]).patch,
        )
}

proof fn lemma_step_fold_commute(y: Option<FieldsView>, r: RowView, t: Seq<RowView>, k: KeyView)
    requires
        forall|i: int| 0 <= i < t.len() ==> kind_differs((#[trigger] t[i]).patch, r.patch),
    ensures
        fold_at(step_at(y, r, k), t, k) == step_at(fold_at(y, t, k), r, k),
    decreases t.len(),
{
    if t.len() > 0 {
        let front = t.drop_last();
        assert forall|i: int| 0 <= i < front.len() implies kind_differs(
            (#[trigger] front[i]).patch,
            r.patch,
        ) by {
            assert(front[i] == t[i]);
        }
        lemma_step_fold_commute(y, r, front, k);
        let z = fold_at(y, front, k);
        let q = t.last();
        assert(kind_differs(t[t.len() - 1].patch, r.patch));
        assert(step_at(step_at(z, r, k), q, k) == step_at(step_at(z, q, k), r, k));
    }
}

proof fn lemma_absorb_kept(y: Option<FieldsView>, t: Seq<RowView>, u: Seq<RowView>, k: KeyView)
    requires
        fold_at(y, t, k) == y,
        kinds_apart(t, u),
    ensures
        fold_at(fold_at(y, u, k), t, k) == fold_at(y, u, k),
    decreases u.len(),
{
    if u.len() > 0 {
        let front = u.drop_last();
        assert(kinds_apart(t, front)) by {
            assert forall|i: int, j: int| 0 <= i < t.len() && 0 <= j < front.len() implies kind_differs(
                (#[trigger] t[i]).patch,
                (#[trigger] front[j]).patch,
            ) by {
                assert(front[j] == u[j]);
            }
        }
        lemma_absorb_kept(y, t, front, k);
        let w = fold_at(y, front, k);
        assert forall|i: int| 0 <= i < t.len() implies kind_differs(
            (#[trigger] t[i]).patch,
            u.last().patch,
        ) by {
            assert(u[u.len() - 1] == u.last());
        }
        lemma_step_fold_commute(w, u.last(), t, k);
    }
}

/// A table that has been folded in stays folded in while rows of other
/// kinds follow: folding it once more changes nothing.
pub proof fn lemma_fold_again(m: Table, t: Seq<RowView>, u: Seq<RowView>)
    requires
        kinds_apart(t, u),
    ensures
        fold_rows(fold_rows(fold_rows(m, t), u), t) == fold_rows(fold_rows(m, t), u),
{
    let a = fold_rows(m, t);
    let b = fold_rows(a, u);
    let c = fold_rows(b, t);
    assert forall|k: KeyView| at_key(c, k) == at_key(b, k) by {
        lemma_fold_at(m, t, k);
        lemma_fold_at(a, u, k);
        lemma_fold_at(b, t, k);
        lemma_fold_at_idempotent(at_key(m, k), t, k);
        lemma_absorb_kept(at_key(a, k), t, u, k);
    }
    lemma_tables_equal(c, b);
}

/// All rows are of the termination table.
pub open spec fn all_termination(rows: Seq<RowView>) -> bool {
    forall|i: int| 0 <= i < rows.len() ==> (#[trigger] rows[i]).patch is Termination
}

/// All rows are of the mutation table.
pub open spec fn all_mutation(rows: Seq<RowView>) -> bool {
    forall|i: int| 0 <= i < rows.len() ==> (#[trigger] rows[i]).patch is Mutation
}

/// All rows are of the truncation table.
pub open spec fn all_truncation(rows: Seq<RowView>) -> bool {
    forall|i: int| 0 <= i < rows.len() ==> (#[trigger] rows[i]).patch is Truncation
}

/// Merging any of the three tables once more into the merged table changes
/// no entry.
pub proof fn lemma_merge_idempotent(t1: Seq<SourceRow>, t2: Seq<SourceRow>, t3: Seq<SourceRow>)
    requires
        all_termination(row_views(t1)),
        all_mutation(row_views(t2)),
        all_truncation(row_views(t3)),
    ensures
        fold_rows(merge_spec(t1, t2, t3), row_views(t1)) == merge_spec(t1, t2, t3),
        fold_rows(merge_spec(t1, t2, t3), row_views(t2)) == merge_spec(t1, t2, t3),
        fold_rows(merge_spec(t1, t2, t3), row_views(t3)) == merge_spec(t1, t2, t3),
{
    let r1 = row_views(t1);
    let r2 = row_views(t2);
    let r3 = row_views(t3);
    let m0: Table = Map::empty();
    let m1 = fold_rows(m0, r1);
    let m2 = fold_rows(m1, r2);
    let m3 = fold_rows(m2, r3);
    lemma_fold_idempotent(m2, r3);
    assert(kinds_apart(r2, r3));
    lemma_fold_again(m1, r2, r3);
    assert forall|k: KeyView| at_key(fold_rows(m3, r1), k) == at_key(m3, k) by {
        lemma_fold_at(m0, r1, k);
        lemma_fold_at(m1, r2, k);
        lemma_fold_at(m2, r3, k);
        lemma_fold_at(m3, r1, k);
        lemma_fold_at_idempotent(at_key(m0, k), r1, k);
        assert(kinds_apart(r1, r2));
        assert(kinds_apart(r1, r3));
        lemma_absorb_kept(at_key(m1, k), r1, r2, k);
        lemma_absorb_kept(at_key(m2, k), r1, r3, k);
    }
    lemma_tables_equal(fold_rows(m3, r1), m3);
}

proof fn lemma_fold_at_commutes(
    x: Option<FieldsView>,
    t: Seq<RowView>,
    u: Seq<RowView>,
    k: KeyView,
)
    requires
        kinds_apart(t, u),
    ensures
        fold_at(fold_at(x, t, k), u, k) == fold_at(fold_at(x, u, k), t, k),
    decreases u.len(),
{
    if u.len() > 0 {
        let front = u.drop_last();
        assert(kinds_apart(t, front)) by {
            assert forall|i: int, j: int| 0 <= i < t.len() && 0 <= j < front.len() implies kind_differs(
                (#[trigger] t[i]).patch,
                (#[trigger] front[j]).patch,
            ) by {
                assert(front[j] == u[j]);
            }
        }
        lemma_fold_at_commutes(x, t, front, k);
        assert forall|i: int| 0 <= i < t.len() implies kind_differs(
            (#[trigger] t[i]).patch,
            u.last().patch,
        ) by {
            assert(u[u.len() - 1] == u.last());
        }
        lemma_step_fold_commute(fold_at(x, front, k), u.last(), t, k);
    }
}

/// Tables of different kinds can be folded in either order.
pub proof fn lemma_fold_commutes(m: Table, t: Seq<RowView>, u: Seq<RowView>)
    requires
        kinds_apart(t, u),
    ensures
        fold_rows(fold_rows(m, t), u) == fold_rows(fold_rows(m, u), t),
{
    let a = fold_rows(fold_rows(m, t), u);
    let b = fold_rows(fold_rows(m, u), t);
    assert forall|k: KeyView| at_key(a, k) == at_key(b, k) by {
        lemma_fold_at(m, t, k);
        lemma_fold_at(fold_rows(m, t), u, k);
        lemma_fold_at(m, u, k);
        lemma_fold_at(fold_rows(m, u), t, k);
        lemma_fold_at_commutes(at_key(m, k), t, u, k);
    }
    lemma_tables_equal(a, b);
}

/// The merged table does not depend on the order of the three tables:
/// folded last to first, they give the same table.
pub proof fn lemma_merge_order(t1: Seq<SourceRow>, t2: Seq<SourceRow>, t3: Seq<SourceRow>)
    requires
        all_termination(row_views(t1)),
        all_mutation(row_views(t2)),
        all_truncation(row_views(t3)),
    ensures
        merge_spec(t1, t2, t3) == fold_rows(
            fold_rows(fold_rows(Map::empty(), row_views(t3)), row_views(t2)),
            row_views(t1),
        ),
{
    let r1 = row_views(t1);
    let r2 = row_views(t2);
    let r3 = row_views(t3);
    let m0: Table = Map::empty();
    assert(kinds_apart(r1, r2));
    assert(kinds_apart(r1, r3));
    assert(kinds_apart(r2, r3));
    lemma_fold_commutes(fold_rows(m0, r1), r2, r3);
    lemma_fold_commutes(m0, r1, r3);
    lemma_fold_commutes(fold_rows(m0, r3), r1, r2);
}

} // verus!
