use stone_genome::merge::{bytes_side, key_side, merge_data, GeneEntry, Patch, PositionKey, Side, SourceRow};

fn key(chr: &str, strand: char, position: u32) -> PositionKey {
    PositionKey { chr_id: chr.as_bytes().to_vec(), strand: strand as u8, position }
}

fn term(chr: &str, strand: char, position: u32, base: char, rt: i32, bd: i32) -> SourceRow {
    SourceRow {
        key: key(chr, strand, position),
        patch: Patch::Termination { base1: Some(base as u8), rt_1: rt, bd_1: bd },
    }
}

fn muta(chr: &str, strand: char, position: u32, m: [i32; 14]) -> SourceRow {
    SourceRow { key: key(chr, strand, position), patch: Patch::Mutation { mutations: m } }
}

fn trunc(chr: &str, strand: char, position: u32, base: Option<char>, rt: i32, bd: i32) -> SourceRow {
    SourceRow {
        key: key(chr, strand, position),
        patch: Patch::Truncation { base3: base.map(|c| c as u8), rt_3: rt, bd_3: bd },
    }
}

fn keys_of(out: &[GeneEntry]) -> Vec<(String, char, u32)> {
    out.iter()
        .map(|e| {
            (String::from_utf8(e.key.chr_id.clone()).unwrap(), e.key.strand as char, e.key.position)
        })
        .collect()
}

#[test]
fn merge_key_only_in_mutation_table_gets_defaults() {
    let mut m = [0i32; 14];
    m[0] = 1;
    let out = merge_data(&[], &[muta("chr1", '+', 42, m)], &[]);
    assert_eq!(out.len(), 1);
    let e = &out[0];
    assert_eq!(e.key.chr_id, b"chr1".to_vec());
    assert_eq!(e.key.strand, b'+');
    assert_eq!(e.key.position, 42);
    assert_eq!(e.base1, None);
    assert_eq!(e.rt_1, None);
    assert_eq!(e.bd_1, None);
    assert_eq!(e.base3, None);
    assert_eq!(e.rt_3, None);
    assert_eq!(e.bd_3, None);
    assert_eq!(e.mutations, m);
}

#[test]
fn merge_orders_by_chromosome_strand_position() {
    let t1 = vec![
        term("chr1", '+', 50, 'A', 1, 2),
        term("chr1", '+', 10, 'C', 3, 4),
        term("chr2", '-', 5, 'G', 5, 6),
    ];
    let out = merge_data(&t1, &[], &[]);
    assert_eq!(
        keys_of(&out),
        vec![
            ("chr1".to_string(), '+', 10),
            ("chr1".to_string(), '+', 50),
            ("chr2".to_string(), '-', 5),
        ]
    );
}

#[test]
fn merge_orders_strand_before_position_and_names_by_bytes() {
    let t3 = vec![
        trunc("chr10", '-', 1, None, 0, 0),
        trunc("chr2", '+', 9, None, 0, 0),
        trunc("chr10", '+', 7, None, 0, 0),
        trunc("chr1", '-', 3, None, 0, 0),
    ];
    let out = merge_data(&[], &[], &t3);
    assert_eq!(
        keys_of(&out),
        vec![
            ("chr1".to_string(), '-', 3),
            ("chr10".to_string(), '+', 7),
            ("chr10".to_string(), '-', 1),
            ("chr2".to_string(), '+', 9),
        ]
    );
}

#[test]
fn merge_keeps_every_key_of_every_table_once() {
    let t1 = vec![term("a", '+', 1, 'A', 1, 1), term("b", '+', 1, 'A', 1, 1)];
    let t2 = vec![muta("b", '+', 1, [2; 14]), muta("c", '+', 1, [3; 14])];
    let t3 = vec![trunc("c", '+', 1, Some('T'), 4, 4), trunc("d", '-', 8, Some('G'), 5, 5)];
    let out = merge_data(&t1, &t2, &t3);
    assert_eq!(
        keys_of(&out),
        vec![
            ("a".to_string(), '+', 1),
            ("b".to_string(), '+', 1),
            ("c".to_string(), '+', 1),
            ("d".to_string(), '-', 8),
        ]
    );
    assert_eq!(out[1].base1, Some(b'A'));
    assert_eq!(out[1].mutations, [2; 14]);
    assert_eq!(out[1].rt_3, None);
    assert_eq!(out[2].base1, None);
    assert_eq!(out[2].mutations, [3; 14]);
    assert_eq!(out[2].base3, Some(b'T'));
    assert_eq!(out[2].rt_3, Some(4));
    assert_eq!(out[2].bd_3, Some(4));
    assert_eq!(out[3].mutations, [0; 14]);
    assert_eq!(out[0].rt_1, Some(1));
}

#[test]
fn merge_same_table_twice_changes_nothing() {
    let t1 = vec![term("a", '+', 1, 'A', 1, 2)];
    let t2 = vec![muta("a", '+', 1, [7; 14]), muta("b", '-', 2, [1; 14])];
    let t3 = vec![trunc("a", '+', 1, None, 3, 4)];
    let once = merge_data(&t1, &t2, &t3);
    let mut t3_twice = vec![trunc("a", '+', 1, None, 3, 4)];
    t3_twice.push(trunc("a", '+', 1, None, 3, 4));
    let mut t2_twice = vec![muta("a", '+', 1, [7; 14]), muta("b", '-', 2, [1; 14])];
    t2_twice.push(muta("a", '+', 1, [7; 14]));
    t2_twice.push(muta("b", '-', 2, [1; 14]));
    let twice = merge_data(&t1, &t2_twice, &t3_twice);
    assert_eq!(once.len(), twice.len());
    for (x, y) in once.iter().zip(twice.iter()) {
        assert_eq!(x.key.chr_id, y.key.chr_id);
        assert_eq!(x.base1, y.base1);
        assert_eq!(x.rt_1, y.rt_1);
        assert_eq!(x.bd_1, y.bd_1);
        assert_eq!(x.mutations, y.mutations);
        assert_eq!(x.base3, y.base3);
        assert_eq!(x.rt_3, y.rt_3);
        assert_eq!(x.bd_3, y.bd_3);
    }
}

#[test]
fn merge_truncation_without_base_keeps_earlier_base() {
    let t3 = vec![trunc("a", '+', 1, Some('C'), 1, 1), trunc("a", '+', 1, None, 9, 8)];
    let out = merge_data(&[], &[], &t3);
    assert_eq!(out.len(), 1);
    assert_eq!(out[0].base3, Some(b'C'));
    assert_eq!(out[0].rt_3, Some(9));
    assert_eq!(out[0].bd_3, Some(8));
}

#[test]
fn sides() {
    assert_eq!(bytes_side(b"abc", b"abd"), Side::Before);
    assert_eq!(bytes_side(b"abc", b"ab"), Side::After);
    assert_eq!(bytes_side(b"", b""), Side::Same);
    assert_eq!(bytes_side(b"", b"a"), Side::Before);
    assert_eq!(key_side(&key("chr1", '+', 5), &key("chr1", '-', 1)), Side::Before);
    assert_eq!(key_side(&key("chr1", '+', 5), &key("chr1", '+', 5)), Side::Same);
    assert_eq!(key_side(&key("chr2", '+', 5), &key("chr10", '+', 5)), Side::After);
}
