use gadget_tfhe::error::GadgetError;
use gadget_tfhe::gadget_table::{build_gadgets, parse_gadget_table, parse_record};

fn fields(line: &str) -> Vec<Vec<u8>> {
    line.split(';').map(|f| f.as_bytes().to_vec()).collect()
}

#[test]
fn record_fields_are_parsed() {
    let r = parse_record(&fields("t2;[1, 2, 0, 4];['x7_1', 'y3_2', 'y4_0'];17;[0, 1,1,0,1,0,0,1]")).unwrap();
    assert_eq!(r.name, b"t2".to_vec());
    assert_eq!(r.q, vec![1, 2, 4]);
    assert_eq!(r.leaves, vec![b"x7".to_vec(), b"y3".to_vec(), b"y4".to_vec()]);
    assert_eq!(r.p, 17);
    assert_eq!(r.truth_table, vec![false, true, true, false, true, false, false, true]);
}

#[test]
fn malformed_records_are_refused() {
    assert_eq!(parse_record(&fields("t2;1, 2;[x];17;[0]")).unwrap_err(), GadgetError::MalformedDescription);
    assert_eq!(parse_record(&fields("t2;[1, a];[x];17;[0]")).unwrap_err(), GadgetError::MalformedDescription);
    assert_eq!(parse_record(&fields("t2;[1];[x];17")).unwrap_err(), GadgetError::MalformedDescription);
    // An unreadable modulus reads as 0.
    assert_eq!(parse_record(&fields("t2;[1];[x];p;[0,1]")).unwrap().p, 0);
}

#[test]
fn records_are_batched_in_topological_order() {
    let table = vec![
        fields("a;[1,2];['x7_0','y1_0'];5;[0,0,0,1]"),
        fields("b;[1,1];['y2_0','y3_0'];5;[0,1,1,0]"),
        fields("c;[1,2];['a_1','y1_0'];5;[0,1,1,1]"),
        fields("d;[1,2];['y5_0','y6_0'];5;[1,0,0,0]"),
        fields("e;[1,2];['c_0','d_0'];5;[0,1,1,1]"),
    ];
    let (records, batches) = parse_gadget_table(&table).unwrap();
    assert_eq!(records.len(), 5);
    assert_eq!(batches, vec![vec![0, 1], vec![2, 3], vec![4]]);
}

#[test]
fn gadgets_follow_their_big_endian_truth_tables() {
    let table = vec![fields("t2;[1, 2, 0, 4];['x7_1', 'y3_2', 'y4_0'];17;[0,1,1,0,1,0,0,1]")];
    let (records, _) = parse_gadget_table(&table).unwrap();
    let gadgets = build_gadgets(&records).unwrap();
    let g = &gadgets[0];
    for x in 0..8u32 {
        let bits: Vec<bool> = (0..3).map(|i| (x >> i) & 1 == 1).collect();
        let be_index = bits.iter().fold(0usize, |acc, b| acc * 2 + (*b as usize));
        assert_eq!(g.exec_clear(bits), records[0].truth_table[be_index]);
    }
    assert_eq!(g.get_modulus_in(), 17);
}

#[test]
fn short_truth_tables_are_refused() {
    let table = vec![fields("t2;[1,2];['x_0'];7;[0,1]")];
    let (records, _) = parse_gadget_table(&table).unwrap();
    assert_eq!(build_gadgets(&records).err(), Some(GadgetError::MalformedDescription));
}
