use ipcrawl::{chunk_records, format_record};

#[test]
fn record_is_dotted_decimal_line() {
    assert_eq!(format_record((192, 168, 1, 1)), b"192.168.1.1\n".to_vec());
    assert_eq!(format_record((0, 0, 0, 0)), b"0.0.0.0\n".to_vec());
    assert_eq!(format_record((255, 10, 9, 100)), b"255.10.9.100\n".to_vec());
}

#[test]
fn record_holds_one_newline_at_its_end() {
    let r = format_record((7, 77, 177, 0));
    assert_eq!(r.iter().filter(|b| **b == b'\n').count(), 1);
    assert_eq!(r.last(), Some(&b'\n'));
}

#[test]
fn chunk_records_keep_match_order() {
    let recs = chunk_records(b"a 1.1.1.1 b 007.0.0.1 c 300.0.0.1 d 2.2.2.2");
    assert_eq!(
        recs,
        vec![b"1.1.1.1\n".to_vec(), b"7.0.0.1\n".to_vec(), b"2.2.2.2\n".to_vec()]
    );
    assert!(chunk_records(b"nothing").is_empty());
}
