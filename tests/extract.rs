use ipcrawl::extract;

#[test]
fn no_tokens_gives_nothing() {
    assert_eq!(extract(b""), vec![]);
    assert_eq!(extract(b"no addresses here, only 1.2.3 and words"), vec![]);
    assert_eq!(extract(b"\xff\xfe 12.34 .5.6.7.8x"), vec![]);
}

#[test]
fn out_of_range_octet_is_rejected() {
    assert_eq!(
        extract(b"10.0.0.1 and 300.1.1.1 and 1.2.3.4"),
        vec![(10, 0, 0, 1), (1, 2, 3, 4)]
    );
}

#[test]
fn trailing_word_character_breaks_the_match() {
    assert_eq!(extract(b"192.168.1.1x"), vec![]);
    assert_eq!(extract(b"192.168.1.1"), vec![(192, 168, 1, 1)]);
    assert_eq!(extract(b"x192.168.1.1"), vec![]);
}

#[test]
fn extremes_and_leading_zeros() {
    assert_eq!(
        extract(b"0.0.0.0 255.255.255.255 007.010.1.00"),
        vec![(0, 0, 0, 0), (255, 255, 255, 255), (7, 10, 1, 0)]
    );
    assert_eq!(extract(b"256.1.1.1 1.1.1.256 1234.1.1.1"), vec![]);
}

#[test]
fn matches_do_not_overlap() {
    assert_eq!(extract(b"1.2.3.4.5.6.7.8"), vec![(1, 2, 3, 4), (5, 6, 7, 8)]);
    assert_eq!(extract(b"1.2.3.4.5.6.7"), vec![(1, 2, 3, 4)]);
    assert_eq!(extract(b"<b>9.8.7.6</b>,1.1.1.1\n"), vec![(9, 8, 7, 6), (1, 1, 1, 1)]);
}

#[test]
fn concatenation_at_a_clean_seam() {
    let a: &[u8] = b"host 10.0.0.1 up;";
    let b: &[u8] = b"4.3.2.1 down";
    let joined = [a, b].concat();
    let mut parts = extract(a);
    parts.extend(extract(b));
    assert_eq!(extract(&joined), parts);
    assert_eq!(parts, vec![(10, 0, 0, 1), (4, 3, 2, 1)]);
}

#[test]
fn a_seam_inside_a_token_loses_it() {
    let joined = [&b"2.2.2.2\n3."[..], &b"3.3.3"[..]].concat();
    assert_eq!(extract(b"2.2.2.2\n3."), vec![(2, 2, 2, 2)]);
    assert_eq!(extract(b"3.3.3"), vec![]);
    assert_eq!(extract(&joined), vec![(2, 2, 2, 2), (3, 3, 3, 3)]);
}
