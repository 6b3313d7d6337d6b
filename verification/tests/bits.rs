use nistrs::bits::BitsData;

#[test]
fn from_binary() {
    let result = BitsData::from_binary(vec![0x12, 0x21]);
    assert!(result.as_slice().eq(&[
        false, false, false, true,
        false, false, true,  false,
        false, false, true,  false,
        false, false, false, true
    ]));
}

#[test]
fn from_text() {
    let result = BitsData::from_text("0010010001010001".to_string());
    assert!(result.as_slice().eq(&[
        false, false, true,  false,
        false, true,  false, false,
        false, true,  false, true,
        false, false, false, true
    ]))
}

#[test]
fn from_text_rejects_other_digits() {
    assert!(BitsData::try_from_text("0010020001010001").is_none());
}

#[test]
fn from_text_rejects_inner_space() {
    assert!(BitsData::try_from_text("01 10").is_none());
}

#[test]
fn from_text_reads_trimmed_lines() {
    let result = BitsData::try_from_text(" 01 \r\n\t1\n\n10 \u{3000}").unwrap();
    assert_eq!(result.as_slice(), &[false, true, true, true, false]);
    assert_eq!(result.ones(), 3);
}

#[test]
fn from_text_empty() {
    let result = BitsData::try_from_text("").unwrap();
    assert!(result.is_empty());
    assert_eq!(result.len(), 0);
    assert_eq!(result.ones(), 0);
}

#[test]
fn from_text_round_trip_of_binary() {
    let bytes = BitsData::from_binary(vec![0xa5, 0x0f]);
    let text: String = bytes.iter().map(|b| if *b { '1' } else { '0' }).collect();
    assert_eq!(text, "1010010100001111");
    let back = BitsData::from_text(text);
    assert_eq!(back.as_slice(), bytes.as_slice());
    assert_eq!(back.ones(), bytes.ones());
}

#[test]
fn from_binary_counts_ones() {
    let result = BitsData::from_binary(vec![0xff, 0x00, 0x81]);
    assert_eq!(result.len(), 24);
    assert_eq!(result.ones(), 10);
    assert!(!result.is_empty());
    assert!(result.index(0));
    assert!(!result.index(8));
    assert!(result.index(23));
    assert_eq!(result.iter().filter(|b| **b).count(), 10);
}

#[test]
fn from_binary_empty() {
    let result = BitsData::from_binary(vec![]);
    assert!(result.is_empty());
    assert_eq!(result.ones(), 0);
}
