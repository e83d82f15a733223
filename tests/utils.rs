use fix_builder::{
    FIX_DELIMETR, bytes_to_fix_string, calculate_check_sum, compile_fix_chunk, decimal_digits,
    signed_decimal_digits, split_fix_to_tags,
};

fn build_test_body(data: Vec<&str>) -> Vec<u8> {
    let mut result = vec![];
    for itm in data {
        result.extend_from_slice(itm.as_bytes());
        result.extend_from_slice(&vec![FIX_DELIMETR]);
    }

    result
}

#[test]
fn test_compile_fix_chunk() {
    let bytes = b"8=FIX.4.4";

    let key = b"8";
    let value = b"FIX.4.4";

    let result = compile_fix_chunk(key, value);

    assert_eq!(bytes, &result[..9]);
    assert_eq!(&vec![FIX_DELIMETR], &result[9..10]);
}

#[test]
fn test_check_sum_calculation() {
    let check_sum = b"178";

    let test_body = build_test_body(vec![
        "8=FIX.4.4",
        "9=75",
        "35=A",
        "34=1092",
        "49=TESTBUY1",
        "52=20180920-18:24:59.643",
        "56=TESTSELL1",
        "98=0",
        "108=60",
    ]);

    let result = calculate_check_sum(&test_body);
    assert_eq!(check_sum, result.as_bytes());
}

#[test]
fn test_bytes_to_fix_string() {
    let fix_text_string = "8=FIX.4.4|9=75|35=A|";
    let test_fix_message = build_test_body(vec!["8=FIX.4.4", "9=75", "35=A"]);

    let string_message = bytes_to_fix_string(&test_fix_message).unwrap();

    assert_eq!(string_message.as_str(), fix_text_string);
}

#[test]
fn check_sum_is_zero_padded() {
    assert_eq!(calculate_check_sum(b""), "000");
    assert_eq!(calculate_check_sum(b"A"), "065");
    assert_eq!(calculate_check_sum(b"8=FIX.4.4\x019=75\x01"), "004");
}

#[test]
fn check_sum_wraps_at_256() {
    assert_eq!(calculate_check_sum(&[255, 1]), "000");
    assert_eq!(calculate_check_sum(&[200, 100]), "044");
    assert_eq!(calculate_check_sum(&[255]), "255");
}

#[test]
fn check_sum_is_three_digits() {
    for body in [vec![], vec![7u8], vec![99, 1], vec![250, 250, 250]] {
        let s = calculate_check_sum(&body);
        assert_eq!(s.len(), 3);
        assert!(s.bytes().all(|b| b.is_ascii_digit()));
    }
}

#[test]
fn chunk_is_tag_equals_value_terminator() {
    assert_eq!(compile_fix_chunk(b"35", b"A"), b"35=A\x01".to_vec());
    assert_eq!(compile_fix_chunk(b"", b""), b"=\x01".to_vec());
}

#[test]
fn display_form_replaces_terminators_only() {
    assert_eq!(bytes_to_fix_string(b"a\x01b=c\x01").unwrap(), "a|b=c|");
    assert_eq!(bytes_to_fix_string(b"").unwrap(), "");
}

#[test]
fn display_form_of_non_utf8_fails() {
    assert_eq!(
        bytes_to_fix_string(&[0x38, 0xff, 0x01]),
        Err(fix_builder::FixSerializeError::InvalidEncoding)
    );
}

#[test]
fn decimal_forms() {
    assert_eq!(decimal_digits(0), b"0".to_vec());
    assert_eq!(decimal_digits(75), b"75".to_vec());
    assert_eq!(decimal_digits(u64::MAX), u64::MAX.to_string().into_bytes());
    assert_eq!(signed_decimal_digits(-5), b"-5".to_vec());
    assert_eq!(signed_decimal_digits(i32::MIN), i32::MIN.to_string().into_bytes());
    assert_eq!(signed_decimal_digits(108), b"108".to_vec());
}

#[test]
fn splitter_groups_by_first_appearance() {
    let tags = split_fix_to_tags(b"49=A\x0156=B\x0149=C\x01");
    assert_eq!(
        tags,
        vec![
            (b"49".to_vec(), vec![b"A".to_vec(), b"C".to_vec()]),
            (b"56".to_vec(), vec![b"B".to_vec()]),
        ]
    );
}

#[test]
fn splitter_drops_unterminated_tail_and_equals_in_values() {
    let tags = split_fix_to_tags(b"1=a=b\x012=c");
    assert_eq!(tags, vec![(b"1".to_vec(), vec![b"ab".to_vec()])]);
    assert!(split_fix_to_tags(b"").is_empty());
    assert_eq!(split_fix_to_tags(b"\x01"), vec![(vec![], vec![vec![]])]);
}
