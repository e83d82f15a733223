use fix_builder::{FixMessageBuilder, FixSerializeError};

fn sample_message() -> FixMessageBuilder {
    let mut fix_builder = FixMessageBuilder::new("FIX.4.4", "A");
    fix_builder.with_value(34, &"1092".to_string());
    fix_builder.with_value(49, &"TESTBUY1".to_string());
    fix_builder.with_value(52, &"20180920-18:24:59.643".to_string());
    fix_builder.with_value(56, &"TESTSELL1".to_string());
    fix_builder.with_value(98, &"0".to_string());
    fix_builder.with_value(108, &"60".to_string());
    fix_builder
}

#[test]
fn test_to_fix_string() {
    let fix_string = "8=FIX.4.4|9=75|35=A|34=1092|49=TESTBUY1|52=20180920-18:24:59.643|56=TESTSELL1|98=0|108=60|10=178|";

    let mut fix_builder = FixMessageBuilder::new("FIX.4.4", "A");
    fix_builder.with_value(34, &"1092".to_string());
    fix_builder.with_value(49, &"TESTBUY1".to_string());
    fix_builder.with_value(52, &"20180920-18:24:59.643".to_string());
    fix_builder.with_value(56, &"TESTSELL1".to_string());
    fix_builder.with_value(98, &"0".to_string());
    fix_builder.with_value(108, &"60".to_string());

    let fix_to_assert: String = fix_builder.to_string().unwrap();

    assert_eq!(fix_string, &fix_to_assert);
}

#[test]
fn test_invalid_fix_no_version() {
    let fix_string =
        b"9=75\x0135=A\x01108=60\x0134=1092\x0149=TESTBUY1\x0152=20180920-18:24:59.643\x0156=TESTSELL1\x0198=0\x0110=178\x01";

    let builder = FixMessageBuilder::from_bytes(fix_string, true);

    assert_eq!(true, builder.is_err());
    assert_eq!(
        FixSerializeError::VersionTagNotFoundInSource as i32,
        builder.err().unwrap() as i32
    );
}

#[test]
fn test_invalid_fix_no_message_type() {
    let fix_string =
        b"8=FIX.4.4\x019=75\x01108=60\x0134=1092\x0149=TESTBUY1\x0152=20180920-18:24:59.643\x0156=TESTSELL1\x0198=0\x0110=178\x01";
    let builder = FixMessageBuilder::from_bytes(fix_string, true);

    assert_eq!(true, builder.is_err());
    assert_eq!(
        FixSerializeError::MessageTypeTagNotFoundInSource as i32,
        builder.err().unwrap() as i32
    );
}

#[test]
fn test_no_check_sum_with_validation() {
    let fix_string =
        b"8=FIX.4.4\x019=75\x0135=A\x01108=60\x0134=1092\x0149=TESTBUY1\x0152=20180920-18:24:59.643\x0156=TESTSELL1\x0198=0\x01";
    let builder = FixMessageBuilder::from_bytes(fix_string, true);

    assert_eq!(true, builder.is_err());
    assert_eq!(
        FixSerializeError::CheckSumTagNotFoundInSource as i32,
        builder.err().unwrap() as i32
    );
}

#[test]
fn test_no_check_sum_with_disabled_validation() {
    let fix_string =
        b"8=FIX.4.4\x019=75\x0135=A\x01108=60\x0134=1092\x0149=TESTBUY1\x0152=20180920-18:24:59.643\x0156=TESTSELL1\x0198=0\x01";
    let builder = FixMessageBuilder::from_bytes(fix_string, false);

    assert_eq!(false, builder.is_err());
}

#[test]
fn test_invalid_fix_check_sum_with_disabled_validation() {
    let fix_string = b"8=FIX.4.4\x019=75\x0135=A\x01108=60\x0134=1092\x0149=TESTBUY1\x0152=20180920-18:24:59.643\x0156=TESTSELL1\x0198=0\x0110=188\x01";
    let builder = FixMessageBuilder::from_bytes(fix_string, false);

    assert_eq!(false, builder.is_err());
}

#[test]
fn test_invalid_fix_check_sum() {
    let fix_string = b"8=FIX.4.4\x019=75\x0135=A\x01108=60\x0134=1092\x0149=TESTBUY1\x0152=20180920-18:24:59.643\x0156=TESTSELL1\x0198=0\x0110=188\x01";
    let builder = FixMessageBuilder::from_bytes(fix_string, true);

    assert_eq!(true, builder.is_err());
    assert_eq!(
        FixSerializeError::InvalidCheckSum as i32,
        builder.err().unwrap() as i32
    );
}

#[test]
fn test_to_bytes() {
    let fix_string = b"8=FIX.4.4\x019=75\x0135=A\x0134=1092\x0149=TESTBUY1\x0152=20180920-18:24:59.643\x0156=TESTSELL1\x0198=0\x01108=60\x0110=178\x01";

    let mut fix_builder = FixMessageBuilder::new("FIX.4.4", "A");
    fix_builder.with_value(34, &"1092".to_string());
    fix_builder.with_value(49, &"TESTBUY1".to_string());
    fix_builder.with_value(52, &"20180920-18:24:59.643".to_string());
    fix_builder.with_value(56, &"TESTSELL1".to_string());
    fix_builder.with_value(98, &"0".to_string());
    fix_builder.with_value(108, &"60".to_string());

    let fix_to_assert = fix_builder.as_bytes();

    assert_eq!(fix_string, fix_to_assert.as_slice());
}

#[test]
fn test_few_values_with_same_tag() {
    let fix_string = b"8=FIX.4.4\x019=87\x0135=A\x0134=1092\x0149=TESTBUY1\x0149=TESTBUY2\x0152=20180920-18:24:59.643\x0156=TESTSELL1\x0198=0\x01108=60\x0110=194\x01";

    let mut fix_builder = FixMessageBuilder::new("FIX.4.4", "A");
    fix_builder.with_value(34, &"1092".to_string());
    fix_builder.with_value(49, &"TESTBUY1".to_string());
    fix_builder.with_value(49, &"TESTBUY2".to_string());
    fix_builder.with_value(52, &"20180920-18:24:59.643".to_string());
    fix_builder.with_value(56, &"TESTSELL1".to_string());
    fix_builder.with_value(98, &"0".to_string());
    fix_builder.with_value(108, &"60".to_string());
    let fix_to_assert = fix_builder.as_bytes();

    assert_eq!(fix_string, fix_to_assert.as_slice());
}

#[test]
fn test_get_few_values_with_same_tag() {
    let fix_string = b"8=FIX.4.4\x019=87\x0135=A\x0134=1092\x0149=TESTBUY1\x0149=TESTBUY2\x0152=20180920-18:24:59.643\x0156=TESTSELL1\x0198=0\x01108=60\x0110=194\x01";

    let mut fix_builder = FixMessageBuilder::new("FIX.4.4", "A");
    fix_builder.with_value(34, &"1092".to_string());
    fix_builder.with_value(49, &"TESTBUY1".to_string());
    fix_builder.with_value(49, &"TESTBUY2".to_string());
    fix_builder.with_value(52, &"20180920-18:24:59.643".to_string());
    fix_builder.with_value(56, &"TESTSELL1".to_string());
    fix_builder.with_value(98, &"0".to_string());
    fix_builder.with_value(108, &"60".to_string());
    let fix_to_assert = fix_builder.as_bytes();

    assert_eq!(fix_string, fix_to_assert.as_slice());
    let tag49 = fix_builder.get_values_string("49").unwrap();
    assert_eq!(2, tag49.len());
    assert_eq!("TESTBUY1", tag49[0]);
    assert_eq!("TESTBUY2", tag49[1]);
}

#[test]
fn round_trip_with_validation() {
    let built = sample_message();
    let bytes = built.as_bytes();
    let decoded = FixMessageBuilder::from_bytes(&bytes, true).unwrap();
    assert_eq!(decoded.get_message_type(), &b"A".to_vec());
    assert_eq!(decoded.as_bytes(), bytes);
    for tag in ["34", "49", "52", "56", "98", "108"] {
        assert_eq!(
            decoded.get_values_string(tag).unwrap(),
            built.get_values_string(tag).unwrap()
        );
    }
    assert!(decoded.get_values(b"9".to_vec()).is_empty());
    assert!(decoded.get_values(b"10".to_vec()).is_empty());
    assert!(decoded.get_values(b"35".to_vec()).is_empty());
}

#[test]
fn round_trip_keeps_values_of_a_repeated_tag() {
    let mut built = FixMessageBuilder::new("FIX.4.4", "D");
    built.with_value(49, "ONE");
    built.with_value(50, "X");
    built.with_value(49, "TWO");
    let bytes = built.as_bytes();
    let decoded = FixMessageBuilder::from_bytes(&bytes, true).unwrap();
    assert_eq!(decoded.get_values_string("49").unwrap(), vec!["ONE".to_string(), "TWO".to_string()]);
    assert_eq!(decoded.get_values_string("50").unwrap(), vec!["X".to_string()]);
    assert_eq!(
        built.to_string().unwrap(),
        "8=FIX.4.4|9=24|35=D|49=ONE|50=X|49=TWO|10=021|"
    );
    assert_eq!(
        decoded.to_string().unwrap(),
        "8=FIX.4.4|9=24|35=D|49=ONE|49=TWO|50=X|10=021|"
    );
}

#[test]
fn decoding_reorders_by_first_appearance_and_keeps_checksum() {
    let fix_string = b"8=FIX.4.4\x019=75\x0135=A\x01108=60\x0134=1092\x0149=TESTBUY1\x0152=20180920-18:24:59.643\x0156=TESTSELL1\x0198=0\x0110=178\x01";
    let decoded = FixMessageBuilder::from_bytes(fix_string, true).unwrap();
    assert_eq!(
        decoded.to_string().unwrap(),
        "8=FIX.4.4|9=75|35=A|108=60|34=1092|49=TESTBUY1|52=20180920-18:24:59.643|56=TESTSELL1|98=0|10=178|"
    );
}

#[test]
fn missing_version_wins_over_missing_message_type() {
    let builder = FixMessageBuilder::from_bytes(b"34=1\x0110=000\x01", false);
    assert_eq!(builder.err(), Some(FixSerializeError::VersionTagNotFoundInSource));
}

#[test]
fn valid_check_sum_with_validation() {
    let fix_string = b"8=FIX.4.4\x019=75\x0135=A\x0134=1092\x0149=TESTBUY1\x0152=20180920-18:24:59.643\x0156=TESTSELL1\x0198=0\x01108=60\x0110=178\x01";
    let decoded = FixMessageBuilder::from_bytes(fix_string, true).unwrap();
    assert_eq!(decoded.get_value_string("56").unwrap(), Some("TESTSELL1".to_string()));
    assert_eq!(decoded.get_value(b"98".to_vec()), Some(&b"0".to_vec()));
}

#[test]
fn second_message_type_is_a_body_field() {
    let decoded = FixMessageBuilder::from_bytes(b"8=F\x0135=A\x0135=B\x01", false).unwrap();
    assert_eq!(decoded.get_message_type(), &b"A".to_vec());
    assert_eq!(decoded.get_values_string("35").unwrap(), vec!["B".to_string()]);
}

#[test]
fn repeated_tag_values_in_order() {
    let mut m = FixMessageBuilder::new("FIX.4.4", "A");
    m.with_value(49, "TESTBUY1");
    m.with_value(49, "TESTBUY2");
    assert_eq!(
        m.get_values(b"49".to_vec()),
        vec![&b"TESTBUY1".to_vec(), &b"TESTBUY2".to_vec()]
    );
    assert_eq!(m.get_value_as_string(b"49".to_vec()).unwrap(), Some("TESTBUY1".to_string()));
    assert_eq!(
        m.get_values_as_string(b"49".to_vec()).unwrap(),
        vec!["TESTBUY1".to_string(), "TESTBUY2".to_string()]
    );
    assert_eq!(m.get_value(b"50".to_vec()), None);
    assert_eq!(m.get_value_string("50").unwrap(), None);
    assert!(m.get_values_string("50").unwrap().is_empty());
}

#[test]
fn negative_tag_is_written_with_sign() {
    let mut m = FixMessageBuilder::new("V", "T");
    m.with_value(-5, "x");
    assert_eq!(m.to_string().unwrap(), "8=V|9=10|35=T|-5=x|10=182|");
}

#[test]
fn non_utf8_value_is_an_encoding_error() {
    let decoded = FixMessageBuilder::from_bytes(b"8=F\x0135=A\x0158=\xff\xfe\x01", false).unwrap();
    assert_eq!(decoded.get_value(b"58".to_vec()), Some(&vec![0xffu8, 0xfe]));
    assert_eq!(
        decoded.get_value_as_string(b"58".to_vec()),
        Err(FixSerializeError::InvalidEncoding)
    );
    assert_eq!(decoded.get_values_string("58"), Err(FixSerializeError::InvalidEncoding));
    assert_eq!(decoded.to_string(), Err(FixSerializeError::InvalidEncoding));
}

#[test]
fn empty_message_encoding() {
    let m = FixMessageBuilder::new("", "");
    assert_eq!(m.as_bytes(), b"8=\x019=4\x0135=\x0110=199\x01".to_vec());
}
