use der_explorer::der_parser::{decode_all, ASN1Error, ASN1Value, DerParser, TagClass};

#[test]
fn test_read_byte() {
    let data = [0xDE, 0xAD, 0xBE, 0xEF];
    let mut parser = DerParser::new(&data);

    assert_eq!(parser.read_byte(), Some(0xDE));
    assert_eq!(parser.read_byte(), Some(0xAD));
    assert_eq!(parser.read_byte(), Some(0xBE));
    assert_eq!(parser.read_byte(), Some(0xEF));
    assert_eq!(parser.read_byte(), None);
}

#[test]
fn test_read_n() {
    let data = [0x01, 0x02, 0x03, 0x04, 0x05];
    let mut parser = DerParser::new(&data);

    assert_eq!(parser.read_n(3), Some(&[0x01, 0x02, 0x03][..]));
    assert_eq!(parser.read_n(2), Some(&[0x04, 0x05][..]));
    assert_eq!(parser.read_n(1), None);
}

#[test]
fn test_peek_and_is_done() {
    let data = [0xAA];
    let mut parser = DerParser::new(&data);

    assert_eq!(parser.peek(), Some(0xAA));
    assert!(!parser.is_done());
    assert_eq!(parser.read_byte(), Some(0xAA));
    assert!(parser.is_done());
    assert_eq!(parser.peek(), None);
}

#[test]
fn test_read_tag_simple() {
    let data = [0x30];
    let mut parser = DerParser::new(&data);

    let tag = parser.read_tag().unwrap();
    assert_eq!(tag.class, TagClass::Universal);
    assert_eq!(tag.constructed, true);
    assert_eq!(tag.number, 16);
}

#[test]
fn test_read_tag_long_form() {
    let data = [0x1F, 0x85, 0x01];
    let mut parser = DerParser::new(&data);

    let tag = parser.read_tag().unwrap();
    assert_eq!(tag.class, TagClass::Universal);
    assert_eq!(tag.constructed, false);
    assert_eq!(tag.number, 0x0281);
}

#[test]
fn test_read_length_short() {
    let data = [0x0A];
    let mut parser = DerParser::new(&data);
    assert_eq!(parser.read_length(), Some(10));
}

#[test]
fn test_read_length_long() {
    let data = [0x82, 0x01, 0xF4];
    let mut parser = DerParser::new(&data);
    assert_eq!(parser.read_length(), Some(500));
}

#[test]
fn test_read_length_invalid_indefinite() {
    let data = [0x80];
    let mut parser = DerParser::new(&data);
    assert_eq!(parser.read_length(), None);
}

#[test]
fn test_parse_tlv_primitive_integer() {
    let data = [0x02, 0x01, 0x05];
    let mut parser = DerParser::new(&data);
    let obj = parser.parse_tlv().unwrap();

    assert_eq!(obj.tag.class, TagClass::Universal);
    assert!(!obj.tag.constructed);
    assert_eq!(obj.tag.number, 2);

    match obj.value {
        ASN1Value::Primitive(val) => assert_eq!(val, &[0x05]),
        _ => panic!("Expected primitive value"),
    }
}

#[test]
fn test_parse_tlv_constructed_sequence() {
    let data = [0x30, 0x06, 0x02, 0x01, 0x01, 0x02, 0x01, 0x02];
    let mut parser = DerParser::new(&data);
    let obj = parser.parse_tlv().unwrap();

    assert_eq!(obj.tag.class, TagClass::Universal);
    assert!(obj.tag.constructed);
    assert_eq!(obj.tag.number, 16);

    match obj.value {
        ASN1Value::Constructed(children) => {
            assert_eq!(children.len(), 2);
            assert_eq!(children[0].tag.number, 2);
            assert_eq!(children[1].tag.number, 2);
        }
        _ => panic!("Expected constructed value"),
    }
}

#[test]
fn test_parse_all_multiple_primitive_integers() {
    let data = [
        0x02, 0x01, 0x01, //
        0x02, 0x01, 0x02, //
        0x02, 0x01, 0x03,
    ];
    let mut parser = DerParser::new(&data);
    let result = parser.parse_all().unwrap();

    assert_eq!(result.len(), 3);

    for (i, obj) in result.iter().enumerate() {
        assert_eq!(obj.tag.class, TagClass::Universal);
        assert!(!obj.tag.constructed);
        assert_eq!(obj.tag.number, 2);

        match obj.value {
            ASN1Value::Primitive(val) => assert_eq!(val, &[i as u8 + 1]),
            _ => panic!("Expected primitive value"),
        }
    }
}

#[test]
fn sequence_children_carry_their_values_in_order() {
    let data = [0x30, 0x06, 0x02, 0x01, 0x01, 0x02, 0x01, 0x02];
    let objs = decode_all(&data).unwrap();
    assert_eq!(objs.len(), 1);
    assert_eq!(objs[0].length, 6);
    match &objs[0].value {
        ASN1Value::Constructed(children) => {
            assert_eq!(children.len(), 2);
            assert_eq!(children[0].value, ASN1Value::Primitive(&[0x01]));
            assert_eq!(children[1].value, ASN1Value::Primitive(&[0x02]));
            assert!(!children[0].tag.constructed);
        }
        _ => panic!("Expected constructed value"),
    }
}

#[test]
fn decoding_twice_gives_the_same_result() {
    let data = [0x30, 0x06, 0x02, 0x01, 0x01, 0x02, 0x01, 0x02];
    assert_eq!(decode_all(&data), decode_all(&data));
    let bad = [0x30, 0x09, 0x02];
    assert_eq!(decode_all(&bad), decode_all(&bad));
    assert_eq!(decode_all(&bad), Err(ASN1Error::UnexpectedEOF));
}

#[test]
fn truncated_value_is_unexpected_eof() {
    assert_eq!(decode_all(&[0x04, 0x05, 0x01, 0x02]), Err(ASN1Error::UnexpectedEOF));
    let mut parser = DerParser::new(&[0x02, 0x02, 0x01]);
    assert_eq!(parser.parse_tlv(), Err(ASN1Error::UnexpectedEOF));
}

#[test]
fn missing_or_broken_tag_is_invalid_tag() {
    let mut parser = DerParser::new(&[]);
    assert_eq!(parser.parse_tlv(), Err(ASN1Error::InvalidTag));
    assert_eq!(decode_all(&[0x1F, 0x85]), Err(ASN1Error::InvalidTag));
}

#[test]
fn tag_number_beyond_u32_is_invalid_tag() {
    assert_eq!(
        decode_all(&[0x1F, 0x90, 0x80, 0x80, 0x80, 0x00, 0x00]),
        Err(ASN1Error::InvalidTag)
    );
    let mut parser = DerParser::new(&[0x1F, 0x8F, 0xFF, 0xFF, 0xFF, 0x7F]);
    let tag = parser.read_tag().unwrap();
    assert_eq!(tag.number, u32::MAX);
}

#[test]
fn length_errors_are_invalid_length() {
    assert_eq!(decode_all(&[0x02]), Err(ASN1Error::InvalidLength));
    assert_eq!(decode_all(&[0x02, 0x80, 0x00, 0x00]), Err(ASN1Error::InvalidLength));
    assert_eq!(decode_all(&[0x02, 0x82, 0x01]), Err(ASN1Error::InvalidLength));
    let mut parser = DerParser::new(&[0x89, 1, 0, 0, 0, 0, 0, 0, 0, 0]);
    assert_eq!(parser.read_length(), None);
}

#[test]
fn child_error_propagates_unchanged() {
    assert_eq!(decode_all(&[0x30, 0x02, 0x02, 0x05]), Err(ASN1Error::UnexpectedEOF));
    assert_eq!(decode_all(&[0x30, 0x01, 0x02]), Err(ASN1Error::InvalidLength));
}

#[test]
fn empty_input_decodes_to_nothing() {
    assert_eq!(decode_all(&[]).unwrap().len(), 0);
}

#[test]
fn tag_classes_come_from_the_top_bits() {
    let mut parser = DerParser::new(&[0x41, 0xA3, 0xDF, 0x05]);
    let t = parser.read_tag().unwrap();
    assert_eq!((t.class, t.constructed, t.number), (TagClass::Application, false, 1));
    let t = parser.read_tag().unwrap();
    assert_eq!((t.class, t.constructed, t.number), (TagClass::ContextSpecific, true, 3));
    let t = parser.read_tag().unwrap();
    assert_eq!((t.class, t.constructed, t.number), (TagClass::Private, false, 5));
}

#[test]
fn owned_copy_keeps_everything() {
    let data = vec![0x30, 0x05, 0x04, 0x03, 0xAA, 0xBB, 0xCC];
    let objs = decode_all(&data).unwrap();
    let owned = objs[0].to_owned();
    drop(objs);
    drop(data);
    assert_eq!(owned.tag.number, 16);
    assert_eq!(owned.length, 5);
    match &owned.value {
        der_explorer::der_parser::OwnedValue::Constructed(children) => {
            assert_eq!(children.len(), 1);
            assert_eq!(
                children[0].value,
                der_explorer::der_parser::OwnedValue::Primitive(vec![0xAA, 0xBB, 0xCC])
            );
        }
        _ => panic!("Expected constructed value"),
    }
}
