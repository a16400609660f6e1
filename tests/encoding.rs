use der_explorer::der_parser::decode_owned;
use der_explorer::encode::{get_tag_length_value_bytes, oid_arcs};
use der_explorer::input::{strip_pem, try_decode_input};

#[test]
fn breakdown_rebuilds_a_sequence() {
    let data = [0x30, 0x06, 0x02, 0x01, 0x01, 0x02, 0x01, 0x02];
    let objs = decode_owned(&data).unwrap();
    let (t, l, v) = get_tag_length_value_bytes(&objs[0]);
    assert_eq!(t, vec![0x30]);
    assert_eq!(l, vec![0x06]);
    assert_eq!(v, vec![0x02, 0x01, 0x01, 0x02, 0x01, 0x02]);
}

#[test]
fn breakdown_of_long_tag_and_long_length() {
    let mut data = vec![0x1F, 0x85, 0x01, 0x82, 0x01, 0xF4];
    data.extend(std::iter::repeat(0x55u8).take(500));
    let objs = decode_owned(&data).unwrap();
    assert_eq!(objs[0].tag.number, 641);
    assert_eq!(objs[0].length, 500);
    let (t, l, v) = get_tag_length_value_bytes(&objs[0]);
    assert_eq!(t, vec![0x1F, 0x85, 0x01]);
    assert_eq!(l, vec![0x82, 0x01, 0xF4]);
    assert_eq!(v.len(), 500);
}

#[test]
fn breakdown_writes_lengths_canonically() {
    let data = [0x04, 0x81, 0x01, 0xAB];
    let objs = decode_owned(&data).unwrap();
    let (t, l, v) = get_tag_length_value_bytes(&objs[0]);
    assert_eq!(t, vec![0x04]);
    assert_eq!(l, vec![0x01]);
    assert_eq!(v, vec![0xAB]);
}

#[test]
fn hex_input_is_decoded() {
    assert_eq!(try_decode_input("020105"), Ok(vec![0x02, 0x01, 0x05]));
    assert_eq!(try_decode_input("30 06"), Err(()));
    assert_eq!(try_decode_input("0A0b\n0C"), Ok(vec![0x0A, 0x0B, 0x0C]));
}

#[test]
fn base64_input_is_decoded() {
    assert_eq!(try_decode_input("AgEF"), Ok(vec![0x02, 0x01, 0x05]));
}

#[test]
fn pem_wrapped_input_is_decoded() {
    let pem = "-----BEGIN CERTIFICATE-----\r\nMAYCAQECAQI=\r\n-----END CERTIFICATE-----\n";
    assert_eq!(
        try_decode_input(pem),
        Ok(vec![0x30, 0x06, 0x02, 0x01, 0x01, 0x02, 0x01, 0x02])
    );
    assert_eq!(strip_pem(pem.as_bytes()), b"MAYCAQECAQI=".to_vec());
}

#[test]
fn undecodable_input_is_an_error() {
    assert_eq!(try_decode_input("not base64 or hex!"), Err(()));
}

#[test]
fn oid_arcs_of_rsa_identifier() {
    assert_eq!(oid_arcs(&[0x2A, 0x86, 0x48, 0x86, 0xF7, 0x0D]), vec![1, 2, 840, 113549]);
    assert_eq!(oid_arcs(&[0x55, 0x04, 0x03]), vec![2, 5, 4, 3]);
    assert_eq!(oid_arcs(&[]), Vec::<u32>::new());
    assert_eq!(oid_arcs(&[0x2A, 0x86]), vec![1, 2]);
}

#[test]
fn re_encoding_a_canonical_tree_gives_its_bytes() {
    let data = vec![
        0x30, 0x0B, 0x02, 0x01, 0x01, 0x30, 0x06, 0x02, 0x01, 0x02, 0x02, 0x01, 0x03, 0x02, 0x01,
        0x04,
    ];
    let objs = decode_owned(&data).unwrap();
    let mut out = Vec::new();
    for obj in &objs {
        let (t, l, v) = get_tag_length_value_bytes(obj);
        out.extend(t);
        out.extend(l);
        out.extend(v);
    }
    assert_eq!(out, data);
    let again = decode_owned(&out).unwrap();
    assert_eq!(again, objs);
}
