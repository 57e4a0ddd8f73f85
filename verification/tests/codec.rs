use crates_io_cli::codec::{
    decode_context, decode_crate, decode_crate_version, encode_context, encode_crate,
    encode_crate_version,
};
use crates_io_cli::model::{ChangeKind, Context, Crate, CrateVersion};

#[test]
fn context_encoding_is_three_little_endian_words() {
    let c = Context {
        new_crates: 1,
        new_crate_versions: 2,
        errors: 3,
    };
    let bytes = encode_context(&c);
    let mut expected = vec![0u8; 24];
    expected[0] = 1;
    expected[8] = 2;
    expected[16] = 3;
    assert_eq!(bytes, expected);
    assert_eq!(decode_context(&bytes), Some(c));
}

#[test]
fn context_decoding_rejects_wrong_length() {
    assert_eq!(decode_context(&vec![0u8; 23]), None);
    assert_eq!(decode_context(&vec![0u8; 25]), None);
    assert_eq!(decode_context(&Vec::new()), None);
}

#[test]
fn context_word_order_survives_large_values() {
    let c = Context {
        new_crates: u64::MAX,
        new_crate_versions: 0x0102030405060708,
        errors: 0,
    };
    let bytes = encode_context(&c);
    assert_eq!(decode_context(&bytes), Some(c));
    assert_eq!(bytes[8..16], [8, 7, 6, 5, 4, 3, 2, 1]);
}

#[test]
fn crate_version_round_trips() {
    let v = CrateVersion {
        name: "a".to_owned(),
        version: "b".to_owned(),
        kind: ChangeKind::Added,
    };
    let bytes = encode_crate_version(&v);
    let mut expected = Vec::new();
    expected.extend_from_slice(&[1, 0, 0, 0, 0, 0, 0, 0]);
    expected.push(b'a');
    expected.extend_from_slice(&[1, 0, 0, 0, 0, 0, 0, 0]);
    expected.push(b'b');
    expected.push(0);
    assert_eq!(bytes, expected);
    assert_eq!(decode_crate_version(&bytes), Some(v));
}

#[test]
fn crate_version_yanked_round_trips() {
    let v = CrateVersion {
        name: "tokio".to_owned(),
        version: "0.1.22".to_owned(),
        kind: ChangeKind::Yanked,
    };
    let bytes = encode_crate_version(&v);
    assert_eq!(*bytes.last().unwrap(), 1u8);
    assert_eq!(decode_crate_version(&bytes), Some(v));
}

#[test]
fn crate_version_decoding_rejects_bad_bytes() {
    let good = encode_crate_version(&CrateVersion {
        name: "x".to_owned(),
        version: "y".to_owned(),
        kind: ChangeKind::Added,
    });

    // an unknown change-kind byte
    let mut bad_kind = good.clone();
    let last = bad_kind.len() - 1;
    bad_kind[last] = 2;
    assert_eq!(decode_crate_version(&bad_kind), None);

    // trailing garbage
    let mut trailing = good.clone();
    trailing.push(0);
    assert_eq!(decode_crate_version(&trailing), None);

    // a name that is not text
    let mut bad_utf8 = good.clone();
    bad_utf8[8] = 0xFF;
    assert_eq!(decode_crate_version(&bad_utf8), None);

    // a length word that points past the end
    let mut bad_len = good.clone();
    bad_len[0] = 200;
    assert_eq!(decode_crate_version(&bad_len), None);

    assert_eq!(decode_crate_version(&Vec::new()), None);
}

#[test]
fn crate_record_round_trips() {
    let c = Crate {
        versions: vec!["0.9.0".to_owned(), "1.0.0".to_owned()],
    };
    let bytes = encode_crate(&c);
    assert_eq!(decode_crate(&bytes), Some(c));

    let empty = Crate { versions: Vec::new() };
    let bytes = encode_crate(&empty);
    assert_eq!(bytes, vec![0u8; 8]);
    assert_eq!(decode_crate(&bytes), Some(empty));
}

#[test]
fn crate_decoding_rejects_bad_bytes() {
    // count claims one version, no version follows
    let only_count = vec![1, 0, 0, 0, 0, 0, 0, 0];
    assert_eq!(decode_crate(&only_count), None);

    // trailing garbage after a well-formed record
    let mut bytes = encode_crate(&Crate {
        versions: vec!["1.2.3".to_owned()],
    });
    bytes.push(7);
    assert_eq!(decode_crate(&bytes), None);

    assert_eq!(decode_crate(&vec![0u8; 3]), None);
}

#[test]
fn decoded_bytes_reencode_to_themselves() {
    let records = vec![
        encode_crate(&Crate {
            versions: vec!["0.1.0".to_owned(), "0.2.0".to_owned(), "1.0.0".to_owned()],
        }),
        encode_crate_version(&CrateVersion {
            name: "serde".to_owned(),
            version: "1.0.104".to_owned(),
            kind: ChangeKind::Added,
        }),
        encode_context(&Context {
            new_crates: 11,
            new_crate_versions: 22,
            errors: 33,
        }),
    ];
    let crate_back = decode_crate(&records[0]).unwrap();
    assert_eq!(encode_crate(&crate_back), records[0]);
    let version_back = decode_crate_version(&records[1]).unwrap();
    assert_eq!(encode_crate_version(&version_back), records[1]);
    let context_back = decode_context(&records[2]).unwrap();
    assert_eq!(encode_context(&context_back), records[2]);
}

#[test]
fn non_ascii_versions_round_trip() {
    let v = CrateVersion {
        name: "naïve-café".to_owned(),
        version: "1.0.0-β.2".to_owned(),
        kind: ChangeKind::Added,
    };
    let bytes = encode_crate_version(&v);
    assert_eq!(decode_crate_version(&bytes), Some(v));
}
