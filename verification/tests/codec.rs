use ivec::big_endian::{from_be_bytes, to_be_bytes};
use ivec::order::less;
use ivec::{AsBytes, Decoder, Encoder, IVec, IntegerEncoding, StringEncoding};

#[test]
fn integer_encoding_is_big_endian() {
    assert_eq!(to_be_bytes(0), [0u8; 16]);
    assert_eq!(to_be_bytes(1), [0, 0, 0, 0, 0, 0, 0, 0, 0, 0, 0, 0, 0, 0, 0, 1]);
    assert_eq!(to_be_bytes(0x0102), [0, 0, 0, 0, 0, 0, 0, 0, 0, 0, 0, 0, 0, 0, 1, 2]);
    assert_eq!(
        to_be_bytes(0x0102_0304_0506_0708_090a_0b0c_0d0e_0f10),
        [1, 2, 3, 4, 5, 6, 7, 8, 9, 10, 11, 12, 13, 14, 15, 16]
    );
    assert_eq!(to_be_bytes(u128::MAX), [0xff; 16]);
    assert_eq!(<IntegerEncoding<u128> as Encoder>::encode(258), 258u128.to_be_bytes());
}

#[test]
fn integer_decoding_reads_big_endian() {
    assert_eq!(from_be_bytes(&[0; 16]), 0);
    assert_eq!(from_be_bytes(&[0, 0, 0, 0, 0, 0, 0, 0, 0, 0, 0, 0, 0, 0, 1, 2]), 258);
    assert_eq!(from_be_bytes(&[0xff; 16]), u128::MAX);
    assert_eq!(
        from_be_bytes(&[0x80, 0, 0, 0, 0, 0, 0, 0, 0, 0, 0, 0, 0, 0, 0, 0]),
        1u128 << 127
    );
    assert_eq!(
        <IntegerEncoding<u128> as Decoder>::decode(&[1, 2, 3, 4, 5, 6, 7, 8, 9, 10, 11, 12, 13, 14, 15, 16]),
        Ok(0x0102_0304_0506_0708_090a_0b0c_0d0e_0f10)
    );
}

#[test]
fn integer_round_trip() {
    let samples = [
        0u128,
        1,
        255,
        256,
        65535,
        65536,
        u64::MAX as u128,
        u64::MAX as u128 + 1,
        1 << 127,
        u128::MAX - 1,
        u128::MAX,
        0xdead_beef_0000_0000_1234_5678_9abc_def0,
    ];
    for x in samples {
        let encoded = <IntegerEncoding<u128> as Encoder>::encode(x);
        assert_eq!(encoded.as_bytes().len(), 16);
        assert_eq!(<IntegerEncoding<u128> as Decoder>::decode(encoded.as_bytes()), Ok(x));
        let iv = IVec::<IntegerEncoding<u128>>::encode(x);
        assert_eq!(iv.decode(), Ok(x));
        assert!(!iv.is_inline());
    }
}

#[test]
fn integer_decode_rejects_other_lengths() {
    assert_eq!(<IntegerEncoding<u128> as Decoder>::decode(&[]), Err(()));
    assert_eq!(<IntegerEncoding<u128> as Decoder>::decode(&[0; 15]), Err(()));
    assert_eq!(<IntegerEncoding<u128> as Decoder>::decode(&[0; 17]), Err(()));
    assert_eq!(<IntegerEncoding<u128> as Decoder>::decode(&[1, 2, 3, 4, 5, 6, 7, 8]), Err(()));
    let iv: IVec<IntegerEncoding<u128>> = IVec::new(&[1, 2, 3]);
    assert_eq!(iv.decode(), Err(()));
}

#[test]
fn integer_encoding_keeps_the_order() {
    let ascending = [
        0u128,
        1,
        2,
        255,
        256,
        257,
        65535,
        1 << 64,
        (1 << 64) + 1,
        1 << 127,
        u128::MAX - 1,
        u128::MAX,
    ];
    for (i, x) in ascending.iter().enumerate() {
        for (j, y) in ascending.iter().enumerate() {
            let ex = to_be_bytes(*x);
            let ey = to_be_bytes(*y);
            assert_eq!(less(&ex, &ey), i < j, "{} and {}", x, y);
            assert_eq!(ex < ey, x < y);
        }
    }
}

#[test]
fn text_round_trip() {
    for s in ["", "January", "héllo wörld", "日本語のテキスト", "a\u{0}b", "🦀 crab"] {
        let encoded = <StringEncoding as Encoder>::encode(s);
        assert_eq!(encoded, s.as_bytes());
        assert_eq!(<StringEncoding as Decoder>::decode(encoded), Ok(s));
        let iv = IVec::<StringEncoding>::encode(s);
        assert_eq!(iv.as_ref(), s.as_bytes());
        assert_eq!(iv.decode(), Ok(s));
        assert_eq!(iv.is_inline(), s.len() <= 7);
    }
}

#[test]
fn text_decode_rejects_malformed_bytes() {
    let malformed: [&[u8]; 6] = [
        &[0xff],
        &[0xc0, 0x80],
        &[0xe2, 0x82],
        &[0xed, 0xa0, 0x80],
        &[0xf4, 0x90, 0x80, 0x80],
        &[b'o', b'k', 0x80],
    ];
    for bytes in malformed {
        assert!(<StringEncoding as Decoder>::decode(bytes).is_err());
        assert!(std::str::from_utf8(bytes).is_err());
        let iv: IVec<StringEncoding> = IVec::new(bytes);
        assert!(iv.decode().is_err());
    }
}

#[test]
fn encoded_forms_read_as_their_bytes() {
    assert_eq!([1u8, 2, 3].as_bytes(), &[1, 2, 3][..]);
    assert_eq!(vec![4u8, 5].as_bytes(), &[4, 5][..]);
    assert_eq!((&[6u8, 7][..]).as_bytes(), &[6, 7][..]);
    assert_eq!("añ".as_bytes(), &[0x61, 0xc3, 0xb1][..]);
    assert_eq!(AsBytes::as_bytes(&String::from("b")), &[0x62][..]);
    assert_eq!(AsBytes::as_bytes(&IVec::<()>::new(&[9; 10])), &[9; 10][..]);
}
