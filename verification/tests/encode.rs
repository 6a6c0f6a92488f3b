use std::io::ErrorKind;

use xbm::Encoder;

// "B" (8x7)
fn basic_pixels() -> Vec<u8> {
    b"\x00\x00\x00\x00\x00\x00\x00\x00\
      \x00\x00\x01\x01\x01\x00\x00\x00\
      \x00\x00\x01\x00\x00\x01\x00\x00\
      \x00\x00\x01\x01\x01\x00\x00\x00\
      \x00\x00\x01\x00\x00\x01\x00\x00\
      \x00\x00\x01\x01\x01\x00\x00\x00\
      \x00\x00\x00\x00\x00\x00\x00\x00"
        .to_vec()
}

#[test]
fn encode() {
    let pixels = basic_pixels();

    let expected = "#define image_width 8
#define image_height 7
static unsigned char image_bits[] = {
    0x00, 0x1C, 0x24, 0x1C, 0x24, 0x1C, 0x00,
};
";
    assert_eq!(expected.len(), 132);
    let encoder = Encoder::new(String::new());
    let out = encoder.encode(&pixels, "image", 8, 7, None, None).unwrap();
    assert_eq!(out, expected);
}

#[test]
fn encode_width_name() {
    let pixels = basic_pixels();

    let expected = "#define test_width 8
#define test_height 7
static unsigned char test_bits[] = {
    0x00, 0x1C, 0x24, 0x1C, 0x24, 0x1C, 0x00,
};
";
    assert_eq!(expected.len(), 129);
    let encoder = Encoder::new(String::new());
    let out = encoder.encode(&pixels, "test", 8, 7, None, None).unwrap();
    assert_eq!(out, expected);
}

#[test]
fn encode_16x14() {
    // "B" (16x14)
    let rows = [
        "0000000000000000",
        "0000000000000000",
        "0000111111000000",
        "0000111111000000",
        "0000110000110000",
        "0000110000110000",
        "0000111111000000",
        "0000111111000000",
        "0000110000110000",
        "0000110000110000",
        "0000111111000000",
        "0000111111000000",
        "0000000000000000",
        "0000000000000000",
    ];
    let pixels: Vec<u8> = rows
        .iter()
        .flat_map(|r| r.bytes().map(|b| b - b'0'))
        .collect();

    let expected = "#define image_width 16
#define image_height 14
static unsigned char image_bits[] = {
    0x00, 0x00, 0x00, 0x00, 0xF0, 0x03, 0xF0, 0x03, 0x30, 0x0C, 0x30, 0x0C,
    0xF0, 0x03, 0xF0, 0x03, 0x30, 0x0C, 0x30, 0x0C, 0xF0, 0x03, 0xF0, 0x03,
    0x00, 0x00, 0x00, 0x00,
};
";
    assert_eq!(expected.len(), 268);
    let encoder = Encoder::new(String::new());
    let out = encoder.encode(&pixels, "image", 16, 14, None, None).unwrap();
    assert_eq!(out, expected);
}

#[test]
fn encode_width_7() {
    // "I" (7x6)
    let pixels: Vec<u8> = b"\x00\x00\x00\x00\x00\x00\x00\
      \x00\x00\x01\x01\x01\x00\x00\
      \x00\x00\x00\x01\x00\x00\x00\
      \x00\x00\x00\x01\x00\x00\x00\
      \x00\x00\x01\x01\x01\x00\x00\
      \x00\x00\x00\x00\x00\x00\x00"
        .to_vec();

    let expected = "#define image_width 7
#define image_height 6
static unsigned char image_bits[] = {
    0x00, 0x1C, 0x08, 0x08, 0x1C, 0x00,
};
";
    assert_eq!(expected.len(), 126);
    let encoder = Encoder::new(String::new());
    let out = encoder.encode(&pixels, "image", 7, 6, None, None).unwrap();
    assert_eq!(out, expected);
}

#[test]
fn encode_width_14() {
    // "I" (14x12)
    let rows = [
        "00000000000000",
        "00000000000000",
        "00001111110000",
        "00001111110000",
        "00000011000000",
        "00000011000000",
        "00000011000000",
        "00000011000000",
        "00001111110000",
        "00001111110000",
        "00000000000000",
        "00000000000000",
    ];
    let pixels: Vec<u8> = rows
        .iter()
        .flat_map(|r| r.bytes().map(|b| b - b'0'))
        .collect();

    let expected = "#define image_width 14
#define image_height 12
static unsigned char image_bits[] = {
    0x00, 0x00, 0x00, 0x00, 0xF0, 0x03, 0xF0, 0x03, 0xC0, 0x00, 0xC0, 0x00,
    0xC0, 0x00, 0xC0, 0x00, 0xF0, 0x03, 0xF0, 0x03, 0x00, 0x00, 0x00, 0x00,
};
";
    assert_eq!(expected.len(), 240);
    let encoder = Encoder::new(String::new());
    let out = encoder.encode(&pixels, "image", 14, 12, None, None).unwrap();
    assert_eq!(out, expected);
}

#[test]
fn encode_with_hotspot() {
    let pixels = basic_pixels();

    let expected = "#define image_width 8
#define image_height 7
#define image_x_hot 4
#define image_y_hot 3
static unsigned char image_bits[] = {
    0x00, 0x1C, 0x24, 0x1C, 0x24, 0x1C, 0x00,
};
";
    assert_eq!(expected.len(), 176);
    let encoder = Encoder::new(String::new());
    let out = encoder
        .encode(&pixels, "image", 8, 7, Some(4), Some(3))
        .unwrap();
    assert_eq!(out, expected);
}

#[test]
fn encode_from_invalid_pixels() {
    // "B" (8x7), as luminance samples rather than bits
    let pixels = b"\xFF\xFF\xFF\xFF\xFF\xFF\xFF\xFF\
      \xFF\xFF\x00\x00\x00\xFF\xFF\xFF\
      \xFF\xFF\x00\xFF\xFF\x00\xFF\xFF\
      \xFF\xFF\x00\x00\x00\xFF\xFF\xFF\
      \xFF\xFF\x00\xFF\xFF\x00\xFF\xFF\
      \xFF\xFF\x00\x00\x00\xFF\xFF\xFF\
      \xFF\xFF\xFF\xFF\xFF\xFF\xFF\xFF"
        .to_vec();

    let encoder = Encoder::new(String::new());
    let err = encoder
        .encode(&pixels, "image", 8, 7, None, None)
        .unwrap_err();
    assert_eq!(err.kind(), ErrorKind::InvalidData);
    assert_eq!(
        err.to_string(),
        "`buf` contains values other than `0` and `1`"
    );
}

#[test]
fn valid_name() {
    let pixels = basic_pixels();

    {
        let encoder = Encoder::new(String::new());
        let out = encoder.encode(&pixels, "A", 8, 7, None, None);
        assert!(out.is_ok());
    }
    {
        let encoder = Encoder::new(String::new());
        let out = encoder.encode(&pixels, "a", 8, 7, None, None);
        assert!(out.is_ok());
    }
    {
        let encoder = Encoder::new(String::new());
        let out = encoder.encode(&pixels, "TEST", 8, 7, None, None);
        assert!(out.is_ok());
    }
    {
        let encoder = Encoder::new(String::new());
        let out = encoder.encode(&pixels, "test", 8, 7, None, None);
        assert!(out.is_ok());
    }
    {
        let encoder = Encoder::new(String::new());
        let out = encoder.encode(&pixels, "C17", 8, 7, None, None);
        assert!(out.is_ok());
    }
    {
        let encoder = Encoder::new(String::new());
        let out = encoder.encode(&pixels, "\u{30C6}\u{30B9}\u{30C8}", 8, 7, None, None);
        assert!(out.is_ok());
    }
}

#[test]
fn invalid_name() {
    let pixels = basic_pixels();

    {
        let encoder = Encoder::new(String::new());
        let err = encoder.encode(&pixels, "", 8, 7, None, None).unwrap_err();
        assert_eq!(err.kind(), ErrorKind::InvalidData);
        assert_eq!(err.to_string(), "invalid C identifier prefix");
    }
    {
        let encoder = Encoder::new(String::new());
        let err = encoder.encode(&pixels, "0", 8, 7, None, None).unwrap_err();
        assert_eq!(err.kind(), ErrorKind::InvalidData);
        assert_eq!(err.to_string(), "invalid C identifier prefix");
    }
    {
        let encoder = Encoder::new(String::new());
        let err = encoder.encode(&pixels, "_", 8, 7, None, None).unwrap_err();
        assert_eq!(err.kind(), ErrorKind::InvalidData);
        assert_eq!(err.to_string(), "invalid C identifier prefix");
    }
    {
        let encoder = Encoder::new(String::new());
        let err = encoder.encode(&pixels, " ", 8, 7, None, None).unwrap_err();
        assert_eq!(err.kind(), ErrorKind::InvalidData);
        assert_eq!(err.to_string(), "invalid C identifier prefix");
    }
    {
        let encoder = Encoder::new(String::new());
        let err = encoder
            .encode(&pixels, "ANSI C", 8, 7, None, None)
            .unwrap_err();
        assert_eq!(err.kind(), ErrorKind::InvalidData);
        assert_eq!(err.to_string(), "invalid C identifier prefix");
    }
    {
        let encoder = Encoder::new(String::new());
        let err = encoder
            .encode(&pixels, "XBM\0", 8, 7, None, None)
            .unwrap_err();
        assert_eq!(err.kind(), ErrorKind::InvalidData);
        assert_eq!(err.to_string(), "invalid C identifier prefix");
    }
    {
        let encoder = Encoder::new(String::new());
        let err = encoder
            .encode(&pixels, "\u{1F980}", 8, 7, None, None)
            .unwrap_err();
        assert_eq!(err.kind(), ErrorKind::InvalidData);
        assert_eq!(err.to_string(), "invalid C identifier prefix");
    }
}

#[test]
fn encode_with_only_x_hot_some() {
    let pixels = basic_pixels();

    let encoder = Encoder::new(String::new());
    let err = encoder
        .encode(&pixels, "image", 8, 7, Some(4), None)
        .unwrap_err();
    assert_eq!(err.kind(), ErrorKind::InvalidInput);
    assert_eq!(err.to_string(), "only one of `x_hot` and `y_hot` is `Some`");
}

#[test]
fn encode_with_only_y_hot_some() {
    let pixels = basic_pixels();

    let encoder = Encoder::new(String::new());
    let err = encoder
        .encode(&pixels, "image", 8, 7, None, Some(3))
        .unwrap_err();
    assert_eq!(err.kind(), ErrorKind::InvalidInput);
    assert_eq!(err.to_string(), "only one of `x_hot` and `y_hot` is `Some`");
}

#[test]
fn encode_appends_to_writer() {
    let pixels = basic_pixels();

    let encoder = Encoder::new(String::from("; prelude\n"));
    let out = encoder.encode(&pixels, "image", 8, 7, None, None).unwrap();
    assert!(out.starts_with("; prelude\n#define image_width 8\n"));
}

#[test]
fn round_trip_basic() {
    let pixels = basic_pixels();

    let encoder = Encoder::new(String::new());
    let out = encoder.encode(&pixels, "image", 8, 7, None, None).unwrap();
    let decoder = xbm::Decoder::new(out.as_str()).unwrap();
    assert_eq!(decoder.name(), "image");
    assert_eq!(decoder.width(), 8);
    assert_eq!(decoder.height(), 7);
    let decoded = decoder.decode_to_vec().unwrap();
    assert_eq!(decoded, pixels);
}

#[test]
fn round_trip_width_not_multiple_of_eight() {
    // width 7: the top bit of each row byte is padding and must come and go
    // without a trace
    let pixels: Vec<u8> = b"\x00\x00\x00\x00\x00\x00\x00\
      \x00\x00\x01\x01\x01\x00\x00\
      \x00\x00\x00\x01\x00\x00\x00\
      \x00\x00\x00\x01\x00\x00\x00\
      \x00\x00\x01\x01\x01\x00\x00\
      \x00\x00\x00\x00\x00\x00\x00"
        .to_vec();

    let encoder = Encoder::new(String::new());
    let out = encoder
        .encode(&pixels, "image", 7, 6, Some(1), Some(2))
        .unwrap();
    let decoder = xbm::Decoder::new(out.as_str()).unwrap();
    assert_eq!(decoder.width(), 7);
    assert_eq!(decoder.height(), 6);
    assert_eq!(decoder.x_hot(), Some(1));
    assert_eq!(decoder.y_hot(), Some(2));
    let decoded = decoder.decode_to_vec().unwrap();
    assert_eq!(decoded, pixels);

    // re-encoding the decoded pixels reproduces the document byte for byte
    let encoder = Encoder::new(String::new());
    let again = encoder
        .encode(&decoded, "image", 7, 6, Some(1), Some(2))
        .unwrap();
    assert_eq!(again, out);
}
