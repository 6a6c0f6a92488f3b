use std::num::IntErrorKind;

use xbm::decode::Error;
use xbm::Decoder;

// "B" (8x7)
const BASIC: &str = "#define image_width 8
#define image_height 7
static unsigned char image_bits[] = {
    0x00, 0x1C, 0x24, 0x1C, 0x24, 0x1C, 0x00,
};
";

fn basic_pixels() -> Vec<u8> {
    b"\x00\x00\x00\x00\x00\x00\x00\x00\
      \x00\x00\x01\x01\x01\x00\x00\x00\
      \x00\x00\x01\x00\x00\x01\x00\x00\
      \x00\x00\x01\x01\x01\x00\x00\x00\
      \x00\x00\x01\x00\x00\x01\x00\x00\
      \x00\x00\x01\x01\x01\x00\x00\x00\
      \x00\x00\x00\x00\x00\x00\x00\x00"
        .to_vec()
}

#[test]
fn decode() {
    let expected = basic_pixels();

    {
        let decoder = Decoder::new(BASIC).unwrap();
        assert_eq!(decoder.width(), 8);
        assert_eq!(decoder.height(), 7);
        assert_eq!(decoder.x_hot(), None);
        assert_eq!(decoder.y_hot(), None);
        let mut buf = vec![0u8; 56];
        decoder.decode(&mut buf).unwrap();
        assert_eq!(buf, expected);
    }
    {
        let minified = "#define image_width 8
#define image_height 7
static unsigned char image_bits[] = {0x00,0x1C,0x24,0x1C,0x24,0x1C,0x00};
";
        let decoder = Decoder::new(minified).unwrap();
        assert_eq!(decoder.width(), 8);
        assert_eq!(decoder.height(), 7);
        assert_eq!(decoder.x_hot(), None);
        assert_eq!(decoder.y_hot(), None);
        let mut buf = vec![0u8; 56];
        decoder.decode(&mut buf).unwrap();
        assert_eq!(buf, expected);
    }
}

#[test]
fn decoder_name() {
    let decoder = Decoder::new(BASIC).unwrap();
    assert_eq!(decoder.name(), "image");
}

#[test]
fn idempotent_accessors() {
    let decoder = Decoder::new(BASIC).unwrap();
    assert_eq!(decoder.width(), decoder.width());
    assert_eq!(decoder.height(), decoder.height());
    assert_eq!(decoder.x_hot(), decoder.x_hot());
    assert_eq!(decoder.y_hot(), decoder.y_hot());
    assert_eq!(decoder.name(), decoder.name());
}

#[test]
fn decode_with_repeated_width_suffix() {
    // every trailing `_width` is stripped from the first token, so the
    // remaining name decides the other lines
    let image = "#define a_width_width 8
#define a_height 7
static unsigned char a_bits[] = {
    0x00, 0x1C, 0x24, 0x1C, 0x24, 0x1C, 0x00,
};
";
    let decoder = Decoder::new(image).unwrap();
    assert_eq!(decoder.name(), "a");
    assert_eq!(decoder.width(), 8);
}

#[test]
fn decode_with_uppercase_hex_prefix() {
    // `0X` is accepted alongside `0x`
    let expected = basic_pixels();

    let image = "#define image_width 8
#define image_height 7
static unsigned char image_bits[] = {
    0X00, 0X1C, 0X24, 0X1C, 0X24, 0X1C, 0X00,
};
";
    let decoder = Decoder::new(image).unwrap();
    let mut buf = vec![0u8; 56];
    decoder.decode(&mut buf).unwrap();
    assert_eq!(buf, expected);
}

#[test]
fn decode_with_tab_separators() {
    // any Unicode whitespace separates header tokens
    let expected = basic_pixels();

    let image = "#define\timage_width\t8
#define\timage_height\t7
static unsigned char image_bits[] = {
    0x00, 0x1C, 0x24, 0x1C, 0x24, 0x1C, 0x00,
};
";
    let decoder = Decoder::new(image).unwrap();
    assert_eq!(decoder.width(), 8);
    assert_eq!(decoder.height(), 7);
    let mut buf = vec![0u8; 56];
    decoder.decode(&mut buf).unwrap();
    assert_eq!(buf, expected);
}

#[test]
fn decode_lower_hex() {
    let expected = basic_pixels();

    let image = "#define image_width 8
#define image_height 7
static unsigned char image_bits[] = {
    0x00, 0x1c, 0x24, 0x1c, 0x24, 0x1c, 0x00,
};
";
    let decoder = Decoder::new(image).unwrap();
    assert_eq!(decoder.width(), 8);
    assert_eq!(decoder.height(), 7);
    assert_eq!(decoder.x_hot(), None);
    assert_eq!(decoder.y_hot(), None);
    let mut buf = vec![0u8; 56];
    decoder.decode(&mut buf).unwrap();
    assert_eq!(buf, expected);
}

#[test]
fn decode_to_vec() {
    let expected = basic_pixels();

    let decoder = Decoder::new(BASIC).unwrap();
    let buf = decoder.decode_to_vec().unwrap();
    assert_eq!(buf.len(), 56);
    assert_eq!(buf, expected);
}

#[test]
fn decode_16x14() {
    // "B" (16x14)
    let rows = [
        "0000000000000000",
        "0000000000000000",
        "0000111111000000",
        "0000111111000000",
        "0000110000110000",
        "0000110000110000",
        "0000111111000000",
        "0000111111000000",
        "0000110000110000",
        "0000110000110000",
        "0000111111000000",
        "0000111111000000",
        "0000000000000000",
        "0000000000000000",
    ];
    let expected: Vec<u8> = rows
        .iter()
        .flat_map(|r| r.bytes().map(|b| b - b'0'))
        .collect();

    let image = "#define image_width 16
#define image_height 14
static unsigned char image_bits[] = {
    0x00, 0x00, 0x00, 0x00, 0xF0, 0x03, 0xF0, 0x03, 0x30, 0x0C, 0x30, 0x0C,
    0xF0, 0x03, 0xF0, 0x03, 0x30, 0x0C, 0x30, 0x0C, 0xF0, 0x03, 0xF0, 0x03,
    0x00, 0x00, 0x00, 0x00,
};
";
    let decoder = Decoder::new(image).unwrap();
    assert_eq!(decoder.width(), 16);
    assert_eq!(decoder.height(), 14);
    assert_eq!(decoder.x_hot(), None);
    assert_eq!(decoder.y_hot(), None);
    let mut buf = vec![0u8; 224];
    decoder.decode(&mut buf).unwrap();
    assert_eq!(buf, expected);
}

#[test]
fn decode_width_7() {
    // "I" (7x6)
    let expected: Vec<u8> = b"\x00\x00\x00\x00\x00\x00\x00\
      \x00\x00\x01\x01\x01\x00\x00\
      \x00\x00\x00\x01\x00\x00\x00\
      \x00\x00\x00\x01\x00\x00\x00\
      \x00\x00\x01\x01\x01\x00\x00\
      \x00\x00\x00\x00\x00\x00\x00"
        .to_vec();

    let image = "#define image_width 7
#define image_height 6
static unsigned char image_bits[] = {
    0x00, 0x1C, 0x08, 0x08, 0x1C, 0x00,
};
";
    let decoder = Decoder::new(image).unwrap();
    assert_eq!(decoder.width(), 7);
    assert_eq!(decoder.height(), 6);
    assert_eq!(decoder.x_hot(), None);
    assert_eq!(decoder.y_hot(), None);
    let mut buf = vec![0u8; 42];
    decoder.decode(&mut buf).unwrap();
    assert_eq!(buf, expected);
}

#[test]
fn decode_width_14() {
    // "I" (14x12)
    let rows = [
        "00000000000000",
        "00000000000000",
        "00001111110000",
        "00001111110000",
        "00000011000000",
        "00000011000000",
        "00000011000000",
        "00000011000000",
        "00001111110000",
        "00001111110000",
        "00000000000000",
        "00000000000000",
    ];
    let expected: Vec<u8> = rows
        .iter()
        .flat_map(|r| r.bytes().map(|b| b - b'0'))
        .collect();

    let image = "#define image_width 14
#define image_height 12
static unsigned char image_bits[] = {
    0x00, 0x00, 0x00, 0x00, 0xF0, 0x03, 0xF0, 0x03, 0xC0, 0x00, 0xC0, 0x00,
    0xC0, 0x00, 0xC0, 0x00, 0xF0, 0x03, 0xF0, 0x03, 0x00, 0x00, 0x00, 0x00,
};
";
    let decoder = Decoder::new(image).unwrap();
    assert_eq!(decoder.width(), 14);
    assert_eq!(decoder.height(), 12);
    assert_eq!(decoder.x_hot(), None);
    assert_eq!(decoder.y_hot(), None);
    let mut buf = vec![0u8; 168];
    decoder.decode(&mut buf).unwrap();
    assert_eq!(buf, expected);
}

#[test]
fn decode_with_hotspot() {
    let expected = basic_pixels();

    let image = "#define image_width 8
#define image_height 7
#define image_x_hot 4
#define image_y_hot 3
static unsigned char image_bits[] = {
    0x00, 0x1C, 0x24, 0x1C, 0x24, 0x1C, 0x00,
};
";
    let decoder = Decoder::new(image).unwrap();
    assert_eq!(decoder.width(), 8);
    assert_eq!(decoder.height(), 7);
    assert_eq!(decoder.x_hot(), Some(4));
    assert_eq!(decoder.y_hot(), Some(3));
    let mut buf = vec![0u8; 56];
    decoder.decode(&mut buf).unwrap();
    assert_eq!(buf, expected);
}

#[test]
fn decode_without_unsigned() {
    let expected = basic_pixels();

    let image = "#define image_width 8
#define image_height 7
static char image_bits[] = {
    0x00, 0x1C, 0x24, 0x1C, 0x24, 0x1C, 0x00,
};
";
    let decoder = Decoder::new(image).unwrap();
    assert_eq!(decoder.width(), 8);
    assert_eq!(decoder.height(), 7);
    assert_eq!(decoder.x_hot(), None);
    assert_eq!(decoder.y_hot(), None);
    let mut buf = vec![0u8; 56];
    decoder.decode(&mut buf).unwrap();
    assert_eq!(buf, expected);
}

#[test]
fn decode_with_valid_identifiers() {
    {
        let image = "#define A_width 8
#define A_height 7
#define A_x_hot 4
#define A_y_hot 3
static unsigned char A_bits[] = {
    0x00, 0x1C, 0x24, 0x1C, 0x24, 0x1C, 0x00,
};
";
        let result = Decoder::new(image);
        assert!(result.is_ok());
    }
    {
        let image = "#define a_width 8
#define a_height 7
#define a_x_hot 4
#define a_y_hot 3
static unsigned char a_bits[] = {
    0x00, 0x1C, 0x24, 0x1C, 0x24, 0x1C, 0x00,
};
";
        let result = Decoder::new(image);
        assert!(result.is_ok());
    }
    {
        let image = "#define TEST_width 8
#define TEST_height 7
#define TEST_x_hot 4
#define TEST_y_hot 3
static unsigned char TEST_bits[] = {
    0x00, 0x1C, 0x24, 0x1C, 0x24, 0x1C, 0x00,
};
";
        let result = Decoder::new(image);
        assert!(result.is_ok());
    }
    {
        let image = "#define test_width 8
#define test_height 7
#define test_x_hot 4
#define test_y_hot 3
static unsigned char test_bits[] = {
    0x00, 0x1C, 0x24, 0x1C, 0x24, 0x1C, 0x00,
};
";
        let result = Decoder::new(image);
        assert!(result.is_ok());
    }
    {
        let image = "#define C17_width 8
#define C17_height 7
#define C17_x_hot 4
#define C17_y_hot 3
static unsigned char C17_bits[] = {
    0x00, 0x1C, 0x24, 0x1C, 0x24, 0x1C, 0x00,
};
";
        let result = Decoder::new(image);
        assert!(result.is_ok());
    }
    {
        let image = "#define \u{30C6}\u{30B9}\u{30C8}_width 8
#define \u{30C6}\u{30B9}\u{30C8}_height 7
#define \u{30C6}\u{30B9}\u{30C8}_x_hot 4
#define \u{30C6}\u{30B9}\u{30C8}_y_hot 3
static unsigned char \u{30C6}\u{30B9}\u{30C8}_bits[] = {
    0x00, 0x1C, 0x24, 0x1C, 0x24, 0x1C, 0x00,
};
";
        let result = Decoder::new(image);
        assert!(result.is_ok());
    }
}

#[test]
fn decode_with_invalid_identifiers() {
    {
        let image = "#define _width 8
#define _height 7
#define _x_hot 4
#define _y_hot 3
static unsigned char _bits[] = {
    0x00, 0x1C, 0x24, 0x1C, 0x24, 0x1C, 0x00,
};
";
        let err = Decoder::new(image).unwrap_err();
        assert!(matches!(err, Error::InvalidHeader));
    }
    {
        let image = "#define 0_width 8
#define 0_height 7
#define 0_x_hot 4
#define 0_y_hot 3
static unsigned char 0_bits[] = {
    0x00, 0x1C, 0x24, 0x1C, 0x24, 0x1C, 0x00,
};
";
        let err = Decoder::new(image).unwrap_err();
        assert!(matches!(err, Error::InvalidHeader));
    }
    {
        let image = "#define __width 8
#define __height 7
#define __x_hot 4
#define __y_hot 3
static unsigned char __bits[] = {
    0x00, 0x1C, 0x24, 0x1C, 0x24, 0x1C, 0x00,
};
";
        let err = Decoder::new(image).unwrap_err();
        assert!(matches!(err, Error::InvalidHeader));
    }
    {
        let image = "#define ANSI C_width 8
#define ANSI C_height 7
#define ANSI C_x_hot 4
#define ANSI C_y_hot 3
static unsigned char ANSI C_bits[] = {
    0x00, 0x1C, 0x24, 0x1C, 0x24, 0x1C, 0x00,
};
";
        let err = Decoder::new(image).unwrap_err();
        assert!(matches!(err, Error::InvalidHeader));
    }
    {
        let image = "#define XBM\0_width 8
#define XBM\0_height 7
#define XBM\0_x_hot 4
#define XBM\0_y_hot 3
static unsigned char XBM\0_bits[] = {
    0x00, 0x1C, 0x24, 0x1C, 0x24, 0x1C, 0x00,
};
";
        let err = Decoder::new(image).unwrap_err();
        assert!(matches!(err, Error::InvalidHeader));
    }
    {
        let image = "#define \u{1F980}_width 8
#define \u{1F980}_height 7
#define \u{1F980}_x_hot 4
#define \u{1F980}_y_hot 3
static unsigned char \u{1F980}_bits[] = {
    0x00, 0x1C, 0x24, 0x1C, 0x24, 0x1C, 0x00,
};
";
        let err = Decoder::new(image).unwrap_err();
        assert!(matches!(err, Error::InvalidHeader));
    }
}

#[test]
fn decode_with_invalid_width_statement() {
    {
        let image = "#include image_width 8
#define image_height 7
static unsigned char image_bits[] = {
    0x00, 0x1C, 0x24, 0x1C, 0x24, 0x1C, 0x00,
};
";
        let err = Decoder::new(image).unwrap_err();
        assert!(matches!(err, Error::InvalidHeader));
    }
    {
        let image = "#define test_width 8
#define image_height 7
static unsigned char image_bits[] = {
    0x00, 0x1C, 0x24, 0x1C, 0x24, 0x1C, 0x00,
};
";
        let err = Decoder::new(image).unwrap_err();
        assert!(matches!(err, Error::InvalidHeader));
    }
    {
        let image = "#define image_height 7
static unsigned char image_bits[] = {
    0x00, 0x1C, 0x24, 0x1C, 0x24, 0x1C, 0x00,
};
";
        let err = Decoder::new(image).unwrap_err();
        assert!(matches!(err, Error::InvalidHeader));
    }
    {
        let image = "#define image_width
#define image_height 7
static unsigned char image_bits[] = {
    0x00, 0x1C, 0x24, 0x1C, 0x24, 0x1C, 0x00,
};
";
        let err = Decoder::new(image).unwrap_err();
        assert!(matches!(err, Error::InvalidHeader));
    }
    {
        let image = "#define image_width 8 16
#define image_height 7
static unsigned char image_bits[] = {
    0x00, 0x1C, 0x24, 0x1C, 0x24, 0x1C, 0x00,
};
";
        let err = Decoder::new(image).unwrap_err();
        assert!(matches!(err, Error::InvalidHeader));
    }
}

#[test]
fn decode_with_invalid_height_statement() {
    {
        let image = "#define image_width 8
#include image_height 7
static unsigned char image_bits[] = {
    0x00, 0x1C, 0x24, 0x1C, 0x24, 0x1C, 0x00,
};
";
        let err = Decoder::new(image).unwrap_err();
        assert!(matches!(err, Error::InvalidHeader));
    }
    {
        let image = "#define image_width 8
#define test_height 7
static unsigned char image_bits[] = {
    0x00, 0x1C, 0x24, 0x1C, 0x24, 0x1C, 0x00,
};
";
        let err = Decoder::new(image).unwrap_err();
        assert!(matches!(err, Error::InvalidHeader));
    }
    {
        let image = "#define image_width 8
static unsigned char image_bits[] = {
    0x00, 0x1C, 0x24, 0x1C, 0x24, 0x1C, 0x00,
};
";
        let err = Decoder::new(image).unwrap_err();
        assert!(matches!(err, Error::InvalidHeader));
    }
    {
        let image = "#define image_width 8
#define image_height
static unsigned char image_bits[] = {
    0x00, 0x1C, 0x24, 0x1C, 0x24, 0x1C, 0x00,
};
";
        let err = Decoder::new(image).unwrap_err();
        assert!(matches!(err, Error::InvalidHeader));
    }
    {
        let image = "#define image_width 8
#define image_height 7 14
static unsigned char image_bits[] = {
    0x00, 0x1C, 0x24, 0x1C, 0x24, 0x1C, 0x00,
};
";
        let err = Decoder::new(image).unwrap_err();
        assert!(matches!(err, Error::InvalidHeader));
    }
}

#[test]
fn decode_with_invalid_x_hot_statement() {
    {
        let image = "#define image_width 8
#define image_height 7
#include image_x_hot 4
#define image_y_hot 3
static unsigned char image_bits[] = {
    0x00, 0x1C, 0x24, 0x1C, 0x24, 0x1C, 0x00,
};
";
        let err = Decoder::new(image).unwrap_err();
        assert!(matches!(err, Error::InvalidHeader));
    }
    {
        let image = "#define image_width 8
#define image_height 7
#define test_x_hot 4
#define image_y_hot 3
static unsigned char image_bits[] = {
    0x00, 0x1C, 0x24, 0x1C, 0x24, 0x1C, 0x00,
};
";
        let err = Decoder::new(image).unwrap_err();
        assert!(matches!(err, Error::InvalidHeader));
    }
    {
        let image = "#define image_width 8
#define image_height 7
#define image_y_hot 3
static unsigned char image_bits[] = {
    0x00, 0x1C, 0x24, 0x1C, 0x24, 0x1C, 0x00,
};
";
        let err = Decoder::new(image).unwrap_err();
        assert!(matches!(err, Error::InvalidHeader));
    }
    {
        let image = "#define image_width 8
#define image_height 7
#define image_x_hot
#define image_y_hot 3
static unsigned char image_bits[] = {
    0x00, 0x1C, 0x24, 0x1C, 0x24, 0x1C, 0x00,
};
";
        let err = Decoder::new(image).unwrap_err();
        assert!(matches!(err, Error::InvalidHeader));
    }
    {
        let image = "#define image_width 8
#define image_height 7
#define image_x_hot 4 8
#define image_y_hot 3
static unsigned char image_bits[] = {
    0x00, 0x1C, 0x24, 0x1C, 0x24, 0x1C, 0x00,
};
";
        let err = Decoder::new(image).unwrap_err();
        assert!(matches!(err, Error::InvalidHeader));
    }
}

#[test]
fn decode_with_invalid_y_hot_statement() {
    {
        let image = "#define image_width 8
#define image_height 7
#define image_x_hot 4
#include image_y_hot 3
static unsigned char image_bits[] = {
    0x00, 0x1C, 0x24, 0x1C, 0x24, 0x1C, 0x00,
};
";
        let err = Decoder::new(image).unwrap_err();
        assert!(matches!(err, Error::InvalidHeader));
    }
    {
        let image = "#define image_width 8
#define image_height 7
#define image_x_hot 4
#define test_y_hot 3
static unsigned char image_bits[] = {
    0x00, 0x1C, 0x24, 0x1C, 0x24, 0x1C, 0x00,
};
";
        let err = Decoder::new(image).unwrap_err();
        assert!(matches!(err, Error::InvalidHeader));
    }
    {
        let image = "#define image_width 8
#define image_height 7
#define image_x_hot 4
static unsigned char image_bits[] = {
    0x00, 0x1C, 0x24, 0x1C, 0x24, 0x1C, 0x00,
};
";
        let err = Decoder::new(image).unwrap_err();
        assert!(matches!(err, Error::InvalidHeader));
    }
    {
        let image = "#define image_width 8
#define image_height 7
#define image_x_hot 4
#define image_y_hot
static unsigned char image_bits[] = {
    0x00, 0x1C, 0x24, 0x1C, 0x24, 0x1C, 0x00,
};
";
        let err = Decoder::new(image).unwrap_err();
        assert!(matches!(err, Error::InvalidHeader));
    }
    {
        let image = "#define image_width 8
#define image_height 7
#define image_x_hot 4
#define image_y_hot 3 6
static unsigned char image_bits[] = {
    0x00, 0x1C, 0x24, 0x1C, 0x24, 0x1C, 0x00,
};
";
        let err = Decoder::new(image).unwrap_err();
        assert!(matches!(err, Error::InvalidHeader));
    }
}

#[test]
fn decode_with_invalid_array_declaration() {
    {
        let image = "#define image_width 8
#define image_height 7
static unsigned short image_bits[] = {
    0x00, 0x1C, 0x24, 0x1C, 0x24, 0x1C, 0x00,
};
";
        let err = Decoder::new(image).unwrap_err();
        assert!(matches!(err, Error::InvalidHeader));
    }
    {
        let image = "#define image_width 8
#define image_height 7
static short image_bits[] = {
    0x00, 0x1C, 0x24, 0x1C, 0x24, 0x1C, 0x00,
};
";
        let err = Decoder::new(image).unwrap_err();
        assert!(matches!(err, Error::InvalidHeader));
    }
    {
        let image = "#define image_width 8
#define image_height 7
static unsigned char test_bits[] = {
    0x00, 0x1C, 0x24, 0x1C, 0x24, 0x1C, 0x00,
};
";
        let err = Decoder::new(image).unwrap_err();
        assert!(matches!(err, Error::InvalidHeader));
    }
    {
        let image = "#define image_width 8
#define image_height 7
static  unsigned  char  image_bits[]  =  {
    0x00, 0x1C, 0x24, 0x1C, 0x24, 0x1C, 0x00,
};
";
        let err = Decoder::new(image).unwrap_err();
        assert!(matches!(err, Error::InvalidHeader));
    }
    {
        let image = "#define image_width 8
#define image_height 7
static unsigned char image_bits[]={
    0x00, 0x1C, 0x24, 0x1C, 0x24, 0x1C, 0x00,
};
";
        let err = Decoder::new(image).unwrap_err();
        assert!(matches!(err, Error::InvalidHeader));
    }
    {
        let image = "#define image_width 8
#define image_height 7
static unsigned char image _bits[] = {
    0x00, 0x1C, 0x24, 0x1C, 0x24, 0x1C, 0x00,
};
";
        let err = Decoder::new(image).unwrap_err();
        assert!(matches!(err, Error::InvalidHeader));
    }
    {
        let image = "#define image_width 8
#define image_height 7
static unsigned char image_ bits[] = {
    0x00, 0x1C, 0x24, 0x1C, 0x24, 0x1C, 0x00,
};
";
        let err = Decoder::new(image).unwrap_err();
        assert!(matches!(err, Error::InvalidHeader));
    }
    {
        let image = "#define image_width 8
#define image_height 7
static unsigned char image_bits [] = {
    0x00, 0x1C, 0x24, 0x1C, 0x24, 0x1C, 0x00,
};
";
        let err = Decoder::new(image).unwrap_err();
        assert!(matches!(err, Error::InvalidHeader));
    }
    {
        let image = "#define image_width 8
#define image_height 7
static unsigned char image_bits() = {
    0x00, 0x1C, 0x24, 0x1C, 0x24, 0x1C, 0x00,
};
";
        let err = Decoder::new(image).unwrap_err();
        assert!(matches!(err, Error::InvalidHeader));
    }
    {
        let image = "#define image_width 8
#define image_height 7
static unsigned char image_bits[] + {
    0x00, 0x1C, 0x24, 0x1C, 0x24, 0x1C, 0x00,
};
";
        let err = Decoder::new(image).unwrap_err();
        assert!(matches!(err, Error::InvalidHeader));
    }
    {
        let image = "#define image_width 8
#define image_height 7
static unsigned char image_bits[] = [
    0x00, 0x1C, 0x24, 0x1C, 0x24, 0x1C, 0x00,
];
";
        let err = Decoder::new(image).unwrap_err();
        assert!(matches!(err, Error::InvalidHeader));
    }
}

#[test]
fn decode_with_invalid_width_value() {
    {
        let image = "#define image_width 4294967296
#define image_height 7
static unsigned char image_bits[] = {
    0x00, 0x1C, 0x24, 0x1C, 0x24, 0x1C, 0x00,
};
";
        let err = Decoder::new(image).unwrap_err();
        if let Error::ParseInt(e) = err {
            assert_eq!(e.kind(), &IntErrorKind::PosOverflow);
        } else {
            unreachable!();
        }
    }
    {
        let image = "#define image_width -1
#define image_height 7
static unsigned char image_bits[] = {
    0x00, 0x1C, 0x24, 0x1C, 0x24, 0x1C, 0x00,
};
";
        let err = Decoder::new(image).unwrap_err();
        if let Error::ParseInt(e) = err {
            assert_eq!(e.kind(), &IntErrorKind::InvalidDigit);
        } else {
            unreachable!();
        }
    }
    {
        let image = "#define image_width a
#define image_height 7
static unsigned char image_bits[] = {
    0x00, 0x1C, 0x24, 0x1C, 0x24, 0x1C, 0x00,
};
";
        let err = Decoder::new(image).unwrap_err();
        if let Error::ParseInt(e) = err {
            assert_eq!(e.kind(), &IntErrorKind::InvalidDigit);
        } else {
            unreachable!();
        }
    }
}

#[test]
fn decode_with_invalid_height_value() {
    {
        let image = "#define image_width 8
#define image_height 4294967296
static unsigned char image_bits[] = {
    0x00, 0x1C, 0x24, 0x1C, 0x24, 0x1C, 0x00,
};
";
        let err = Decoder::new(image).unwrap_err();
        if let Error::ParseInt(e) = err {
            assert_eq!(e.kind(), &IntErrorKind::PosOverflow);
        } else {
            unreachable!();
        }
    }
    {
        let image = "#define image_width 8
#define image_height -1
static unsigned char image_bits[] = {
    0x00, 0x1C, 0x24, 0x1C, 0x24, 0x1C, 0x00,
};
";
        let err = Decoder::new(image).unwrap_err();
        if let Error::ParseInt(e) = err {
            assert_eq!(e.kind(), &IntErrorKind::InvalidDigit);
        } else {
            unreachable!();
        }
    }
    {
        let image = "#define image_width 8
#define image_height a
static unsigned char image_bits[] = {
    0x00, 0x1C, 0x24, 0x1C, 0x24, 0x1C, 0x00,
};
";
        let err = Decoder::new(image).unwrap_err();
        if let Error::ParseInt(e) = err {
            assert_eq!(e.kind(), &IntErrorKind::InvalidDigit);
        } else {
            unreachable!();
        }
    }
}

#[test]
fn decode_with_invalid_x_hot_value() {
    {
        let image = "#define image_width 8
#define image_height 7
#define image_x_hot 4294967296
#define image_y_hot 3
static unsigned char image_bits[] = {
    0x00, 0x1C, 0x24, 0x1C, 0x24, 0x1C, 0x00,
};
";
        let err = Decoder::new(image).unwrap_err();
        if let Error::ParseInt(e) = err {
            assert_eq!(e.kind(), &IntErrorKind::PosOverflow);
        } else {
            unreachable!();
        }
    }
    {
        let image = "#define image_width 8
#define image_height 7
#define image_x_hot -1
#define image_y_hot 3
static unsigned char image_bits[] = {
    0x00, 0x1C, 0x24, 0x1C, 0x24, 0x1C, 0x00,
};
";
        let err = Decoder::new(image).unwrap_err();
        if let Error::ParseInt(e) = err {
            assert_eq!(e.kind(), &IntErrorKind::InvalidDigit);
        } else {
            unreachable!();
        }
    }
    {
        let image = "#define image_width 8
#define image_height 7
#define image_x_hot a
#define image_y_hot 3
static unsigned char image_bits[] = {
    0x00, 0x1C, 0x24, 0x1C, 0x24, 0x1C, 0x00,
};
";
        let err = Decoder::new(image).unwrap_err();
        if let Error::ParseInt(e) = err {
            assert_eq!(e.kind(), &IntErrorKind::InvalidDigit);
        } else {
            unreachable!();
        }
    }
}

#[test]
fn decode_with_invalid_y_hot_value() {
    {
        let image = "#define image_width 8
#define image_height 7
#define image_x_hot 4
#define image_y_hot 4294967296
static unsigned char image_bits[] = {
    0x00, 0x1C, 0x24, 0x1C, 0x24, 0x1C, 0x00,
};
";
        let err = Decoder::new(image).unwrap_err();
        if let Error::ParseInt(e) = err {
            assert_eq!(e.kind(), &IntErrorKind::PosOverflow);
        } else {
            unreachable!();
        }
    }
    {
        let image = "#define image_width 8
#define image_height 7
#define image_x_hot 4
#define image_y_hot -1
static unsigned char image_bits[] = {
    0x00, 0x1C, 0x24, 0x1C, 0x24, 0x1C, 0x00,
};
";
        let err = Decoder::new(image).unwrap_err();
        if let Error::ParseInt(e) = err {
            assert_eq!(e.kind(), &IntErrorKind::InvalidDigit);
        } else {
            unreachable!();
        }
    }
    {
        let image = "#define image_width 8
#define image_height 7
#define image_x_hot 4
#define image_y_hot a
static unsigned char image_bits[] = {
    0x00, 0x1C, 0x24, 0x1C, 0x24, 0x1C, 0x00,
};
";
        let err = Decoder::new(image).unwrap_err();
        if let Error::ParseInt(e) = err {
            assert_eq!(e.kind(), &IntErrorKind::InvalidDigit);
        } else {
            unreachable!();
        }
    }
}

#[test]
fn decode_with_invalid_hex_byte() {
    {
        let image = "#define image_width 8
#define image_height 7
static unsigned char image_bits[] = {
    \u{1F980}, 0x1C, 0x24, 0x1C, 0x24, 0x1C, 0x00,
};
";
        let decoder = Decoder::new(image).unwrap();
        let mut buf = vec![0u8; 56];
        let err = decoder.decode(&mut buf).unwrap_err();
        if let Error::InvalidHexByte(value) = err {
            assert_eq!(value, "\u{1F980}");
        } else {
            unreachable!();
        }
    }
    {
        let image = "#define image_width 8
#define image_height 7
static unsigned char image_bits[] = {
    0x00, 0x1C, 0x24, 1c, 0x24, 0x1C, 0x00,
};
";
        let decoder = Decoder::new(image).unwrap();
        let mut buf = vec![0u8; 56];
        let err = decoder.decode(&mut buf).unwrap_err();
        if let Error::InvalidHexByte(value) = err {
            assert_eq!(value, "1c");
        } else {
            unreachable!();
        }
    }
    {
        let image = "#define image_width 8
#define image_height 7
static unsigned char image_bits[] = {
    0x00, 0x1C, 0x24, 0x1C, 0x24, 0x1C, 0b00,
};
";
        let decoder = Decoder::new(image).unwrap();
        let mut buf = vec![0u8; 56];
        let err = decoder.decode(&mut buf).unwrap_err();
        if let Error::InvalidHexByte(value) = err {
            assert_eq!(value, "0b00");
        } else {
            unreachable!();
        }
    }
}

#[test]
fn decode_with_invalid_termination() {
    {
        let image = "#define image_width 8
#define image_height 7
static unsigned char image_bits[] = {
    0x00, 0x1C }; 0x24, 0x1C, 0x24, 0x1C, 0x00,
";
        let decoder = Decoder::new(image).unwrap();
        let mut buf = vec![0u8; 56];
        let err = decoder.decode(&mut buf).unwrap_err();
        assert!(matches!(err, Error::InvalidTermination));
    }
    {
        let image = "#define image_width 8
#define image_height 7
static unsigned char image_bits[] = {
    0x00, 0x1C};0x24, 0x1C, 0x24, 0x1C, 0x00,
";
        let decoder = Decoder::new(image).unwrap();
        let mut buf = vec![0u8; 56];
        let err = decoder.decode(&mut buf).unwrap_err();
        assert!(matches!(err, Error::InvalidTermination));
    }
    {
        let image = "#define image_width 8
#define image_height 7
static unsigned char image_bits[] = {
    0x00, 0x1C, }; 0x24, 0x1C, 0x24, 0x1C, 0x00,
";
        let decoder = Decoder::new(image).unwrap();
        let mut buf = vec![0u8; 56];
        let err = decoder.decode(&mut buf).unwrap_err();
        assert!(matches!(err, Error::InvalidTermination));
    }
    {
        let image = "#define image_width 8
#define image_height 7
static unsigned char image_bits[] = {
    0x00, 0x1C,};0x24, 0x1C, 0x24, 0x1C, 0x00,
";
        let decoder = Decoder::new(image).unwrap();
        let mut buf = vec![0u8; 56];
        let err = decoder.decode(&mut buf).unwrap_err();
        assert!(matches!(err, Error::InvalidTermination));
    }

    {
        let expected = basic_pixels();

        let image = "#define image_width 8
#define image_height 7
static unsigned char image_bits[] = {
    0x00, 0x1C, 0x24, 0x1C, 0x24, 0x1C, 0x00,
};
";
        let decoder = Decoder::new(image).unwrap();
        let mut buf = vec![0u8; 56];
        decoder.decode(&mut buf).unwrap();
        assert_eq!(buf, expected);
    }

    {
        let image = "#define image_width 8
#define image_height 7
static unsigned char image_bits[] = {
    0x00, 0x1C, 0x24, 0x1C, 0x24, 0x1C, 0x00,
";
        let decoder = Decoder::new(image).unwrap();
        let mut buf = vec![0u8; 56];
        let err = decoder.decode(&mut buf).unwrap_err();
        assert!(matches!(err, Error::InvalidTermination));
    }
    {
        let image = "#define image_width 8
#define image_height 7
static unsigned char image_bits[] = {
    0x00, 0x1C, 0x24, 0x1C, 0x24, 0x1C, 0x00
";
        let decoder = Decoder::new(image).unwrap();
        let mut buf = vec![0u8; 56];
        let err = decoder.decode(&mut buf).unwrap_err();
        assert!(matches!(err, Error::InvalidTermination));
    }
}

#[test]
fn decode_with_invalid_image_size() {
    let image = "#define image_width 8
#define image_height 7
static unsigned char image_bits[] = {
    0x00, 0x1C, 0x24, 0x1C, 0x24, 0x1C,
};
";
    let decoder = Decoder::new(image).unwrap();
    let mut buf = vec![0u8; 56];
    let err = decoder.decode(&mut buf).unwrap_err();
    if let Error::InvalidImageSize(size) = err {
        assert_eq!(size, 48);
    } else {
        unreachable!();
    }
}

#[test]
fn decode_from_too_large_image() {
    let image = "#define image_width 8
#define image_height 7
static unsigned char image_bits[] = {
    0x00, 0x1C, 0x24, 0x1C, 0x24, 0x1C, 0x00, 0x00,
};
";
    let decoder = Decoder::new(image).unwrap();
    let mut buf = vec![0u8; 56];
    let err = decoder.decode(&mut buf).unwrap_err();
    // the eighth byte would overrun the buffer: the count written so far
    if let Error::InvalidImageSize(size) = err {
        assert_eq!(size, 56);
    } else {
        unreachable!();
    }
}

#[test]
fn decode_from_invalid_hex_byte_value() {
    let image = "#define image_width 8
#define image_height 7
static unsigned char image_bits[] = {
    0x00, 0x1C, 0x24, 0xgg, 0x24, 0x1C, 0x00,
};
";
    let decoder = Decoder::new(image).unwrap();
    let mut buf = vec![0u8; 56];
    let err = decoder.decode(&mut buf).unwrap_err();
    if let Error::ParseInt(e) = err {
        assert_eq!(e.kind(), &IntErrorKind::InvalidDigit);
    } else {
        unreachable!();
    }
}
