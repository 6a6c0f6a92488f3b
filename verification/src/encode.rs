//! Encoding of XBM documents.

use crate::num::{dec_numeral, hex_byte_token};
use crate::text::valid_identifier;
use vstd::prelude::*;

verus! {

/// The error type indicating that an error occurred during encoding.
pub type Error = std::io::Error;

// ---------------------------------------------------------------------------
// Packing pixels into bytes
// ---------------------------------------------------------------------------

/// The byte packed from up to eight pixels, the first pixel in the least
/// significant bit.
pub open spec fn pack8(chunk: Seq<u8>) -> u8
    recommends
        chunk.len() <= 8,
    decreases chunk.len(),
{
    if chunk.len() == 0 {
        0
    } else {
        pack8(chunk.drop_last()) | (chunk.last() << (chunk.len() - 1) as u8)
    }
}

/// The bytes of one row of pixels: chunks of eight, the last chunk of a row
/// possibly shorter.
pub open spec fn pack_row(row: Seq<u8>) -> Seq<u8>
    decreases row.len(),
{
    if row.len() == 0 {
        seq![]
    } else if row.len() <= 8 {
        seq![pack8(row)]
    } else {
        seq![pack8(row.take(8))] + pack_row(row.skip(8))
    }
}

/// The bytes of a whole pixel buffer, row by row: every row begins at a
/// fresh byte.
pub open spec fn pack_pixels(pixels: Seq<u8>, width: nat) -> Seq<u8>
    decreases pixels.len(),
{
    if width == 0 || pixels.len() == 0 {
        seq![]
    } else if pixels.len() <= width {
        pack_row(pixels)
    } else {
        pack_row(pixels.take(width as int)) + pack_pixels(pixels.skip(width as int), width)
    }
}

// ---------------------------------------------------------------------------
// The text the encoder writes
// ---------------------------------------------------------------------------

/// One `#define` line: `#define {name}{key} {value}`, newline-terminated.
pub open spec fn define_line(name: Seq<char>, key: Seq<char>, value: u32) -> Seq<char> {
    "#define "@ + name + key + " "@ + dec_numeral(value as nat) + "\n"@
}

/// Hex byte tokens joined by comma and space.
pub open spec fn join_hex(bytes: Seq<u8>) -> Seq<char>
    decreases bytes.len(),
{
    if bytes.len() == 0 {
        seq![]
    } else if bytes.len() == 1 {
        hex_byte_token(bytes[0])
    } else {
        hex_byte_token(bytes[0]) + ", "@ + join_hex(bytes.skip(1))
    }
}

/// The data lines: up to twelve bytes each, indented four spaces, every line
/// closed by a comma and a newline.
pub open spec fn data_lines(bytes: Seq<u8>) -> Seq<char>
    decreases bytes.len(),
{
    if bytes.len() == 0 {
        seq![]
    } else if bytes.len() <= 12 {
        "    "@ + join_hex(bytes) + ",\n"@
    } else {
        "    "@ + join_hex(bytes.take(12)) + ",\n"@ + data_lines(bytes.skip(12))
    }
}

/// The complete document the encoder writes: the `#define` lines, the array
/// declaration, the data lines, and the closing `};`.
pub open spec fn encode_text(
    pixels: Seq<u8>,
    name: Seq<char>,
    width: u32,
    height: u32,
    x_hot: Option<u32>,
    y_hot: Option<u32>,
) -> Seq<char> {
    define_line(name, "_width"@, width) + define_line(name, "_height"@, height) + (match x_hot {
        Option::Some(x) => define_line(name, "_x_hot"@, x),
        Option::None => seq![],
    }) + (match y_hot {
        Option::Some(y) => define_line(name, "_y_hot"@, y),
        Option::None => seq![],
    }) + "static unsigned char "@ + name + "_bits[] = {\n"@ + data_lines(
        pack_pixels(pixels, width as nat),
    ) + "};\n"@
}

/// Whether every pixel of the buffer is zero or one.
pub open spec fn binary_pixels(pixels: Seq<u8>) -> bool {
    forall|i: int| 0 <= i < pixels.len() ==> #[trigger] pixels[i] <= 1
}

// ---------------------------------------------------------------------------
// The encoder
// ---------------------------------------------------------------------------

/// Encoder for XBM images.
#[derive(Debug)]
pub struct Encoder {
    writer: String,
}

impl View for Encoder {
    type V = Seq<char>;

    closed spec fn view(&self) -> Seq<char> {
        self.writer@
    }
}

impl Encoder {
    /// Creates a new `Encoder` that appends to `writer`.
    pub fn new(writer: String) -> (encoder: Self)
        ensures
            encoder@ == writer@,
    {
        Self { writer }
    }

    /// Encodes the binary image `pixels`, returning the writer with the
    /// complete document appended.
    ///
    /// `0` represents a white pixel and `1` represents a black pixel.
    ///
    /// `name` accepts a string which follows the specification in Unicode
    /// Standard Annex #31.
    ///
    /// The caller must size `pixels` to exactly the width multiplied by the
    /// height, with a width of at least one.
    ///
    /// # Errors
    ///
    /// Returns [`Err`] if any of the following are true:
    ///
    /// - `pixels` contains a value other than `0` and `1`.
    /// - `name` is not a valid identifier.
    /// - Only one of `x_hot` and `y_hot` is [`Some`].
    #[verifier::loop_isolation(false)]
    pub fn encode(
        self,
        pixels: &Vec<u8>,
        name: &str,
        width: u32,
        height: u32,
        x_hot: Option<u32>,
        y_hot: Option<u32>,
    ) -> (result: Result<String, Error>)
        requires
            width >= 1,
            pixels@.len() == width as int * height as int,
        ensures
            result is Ok <==> (binary_pixels(pixels@) && valid_identifier(name@) && (x_hot is Some
                <==> y_hot is Some)),
            result matches Ok(s) ==> s@ == self@ + encode_text(
                pixels@,
                name@,
                width,
                height,
                x_hot,
                y_hot,
            ),
    {
        let len = pixels.len();
        let mut i: usize = 0;
        while i < len
            invariant
                i <= len,
                forall|k: int| 0 <= k < i ==> #[trigger] pixels@[k] <= 1,
            decreases len - i,
        {
            if pixels[i] > 1 {
                return Err(invalid_data_error("`buf` contains values other than `0` and `1`"));
            }
            i += 1;
        }

        let name_chars = crate::text::to_chars(name);
        if !is_valid_identifier_chars(&name_chars) {
            return Err(invalid_data_error("invalid C identifier prefix"));
        }

        if x_hot.is_some() != y_hot.is_some() {
            return Err(invalid_input_error("only one of `x_hot` and `y_hot` is `Some`"));
        }

        let mut out: Vec<char> = Vec::new();
        push_define_line(&mut out, &name_chars, "_width", width);
        push_define_line(&mut out, &name_chars, "_height", height);
        if let Some(x) = x_hot {
            push_define_line(&mut out, &name_chars, "_x_hot", x);
        }
        if let Some(y) = y_hot {
            push_define_line(&mut out, &name_chars, "_y_hot", y);
        }
        push_str(&mut out, "static unsigned char ");
        push_chars(&mut out, &name_chars);
        push_str(&mut out, "_bits[] = {\n");

        let bytes = pack_pixels_exec(pixels, width, height);
        push_data_lines(&mut out, &bytes);
        push_str(&mut out, "};\n");

        let mut result = self.writer;
        vstd::string::StringExecFns::append(
            &mut result,
            crate::text::string_from_chars(&out).as_str(),
        );
        proof {
            assert(out@ =~= encode_text(pixels@, name@, width, height, x_hot, y_hot));
        }
        Ok(result)
    }
}

/// Relies on `std::io::Error::new`: an error of kind `InvalidData` that
/// carries `message` as its text.
#[verifier::external_body]
fn invalid_data_error(message: &str) -> Error {
    std::io::Error::new(std::io::ErrorKind::InvalidData, message.to_owned())
}

/// Relies on `std::io::Error::new`: an error of kind `InvalidInput` that
/// carries `message` as its text.
#[verifier::external_body]
fn invalid_input_error(message: &str) -> Error {
    std::io::Error::new(std::io::ErrorKind::InvalidInput, message.to_owned())
}

/// Whether `name` may stand as the identifier of an XBM image.
fn is_valid_identifier_chars(name: &Vec<char>) -> (r: bool)
    ensures
        r == valid_identifier(name@),
{
    if name.len() == 0 {
        return false;
    }
    if !unicode_ident::is_xid_start(name[0]) {
        return false;
    }
    let mut i: usize = 1;
    while i < name.len()
        invariant
            1 <= i <= name@.len(),
            crate::text::xid_start(name@[0]),
            forall|j: int| 1 <= j < i ==> crate::text::xid_continue(#[trigger] name@[j]),
        decreases name@.len() - i,
    {
        if !unicode_ident::is_xid_continue(name[i]) {
            return false;
        }
        i += 1;
    }
    true
}

/// Appends the characters of `s` to `out`.
fn push_str(out: &mut Vec<char>, s: &str)
    ensures
        final(out)@ == old(out)@ + s@,
{
    let mut cs = crate::text::to_chars(s);
    out.append(&mut cs);
}

/// Appends the characters of `w` to `out`.
fn push_chars(out: &mut Vec<char>, w: &Vec<char>)
    ensures
        final(out)@ == old(out)@ + w@,
{
    let mut cs = crate::text::subvec(w, 0, w.len());
    proof {
        assert(cs@ =~= w@);
    }
    out.append(&mut cs);
}

/// Appends one `#define` line to `out`.
fn push_define_line(out: &mut Vec<char>, name: &Vec<char>, key: &str, value: u32)
    ensures
        final(out)@ == old(out)@ + define_line(name@, key@, value),
{
    push_str(out, "#define ");
    push_chars(out, name);
    push_str(out, key);
    push_str(out, " ");
    crate::num::push_dec_u32(value, out);
    push_str(out, "\n");
    proof {
        assert(final(out)@ =~= old(out)@ + define_line(name@, key@, value));
    }
}

/// The packed bytes of the whole pixel buffer.
#[verifier::loop_isolation(false)]
#[verifier::rlimit(100)]
fn pack_pixels_exec(pixels: &Vec<u8>, width: u32, height: u32) -> (bytes: Vec<u8>)
    requires
        width >= 1,
        pixels@.len() == width as int * height as int,
    ensures
        bytes@ == pack_pixels(pixels@, width as nat),
{
    let w = width as usize;
    let len = pixels.len();
    let mut bytes: Vec<u8> = Vec::new();
    let mut row_start: usize = 0;
    proof {
        assert(pixels@.skip(0) =~= pixels@);
    }
    while row_start < len
        invariant
            row_start <= len,
            len - row_start == width as int * (height as int - (row_start as int / width as int)),
            row_start as int % width as int == 0,
            pack_pixels(pixels@, width as nat) == bytes@ + pack_pixels(
                pixels@.skip(row_start as int),
                width as nat,
            ),
        decreases len - row_start,
    {
        let ghost rest = pixels@.skip(row_start as int);
        let ghost k = height as int - (row_start as int / width as int);
        proof {
            assert(len - row_start >= w) by (nonlinear_arith)
                requires
                    len - row_start == width as int * k,
                    row_start < len,
                    w == width as int,
                    width >= 1,
            ;
        }
        let row_end = row_start + w;
        let ghost row = pixels@.subrange(row_start as int, row_end as int);
        proof {
            assert(row.skip(0) =~= row);
            if rest.len() <= width as int {
                assert(rest =~= row);
                assert(pixels@.skip(row_end as int) =~= Seq::<u8>::empty());
                assert(pack_pixels(pixels@.skip(row_end as int), width as nat) == Seq::<
                    u8,
                >::empty());
                assert(pack_pixels(rest, width as nat) == pack_row(rest));
                assert(bytes@ + pack_row(row) + pack_pixels(
                    pixels@.skip(row_end as int),
                    width as nat,
                ) =~= bytes@ + pack_pixels(rest, width as nat));
            } else {
                assert(rest.take(width as int) =~= row);
                assert(rest.skip(width as int) =~= pixels@.skip(row_end as int));
                assert(bytes@ + pack_row(row) + pack_pixels(
                    pixels@.skip(row_end as int),
                    width as nat,
                ) =~= bytes@ + (pack_row(row) + pack_pixels(
                    pixels@.skip(row_end as int),
                    width as nat,
                )));
            }
        }
        let mut c = row_start;
        while c < row_end
            invariant
                row_start <= c <= row_end <= len,
                (c - row_start) % 8 == 0 || c == row_end,
                row == pixels@.subrange(row_start as int, row_end as int),
                pack_pixels(pixels@, width as nat) == bytes@ + pack_row(
                    row.skip(c - row_start),
                ) + pack_pixels(pixels@.skip(row_end as int), width as nat),
            decreases row_end - c,
        {
            let chunk_len = if row_end - c < 8 {
                row_end - c
            } else {
                8
            };
            let ghost chunk = row.skip(c - row_start).take(chunk_len as int);
            let mut b: u8 = 0;
            let mut j: usize = 0;
            while j < chunk_len
                invariant
                    j <= chunk_len,
                    c + chunk_len <= row_end,
                    chunk == row.skip(c - row_start).take(chunk_len as int),
                    chunk.len() == chunk_len <= 8,
                    b == pack8(chunk.take(j as int)),
                decreases chunk_len - j,
            {
                proof {
                    assert(chunk.take(j + 1 as int).drop_last() =~= chunk.take(j as int));
                    assert(chunk[j as int] == pixels@[c + j]);
                }
                b = b | (pixels[c + j] << (j as u8));
                j += 1;
            }
            bytes.push(b);
            proof {
                assert(chunk.take(chunk_len as int) =~= chunk);
                let tail = row.skip(c - row_start);
                if tail.len() <= 8 {
                    assert(chunk =~= tail);
                    assert(row.skip(c + chunk_len - row_start) =~= Seq::<u8>::empty());
                    assert(pack_row(tail) == seq![pack8(tail)]);
                } else {
                    assert(chunk =~= tail.take(8));
                    assert(tail.skip(8) =~= row.skip(c + chunk_len - row_start));
                }
                assert(bytes@ =~= (bytes@.drop_last()) + seq![b]);
                assert((bytes@.drop_last() + seq![pack8(chunk)]) + pack_row(
                    row.skip(c + chunk_len - row_start),
                ) =~= bytes@.drop_last() + (seq![pack8(chunk)] + pack_row(
                    row.skip(c + chunk_len - row_start),
                )));
            }
            c += chunk_len;
        }
        proof {
            assert(row.skip(row_end - row_start) =~= Seq::<u8>::empty());
            assert(pack_row(row.skip(row_end - row_start)) == Seq::<u8>::empty());
            let rest = pixels@.skip(row_start as int);
            if rest.len() <= width as int {
                assert(rest =~= row);
                assert(pixels@.skip(row_end as int) =~= Seq::<u8>::empty());
                assert(pack_pixels(pixels@.skip(row_end as int), width as nat) == Seq::<
                    u8,
                >::empty());
                assert(pack_pixels(rest, width as nat) == pack_row(rest));
            } else {
                assert(rest.take(width as int) =~= row);
                assert(rest.skip(width as int) =~= pixels@.skip(row_end as int));
            }
            assert((row_end as int) % (width as int) == 0) by (nonlinear_arith)
                requires
                    (row_start as int) % (width as int) == 0,
                    row_end == row_start + width as int,
                    width >= 1,
            ;
            assert(row_end as int / width as int == row_start as int / width as int + 1)
                by (nonlinear_arith)
                requires
                    (row_start as int) % (width as int) == 0,
                    row_end == row_start + width as int,
                    width >= 1,
            ;
            assert(len - row_end == width as int * (height as int - (row_end as int
                / width as int))) by (nonlinear_arith)
                requires
                    len - row_start == width as int * (height as int - (row_start as int
                        / width as int)),
                    row_end == row_start + width as int,
                    row_end as int / width as int == row_start as int / width as int + 1,
                    width >= 1,
            ;
        }
        row_start = row_end;
    }
    proof {
        assert(pixels@.skip(len as int) =~= Seq::<u8>::empty());
    }
    bytes
}

/// Appends the data lines for `bytes` to `out`.
#[verifier::loop_isolation(false)]
fn push_data_lines(out: &mut Vec<char>, bytes: &Vec<u8>)
    ensures
        final(out)@ == old(out)@ + data_lines(bytes@),
{
    let n = bytes.len();
    let mut g: usize = 0;
    proof {
        assert(bytes@.skip(0) =~= bytes@);
    }
    while g < n
        invariant
            g <= n == bytes@.len(),
            out@ + data_lines(bytes@.skip(g as int)) == old(out)@ + data_lines(bytes@),
        decreases n - g,
    {
        let ghost before_line = out@;
        let ghost group_rest = bytes@.skip(g as int);
        let line_len = if n - g < 12 {
            n - g
        } else {
            12
        };
        let ghost group = group_rest.take(line_len as int);
        push_str(out, "    ");
        proof {
            assert(group.skip(0) =~= group);
        }
        let mut j: usize = 0;
        while j < line_len
            invariant
                j <= line_len,
                g + line_len <= n,
                group == bytes@.skip(g as int).take(line_len as int),
                group.len() == line_len,
                out@ + join_hex(group.skip(j as int)) == before_line + "    "@ + join_hex(group),
            decreases line_len - j,
        {
            proof {
                assert(group.skip(j as int)[0] == bytes@[g + j]);
                assert(group.skip(j as int).skip(1) =~= group.skip(j + 1 as int));
            }
            crate::num::push_hex_byte(bytes[g + j], out);
            if j + 1 < line_len {
                push_str(out, ", ");
                proof {
                    assert(group.skip(j as int).len() > 1);
                }
            } else {
                proof {
                    assert(group.skip(j as int).len() == 1);
                    assert(group.skip(j + 1 as int) =~= Seq::<u8>::empty());
                }
            }
            j += 1;
        }
        push_str(out, ",\n");
        proof {
            assert(group.skip(line_len as int) =~= Seq::<u8>::empty());
            if group_rest.len() <= 12 {
                assert(group =~= group_rest);
                assert(bytes@.skip(g + line_len as int) =~= Seq::<u8>::empty());
                assert(data_lines(group_rest) == "    "@ + join_hex(group_rest) + ",\n"@);
            } else {
                assert(group =~= group_rest.take(12));
                assert(group_rest.skip(12) =~= bytes@.skip(g + line_len as int));
            }
            assert(out@ =~= before_line + ("    "@ + join_hex(group) + ",\n"@));
            assert(out@ + data_lines(bytes@.skip(g + line_len as int)) =~= before_line + (("    "@
                + join_hex(group) + ",\n"@) + data_lines(bytes@.skip(g + line_len as int))));
        }
        g += line_len;
    }
    proof {
        assert(bytes@.skip(n as int) =~= Seq::<u8>::empty());
        assert(final(out)@ =~= old(out)@ + data_lines(bytes@));
    }
}

} // verus!
