//! Decoding of XBM documents.

use crate::num::{dec_value, numeral_digits, valid_u32_numeral};
use crate::text::{
    line_at, next_line_start, seq_ends_with, seq_starts_with, split_ws, strip_suffixes,
    valid_identifier, views_of,
};
use vstd::prelude::*;

verus! {

// `std::io::Error` and `std::num::ParseIntError` appear as payloads of
// [`Error`]; Verus needs the types declared before they can stand in fields.
#[verifier::external_type_specification]
#[verifier::external_body]
pub struct ExIoError(std::io::Error);

#[verifier::external_type_specification]
#[verifier::external_body]
pub struct ExParseIntError(std::num::ParseIntError);

/// The error type indicating that an error occurred during decoding.
#[derive(Debug)]
pub enum Error {
    /// The header was invalid.
    InvalidHeader,
    /// The byte value expressed in C hexadecimal notation which represents
    /// the pixels was invalid.
    InvalidHexByte(String),
    /// The image termination string was not `};`.
    InvalidTermination,
    /// The expected image dimensions and the actual image dimensions
    /// mismatched.
    InvalidImageSize(usize),
    /// An error occurred during I/O operations.
    Io(std::io::Error),
    /// An error occurred while parsing an integer.
    ParseInt(std::num::ParseIntError),
}

impl From<std::io::Error> for Error {
    fn from(err: std::io::Error) -> (r: Self) {
        Error::Io(err)
    }
}

impl vstd::std_specs::convert::FromSpecImpl<std::io::Error> for Error {
    open spec fn obeys_from_spec() -> bool {
        true
    }

    open spec fn from_spec(err: std::io::Error) -> Self {
        Error::Io(err)
    }
}

impl From<std::num::ParseIntError> for Error {
    fn from(err: std::num::ParseIntError) -> (r: Self) {
        Error::ParseInt(err)
    }
}

impl vstd::std_specs::convert::FromSpecImpl<std::num::ParseIntError> for Error {
    open spec fn obeys_from_spec() -> bool {
        true
    }

    open spec fn from_spec(err: std::num::ParseIntError) -> Self {
        Error::ParseInt(err)
    }
}

impl Error {
    /// A human-readable description of the error, as its `Display`
    /// implementation would conventionally print it.
    pub fn to_string(&self) -> (s: String)
        ensures
            match self {
                Error::InvalidHeader => s@ == "invalid header"@,
                Error::InvalidHexByte(value) => s@ == "invalid hex byte `"@ + value@ + "`"@,
                Error::InvalidTermination => s@ == "invalid termination string"@,
                Error::InvalidImageSize(size) => s@ == "invalid image size `"@
                    + crate::num::dec_numeral(*size as nat) + "`"@,
                _ => true,
            },
    {
        match self {
            Error::InvalidHeader => "invalid header".to_owned(),
            Error::InvalidHexByte(value) => {
                let mut s = "invalid hex byte `".to_owned();
                vstd::string::StringExecFns::append(&mut s, value.as_str());
                vstd::string::StringExecFns::append(&mut s, "`");
                s
            },
            Error::InvalidTermination => "invalid termination string".to_owned(),
            Error::InvalidImageSize(size) => {
                let mut digits: Vec<char> = Vec::new();
                crate::num::push_dec_usize(*size, &mut digits);
                let mut s = "invalid image size `".to_owned();
                vstd::string::StringExecFns::append(
                    &mut s,
                    crate::text::string_from_chars(&digits).as_str(),
                );
                vstd::string::StringExecFns::append(&mut s, "`");
                s
            },
            Error::Io(e) => io_error_message(e),
            Error::ParseInt(e) => parse_int_error_message(e),
        }
    }
}

/// Relies on the `Display` implementation of `std::io::Error` for the text
/// of an I/O error.
#[verifier::external_body]
fn io_error_message(e: &std::io::Error) -> String {
    e.to_string()
}

/// Relies on the `Display` implementation of `std::num::ParseIntError` for
/// the text of an integer-parsing error.
#[verifier::external_body]
fn parse_int_error_message(e: &std::num::ParseIntError) -> String {
    e.to_string()
}

// ---------------------------------------------------------------------------
// The header grammar
// ---------------------------------------------------------------------------

/// The parsed header of an XBM document: its fields, and the position in the
/// text just past the opening brace, where the pixel data begins.
pub struct Header {
    /// The name shared by all the `#define` lines and the array declaration.
    pub name: Seq<char>,
    /// The width of the image in pixels.
    pub width: u32,
    /// The height of the image in pixels.
    pub height: u32,
    /// The x coordinate of the hotspot, if the header declares one.
    pub x_hot: Option<u32>,
    /// The y coordinate of the hotspot, if the header declares one.
    pub y_hot: Option<u32>,
    /// The position just past the `{` of the array declaration.
    pub data_start: int,
}

/// What reading the header of an XBM document yields.
pub enum HeaderOutcome {
    /// A well-formed header.
    Parsed(Header),
    /// A structural violation of the header grammar.
    BadHeader,
    /// A width, height or hotspot numeral that does not parse as a `u32`.
    BadNumeral,
}

/// The declaration that introduces the pixel array: either of the two
/// accepted spellings, followed by anything at all. The returned offset is
/// the position just past the opening brace.
pub open spec fn array_decl_offset(line: Seq<char>, name: Seq<char>) -> Option<int> {
    let with_unsigned = "static unsigned char "@ + name + "_bits[] = {"@;
    let without = "static char "@ + name + "_bits[] = {"@;
    if seq_starts_with(line, with_unsigned) {
        Some(with_unsigned.len() as int)
    } else if seq_starts_with(line, without) {
        Some(without.len() as int)
    } else {
        None
    }
}

/// The pairing check and the array declaration, after both hotspot lines
/// have been read: `cursor` is where the array declaration must begin.
pub open spec fn parse_header_finish(
    text: Seq<char>,
    name: Seq<char>,
    width: u32,
    height: u32,
    x_hot: Option<u32>,
    y_hot: Option<u32>,
    cursor: int,
) -> HeaderOutcome {
    if (x_hot is Some) != (y_hot is Some) {
        HeaderOutcome::BadHeader
    } else {
        match array_decl_offset(line_at(text, cursor), name) {
            Option::None => HeaderOutcome::BadHeader,
            Option::Some(offset) => HeaderOutcome::Parsed(
                Header { name, width, height, x_hot, y_hot, data_start: cursor + offset },
            ),
        }
    }
}

/// The optional `y_hot` line: read it if it begins with `#define`, leave the
/// cursor alone if it does not.
pub open spec fn parse_header_y_hot(
    text: Seq<char>,
    name: Seq<char>,
    width: u32,
    height: u32,
    x_hot: Option<u32>,
    cursor: int,
) -> HeaderOutcome {
    let toks = split_ws(line_at(text, cursor));
    let after = next_line_start(text, cursor);
    if toks.len() >= 1 && toks[0] == "#define"@ {
        if toks.len() < 2 || toks[1] != name + "_y_hot"@ {
            HeaderOutcome::BadHeader
        } else if toks.len() < 3 {
            HeaderOutcome::BadHeader
        } else if !valid_u32_numeral(toks[2]) {
            HeaderOutcome::BadNumeral
        } else if toks.len() > 3 {
            HeaderOutcome::BadHeader
        } else {
            let y = dec_value(numeral_digits(toks[2])) as u32;
            parse_header_finish(text, name, width, height, x_hot, Some(y), after)
        }
    } else {
        parse_header_finish(text, name, width, height, x_hot, None, cursor)
    }
}

/// The optional `x_hot` line: read it if it begins with `#define`, leave the
/// cursor alone if it does not.
pub open spec fn parse_header_x_hot(
    text: Seq<char>,
    name: Seq<char>,
    width: u32,
    height: u32,
    cursor: int,
) -> HeaderOutcome {
    let toks = split_ws(line_at(text, cursor));
    let after = next_line_start(text, cursor);
    if toks.len() >= 1 && toks[0] == "#define"@ {
        if toks.len() < 2 || toks[1] != name + "_x_hot"@ {
            HeaderOutcome::BadHeader
        } else if toks.len() < 3 {
            HeaderOutcome::BadHeader
        } else if !valid_u32_numeral(toks[2]) {
            HeaderOutcome::BadNumeral
        } else if toks.len() > 3 {
            HeaderOutcome::BadHeader
        } else {
            let x = dec_value(numeral_digits(toks[2])) as u32;
            parse_header_y_hot(text, name, width, height, Some(x), after)
        }
    } else {
        parse_header_y_hot(text, name, width, height, None, cursor)
    }
}

/// The height line: `#define {name}_height {height}`, with exactly three
/// tokens.
pub open spec fn parse_header_height(
    text: Seq<char>,
    name: Seq<char>,
    width: u32,
    cursor: int,
) -> HeaderOutcome {
    let toks = split_ws(line_at(text, cursor));
    let after = next_line_start(text, cursor);
    if toks.len() < 1 || toks[0] != "#define"@ {
        HeaderOutcome::BadHeader
    } else if toks.len() < 2 || toks[1] != name + "_height"@ {
        HeaderOutcome::BadHeader
    } else if toks.len() < 3 {
        HeaderOutcome::BadHeader
    } else if !valid_u32_numeral(toks[2]) {
        HeaderOutcome::BadNumeral
    } else if toks.len() > 3 {
        HeaderOutcome::BadHeader
    } else {
        let height = dec_value(numeral_digits(toks[2])) as u32;
        parse_header_x_hot(text, name, width, height, after)
    }
}

/// The whole header grammar, beginning with the width line: `#define
/// {name}_width {width}`, where the second token ends with `_width`, the name
/// left after stripping every trailing `_width` is a valid identifier, and
/// the line has exactly three tokens.
pub open spec fn parse_header(text: Seq<char>) -> HeaderOutcome {
    let toks = split_ws(line_at(text, 0));
    let after = next_line_start(text, 0);
    if toks.len() < 1 || toks[0] != "#define"@ {
        HeaderOutcome::BadHeader
    } else if toks.len() < 2 || !seq_ends_with(toks[1], "_width"@) {
        HeaderOutcome::BadHeader
    } else {
        let name = strip_suffixes(toks[1], "_width"@);
        if !valid_identifier(name) {
            HeaderOutcome::BadHeader
        } else if toks.len() < 3 {
            HeaderOutcome::BadHeader
        } else if !valid_u32_numeral(toks[2]) {
            HeaderOutcome::BadNumeral
        } else if toks.len() > 3 {
            HeaderOutcome::BadHeader
        } else {
            let width = dec_value(numeral_digits(toks[2])) as u32;
            parse_header_height(text, name, width, after)
        }
    }
}

/// The pairing check of `parse_header_finish`, alone.
proof fn lemma_finish_pairs_hotspots(
    text: Seq<char>,
    name: Seq<char>,
    width: u32,
    height: u32,
    x_hot: Option<u32>,
    y_hot: Option<u32>,
    cursor: int,
)
    ensures
        parse_header_finish(text, name, width, height, x_hot, y_hot, cursor) matches
            HeaderOutcome::Parsed(h) ==> (h.x_hot is Some <==> h.y_hot is Some),
{
}

/// The pairing carried through the `y_hot` line.
proof fn lemma_y_hot_pairs_hotspots(
    text: Seq<char>,
    name: Seq<char>,
    width: u32,
    height: u32,
    x_hot: Option<u32>,
    cursor: int,
)
    ensures
        parse_header_y_hot(text, name, width, height, x_hot, cursor) matches
            HeaderOutcome::Parsed(h) ==> (h.x_hot is Some <==> h.y_hot is Some),
{
    let toks = split_ws(line_at(text, cursor));
    let after = next_line_start(text, cursor);
    if toks.len() >= 3 {
        let y = dec_value(numeral_digits(toks[2])) as u32;
        lemma_finish_pairs_hotspots(text, name, width, height, x_hot, Some(y), after);
    }
    lemma_finish_pairs_hotspots(text, name, width, height, x_hot, None, cursor);
}

/// The pairing carried through the `x_hot` line.
proof fn lemma_x_hot_pairs_hotspots(
    text: Seq<char>,
    name: Seq<char>,
    width: u32,
    height: u32,
    cursor: int,
)
    ensures
        parse_header_x_hot(text, name, width, height, cursor) matches HeaderOutcome::Parsed(h)
            ==> (h.x_hot is Some <==> h.y_hot is Some),
{
    let toks = split_ws(line_at(text, cursor));
    let after = next_line_start(text, cursor);
    if toks.len() >= 3 {
        let x = dec_value(numeral_digits(toks[2])) as u32;
        lemma_y_hot_pairs_hotspots(text, name, width, height, Some(x), after);
    }
    lemma_y_hot_pairs_hotspots(text, name, width, height, None, cursor);
}

/// The hotspot pairing invariant: a header that parses at all declares
/// either both hotspot coordinates or neither. A document with exactly one
/// of the two `#define` lines is rejected as an invalid header.
pub proof fn lemma_hotspot_pairing(text: Seq<char>)
    ensures
        parse_header(text) matches HeaderOutcome::Parsed(h) ==> (h.x_hot is Some <==> h.y_hot
            is Some),
{
    let toks = split_ws(line_at(text, 0));
    let after = next_line_start(text, 0);
    if toks.len() >= 3 {
        let name = strip_suffixes(toks[1], "_width"@);
        let width = dec_value(numeral_digits(toks[2])) as u32;
        let toks2 = split_ws(line_at(text, after));
        let after2 = next_line_start(text, after);
        if toks2.len() >= 3 {
            let height = dec_value(numeral_digits(toks2[2])) as u32;
            lemma_x_hot_pairs_hotspots(text, name, width, height, after2);
        }
    }
}

// ---------------------------------------------------------------------------
// The pixel grammar
// ---------------------------------------------------------------------------

/// The pixel held in bit `i` of a packed byte, least significant bit first.
pub open spec fn bit_of(b: u8, i: int) -> u8 {
    (b >> (i as u8)) & 1
}

/// The first `count` pixels of a packed byte.
pub open spec fn bits_of(b: u8, count: int) -> Seq<u8> {
    Seq::new(count as nat, |i: int| bit_of(b, i))
}

/// A structurally well-formed hex byte token: ASCII characters only, exactly
/// four of them, beginning `0x` or `0X`.
pub open spec fn well_formed_hex_token(tok: Seq<char>) -> bool {
    &&& forall|i: int| 0 <= i < tok.len() ==> #[trigger] tok[i] <= '\u{7f}'
    &&& tok.len() == 4
    &&& tok[0] == '0'
    &&& (tok[1] == 'x' || tok[1] == 'X')
}

/// The state of the unpacking machine between tokens: the pixels written so
/// far and how many pixels of the current row are still owed, or the first
/// error met.
pub enum RunState {
    /// No error yet.
    Going {
        /// The pixels written so far.
        pixels: Seq<u8>,
        /// How many pixels of the current row are still owed.
        remaining: nat,
    },
    /// A token that is not a well-formed hex byte token.
    BadHex(Seq<char>),
    /// A token whose digits do not parse as a hexadecimal byte.
    BadNumeral,
    /// A byte whose pixels would overrun the buffer; the payload counts the
    /// pixels written up to it.
    BadSize(nat),
}

/// One token through the unpacking machine. A byte yields eight pixels, or
/// only what the row still owes when that is less; a new row always begins at
/// a fresh byte.
pub open spec fn run_token(state: RunState, tok: Seq<char>, width: nat, buflen: nat) -> RunState {
    match state {
        RunState::Going { pixels, remaining } => {
            if !well_formed_hex_token(tok) {
                RunState::BadHex(tok)
            } else if !crate::num::valid_u8_hex_numeral(tok.skip(2)) {
                RunState::BadNumeral
            } else {
                let b = crate::num::hex_value(numeral_digits(tok.skip(2))) as u8;
                let take = if remaining < 8 {
                    remaining
                } else {
                    8
                };
                if pixels.len() + take > buflen {
                    RunState::BadSize(pixels.len())
                } else {
                    RunState::Going {
                        pixels: pixels + bits_of(b, take as int),
                        remaining: if remaining <= 8 {
                            width
                        } else {
                            (remaining - 8) as nat
                        },
                    }
                }
            }
        },
        _ => state,
    }
}

/// A whole token list through the unpacking machine, left to right.
pub open spec fn run_tokens(
    state: RunState,
    toks: Seq<Seq<char>>,
    width: nat,
    buflen: nat,
) -> RunState
    decreases toks.len(),
{
    if toks.len() == 0 {
        state
    } else {
        run_tokens(run_token(state, toks[0], width, buflen), toks.skip(1), width, buflen)
    }
}

/// An erroneous state passes through the machine unchanged.
pub proof fn lemma_run_tokens_stall(state: RunState, toks: Seq<Seq<char>>, width: nat, buflen: nat)
    requires
        !(state is Going),
    ensures
        run_tokens(state, toks, width, buflen) == state,
    decreases toks.len(),
{
    if toks.len() > 0 {
        lemma_run_tokens_stall(state, toks.skip(1), width, buflen);
    }
}

/// The tokens of one data line: the pieces between commas, each trimmed; a
/// single empty piece at the end, left by a trailing comma, is dropped.
pub open spec fn line_tokens(content: Seq<char>) -> Seq<Seq<char>> {
    let raw = crate::text::split_commas(content).map_values(|piece: Seq<char>| crate::text::trim(piece));
    if raw.len() > 0 && raw.last().len() == 0 {
        raw.drop_last()
    } else {
        raw
    }
}

/// What decoding the pixel section yields.
pub enum PixelOutcome {
    /// The pixels, exactly filling the buffer.
    Pixels(Seq<u8>),
    /// A token that is not a well-formed hex byte token.
    BadHex(Seq<char>),
    /// A token whose digits do not parse as a hexadecimal byte.
    BadNumeral,
    /// The final line does not end with `};`.
    BadTermination,
    /// The pixel count disagrees with the buffer: the payload counts the
    /// pixels written.
    BadSize(nat),
}

/// The outcome once all tokens are done: a state with exactly the buffer's
/// worth of pixels succeeds, anything else reports how far it came.
pub open spec fn state_outcome(state: RunState, buflen: nat) -> PixelOutcome {
    match state {
        RunState::Going { pixels, remaining } => {
            if pixels.len() == buflen {
                PixelOutcome::Pixels(pixels)
            } else {
                PixelOutcome::BadSize(pixels.len())
            }
        },
        RunState::BadHex(t) => PixelOutcome::BadHex(t),
        RunState::BadNumeral => PixelOutcome::BadNumeral,
        RunState::BadSize(n) => PixelOutcome::BadSize(n),
    }
}

/// The pixel section, line by line. Every line is trimmed; the last line
/// must end with `};`, which is stripped (repeatedly, as a pattern) before
/// its tokens are read; an empty last line after stripping ends the run.
pub open spec fn decode_lines(
    state: RunState,
    ls: Seq<Seq<char>>,
    width: nat,
    buflen: nat,
) -> PixelOutcome
    decreases ls.len(),
{
    if !(state is Going) {
        state_outcome(state, buflen)
    } else if ls.len() == 0 {
        state_outcome(state, buflen)
    } else if ls.len() == 1 {
        let content = crate::text::trim(ls[0]);
        if !seq_ends_with(content, "};"@) {
            PixelOutcome::BadTermination
        } else {
            let stripped = strip_suffixes(content, "};"@);
            if stripped.len() == 0 {
                state_outcome(state, buflen)
            } else {
                state_outcome(run_tokens(state, line_tokens(stripped), width, buflen), buflen)
            }
        }
    } else {
        decode_lines(
            run_tokens(state, line_tokens(crate::text::trim(ls[0])), width, buflen),
            ls.skip(1),
            width,
            buflen,
        )
    }
}

/// The whole pixel section of a document, as [`Decoder::decode`] reads it
/// into a buffer of `buflen` pixels.
pub open spec fn decode_pixels(text: Seq<char>, width: nat, buflen: nat) -> PixelOutcome {
    decode_lines(
        RunState::Going { pixels: seq![], remaining: width },
        crate::text::lines_of(text),
        width,
        buflen,
    )
}

// ---------------------------------------------------------------------------
// The decoder
// ---------------------------------------------------------------------------

/// What a [`Decoder`] stands for: the parsed header fields and the text that
/// remains to be read as pixel data.
pub struct DecoderModel {
    /// The name of the image.
    pub name: Seq<char>,
    /// The width of the image in pixels.
    pub width: u32,
    /// The height of the image in pixels.
    pub height: u32,
    /// The x coordinate of the hotspot, if the header declares one.
    pub x_hot: Option<u32>,
    /// The y coordinate of the hotspot, if the header declares one.
    pub y_hot: Option<u32>,
    /// The text past the opening brace of the array declaration.
    pub rest: Seq<char>,
}

/// Decoder for XBM images.
#[derive(Debug)]
pub struct Decoder {
    data: Vec<char>,
    pos: usize,
    name: String,
    width: u32,
    height: u32,
    x_hot: Option<u32>,
    y_hot: Option<u32>,
}

impl Decoder {
    /// The position always lies within the text.
    #[verifier::type_invariant]
    spec fn cursor_in_bounds(self) -> bool {
        self.pos <= self.data@.len()
    }
}

impl View for Decoder {
    type V = DecoderModel;

    closed spec fn view(&self) -> DecoderModel {
        DecoderModel {
            name: self.name@,
            width: self.width,
            height: self.height,
            x_hot: self.x_hot,
            y_hot: self.y_hot,
            rest: self.data@.skip(self.pos as int),
        }
    }
}

impl Decoder {
    /// Creates a new `Decoder` by parsing the header of `text`.
    ///
    /// # Errors
    ///
    /// Returns [`Err`] if any of the following are true:
    ///
    /// - The header is invalid.
    /// - An error occurs while parsing either the width, the height, or the
    ///   hotspot.
    #[verifier::rlimit(100)]
    pub fn new(text: &str) -> (result: Result<Self, Error>)
        ensures
            match result {
                Ok(decoder) => parse_header(text@) matches HeaderOutcome::Parsed(h)
                    && decoder@.name == h.name && decoder@.width == h.width && decoder@.height
                    == h.height && decoder@.x_hot == h.x_hot && decoder@.y_hot == h.y_hot
                    && decoder@.rest == text@.skip(h.data_start) && (decoder@.x_hot is Some
                    <==> decoder@.y_hot is Some),
                Err(e) => {
                    &&& !(parse_header(text@) is Parsed)
                    &&& e is InvalidHeader <==> parse_header(text@) is BadHeader
                    &&& e is ParseInt <==> parse_header(text@) is BadNumeral
                },
            },
    {
        let data = crate::text::to_chars(text);
        // the length of the text bounds every cursor computed below
        let text_len = data.len();
        let ghost t = text@;

        // `#define {name}_width {width}`
        let (t1, c1) = read_line_tokens(&data, 0);
        if t1.len() < 1 || !crate::text::eq_str(&t1[0], "#define") {
            return Err(Error::InvalidHeader);
        }
        if t1.len() < 2 || !crate::text::ends_with_str(&t1[1], "_width") {
            return Err(Error::InvalidHeader);
        }
        proof {
            reveal_strlit("_width");
        }
        let token = crate::text::subvec(&t1[1], 0, t1[1].len());
        proof {
            assert(token@ =~= t1@[1 as int]@);
        }
        let name = crate::text::strip_suffixes_exec(token, "_width");
        if !is_valid_identifier(&name) {
            return Err(Error::InvalidHeader);
        }
        if t1.len() < 3 {
            return Err(Error::InvalidHeader);
        }
        let width = match parse_u32_token(&t1[2]) {
            Ok(value) => value,
            Err(e) => return Err(Error::ParseInt(e)),
        };
        if t1.len() > 3 {
            return Err(Error::InvalidHeader);
        }

        // `#define {name}_height {height}`
        let (t2, c2) = read_line_tokens(&data, c1);
        if t2.len() < 1 || !crate::text::eq_str(&t2[0], "#define") {
            return Err(Error::InvalidHeader);
        }
        if t2.len() < 2 || !eq_name_then_str(&t2[1], &name, "_height") {
            return Err(Error::InvalidHeader);
        }
        if t2.len() < 3 {
            return Err(Error::InvalidHeader);
        }
        let height = match parse_u32_token(&t2[2]) {
            Ok(value) => value,
            Err(e) => return Err(Error::ParseInt(e)),
        };
        if t2.len() > 3 {
            return Err(Error::InvalidHeader);
        }

        // `#define {name}_x_hot {x}`, or not
        let mut cursor = c2;
        let mut x_hot: Option<u32> = None;
        let (t3, c3) = read_line_tokens(&data, cursor);
        if t3.len() >= 1 && crate::text::eq_str(&t3[0], "#define") {
            if t3.len() < 2 || !eq_name_then_str(&t3[1], &name, "_x_hot") {
                return Err(Error::InvalidHeader);
            }
            if t3.len() < 3 {
                return Err(Error::InvalidHeader);
            }
            let value = match parse_u32_token(&t3[2]) {
                Ok(value) => value,
                Err(e) => return Err(Error::ParseInt(e)),
            };
            if t3.len() > 3 {
                return Err(Error::InvalidHeader);
            }
            x_hot = Some(value);
            cursor = c3;
        }

        // `#define {name}_y_hot {y}`, or not
        let mut y_hot: Option<u32> = None;
        let (t4, c4) = read_line_tokens(&data, cursor);
        if t4.len() >= 1 && crate::text::eq_str(&t4[0], "#define") {
            if t4.len() < 2 || !eq_name_then_str(&t4[1], &name, "_y_hot") {
                return Err(Error::InvalidHeader);
            }
            if t4.len() < 3 {
                return Err(Error::InvalidHeader);
            }
            let value = match parse_u32_token(&t4[2]) {
                Ok(value) => value,
                Err(e) => return Err(Error::ParseInt(e)),
            };
            if t4.len() > 3 {
                return Err(Error::InvalidHeader);
            }
            y_hot = Some(value);
            cursor = c4;
        }

        if x_hot.is_some() != y_hot.is_some() {
            return Err(Error::InvalidHeader);
        }

        // `static unsigned char {name}_bits[] = {` or `static char ...`
        proof {
            reveal_strlit("static unsigned char ");
            reveal_strlit("static char ");
            reveal_strlit("_bits[] = {");
        }
        let (line, _after) = read_line(&data, cursor);
        let line_len = line.len();
        let offset: usize;
        if crate::text::starts_with_str(&line, 0, "static unsigned char ")
            && crate::text::starts_with_chars(&line, 21, &name) && crate::text::starts_with_str(
            &line,
            21 + name.len(),
            "_bits[] = {",
        ) {
            offset = 21 + name.len() + 11;
            proof {
                assert(line@.skip(0) =~= line@);
                crate::text::lemma_starts_with_concat(
                    line@,
                    "static unsigned char "@,
                    name@ + "_bits[] = {"@,
                );
                crate::text::lemma_starts_with_concat(line@.skip(21), name@, "_bits[] = {"@);
                assert(line@.skip(21).skip(name@.len() as int) =~= line@.skip(
                    21 + name@.len() as int,
                ));
                assert(("static unsigned char "@ + (name@ + "_bits[] = {"@)) =~= (
                "static unsigned char "@ + name@ + "_bits[] = {"@));
                assert(seq_starts_with(line@, "static unsigned char "@ + name@ + "_bits[] = {"@));
                assert(("static unsigned char "@ + name@ + "_bits[] = {"@).len() == 32
                    + name@.len());
                assert(array_decl_offset(line@, name@) == Some(32 + name@.len() as int));
            }
        } else if crate::text::starts_with_str(&line, 0, "static char ")
            && crate::text::starts_with_chars(&line, 12, &name) && crate::text::starts_with_str(
            &line,
            12 + name.len(),
            "_bits[] = {",
        ) {
            offset = 12 + name.len() + 11;
            proof {
                assert(line@.skip(0) =~= line@);
                crate::text::lemma_starts_with_concat(
                    line@,
                    "static unsigned char "@,
                    name@ + "_bits[] = {"@,
                );
                crate::text::lemma_starts_with_concat(
                    line@,
                    "static char "@,
                    name@ + "_bits[] = {"@,
                );
                crate::text::lemma_starts_with_concat(line@.skip(12), name@, "_bits[] = {"@);
                assert(line@.skip(12).skip(name@.len() as int) =~= line@.skip(
                    12 + name@.len() as int,
                ));
                if seq_starts_with(line@, "static unsigned char "@) {
                    crate::text::lemma_starts_with_concat(line@.skip(21), name@, "_bits[] = {"@);
                    if seq_starts_with(line@.skip(21), name@) {
                        assert(line@.skip(21).skip(name@.len() as int) =~= line@.skip(
                            21 + name@.len() as int,
                        ));
                    }
                }
                assert(("static unsigned char "@ + (name@ + "_bits[] = {"@)) =~= (
                "static unsigned char "@ + name@ + "_bits[] = {"@));
                assert(("static char "@ + (name@ + "_bits[] = {"@)) =~= ("static char "@ + name@
                    + "_bits[] = {"@));
                assert(seq_starts_with(line@, "static char "@ + name@ + "_bits[] = {"@));
                assert(!seq_starts_with(line@, "static unsigned char "@ + name@ + "_bits[] = {"@));
                assert(("static char "@ + name@ + "_bits[] = {"@).len() == 23 + name@.len());
                assert(array_decl_offset(line@, name@) == Some(23 + name@.len() as int));
            }
        } else {
            proof {
                assert(line@.skip(0) =~= line@);
                crate::text::lemma_starts_with_concat(
                    line@,
                    "static unsigned char "@,
                    name@ + "_bits[] = {"@,
                );
                crate::text::lemma_starts_with_concat(
                    line@,
                    "static char "@,
                    name@ + "_bits[] = {"@,
                );
                if seq_starts_with(line@, "static unsigned char "@) {
                    crate::text::lemma_starts_with_concat(line@.skip(21), name@, "_bits[] = {"@);
                    if seq_starts_with(line@.skip(21), name@) {
                        assert(line@.skip(21).skip(name@.len() as int) =~= line@.skip(
                            21 + name@.len() as int,
                        ));
                    }
                }
                if seq_starts_with(line@, "static char "@) {
                    crate::text::lemma_starts_with_concat(line@.skip(12), name@, "_bits[] = {"@);
                    if seq_starts_with(line@.skip(12), name@) {
                        assert(line@.skip(12).skip(name@.len() as int) =~= line@.skip(
                            12 + name@.len() as int,
                        ));
                    }
                }
                assert(("static unsigned char "@ + (name@ + "_bits[] = {"@)) =~= (
                "static unsigned char "@ + name@ + "_bits[] = {"@));
                assert(("static char "@ + (name@ + "_bits[] = {"@)) =~= ("static char "@ + name@
                    + "_bits[] = {"@));
                assert(array_decl_offset(line@, name@) is None);
            }
            return Err(Error::InvalidHeader);
        }
        let data_start = cursor + offset;
        proof {
            assert(line@.len() == line_at(t, cursor as int).len());
            assert(data_start <= text_len);
            assert(views_of(t1@)[0] == t1@[0 as int]@);
            assert(views_of(t1@)[1] == t1@[1 as int]@);
            assert(views_of(t1@)[2] == t1@[2 as int]@);
            assert(views_of(t2@)[0] == t2@[0 as int]@);
            assert(views_of(t2@)[1] == t2@[1 as int]@);
            assert(views_of(t2@)[2] == t2@[2 as int]@);
            let spec_toks = split_ws(line_at(t, 0));
            assert(name@ == strip_suffixes(spec_toks[1], "_width"@));
            assert(width == dec_value(numeral_digits(spec_toks[2])) as u32);
            assert(array_decl_offset(line_at(t, cursor as int), name@) == Some(offset as int));
            assert(parse_header_finish(
                t,
                name@,
                width,
                height,
                x_hot,
                y_hot,
                cursor as int,
            ) matches HeaderOutcome::Parsed(h) && h.data_start == cursor + offset);
            assert(parse_header(t) == parse_header_height(t, name@, width, c1 as int));
        }
        let name_string = crate::text::string_from_chars(&name);
        Ok(
            Decoder {
                data,
                pos: data_start,
                name: name_string,
                width,
                height,
                x_hot,
                y_hot,
            },
        )
    }
}

impl Decoder {
    /// Returns the name of the image.
    #[inline]
    pub fn name(&self) -> (name: &str)
        ensures
            name@ == self@.name,
    {
        self.name.as_str()
    }

    /// Returns the width of the image.
    #[inline]
    pub fn width(&self) -> (width: u32)
        ensures
            width == self@.width,
    {
        self.width
    }

    /// Returns the height of the image.
    #[inline]
    pub fn height(&self) -> (height: u32)
        ensures
            height == self@.height,
    {
        self.height
    }

    /// Returns the x coordinate of the hotspot, or [`None`] if the header
    /// declares no hotspot.
    #[inline]
    pub fn x_hot(&self) -> (x_hot: Option<u32>)
        ensures
            x_hot == self@.x_hot,
    {
        self.x_hot
    }

    /// Returns the y coordinate of the hotspot, or [`None`] if the header
    /// declares no hotspot.
    #[inline]
    pub fn y_hot(&self) -> (y_hot: Option<u32>)
        ensures
            y_hot == self@.y_hot,
    {
        self.y_hot
    }

    /// Decodes the image into `buf`.
    ///
    /// `0` represents a white pixel and `1` represents a black pixel.
    ///
    /// The caller must size `buf` to exactly the width multiplied by the
    /// height.
    ///
    /// # Errors
    ///
    /// Returns [`Err`] if any of the following are true:
    ///
    /// - The hex byte value is invalid.
    /// - The image termination string is not `};`.
    /// - The expected image dimensions and the actual image dimensions
    ///   mismatch, including pixel data that would overrun `buf`.
    /// - An error occurs while parsing the hex byte value.
    #[verifier::loop_isolation(false)]
    pub fn decode(self, buf: &mut Vec<u8>) -> (result: Result<(), Error>)
        requires
            old(buf)@.len() == self@.width as int * self@.height as int,
        ensures
            final(buf)@.len() == old(buf)@.len(),
            ({
                let out = decode_pixels(self@.rest, self@.width as nat, old(buf)@.len() as nat);
                match result {
                    Ok(()) => out matches PixelOutcome::Pixels(px) && final(buf)@ == px,
                    Err(e) => {
                        &&& !(out is Pixels)
                        &&& (e is InvalidHexByte <==> out is BadHex)
                        &&& (e matches Error::InvalidHexByte(s) ==> out == PixelOutcome::BadHex(
                            s@,
                        ))
                        &&& (e is ParseInt <==> out is BadNumeral)
                        &&& (e is InvalidTermination <==> out is BadTermination)
                        &&& (e is InvalidImageSize <==> out is BadSize)
                        &&& (e matches Error::InvalidImageSize(n) ==> out == PixelOutcome::BadSize(
                            n as nat,
                        ))
                    },
                }
            }),
    {
        proof {
            use_type_invariant(&self);
        }
        let width = self.width;
        let data = self.data;
        let start = self.pos;
        let w = width as usize;
        let buf_len = buf.len();
        let ghost whole = data@.skip(start as int);
        let ls = crate::text::split_lines_exec(&data, start);
        let ghost lsv = views_of(ls@);
        let n_lines = ls.len();

        let mut pos: usize = 0;
        let mut remaining: usize = w;
        let mut li: usize = 0;
        proof {
            assert(lsv.skip(0) =~= lsv);
            assert(buf@.take(0) =~= Seq::<u8>::empty());
        }
        while li < n_lines
            invariant
                li <= n_lines == lsv.len(),
                n_lines == ls@.len(),
                lsv == views_of(ls@),
                buf@.len() == buf_len,
                pos <= buf_len,
                decode_pixels(whole, w as nat, buf_len as nat) == decode_lines(
                    RunState::Going { pixels: buf@.take(pos as int), remaining: remaining as nat },
                    lsv.skip(li as int),
                    w as nat,
                    buf_len as nat,
                ),
            decreases n_lines - li,
        {
            let ghost entry_state = RunState::Going {
                pixels: buf@.take(pos as int),
                remaining: remaining as nat,
            };
            let ghost rest_lines = lsv.skip(li as int);
            if li + 1 < n_lines {
                let trimmed = crate::text::trim_exec(&ls[li]);
                let toks = line_tokens_exec(&trimmed);
                proof {
                    assert(views_of(ls@)[li as int] == ls@[li as int]@);
                    assert(rest_lines[0] == lsv[li as int]);
                    assert(rest_lines.len() > 1);
                }
                match run_line_exec(&toks, buf, pos, remaining, width, buf_len) {
                    Ok((new_pos, new_remaining)) => {
                        pos = new_pos;
                        remaining = new_remaining;
                        proof {
                            assert(rest_lines.skip(1) =~= lsv.skip(li + 1 as int));
                        }
                    },
                    Err(e) => {
                        proof {
                            let st = run_tokens(
                                entry_state,
                                line_tokens(crate::text::trim(lsv[li as int])),
                                w as nat,
                                buf_len as nat,
                            );
                            assert(decode_lines(st, rest_lines.skip(1), w as nat, buf_len as nat)
                                == state_outcome(st, buf_len as nat));
                        }
                        return Err(e);
                    },
                }
            } else {
                // the final line of the stream
                let trimmed = crate::text::trim_exec(&ls[li]);
                proof {
                    assert(views_of(ls@)[li as int] == ls@[li as int]@);
                    assert(rest_lines[0] == lsv[li as int]);
                    assert(rest_lines.len() == 1);
                }
                if !crate::text::ends_with_str(&trimmed, "};") {
                    return Err(Error::InvalidTermination);
                }
                proof {
                    reveal_strlit("};");
                }
                let stripped = crate::text::strip_suffixes_exec(trimmed, "};");
                if stripped.len() > 0 {
                    let toks = line_tokens_exec(&stripped);
                    match run_line_exec(&toks, buf, pos, remaining, width, buf_len) {
                        Ok((new_pos, new_remaining)) => {
                            pos = new_pos;
                            remaining = new_remaining;
                        },
                        Err(e) => {
                            return Err(e);
                        },
                    }
                }
            }
            li += 1;
            proof {
                assert(lsv.skip(li as int).len() == 0 ==> lsv.skip(li as int) =~= Seq::<
                    Seq<char>,
                >::empty());
            }
        }
        proof {
            assert(lsv.skip(li as int) =~= Seq::<Seq<char>>::empty());
        }
        if pos == buf_len {
            proof {
                assert(buf@.take(pos as int) =~= buf@);
            }
            Ok(())
        } else {
            Err(Error::InvalidImageSize(pos))
        }
    }

    /// Decodes the image into a newly allocated [`Vec`].
    ///
    /// `0` represents a white pixel and `1` represents a black pixel.
    ///
    /// # Errors
    ///
    /// Returns [`Err`] under the same conditions as [`Decoder::decode`].
    pub fn decode_to_vec(self) -> (result: Result<Vec<u8>, Error>)
        requires
            self@.width as int * self@.height as int <= usize::MAX,
        ensures
            ({
                let out = decode_pixels(
                    self@.rest,
                    self@.width as nat,
                    (self@.width as int * self@.height as int) as nat,
                );
                match result {
                    Ok(buf) => out matches PixelOutcome::Pixels(px) && buf@ == px,
                    Err(e) => {
                        &&& !(out is Pixels)
                        &&& (e is InvalidHexByte <==> out is BadHex)
                        &&& (e matches Error::InvalidHexByte(s) ==> out == PixelOutcome::BadHex(
                            s@,
                        ))
                        &&& (e is ParseInt <==> out is BadNumeral)
                        &&& (e is InvalidTermination <==> out is BadTermination)
                        &&& (e is InvalidImageSize <==> out is BadSize)
                        &&& (e matches Error::InvalidImageSize(n) ==> out == PixelOutcome::BadSize(
                            n as nat,
                        ))
                    },
                }
            }),
    {
        let dimensions = (self.width as usize) * (self.height as usize);
        let mut buf: Vec<u8> = vec![0u8; dimensions];
        match self.decode(&mut buf) {
            Ok(()) => Ok(buf),
            Err(e) => Err(e),
        }
    }
}

/// Runs the tokens of one data line through the unpacking machine, writing
/// pixels into `buf` from position `pos` on. Returns the new position and the
/// pixels still owed to the current row, or the first error.
#[verifier::loop_isolation(false)]
fn run_line_exec(
    toks: &Vec<Vec<char>>,
    buf: &mut Vec<u8>,
    pos: usize,
    remaining: usize,
    width: u32,
    buf_len: usize,
) -> (r: Result<(usize, usize), Error>)
    requires
        pos <= buf_len == old(buf)@.len(),
        width as int == width as usize as int,
    ensures
        final(buf)@.len() == old(buf)@.len(),
        final(buf)@.take(pos as int) == old(buf)@.take(pos as int),
        ({
            let st = run_tokens(
                RunState::Going {
                    pixels: old(buf)@.take(pos as int),
                    remaining: remaining as nat,
                },
                views_of(toks@),
                width as nat,
                old(buf)@.len() as nat,
            );
            match r {
                Ok((new_pos, new_remaining)) => st == (RunState::Going {
                    pixels: final(buf)@.take(new_pos as int),
                    remaining: new_remaining as nat,
                }) && pos <= new_pos <= buf_len,
                Err(e) => {
                    &&& !(st is Going)
                    &&& (e is InvalidHexByte <==> st is BadHex)
                    &&& (e matches Error::InvalidHexByte(s) ==> st == RunState::BadHex(s@))
                    &&& (e is ParseInt <==> st is BadNumeral)
                    &&& (e matches Error::InvalidImageSize(n) ==> st == RunState::BadSize(n as nat))
                    &&& (e is InvalidImageSize <==> st is BadSize)
                    &&& !(e is InvalidTermination)
                },
            }
        }),
{
    let w = width as usize;
    let n = toks.len();
    let ghost entry = RunState::Going {
        pixels: old(buf)@.take(pos as int),
        remaining: remaining as nat,
    };
    let ghost vt = views_of(toks@);
    let mut pos = pos;
    let mut remaining = remaining;
    let mut ti: usize = 0;
    proof {
        assert(vt.skip(0) =~= vt);
    }
    while ti < n
        invariant
            ti <= n == vt.len(),
            n == toks@.len(),
            vt == views_of(toks@),
            buf@.len() == buf_len,
            pos <= buf_len,
            run_tokens(entry, vt, width as nat, buf_len as nat) == run_tokens(
                RunState::Going { pixels: buf@.take(pos as int), remaining: remaining as nat },
                vt.skip(ti as int),
                width as nat,
                buf_len as nat,
            ),
            buf@.take(entry->Going_pixels.len() as int) == entry->Going_pixels,
            entry->Going_pixels.len() <= pos,
        decreases n - ti,
    {
        let ghost tok = vt[ti as int];
        let t = &toks[ti];
        proof {
            assert(views_of(toks@)[ti as int] == toks@[ti as int]@);
            assert(tok == t@);
            assert(vt.skip(ti as int)[0] == tok);
            assert(vt.skip(ti as int).skip(1) =~= vt.skip(ti + 1 as int));
        }
        let shape_ok = t.len() == 4 && all_ascii(t) && t[0] == '0' && (t[1] == 'x' || t[1]
            == 'X');
        if !shape_ok {
            proof {
                assert(!well_formed_hex_token(tok));
                lemma_run_tokens_stall(
                    RunState::BadHex(tok),
                    vt.skip(ti + 1 as int),
                    width as nat,
                    buf_len as nat,
                );
            }
            return Err(Error::InvalidHexByte(crate::text::string_from_chars(t)));
        }
        let hex_part = crate::text::subvec(t, 2, 4);
        proof {
            assert(hex_part@ =~= tok.skip(2));
        }
        let hex_string = crate::text::string_from_chars(&hex_part);
        let b = match u8::from_str_radix(hex_string.as_str(), 16) {
            Ok(b) => b,
            Err(e) => {
                proof {
                    lemma_run_tokens_stall(
                        RunState::BadNumeral,
                        vt.skip(ti + 1 as int),
                        width as nat,
                        buf_len as nat,
                    );
                }
                return Err(Error::ParseInt(e));
            },
        };
        let take = if remaining < 8 {
            remaining
        } else {
            8
        };
        if take > buf_len - pos {
            proof {
                lemma_run_tokens_stall(
                    RunState::BadSize(buf@.take(pos as int).len() as nat),
                    vt.skip(ti + 1 as int),
                    width as nat,
                    buf_len as nat,
                );
            }
            return Err(Error::InvalidImageSize(pos));
        }
        let ghost before_write = buf@;
        let mut j: usize = 0;
        while j < take
            invariant
                j <= take,
                pos + take <= buf_len == buf@.len(),
                take <= 8,
                forall|k: int| 0 <= k < j ==> buf@[pos + k] == bit_of(b, k),
                forall|k: int| 0 <= k < buf@.len() && !(pos <= k < pos + j) ==> buf@[k]
                    == before_write[k],
            decreases take - j,
        {
            buf[pos + j] = (b >> (j as u8)) & 1;
            j += 1;
        }
        proof {
            assert(buf@.take(pos as int) =~= before_write.take(pos as int));
            assert(buf@.take((pos + take) as int) =~= before_write.take(pos as int) + bits_of(
                b,
                take as int,
            ));
            assert(buf@.take(entry->Going_pixels.len() as int) =~= before_write.take(
                entry->Going_pixels.len() as int,
            ));
        }
        pos = pos + take;
        remaining = if remaining <= 8 {
            w
        } else {
            remaining - 8
        };
        ti += 1;
    }
    proof {
        assert(vt.skip(ti as int) =~= Seq::<Seq<char>>::empty());
    }
    Ok((pos, remaining))
}

/// Whether every character of `v` is ASCII.
fn all_ascii(v: &Vec<char>) -> (r: bool)
    ensures
        r == forall|i: int| 0 <= i < v@.len() ==> #[trigger] v@[i] <= '\u{7f}',
{
    let n = v.len();
    let mut i: usize = 0;
    while i < n
        invariant
            i <= n == v@.len(),
            forall|k: int| 0 <= k < i ==> #[trigger] v@[k] <= '\u{7f}',
        decreases n - i,
    {
        if v[i] > '\u{7f}' {
            return false;
        }
        i += 1;
    }
    true
}

/// The tokens of one data line, as `line_tokens` describes them.
fn line_tokens_exec(content: &Vec<char>) -> (toks: Vec<Vec<char>>)
    ensures
        views_of(toks@) == line_tokens(content@),
{
    let raw = crate::text::split_commas_exec(content);
    let n = raw.len();
    let mut toks: Vec<Vec<char>> = Vec::new();
    let mut i: usize = 0;
    while i < n
        invariant
            i <= n == raw@.len(),
            views_of(raw@) == crate::text::split_commas(content@),
            toks@.len() == i,
            forall|k: int| 0 <= k < i ==> views_of(toks@)[k] == crate::text::trim(
                #[trigger] views_of(raw@)[k],
            ),
        decreases n - i,
    {
        let piece = crate::text::trim_exec(&raw[i]);
        toks.push(piece);
        i += 1;
    }
    proof {
        let mapped = crate::text::split_commas(content@).map_values(
            |piece: Seq<char>| crate::text::trim(piece),
        );
        assert(views_of(toks@) =~= mapped);
    }
    if toks.len() > 0 && toks[toks.len() - 1].len() == 0 {
        let ghost before = toks@;
        toks.pop();
        proof {
            assert(views_of(toks@) =~= views_of(before).drop_last());
            assert(views_of(before).last().len() == 0);
        }
    }
    toks
}

/// The line of `data` starting at `from` and the position of the line after
/// it.
fn read_line(data: &Vec<char>, from: usize) -> (r: (Vec<char>, usize))
    requires
        from <= data@.len(),
    ensures
        r.0@ == line_at(data@, from as int),
        r.1 == next_line_start(data@, from as int),
        from <= r.1 <= data@.len(),
        crate::text::line_end(data@, from as int) == from + r.0@.len(),
        from + r.0@.len() <= data@.len(),
{
    let n = data.len();
    let mut i = from;
    while i < n && data[i] != '\n'
        invariant
            from <= i <= n == data@.len(),
            crate::text::line_end(data@, from as int) == crate::text::line_end(data@, i as int),
        decreases n - i,
    {
        i += 1;
    }
    let line = crate::text::subvec(data, from, i);
    if i < n {
        (line, i + 1)
    } else {
        (line, n)
    }
}

/// The whitespace-separated tokens of the line of `data` starting at `from`,
/// and the position of the line after it.
fn read_line_tokens(data: &Vec<char>, from: usize) -> (r: (Vec<Vec<char>>, usize))
    requires
        from <= data@.len(),
    ensures
        views_of(r.0@) == split_ws(line_at(data@, from as int)),
        r.1 == next_line_start(data@, from as int),
        from <= r.1 <= data@.len(),
{
    let (line, after) = read_line(data, from);
    let toks = crate::text::split_ws_exec(&line);
    (toks, after)
}

/// Whether `name` may stand as the identifier of an XBM image: its first
/// character starts an identifier and the rest continue one.
fn is_valid_identifier(name: &Vec<char>) -> (r: bool)
    ensures
        r == valid_identifier(name@),
{
    if name.len() == 0 {
        return false;
    }
    if !unicode_ident::is_xid_start(name[0]) {
        return false;
    }
    let mut i: usize = 1;
    while i < name.len()
        invariant
            1 <= i <= name@.len(),
            crate::text::xid_start(name@[0]),
            forall|j: int| 1 <= j < i ==> crate::text::xid_continue(#[trigger] name@[j]),
        decreases name@.len() - i,
    {
        if !unicode_ident::is_xid_continue(name[i]) {
            return false;
        }
        i += 1;
    }
    true
}

/// Parses a token as a `u32`, as the header lines require.
fn parse_u32_token(token: &Vec<char>) -> (r: Result<u32, std::num::ParseIntError>)
    ensures
        r is Ok <==> valid_u32_numeral(token@),
        r matches Ok(v) ==> v == dec_value(numeral_digits(token@)),
{
    let s = crate::text::string_from_chars(token);
    <u32 as std::str::FromStr>::from_str(s.as_str())
}

/// Whether `token` is exactly `name` followed by `suffix`.
fn eq_name_then_str(token: &Vec<char>, name: &Vec<char>, suffix: &str) -> (r: bool)
    ensures
        r == (token@ == name@ + suffix@),
{
    let sn = vstd::string::StrSliceExecFns::unicode_len(suffix);
    let r = token.len() >= name.len() && token.len() - name.len() == sn
        && crate::text::starts_with_chars(token, 0, name) && crate::text::starts_with_str(
        token,
        name.len(),
        suffix,
    );
    proof {
        assert(token@.skip(0) =~= token@);
        if r {
            crate::text::lemma_starts_with_concat(token@, name@, suffix@);
            assert(token@.take((name@ + suffix@).len() as int) =~= token@);
        } else if token@ == name@ + suffix@ {
            crate::text::lemma_starts_with_concat(token@, name@, suffix@);
            assert(seq_starts_with(token@, name@ + suffix@));
        }
    }
    r
}

} // verus!
