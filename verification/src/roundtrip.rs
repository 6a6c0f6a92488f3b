//! The round-trip law: a document written by the encoder parses back to the
//! header and the pixels it was written from.

use crate::decode::{bit_of, bits_of, RunState};
use crate::encode::{pack8, pack_pixels, pack_row};
use vstd::prelude::*;

verus! {

/// No character of `s` has the `White_Space` property.
spec fn no_ws(s: Seq<char>) -> bool {
    forall|i: int| 0 <= i < s.len() ==> !crate::text::unicode_whitespace(#[trigger] s[i])
}

/// No character of `s` is a line feed.
spec fn no_nl(s: Seq<char>) -> bool {
    forall|i: int| 0 <= i < s.len() ==> #[trigger] s[i] != '\n'
}

// ---------------------------------------------------------------------------
// Lines of a text built by concatenation
// ---------------------------------------------------------------------------

/// `line_end` finds the position that is preceded by no line feed and holds
/// one, or is the end of the text.
proof fn lemma_line_end_at(text: Seq<char>, from: int, e: int)
    requires
        0 <= from <= e <= text.len(),
        forall|j: int| from <= j < e ==> #[trigger] text[j] != '\n',
        e == text.len() || text[e] == '\n',
    ensures
        crate::text::line_end(text, from) == e,
    decreases e - from,
{
    if from < e {
        lemma_line_end_at(text, from + 1, e);
    }
}

/// Where the suffix of the text at `cursor` is a known line, a line feed,
/// and a rest, the line read at `cursor` is that line and the next line
/// starts past the line feed.
proof fn lemma_line_at_cursor(text: Seq<char>, cursor: int, line: Seq<char>, rest: Seq<char>)
    requires
        0 <= cursor <= text.len(),
        text.skip(cursor) == line + seq!['\n'] + rest,
        no_nl(line),
    ensures
        crate::text::line_at(text, cursor) == line,
        crate::text::next_line_start(text, cursor) == cursor + line.len() + 1,
        text.skip(cursor + line.len() + 1) == rest,
        cursor + line.len() + 1 <= text.len(),
{
    let suffix = text.skip(cursor);
    assert(suffix.len() == line.len() + 1 + rest.len());
    assert forall|j: int| 0 <= j < suffix.len() implies text[cursor + j] == suffix[j] by {}
    assert forall|j: int| cursor <= j < cursor + line.len() implies #[trigger] text[j] != '\n' by {
        assert(suffix[j - cursor] == line[j - cursor]);
    }
    assert(suffix[line.len() as int] == '\n');
    assert(text[cursor + line.len()] == '\n');
    lemma_line_end_at(text, cursor, cursor + line.len());
    assert(crate::text::line_at(text, cursor) =~= line);
    assert forall|j: int| 0 <= j < rest.len() implies text.skip(cursor + line.len() + 1)[j]
        == rest[j] by {
        assert(text.skip(cursor + line.len() + 1)[j] == text[cursor + line.len() + 1 + j]);
        assert(suffix[line.len() + 1 + j] == rest[j]);
        assert(text[cursor + (line.len() + 1 + j)] == suffix[line.len() + 1 + j]);
    }
    assert(text.skip(cursor + line.len() + 1) =~= rest);
}

// ---------------------------------------------------------------------------
// Whitespace tokens of a line built by concatenation
// ---------------------------------------------------------------------------

/// A run of non-whitespace characters extends the pending token.
proof fn lemma_split_ws_run(t: Seq<char>, s: Seq<char>, pending: Seq<char>)
    requires
        no_ws(t),
    ensures
        crate::text::split_ws_from(t + s, pending) == crate::text::split_ws_from(s, pending + t),
    decreases t.len(),
{
    if t.len() == 0 {
        assert(t + s =~= s);
        assert(pending + t =~= pending);
    } else {
        assert((t + s)[0] == t[0]);
        assert((t + s).skip(1) =~= t.skip(1) + s);
        lemma_split_ws_run(t.skip(1), s, pending.push(t[0]));
        assert(pending.push(t[0]) + t.skip(1) =~= pending + t);
    }
}

/// A whitespace character closes the pending token.
proof fn lemma_split_ws_space(c: char, s: Seq<char>, pending: Seq<char>)
    requires
        crate::text::unicode_whitespace(c),
    ensures
        pending.len() > 0 ==> crate::text::split_ws_from(seq![c] + s, pending) == seq![pending]
            + crate::text::split_ws(s),
        pending.len() == 0 ==> crate::text::split_ws_from(seq![c] + s, pending)
            == crate::text::split_ws(s),
{
    assert((seq![c] + s)[0] == c);
    assert((seq![c] + s).skip(1) =~= s);
    if pending.len() == 0 {
        assert(pending =~= Seq::<char>::empty());
    }
}

/// A line of exactly three tokens separated by single spaces splits into
/// those three tokens.
proof fn lemma_split_ws_three(a: Seq<char>, b: Seq<char>, c: Seq<char>)
    requires
        a.len() > 0 && no_ws(a),
        b.len() > 0 && no_ws(b),
        c.len() > 0 && no_ws(c),
    ensures
        crate::text::split_ws(a + seq![' '] + b + seq![' '] + c) == seq![a, b, c],
{
    let line = a + seq![' '] + b + seq![' '] + c;
    assert(line =~= a + (seq![' '] + (b + (seq![' '] + (c + Seq::<char>::empty())))));
    lemma_split_ws_run(a, seq![' '] + (b + (seq![' '] + (c + Seq::<char>::empty()))), seq![]);
    assert(seq![] + a =~= a);
    lemma_split_ws_space(' ', b + (seq![' '] + (c + Seq::<char>::empty())), a);
    lemma_split_ws_run(b, seq![' '] + (c + Seq::<char>::empty()), seq![]);
    assert(seq![] + b =~= b);
    lemma_split_ws_space(' ', c + Seq::<char>::empty(), b);
    lemma_split_ws_run(c, Seq::<char>::empty(), seq![]);
    assert(seq![] + c =~= c);
    assert(crate::text::split_ws_from(Seq::<char>::empty(), c) == seq![c]);
    assert(seq![a] + (seq![b] + seq![c]) =~= seq![a, b, c]);
}

/// The first token of a line that begins with a token and a space is that
/// token.
proof fn lemma_split_ws_first(t: Seq<char>, s: Seq<char>)
    requires
        t.len() > 0 && no_ws(t),
    ensures
        crate::text::split_ws(t + seq![' '] + s).len() >= 1,
        crate::text::split_ws(t + seq![' '] + s)[0] == t,
{
    assert(t + seq![' '] + s =~= t + (seq![' '] + s));
    lemma_split_ws_run(t, seq![' '] + s, seq![]);
    assert(seq![] + t =~= t);
    lemma_split_ws_space(' ', s, t);
}

// ---------------------------------------------------------------------------
// The lines the encoder writes, reparsed
// ---------------------------------------------------------------------------

/// A concatenation ends with its second part.
proof fn lemma_ends_with_concat(a: Seq<char>, suffix: Seq<char>)
    ensures
        crate::text::seq_ends_with(a + suffix, suffix),
{
    assert((a + suffix).skip(a.len() as int) =~= suffix);
}

/// Stripping a suffix just appended gives the original back, when the
/// original does not itself end with the suffix.
proof fn lemma_strip_appended_suffix(a: Seq<char>, suffix: Seq<char>)
    requires
        suffix.len() > 0,
        !crate::text::seq_ends_with(a, suffix),
    ensures
        crate::text::strip_suffixes(a + suffix, suffix) == a,
{
    lemma_ends_with_concat(a, suffix);
    assert((a + suffix).take(a.len() as int) =~= a);
    assert(crate::text::strip_suffixes(a, suffix) == a);
    assert((a + suffix).len() - suffix.len() == a.len());
    assert(crate::text::strip_suffixes(a + suffix, suffix) == crate::text::strip_suffixes(
        (a + suffix).take(a.len() as int),
        suffix,
    ));
}

/// A valid identifier contains no whitespace and no line feed.
proof fn lemma_identifier_chars(name: Seq<char>)
    requires
        crate::text::valid_identifier(name),
    ensures
        no_ws(name),
        no_nl(name),
{
    assert forall|i: int| 0 <= i < name.len() implies !crate::text::unicode_whitespace(
        #[trigger] name[i],
    ) by {
        if i >= 1 {
            assert(crate::text::xid_continue(name[i]));
        }
    }
}

/// A decimal numeral contains only digits, hence no whitespace and no line
/// feed, and reads back as its value.
proof fn lemma_numeral_chars(n: nat)
    ensures
        no_ws(crate::num::dec_numeral(n)),
        no_nl(crate::num::dec_numeral(n)),
        crate::num::dec_numeral(n).len() > 0,
        crate::num::valid_u32_numeral(crate::num::dec_numeral(n)) || n > u32::MAX,
        crate::num::dec_value(crate::num::numeral_digits(crate::num::dec_numeral(n))) == n,
{
    crate::num::lemma_dec_numeral(n);
    let s = crate::num::dec_numeral(n);
    assert forall|i: int| 0 <= i < s.len() implies !crate::text::unicode_whitespace(
        #[trigger] s[i],
    ) && s[i] != '\n' by {
        assert(crate::num::dec_digit(s[i]));
    }
    assert(crate::num::numeral_digits(s) == s);
}

/// One `#define` line, taken apart again: its content before the line feed
/// splits into exactly the three tokens the decoder expects.
proof fn lemma_define_line_shape(name: Seq<char>, key: Seq<char>, value: u32)
    requires
        name.len() > 0,
        no_ws(name),
        no_nl(name),
        key.len() > 0,
        no_ws(key),
        no_nl(key),
    ensures
        ({
            let content = "#define "@ + name + key + " "@ + crate::num::dec_numeral(value as nat);
            &&& crate::encode::define_line(name, key, value) == content + seq!['\n']
            &&& no_nl(content)
            &&& crate::text::split_ws(content) == seq![
                "#define"@,
                name + key,
                crate::num::dec_numeral(value as nat),
            ]
        }),
{
    reveal_strlit("#define ");
    reveal_strlit("#define");
    reveal_strlit(" ");
    reveal_strlit("\n");
    let digits = crate::num::dec_numeral(value as nat);
    lemma_numeral_chars(value as nat);
    let content = "#define "@ + name + key + " "@ + digits;
    assert("#define "@ =~= "#define"@ + seq![' ']);
    assert(" "@ =~= seq![' ']);
    assert("\n"@ =~= seq!['\n']);
    assert(crate::encode::define_line(name, key, value) =~= content + seq!['\n']);
    assert(no_ws("#define"@));
    assert(no_nl("#define"@));
    assert(content =~= "#define"@ + seq![' '] + (name + key) + seq![' '] + digits);
    lemma_split_ws_three("#define"@, name + key, digits);
    assert forall|i: int| 0 <= i < content.len() implies #[trigger] content[i] != '\n' by {
        let three = "#define"@ + seq![' '] + (name + key) + seq![' '] + digits;
        assert(content[i] == three[i]);
    }
}

/// The array declaration line, taken apart again: it begins with the token
/// `static`, and it is itself the accepted prefix, the opening brace its
/// last character.
proof fn lemma_array_line_shape(name: Seq<char>)
    requires
        name.len() > 0,
        no_ws(name),
        no_nl(name),
    ensures
        ({
            let content = "static unsigned char "@ + name + "_bits[] = {"@;
            &&& ("static unsigned char "@ + name + "_bits[] = {\n"@) == content + seq!['\n']
            &&& "_bits[] = {\n"@ == "_bits[] = {"@ + seq!['\n']
            &&& no_nl(content)
            &&& crate::text::split_ws(content).len() >= 1
            &&& crate::text::split_ws(content)[0] == "static"@
            &&& crate::text::split_ws(content)[0] != "#define"@
            &&& crate::decode::array_decl_offset(content, name) == Some(content.len() as int)
        }),
{
    reveal_strlit("static unsigned char ");
    reveal_strlit("static");
    reveal_strlit("#define");
    reveal_strlit("_bits[] = {");
    reveal_strlit("_bits[] = {\n");
    let content = "static unsigned char "@ + name + "_bits[] = {"@;
    assert("_bits[] = {\n"@ =~= "_bits[] = {"@ + seq!['\n']);
    assert(("static unsigned char "@ + name + "_bits[] = {\n"@) =~= content + seq!['\n']);
    assert forall|i: int| 0 <= i < content.len() implies #[trigger] content[i] != '\n' by {
        if i < "static unsigned char "@.len() {
        } else if i < "static unsigned char "@.len() + name.len() {
            assert(content[i] == name[i - "static unsigned char "@.len()]);
        } else {
            assert(content[i] == "_bits[] = {"@[i - "static unsigned char "@.len()
                - name.len()]);
        }
    }
    let tail = "nsigned char "@ + name + "_bits[] = {"@;
    assert(content =~= "static"@ + seq![' '] + ("u"@ + tail)) by {
        reveal_strlit("u");
        reveal_strlit("nsigned char ");
        assert("static unsigned char "@ =~= "static"@ + seq![' '] + "u"@ + "nsigned char "@);
    }
    assert(no_ws("static"@));
    lemma_split_ws_first("static"@, "u"@ + tail);
    let with_unsigned = "static unsigned char "@ + name + "_bits[] = {"@;
    assert(content.take(with_unsigned.len() as int) =~= with_unsigned);
    assert(crate::text::seq_starts_with(content, with_unsigned));
}

/// Nine concatenated pieces, re-associated to the right.
proof fn lemma_reassoc_nine(
    a: Seq<char>,
    b: Seq<char>,
    c: Seq<char>,
    d: Seq<char>,
    e: Seq<char>,
    f: Seq<char>,
    g: Seq<char>,
    h: Seq<char>,
    i: Seq<char>,
)
    ensures
        a + b + c + d + e + f + g + h + i == a + (b + (c + (d + (e + (f + (g + (h + i))))))),
{
    assert(a + b + c + d + e + f + g + h + i =~= a + (b + (c + (d + (e + (f + (g + (h
        + i))))))));
}

/// The array declaration piece with its line feed, re-associated so that the
/// line content stands apart.
proof fn lemma_reassoc_array(su: Seq<char>, nm: Seq<char>, brace: Seq<char>, r: Seq<char>)
    ensures
        su + (nm + ((brace + seq!['\n']) + r)) == (su + nm + brace + seq!['\n']) + r,
        su + nm + brace + seq!['\n'] == (su + nm + brace) + seq!['\n'],
        (su + nm + brace) + (seq!['\n'] + r) == (su + nm + brace + seq!['\n']) + r,
{
    assert(su + (nm + ((brace + seq!['\n']) + r)) =~= (su + nm + brace + seq!['\n']) + r);
    assert((su + nm + brace) + (seq!['\n'] + r) =~= (su + nm + brace + seq!['\n']) + r);
}

/// Where the suffix of the text at `cursor` is a known concatenation,
/// skipping the first part lands on the second.
proof fn lemma_skip_concat(text: Seq<char>, cursor: int, a: Seq<char>, b: Seq<char>)
    requires
        0 <= cursor <= text.len(),
        text.skip(cursor) == a + b,
    ensures
        cursor + a.len() <= text.len(),
        text.skip(cursor + a.len()) == b,
{
    assert(text.skip(cursor).len() == text.len() - cursor);
    assert forall|j: int| 0 <= j < b.len() implies text.skip(cursor + a.len())[j] == b[j] by {
        assert(text.skip(cursor + a.len())[j] == text[cursor + a.len() + j]);
        assert(text.skip(cursor)[a.len() + j] == b[j]);
        assert(text[cursor + (a.len() + j)] == text.skip(cursor)[a.len() + j]);
    }
    assert(text.skip(cursor + a.len()) =~= b);
}

/// The pixel section as it stands in an encoded document: the rest of the
/// array declaration line, the data lines, and the closing `};`.
pub open spec fn encoded_pixel_part(pixels: Seq<u8>, width: u32) -> Seq<char> {
    seq!['\n'] + crate::encode::data_lines(pack_pixels(pixels, width as nat)) + "};\n"@
}

/// The header the encoder writes parses back to the very fields it was
/// written from, leaving the cursor exactly at the start of the pixel
/// section.
/// One `#define` line read at a cursor whose suffix begins with it: its
/// three tokens, and the cursor past it.
proof fn lemma_define_line_at(
    text: Seq<char>,
    cursor: int,
    name: Seq<char>,
    key: Seq<char>,
    value: u32,
    rest: Seq<char>,
)
    requires
        0 <= cursor <= text.len(),
        name.len() > 0 && no_ws(name) && no_nl(name),
        key.len() > 0 && no_ws(key) && no_nl(key),
        text.skip(cursor) == crate::encode::define_line(name, key, value) + rest,
    ensures
        ({
            let after = cursor + crate::encode::define_line(name, key, value).len();
            &&& crate::text::split_ws(crate::text::line_at(text, cursor)) == seq![
                "#define"@,
                name + key,
                crate::num::dec_numeral(value as nat),
            ]
            &&& crate::text::next_line_start(text, cursor) == after
            &&& after <= text.len()
            &&& text.skip(after) == rest
        }),
{
    lemma_define_line_shape(name, key, value);
    let l = "#define "@ + name + key + " "@ + crate::num::dec_numeral(value as nat);
    assert(text.skip(cursor) == (l + seq!['\n']) + rest);
    lemma_line_at_cursor(text, cursor, l, rest);
}

/// The array declaration line read at a cursor whose suffix begins with it:
/// its first token, the accepted prefix, and the position just past the
/// opening brace.
proof fn lemma_array_line_at(text: Seq<char>, cursor: int, name: Seq<char>, rest: Seq<char>)
    requires
        0 <= cursor <= text.len(),
        name.len() > 0 && no_ws(name) && no_nl(name),
        text.skip(cursor) == (("static unsigned char "@ + name + "_bits[] = {"@) + seq!['\n'])
            + rest,
    ensures
        ({
            let arr = "static unsigned char "@ + name + "_bits[] = {"@;
            let toks = crate::text::split_ws(crate::text::line_at(text, cursor));
            &&& toks.len() >= 1
            &&& toks[0] != "#define"@
            &&& crate::decode::array_decl_offset(crate::text::line_at(text, cursor), name)
                == Some(arr.len() as int)
            &&& cursor + arr.len() <= text.len()
            &&& text.skip(cursor + arr.len()) == seq!['\n'] + rest
        }),
{
    lemma_array_line_shape(name);
    let arr = "static unsigned char "@ + name + "_bits[] = {"@;
    lemma_line_at_cursor(text, cursor, arr, rest);
    assert(arr + (seq!['\n'] + rest) =~= (arr + seq!['\n']) + rest);
    lemma_skip_concat(text, cursor, arr, seq!['\n'] + rest);
}

/// The header grammar evaluated over the token facts of each line, with
/// both hotspot lines present.
proof fn lemma_parse_eval_hotspot(
    text: Seq<char>,
    name: Seq<char>,
    width: u32,
    height: u32,
    x: u32,
    y: u32,
    c1: int,
    c2: int,
    c3: int,
    c4: int,
    data_start: int,
)
    requires
        crate::text::valid_identifier(name),
        crate::text::seq_ends_with(name + "_width"@, "_width"@),
        crate::text::strip_suffixes(name + "_width"@, "_width"@) == name,
        crate::num::valid_u32_numeral(crate::num::dec_numeral(width as nat)),
        crate::num::dec_value(crate::num::numeral_digits(crate::num::dec_numeral(width as nat)))
            == width,
        crate::num::valid_u32_numeral(crate::num::dec_numeral(height as nat)),
        crate::num::dec_value(crate::num::numeral_digits(crate::num::dec_numeral(height as nat)))
            == height,
        crate::num::valid_u32_numeral(crate::num::dec_numeral(x as nat)),
        crate::num::dec_value(crate::num::numeral_digits(crate::num::dec_numeral(x as nat))) == x,
        crate::num::valid_u32_numeral(crate::num::dec_numeral(y as nat)),
        crate::num::dec_value(crate::num::numeral_digits(crate::num::dec_numeral(y as nat))) == y,
        crate::text::split_ws(crate::text::line_at(text, 0)) == seq![
            "#define"@,
            name + "_width"@,
            crate::num::dec_numeral(width as nat),
        ],
        crate::text::next_line_start(text, 0) == c1,
        crate::text::split_ws(crate::text::line_at(text, c1)) == seq![
            "#define"@,
            name + "_height"@,
            crate::num::dec_numeral(height as nat),
        ],
        crate::text::next_line_start(text, c1) == c2,
        crate::text::split_ws(crate::text::line_at(text, c2)) == seq![
            "#define"@,
            name + "_x_hot"@,
            crate::num::dec_numeral(x as nat),
        ],
        crate::text::next_line_start(text, c2) == c3,
        crate::text::split_ws(crate::text::line_at(text, c3)) == seq![
            "#define"@,
            name + "_y_hot"@,
            crate::num::dec_numeral(y as nat),
        ],
        crate::text::next_line_start(text, c3) == c4,
        crate::decode::array_decl_offset(crate::text::line_at(text, c4), name) == Some(
            data_start - c4,
        ),
    ensures
        crate::decode::parse_header(text) == crate::decode::HeaderOutcome::Parsed(
            (crate::decode::Header {
                name,
                width,
                height,
                x_hot: Some(x),
                y_hot: Some(y),
                data_start,
            }),
        ),
{
}

/// The header grammar evaluated over the token facts of each line, with no
/// hotspot line present.
proof fn lemma_parse_eval_plain(
    text: Seq<char>,
    name: Seq<char>,
    width: u32,
    height: u32,
    c1: int,
    c2: int,
    data_start: int,
)
    requires
        crate::text::valid_identifier(name),
        crate::text::seq_ends_with(name + "_width"@, "_width"@),
        crate::text::strip_suffixes(name + "_width"@, "_width"@) == name,
        crate::num::valid_u32_numeral(crate::num::dec_numeral(width as nat)),
        crate::num::dec_value(crate::num::numeral_digits(crate::num::dec_numeral(width as nat)))
            == width,
        crate::num::valid_u32_numeral(crate::num::dec_numeral(height as nat)),
        crate::num::dec_value(crate::num::numeral_digits(crate::num::dec_numeral(height as nat)))
            == height,
        crate::text::split_ws(crate::text::line_at(text, 0)) == seq![
            "#define"@,
            name + "_width"@,
            crate::num::dec_numeral(width as nat),
        ],
        crate::text::next_line_start(text, 0) == c1,
        crate::text::split_ws(crate::text::line_at(text, c1)) == seq![
            "#define"@,
            name + "_height"@,
            crate::num::dec_numeral(height as nat),
        ],
        crate::text::next_line_start(text, c1) == c2,
        crate::text::split_ws(crate::text::line_at(text, c2)).len() >= 1,
        crate::text::split_ws(crate::text::line_at(text, c2))[0] != "#define"@,
        crate::decode::array_decl_offset(crate::text::line_at(text, c2), name) == Some(
            data_start - c2,
        ),
    ensures
        crate::decode::parse_header(text) == crate::decode::HeaderOutcome::Parsed(
            (crate::decode::Header {
                name,
                width,
                height,
                x_hot: None,
                y_hot: None,
                data_start,
            }),
        ),
{
}

/// The hotspot lines and the array declaration, read off a suffix of the
/// text whose shape is known.
proof fn lemma_hotspot_tail(
    text: Seq<char>,
    name: Seq<char>,
    x: u32,
    y: u32,
    c2: int,
    pixtail: Seq<char>,
)
    requires
        0 <= c2 <= text.len(),
        name.len() > 0 && no_ws(name) && no_nl(name),
        text.skip(c2) == crate::encode::define_line(name, "_x_hot"@, x) + (crate::encode::define_line(
            name,
            "_y_hot"@,
            y,
        ) + ("static unsigned char "@ + (name + (("_bits[] = {"@ + seq!['\n']) + pixtail)))),
    ensures
        ({
            let dl3 = crate::encode::define_line(name, "_x_hot"@, x);
            let dl4 = crate::encode::define_line(name, "_y_hot"@, y);
            let arr = "static unsigned char "@ + name + "_bits[] = {"@;
            let c3 = c2 + dl3.len();
            let c4 = c3 + dl4.len();
            &&& crate::text::split_ws(crate::text::line_at(text, c2)) == seq![
                "#define"@,
                name + "_x_hot"@,
                crate::num::dec_numeral(x as nat),
            ]
            &&& crate::text::next_line_start(text, c2) == c3
            &&& crate::text::split_ws(crate::text::line_at(text, c3)) == seq![
                "#define"@,
                name + "_y_hot"@,
                crate::num::dec_numeral(y as nat),
            ]
            &&& crate::text::next_line_start(text, c3) == c4
            &&& crate::decode::array_decl_offset(crate::text::line_at(text, c4), name) == Some(
                arr.len() as int,
            )
            &&& c4 + arr.len() == text.len() - (pixtail.len() + 1)
            &&& text.skip(c4 + arr.len()) == seq!['\n'] + pixtail
        }),
{
    reveal_strlit("_x_hot");
    reveal_strlit("_y_hot");
    assert(no_ws("_x_hot"@) && no_nl("_x_hot"@) && "_x_hot"@.len() == 6);
    assert(no_ws("_y_hot"@) && no_nl("_y_hot"@) && "_y_hot"@.len() == 6);
    let dl3 = crate::encode::define_line(name, "_x_hot"@, x);
    let dl4 = crate::encode::define_line(name, "_y_hot"@, y);
    let su = "static unsigned char "@;
    let brace = "_bits[] = {"@;
    let arr = su + name + brace;
    let nl = seq!['\n'];
    let r5 = su + (name + ((brace + nl) + pixtail));
    lemma_define_line_at(text, c2, name, "_x_hot"@, x, dl4 + r5);
    let c3: int = c2 + dl3.len() as int;
    lemma_define_line_at(text, c3, name, "_y_hot"@, y, r5);
    let c4: int = c3 + dl4.len() as int;
    lemma_reassoc_array(su, name, brace, pixtail);
    assert(r5 == (arr + nl) + pixtail);
    lemma_array_line_at(text, c4, name, pixtail);
    assert(text.skip(c4 + arr.len()).len() == text.len() - (c4 + arr.len()));
}

/// The header round trip where the encoder writes both hotspot lines.
#[verifier::rlimit(100)]
#[verifier::spinoff_prover]
proof fn lemma_header_round_trip_hotspot(
    pixels: Seq<u8>,
    name: Seq<char>,
    width: u32,
    height: u32,
    x_hot: Option<u32>,
    y_hot: Option<u32>,
)
    requires
        crate::text::valid_identifier(name),
        !crate::text::seq_ends_with(name, "_width"@),
        x_hot is Some <==> y_hot is Some,
        x_hot is Some,
    ensures
        ({
            let text = crate::encode::encode_text(pixels, name, width, height, x_hot, y_hot);
            let pixel_part = encoded_pixel_part(pixels, width);
            &&& pixel_part.len() <= text.len()
            &&& crate::decode::parse_header(text) == crate::decode::HeaderOutcome::Parsed(
                (crate::decode::Header {
                    name,
                    width,
                    height,
                    x_hot,
                    y_hot,
                    data_start: text.len() - pixel_part.len(),
                }),
            )
            &&& text.skip(text.len() - pixel_part.len()) == pixel_part
        }),
{
    reveal_strlit("_width");
    reveal_strlit("_height");
    let text = crate::encode::encode_text(pixels, name, width, height, x_hot, y_hot);
    let pixel_part = encoded_pixel_part(pixels, width);
    lemma_identifier_chars(name);
    lemma_numeral_chars(width as nat);
    lemma_numeral_chars(height as nat);
    assert(no_ws("_width"@) && no_nl("_width"@) && "_width"@.len() == 6);
    assert(no_ws("_height"@) && no_nl("_height"@) && "_height"@.len() == 7);
    lemma_ends_with_concat(name, "_width"@);
    lemma_strip_appended_suffix(name, "_width"@);
    let x = x_hot->0;
    let y = y_hot->0;
    lemma_numeral_chars(x as nat);
    lemma_numeral_chars(y as nat);
    let nl = seq!['\n'];
    let arr = "static unsigned char "@ + name + "_bits[] = {"@;
    let dl1 = crate::encode::define_line(name, "_width"@, width);
    let dl2 = crate::encode::define_line(name, "_height"@, height);
    let dl3 = crate::encode::define_line(name, "_x_hot"@, x);
    let dl4 = crate::encode::define_line(name, "_y_hot"@, y);
    let su = "static unsigned char "@;
    let dls = crate::encode::data_lines(pack_pixels(pixels, width as nat));
    let term = "};\n"@;
    let pixtail = dls + term;
    // the document, re-associated so that each line can be peeled off in turn
    let r5 = su + (name + (("_bits[] = {"@ + nl) + pixtail));
    let r4 = dl4 + r5;
    let r3 = dl3 + r4;
    let r2 = dl2 + r3;
    reveal_strlit("_bits[] = {\n");
    reveal_strlit("_bits[] = {");
    assert("_bits[] = {\n"@ =~= "_bits[] = {"@ + seq!['\n']);
    lemma_reassoc_nine(dl1, dl2, dl3, dl4, su, name, "_bits[] = {\n"@, dls, term);
    assert(text == dl1 + dl2 + dl3 + dl4 + su + name + "_bits[] = {\n"@ + dls + term);
    assert(text == dl1 + r2);
    assert(text.skip(0) =~= text);
    lemma_define_line_at(text, 0, name, "_width"@, width, r2);
    let c1: int = dl1.len() as int;
    lemma_define_line_at(text, c1, name, "_height"@, height, r3);
    let c2: int = c1 + dl2.len() as int;
    lemma_hotspot_tail(text, name, x, y, c2, pixtail);
    let c3: int = c2 + dl3.len() as int;
    let c4: int = c3 + dl4.len() as int;
    let data_start: int = c4 + arr.len() as int;
    assert(text.skip(data_start) == nl + pixtail);
    assert(nl + pixtail =~= pixel_part);
    assert(data_start == text.len() - pixel_part.len());
    lemma_parse_eval_hotspot(text, name, width, height, x, y, c1, c2, c3, c4, data_start);
}

/// The header round trip where the encoder writes no hotspot lines.
#[verifier::rlimit(100)]
#[verifier::spinoff_prover]
proof fn lemma_header_round_trip_plain(
    pixels: Seq<u8>,
    name: Seq<char>,
    width: u32,
    height: u32,
    x_hot: Option<u32>,
    y_hot: Option<u32>,
)
    requires
        crate::text::valid_identifier(name),
        !crate::text::seq_ends_with(name, "_width"@),
        x_hot is Some <==> y_hot is Some,
        x_hot is None,
    ensures
        ({
            let text = crate::encode::encode_text(pixels, name, width, height, x_hot, y_hot);
            let pixel_part = encoded_pixel_part(pixels, width);
            &&& pixel_part.len() <= text.len()
            &&& crate::decode::parse_header(text) == crate::decode::HeaderOutcome::Parsed(
                (crate::decode::Header {
                    name,
                    width,
                    height,
                    x_hot,
                    y_hot,
                    data_start: text.len() - pixel_part.len(),
                }),
            )
            &&& text.skip(text.len() - pixel_part.len()) == pixel_part
        }),
{
    reveal_strlit("_width");
    reveal_strlit("_height");
    let text = crate::encode::encode_text(pixels, name, width, height, x_hot, y_hot);
    let pixel_part = encoded_pixel_part(pixels, width);
    lemma_identifier_chars(name);
    lemma_numeral_chars(width as nat);
    lemma_numeral_chars(height as nat);
    assert(no_ws("_width"@) && no_nl("_width"@) && "_width"@.len() == 6);
    assert(no_ws("_height"@) && no_nl("_height"@) && "_height"@.len() == 7);
    lemma_ends_with_concat(name, "_width"@);
    lemma_strip_appended_suffix(name, "_width"@);
    let nl = seq!['\n'];
    let arr = "static unsigned char "@ + name + "_bits[] = {"@;
    let dl1 = crate::encode::define_line(name, "_width"@, width);
    let dl2 = crate::encode::define_line(name, "_height"@, height);
    let su = "static unsigned char "@;
    let brace = "_bits[] = {"@;
    let dls = crate::encode::data_lines(pack_pixels(pixels, width as nat));
    let term = "};\n"@;
    let pixtail = dls + term;
    let empty = Seq::<char>::empty();
    // the document, re-associated so that each line can be peeled off in turn
    let r5 = su + (name + (("_bits[] = {"@ + nl) + pixtail));
    let r4 = empty + r5;
    let r3 = empty + r4;
    let r2 = dl2 + r3;
    reveal_strlit("_bits[] = {\n");
    reveal_strlit("_bits[] = {");
    assert("_bits[] = {\n"@ =~= "_bits[] = {"@ + seq!['\n']);
    lemma_reassoc_nine(dl1, dl2, empty, empty, su, name, "_bits[] = {\n"@, dls, term);
    assert(text == dl1 + dl2 + empty + empty + su + name + "_bits[] = {\n"@ + dls + term);
    assert(text == dl1 + r2);
    assert(text.skip(0) =~= text);
    lemma_define_line_at(text, 0, name, "_width"@, width, r2);
    let c1: int = dl1.len() as int;
    lemma_define_line_at(text, c1, name, "_height"@, height, r3);
    let c2: int = c1 + dl2.len() as int;
    lemma_skip_concat(text, c2, empty, r4);
    lemma_skip_concat(text, c2, empty, r5);
    lemma_reassoc_array(su, name, brace, pixtail);
    assert(r5 == (arr + nl) + pixtail);
    lemma_array_line_at(text, c2, name, pixtail);
    let data_start: int = c2 + arr.len() as int;
    assert(text.skip(data_start) == nl + pixtail);
    assert(nl + pixtail =~= pixel_part);
    assert(text.skip(data_start).len() == text.len() - data_start);
    assert(data_start == text.len() - pixel_part.len());
    lemma_parse_eval_plain(text, name, width, height, c1, c2, data_start);
}

/// The header the encoder writes parses back to the very fields it was
/// written from, leaving the cursor exactly at the start of the pixel
/// section.
proof fn lemma_header_round_trip(
    pixels: Seq<u8>,
    name: Seq<char>,
    width: u32,
    height: u32,
    x_hot: Option<u32>,
    y_hot: Option<u32>,
)
    requires
        crate::text::valid_identifier(name),
        !crate::text::seq_ends_with(name, "_width"@),
        x_hot is Some <==> y_hot is Some,

    ensures
        ({
            let text = crate::encode::encode_text(pixels, name, width, height, x_hot, y_hot);
            let pixel_part = encoded_pixel_part(pixels, width);
            &&& pixel_part.len() <= text.len()
            &&& crate::decode::parse_header(text) == crate::decode::HeaderOutcome::Parsed(
                (crate::decode::Header {
                    name,
                    width,
                    height,
                    x_hot,
                    y_hot,
                    data_start: text.len() - pixel_part.len(),
                }),
            )
            &&& text.skip(text.len() - pixel_part.len()) == pixel_part
        }),
{
    if x_hot is Some {
        lemma_header_round_trip_hotspot(pixels, name, width, height, x_hot, y_hot);
    } else {
        lemma_header_round_trip_plain(pixels, name, width, height, x_hot, y_hot);
    }
}

// ---------------------------------------------------------------------------
// The pixel section, cut back into lines and tokens
// ---------------------------------------------------------------------------

/// No character of `s` is a comma.
spec fn no_comma(s: Seq<char>) -> bool {
    forall|i: int| 0 <= i < s.len() ==> #[trigger] s[i] != ','
}

/// The contents of the data lines, without their line feeds: twelve bytes'
/// tokens to a line.
spec fn data_line_contents(bytes: Seq<u8>) -> Seq<Seq<char>>
    decreases bytes.len(),
{
    if bytes.len() == 0 {
        seq![]
    } else if bytes.len() <= 12 {
        seq!["    "@ + crate::encode::join_hex(bytes) + seq![',']]
    } else {
        seq!["    "@ + crate::encode::join_hex(bytes.take(12)) + seq![',']]
            + data_line_contents(bytes.skip(12))
    }
}

/// The hex byte tokens of a group of bytes.
spec fn hex_tokens(bytes: Seq<u8>) -> Seq<Seq<char>> {
    Seq::new(bytes.len(), |i: int| crate::num::hex_byte_token(bytes[i]))
}

/// The characters of a hex byte token: ASCII, no whitespace, no comma, and
/// the `0x` prefix in front of two digits.
proof fn lemma_hex_token_chars(b: u8)
    ensures
        ({
            let tok = crate::num::hex_byte_token(b);
            &&& tok.len() == 4
            &&& tok[0] == '0'
            &&& tok[1] == 'x'
            &&& forall|i: int| 0 <= i < tok.len() ==> #[trigger] tok[i] <= '\u{7f}'
            &&& no_ws(tok)
            &&& no_nl(tok)
            &&& no_comma(tok)
        }),
{
    let tok = crate::num::hex_byte_token(b);
    assert(b as nat / 16 < 16);
    assert(b as nat % 16 < 16);
    assert forall|i: int| 0 <= i < tok.len() implies #[trigger] tok[i] <= '\u{7f}' && tok[i] != ','
        && tok[i] != '\n' && !crate::text::unicode_whitespace(tok[i]) by {}
}

/// The joined tokens of a group contain no line feed.
proof fn lemma_join_hex_chars(bytes: Seq<u8>)
    ensures
        no_nl(crate::encode::join_hex(bytes)),
    decreases bytes.len(),
{
    if bytes.len() == 0 {
    } else if bytes.len() == 1 {
        lemma_hex_token_chars(bytes[0]);
    } else {
        lemma_hex_token_chars(bytes[0]);
        lemma_join_hex_chars(bytes.skip(1));
        let j = crate::encode::join_hex(bytes);
        let rest = crate::encode::join_hex(bytes.skip(1));
        assert forall|i: int| 0 <= i < j.len() implies #[trigger] j[i] != '\n' by {
            reveal_strlit(", ");
            let tok = crate::num::hex_byte_token(bytes[0]);
            if i < 4 {
                assert(j[i] == tok[i]);
            } else if i < 6 {
                assert(j[i] == ", "@[i - 4]);
            } else {
                assert(j[i] == rest[i - 6]);
            }
        }
    }
}

// ---------------------------------------------------------------------------
// Comma splitting of a data line
// ---------------------------------------------------------------------------

/// A run of comma-free characters extends the pending piece.
proof fn lemma_split_commas_run(t: Seq<char>, s: Seq<char>, pending: Seq<char>)
    requires
        no_comma(t),
    ensures
        crate::text::split_commas_from(t + s, pending) == crate::text::split_commas_from(
            s,
            pending + t,
        ),
    decreases t.len(),
{
    if t.len() == 0 {
        assert(t + s =~= s);
        assert(pending + t =~= pending);
    } else {
        assert((t + s)[0] == t[0]);
        assert((t + s).skip(1) =~= t.skip(1) + s);
        lemma_split_commas_run(t.skip(1), s, pending.push(t[0]));
        assert(pending.push(t[0]) + t.skip(1) =~= pending + t);
    }
}

/// A comma closes the pending piece.
proof fn lemma_split_commas_comma(s: Seq<char>, pending: Seq<char>)
    ensures
        crate::text::split_commas_from(seq![','] + s, pending) == seq![pending]
            + crate::text::split_commas_from(s, seq![]),
{
    assert((seq![','] + s)[0] == ',');
    assert((seq![','] + s).skip(1) =~= s);
}

/// Trimming a piece that is a token behind optional whitespace gives the
/// token.
proof fn lemma_trim_ws_then_token(lead: Seq<char>, tok: Seq<char>)
    requires
        forall|i: int| 0 <= i < lead.len() ==> crate::text::unicode_whitespace(#[trigger] lead[i]),
        tok.len() > 0,
        !crate::text::unicode_whitespace(tok[0]),
        !crate::text::unicode_whitespace(tok.last()),
    ensures
        crate::text::trim(lead + tok) == tok,
    decreases lead.len(),
{
    if lead.len() == 0 {
        assert(lead + tok =~= tok);
        assert(crate::text::trim_start(tok) == tok);
        assert(crate::text::trim_end(tok) == tok);
    } else {
        assert((lead + tok)[0] == lead[0]);
        assert((lead + tok).skip(1) =~= lead.skip(1) + tok);
        lemma_trim_ws_then_token(lead.skip(1), tok);
        assert(crate::text::trim_start(lead + tok) == crate::text::trim_start(
            lead.skip(1) + tok,
        ));
    }
}

/// The pieces of a data line between its commas: each piece, trimmed, is one
/// hex byte token, and a final empty piece follows the trailing comma.
proof fn lemma_join_pieces(bytes: Seq<u8>, lead: Seq<char>)
    requires
        bytes.len() >= 1,
        no_comma(lead),
        forall|i: int| 0 <= i < lead.len() ==> crate::text::unicode_whitespace(#[trigger] lead[i]),
    ensures
        ({
            let raw = crate::text::split_commas_from(
                lead + crate::encode::join_hex(bytes) + seq![','],
                seq![],
            );
            &&& raw.len() == bytes.len() + 1
            &&& raw.last().len() == 0
            &&& forall|i: int|
                0 <= i < bytes.len() ==> crate::text::trim(#[trigger] raw[i])
                    == crate::num::hex_byte_token(bytes[i])
        }),
    decreases bytes.len(),
{
    let tok = crate::num::hex_byte_token(bytes[0]);
    lemma_hex_token_chars(bytes[0]);
    if bytes.len() == 1 {
        let whole = lead + crate::encode::join_hex(bytes) + seq![','];
        assert(whole =~= (lead + tok) + (seq![','] + Seq::<char>::empty()));
        lemma_split_commas_run(lead + tok, seq![','] + Seq::<char>::empty(), seq![]);
        assert(seq![] + (lead + tok) =~= lead + tok);
        lemma_split_commas_comma(Seq::<char>::empty(), lead + tok);
        assert(crate::text::split_commas_from(Seq::<char>::empty(), seq![]) == seq![
            Seq::<char>::empty(),
        ]);
        let raw = crate::text::split_commas_from(whole, seq![]);
        assert(raw =~= seq![lead + tok, Seq::<char>::empty()]);
        lemma_trim_ws_then_token(lead, tok);
    } else {
        let rest = bytes.skip(1);
        let whole = lead + crate::encode::join_hex(bytes) + seq![','];
        let next = seq![' '] + crate::encode::join_hex(rest) + seq![','];
        assert(crate::encode::join_hex(bytes) == tok + ", "@ + crate::encode::join_hex(rest));
        assert(whole =~= (lead + tok) + (seq![','] + next)) by {
            reveal_strlit(", ");
            assert(", "@ =~= seq![','] + seq![' ']);
            assert(next =~= (seq![' '] + crate::encode::join_hex(rest)) + seq![',']);
        }
        lemma_split_commas_run(lead + tok, seq![','] + next, seq![]);
        assert(seq![] + (lead + tok) =~= lead + tok);
        lemma_split_commas_comma(next, lead + tok);
        lemma_join_pieces(rest, seq![' ']);
        lemma_trim_ws_then_token(lead, tok);
        let raw = crate::text::split_commas_from(whole, seq![]);
        let raw_rest = crate::text::split_commas_from(next, seq![]);
        assert(raw =~= seq![lead + tok] + raw_rest);
        assert forall|i: int| 0 <= i < bytes.len() implies crate::text::trim(#[trigger] raw[i])
            == crate::num::hex_byte_token(bytes[i]) by {
            if i >= 1 {
                assert(raw[i] == raw_rest[i - 1]);
                assert(rest[i - 1] == bytes[i]);
            }
        }
    }
}

/// The tokens of one data line are exactly the hex byte tokens of its group
/// of bytes.
proof fn lemma_data_line_tokens(bytes: Seq<u8>)
    requires
        bytes.len() >= 1,
    ensures
        crate::decode::line_tokens(
            crate::text::trim("    "@ + crate::encode::join_hex(bytes) + seq![',']),
        ) == hex_tokens(bytes),
{
    reveal_strlit("    ");
    let lead = "    "@;
    let join = crate::encode::join_hex(bytes);
    let bare = join + seq![','];
    let tok = crate::num::hex_byte_token(bytes[0]);
    lemma_hex_token_chars(bytes[0]);
    assert(join[0] == tok[0] && join.len() >= 4) by {
        if bytes.len() > 1 {
            assert(join == tok + ", "@ + crate::encode::join_hex(bytes.skip(1)));
            assert(join[0] == (tok + ", "@)[0]);
        }
    }
    assert(bare[0] == join[0]);
    assert(bare.last() == ',');
    assert(forall|i: int|
        0 <= i < lead.len() ==> crate::text::unicode_whitespace(#[trigger] lead[i]));
    assert(lead + join + seq![','] =~= lead + bare);
    lemma_trim_ws_then_token(lead, bare);
    assert(crate::text::trim(lead + join + seq![',']) == bare);
    // the pieces between the commas
    lemma_join_pieces(bytes, Seq::<char>::empty());
    assert(Seq::<char>::empty() + join + seq![','] =~= bare);
    let raw = crate::text::split_commas_from(bare, seq![]);
    assert(raw.len() == bytes.len() + 1);
    assert(raw.last().len() == 0);
    assert(crate::text::split_commas(bare) == raw.drop_last());
    let mapped = raw.drop_last().map_values(|piece: Seq<char>| crate::text::trim(piece));
    assert forall|i: int| 0 <= i < bytes.len() implies mapped[i] == crate::num::hex_byte_token(
        bytes[i],
    ) by {
        assert(raw.drop_last()[i] == raw[i]);
        assert(crate::text::trim(raw[i]) == crate::num::hex_byte_token(bytes[i]));
    }
    assert(mapped =~= hex_tokens(bytes));
    lemma_hex_token_chars(bytes[bytes.len() - 1]);
    assert(mapped.len() == bytes.len());
    assert(mapped.last() == crate::num::hex_byte_token(bytes[bytes.len() - 1]));
    assert(mapped.last().len() == 4);
}

// ---------------------------------------------------------------------------
// The pixel section cut into lines
// ---------------------------------------------------------------------------

/// A run of characters free of line feeds extends the pending line.
proof fn lemma_split_nl_run(t: Seq<char>, s: Seq<char>, pending: Seq<char>)
    requires
        no_nl(t),
    ensures
        crate::text::split_nl_from(t + s, pending) == crate::text::split_nl_from(s, pending + t),
    decreases t.len(),
{
    if t.len() == 0 {
        assert(t + s =~= s);
        assert(pending + t =~= pending);
    } else {
        assert((t + s)[0] == t[0]);
        assert((t + s).skip(1) =~= t.skip(1) + s);
        lemma_split_nl_run(t.skip(1), s, pending.push(t[0]));
        assert(pending.push(t[0]) + t.skip(1) =~= pending + t);
    }
}

/// A line feed closes the pending line.
proof fn lemma_split_nl_feed(s: Seq<char>, pending: Seq<char>)
    ensures
        crate::text::split_nl_from(seq!['\n'] + s, pending) == seq![pending]
            + crate::text::split_nl_from(s, seq![]),
{
    assert((seq!['\n'] + s)[0] == '\n');
    assert((seq!['\n'] + s).skip(1) =~= s);
}

/// The data lines and the terminator, cut at their line feeds: the line
/// contents, the terminator, and one empty piece after the final line feed.
proof fn lemma_split_nl_data(bytes: Seq<u8>)
    ensures
        crate::text::split_nl_from(crate::encode::data_lines(bytes) + "};\n"@, seq![])
            == data_line_contents(bytes) + seq!["};"@, Seq::<char>::empty()],
    decreases bytes.len(),
{
    reveal_strlit("};\n");
    reveal_strlit("};");
    reveal_strlit("    ");
    reveal_strlit(",\n");
    if bytes.len() == 0 {
        assert(crate::encode::data_lines(bytes) + "};\n"@ =~= "};"@ + (seq!['\n']
            + Seq::<char>::empty()));
        assert(no_nl("};"@));
        lemma_split_nl_run("};"@, seq!['\n'] + Seq::<char>::empty(), seq![]);
        assert(seq![] + "};"@ =~= "};"@);
        lemma_split_nl_feed(Seq::<char>::empty(), "};"@);
        assert(crate::text::split_nl_from(Seq::<char>::empty(), seq![]) == seq![
            Seq::<char>::empty(),
        ]);
        assert(data_line_contents(bytes) + seq!["};"@, Seq::<char>::empty()] =~= seq!["};"@]
            + seq![Seq::<char>::empty()]);
    } else {
        let group = if bytes.len() <= 12 {
            bytes
        } else {
            bytes.take(12)
        };
        let rest = if bytes.len() <= 12 {
            Seq::<u8>::empty()
        } else {
            bytes.skip(12)
        };
        let content = "    "@ + crate::encode::join_hex(group) + seq![','];
        lemma_join_hex_chars(group);
        assert(no_nl(content)) by {
            assert forall|i: int| 0 <= i < content.len() implies #[trigger] content[i] != '\n' by {
                if i < 4 {
                    assert(content[i] == "    "@[i]);
                } else if i < 4 + crate::encode::join_hex(group).len() {
                    assert(content[i] == crate::encode::join_hex(group)[i - 4]);
                } else {
                    assert(content[i] == ',');
                }
            }
        }
        lemma_split_nl_data(rest);
        let tail = crate::encode::data_lines(rest) + "};\n"@;
        assert(crate::encode::data_lines(bytes) + "};\n"@ =~= content + (seq!['\n'] + tail)) by {
            assert(",\n"@ =~= seq![','] + seq!['\n']);
            if bytes.len() <= 12 {
                assert(crate::encode::data_lines(bytes) == "    "@ + crate::encode::join_hex(
                    group,
                ) + ",\n"@);
                assert(crate::encode::data_lines(rest) == Seq::<char>::empty());
            } else {
                assert(crate::encode::data_lines(bytes) == "    "@ + crate::encode::join_hex(
                    group,
                ) + ",\n"@ + crate::encode::data_lines(rest));
            }
        }
        lemma_split_nl_run(content, seq!['\n'] + tail, seq![]);
        assert(seq![] + content =~= content);
        lemma_split_nl_feed(tail, content);
        assert(data_line_contents(bytes) =~= seq![content] + data_line_contents(rest)) by {
            if bytes.len() <= 12 {
                assert(data_line_contents(rest) == Seq::<Seq<char>>::empty());
            }
        }
        assert(seq![content] + (data_line_contents(rest) + seq!["};"@, Seq::<char>::empty()])
            =~= data_line_contents(bytes) + seq!["};"@, Seq::<char>::empty()]);
    }
}

/// The lines of the pixel section: one empty line, the data lines, and the
/// terminator.
proof fn lemma_lines_of_pixel_part(pixels: Seq<u8>, width: u32)
    ensures
        crate::text::lines_of(encoded_pixel_part(pixels, width)) == seq![Seq::<char>::empty()]
            + data_line_contents(pack_pixels(pixels, width as nat)) + seq!["};"@],
{
    let bytes = pack_pixels(pixels, width as nat);
    let tail = crate::encode::data_lines(bytes) + "};\n"@;
    assert(encoded_pixel_part(pixels, width) =~= seq!['\n'] + tail);
    lemma_split_nl_feed(tail, seq![]);
    lemma_split_nl_data(bytes);
    let raw = crate::text::split_nl(encoded_pixel_part(pixels, width));
    assert(raw == seq![Seq::<char>::empty()] + (data_line_contents(bytes) + seq![
        "};"@,
        Seq::<char>::empty(),
    ]));
    assert(raw.len() == data_line_contents(bytes).len() + 3);
    assert(raw.last() == Seq::<char>::empty());
    assert(raw.drop_last() =~= seq![Seq::<char>::empty()] + data_line_contents(bytes) + seq![
        "};"@,
    ]);
}

// ---------------------------------------------------------------------------
// The unpacking machine over the decoded lines
// ---------------------------------------------------------------------------

/// An erroneous state passes through the byte machine unchanged.
proof fn lemma_run_bytes_stall(state: RunState, bs: Seq<u8>, width: nat, buflen: nat)
    requires
        !(state is Going),
    ensures
        run_bytes(state, bs, width, buflen) == state,
    decreases bs.len(),
{
    if bs.len() > 0 {
        lemma_run_bytes_stall(state, bs.skip(1), width, buflen);
    }
}

/// A hex byte token through the token machine is its byte through the byte
/// machine.
proof fn lemma_run_token_is_byte(state: RunState, b: u8, width: nat, buflen: nat)
    ensures
        crate::decode::run_token(state, crate::num::hex_byte_token(b), width, buflen) == run_byte(
            state,
            b,
            width,
            buflen,
        ),
{
    lemma_hex_token_chars(b);
    crate::num::lemma_hex_byte_token(b);
    let tok = crate::num::hex_byte_token(b);
    assert(crate::decode::well_formed_hex_token(tok));
}

/// A group's tokens through the token machine are its bytes through the byte
/// machine.
proof fn lemma_run_tokens_hex(state: RunState, bs: Seq<u8>, width: nat, buflen: nat)
    ensures
        crate::decode::run_tokens(state, hex_tokens(bs), width, buflen) == run_bytes(
            state,
            bs,
            width,
            buflen,
        ),
    decreases bs.len(),
{
    if bs.len() == 0 {
        assert(hex_tokens(bs) =~= Seq::<Seq<char>>::empty());
    } else {
        assert(hex_tokens(bs)[0] == crate::num::hex_byte_token(bs[0]));
        lemma_run_token_is_byte(state, bs[0], width, buflen);
        assert(hex_tokens(bs).skip(1) =~= hex_tokens(bs.skip(1)));
        lemma_run_tokens_hex(run_byte(state, bs[0], width, buflen), bs.skip(1), width, buflen);
    }
}

/// The data lines and the terminator through the line machine are the bytes
/// through the byte machine.
proof fn lemma_decode_data_lines(state: RunState, bytes: Seq<u8>, width: nat, buflen: nat)
    ensures
        crate::decode::decode_lines(
            state,
            data_line_contents(bytes) + seq!["};"@],
            width,
            buflen,
        ) == crate::decode::state_outcome(run_bytes(state, bytes, width, buflen), buflen),
    decreases bytes.len(),
{
    reveal_strlit("};");
    if !(state is Going) {
        lemma_run_bytes_stall(state, bytes, width, buflen);
    } else if bytes.len() == 0 {
        let ls = data_line_contents(bytes) + seq!["};"@];
        assert(ls =~= seq!["};"@]);
        assert(ls.len() == 1);
        assert(no_ws("};"@));
        assert(crate::text::trim_start("};"@) == "};"@);
        assert(crate::text::trim_end("};"@) == "};"@);
        assert(crate::text::trim(ls[0]) == "};"@);
        assert("};"@.skip(0) =~= "};"@);
        assert(crate::text::seq_ends_with("};"@, "};"@));
        assert("};"@.take(0) =~= Seq::<char>::empty());
        assert(crate::text::strip_suffixes(Seq::<char>::empty(), "};"@) == Seq::<char>::empty());
        assert(crate::text::strip_suffixes("};"@, "};"@) == Seq::<char>::empty());
    } else {
        let group = if bytes.len() <= 12 {
            bytes
        } else {
            bytes.take(12)
        };
        let rest = if bytes.len() <= 12 {
            Seq::<u8>::empty()
        } else {
            bytes.skip(12)
        };
        let content = "    "@ + crate::encode::join_hex(group) + seq![','];
        let ls = data_line_contents(bytes) + seq!["};"@];
        assert(data_line_contents(bytes) == seq![content] + data_line_contents(rest)) by {
            if bytes.len() <= 12 {
                assert(data_line_contents(rest) == Seq::<Seq<char>>::empty());
                assert(seq![content] + data_line_contents(rest) =~= data_line_contents(bytes));
            }
        }
        assert(ls[0] == content);
        assert(ls.len() >= 2);
        assert(ls.skip(1) =~= data_line_contents(rest) + seq!["};"@]);
        lemma_data_line_tokens(group);
        lemma_run_tokens_hex(state, group, width, buflen);
        let mid = run_bytes(state, group, width, buflen);
        lemma_decode_data_lines(mid, rest, width, buflen);
        assert(group + rest =~= bytes);
        lemma_run_bytes_concat(state, group, rest, width, buflen);
        assert(crate::decode::decode_lines(state, ls, width, buflen)
            == crate::decode::decode_lines(mid, ls.skip(1), width, buflen));
    }
}

// ---------------------------------------------------------------------------
// Bits: unpacking a packed byte gives the pixels back
// ---------------------------------------------------------------------------

/// A packed byte is bounded by two to the number of pixels packed.
proof fn lemma_pack8_bound(chunk: Seq<u8>)
    requires
        chunk.len() <= 8,
        forall|i: int| 0 <= i < chunk.len() ==> #[trigger] chunk[i] <= 1,
    ensures
        pack8(chunk) < (1u8 << chunk.len() as u8) || chunk.len() == 8,
    decreases chunk.len(),
{
    if chunk.len() == 0 {
        assert(pack8(chunk) == 0);
        assert(0u8 < (1u8 << 0u8)) by (bit_vector);
    } else {
        let k = (chunk.len() - 1) as u8;
        lemma_pack8_bound(chunk.drop_last());
        let x = pack8(chunk.drop_last());
        let p = chunk.last();
        assert(chunk.drop_last().len() == k);
        if chunk.len() < 8 {
            assert(x < (1u8 << k) && p <= 1 && k < 7 ==> (x | (p << k)) < (1u8 << (k + 1) as u8))
                by (bit_vector);
        }
    }
}

/// Each bit of a packed byte is the pixel that was packed into it.
proof fn lemma_pack8_bits(chunk: Seq<u8>, i: int)
    requires
        chunk.len() <= 8,
        forall|j: int| 0 <= j < chunk.len() ==> #[trigger] chunk[j] <= 1,
        0 <= i < chunk.len(),
    ensures
        bit_of(pack8(chunk), i) == chunk[i],
    decreases chunk.len(),
{
    let k = (chunk.len() - 1) as u8;
    let x = pack8(chunk.drop_last());
    let p = chunk.last();
    if i == chunk.len() - 1 {
        if chunk.len() < 8 {
            lemma_pack8_bound(chunk.drop_last());
            assert(x < (1u8 << k) && p <= 1 && k < 8 ==> (((x | (p << k)) >> k) & 1) == p)
                by (bit_vector);
        } else {
            lemma_pack8_bound(chunk.drop_last());
            assert(x < (1u8 << 7u8) && p <= 1 ==> (((x | (p << 7u8)) >> 7u8) & 1) == p)
                by (bit_vector);
        }
    } else {
        lemma_pack8_bits(chunk.drop_last(), i);
        let ii = i as u8;
        assert(ii < k && k < 8 && p <= 1 ==> (((x | (p << k)) >> ii) & 1) == ((x >> ii) & 1))
            by (bit_vector);
        assert(chunk.drop_last()[i] == chunk[i]);
    }
}

/// Unpacking the first `chunk.len()` bits of a packed byte gives the chunk
/// back.
proof fn lemma_pack8_round_trip(chunk: Seq<u8>)
    requires
        chunk.len() <= 8,
        forall|j: int| 0 <= j < chunk.len() ==> #[trigger] chunk[j] <= 1,
    ensures
        bits_of(pack8(chunk), chunk.len() as int) == chunk,
{
    assert forall|i: int| 0 <= i < chunk.len() implies bits_of(pack8(chunk), chunk.len() as int)[i]
        == chunk[i] by {
        lemma_pack8_bits(chunk, i);
    }
    assert(bits_of(pack8(chunk), chunk.len() as int) =~= chunk);
}

// ---------------------------------------------------------------------------
// Bytes through the unpacking machine
// ---------------------------------------------------------------------------

/// One byte through the unpacking machine, without its textual dress.
spec fn run_byte(state: RunState, b: u8, width: nat, buflen: nat) -> RunState {
    match state {
        RunState::Going { pixels, remaining } => {
            let take = if remaining < 8 {
                remaining
            } else {
                8
            };
            if pixels.len() + take > buflen {
                RunState::BadSize(pixels.len())
            } else {
                RunState::Going {
                    pixels: pixels + bits_of(b, take as int),
                    remaining: if remaining <= 8 {
                        width
                    } else {
                        (remaining - 8) as nat
                    },
                }
            }
        },
        _ => state,
    }
}

/// A whole byte sequence through the unpacking machine.
spec fn run_bytes(state: RunState, bs: Seq<u8>, width: nat, buflen: nat) -> RunState
    decreases bs.len(),
{
    if bs.len() == 0 {
        state
    } else {
        run_bytes(run_byte(state, bs[0], width, buflen), bs.skip(1), width, buflen)
    }
}

/// Running a concatenation is running the parts one after the other.
proof fn lemma_run_bytes_concat(state: RunState, a: Seq<u8>, b: Seq<u8>, width: nat, buflen: nat)
    ensures
        run_bytes(state, a + b, width, buflen) == run_bytes(
            run_bytes(state, a, width, buflen),
            b,
            width,
            buflen,
        ),
    decreases a.len(),
{
    if a.len() == 0 {
        assert(a + b =~= b);
    } else {
        assert((a + b)[0] == a[0]);
        assert((a + b).skip(1) =~= a.skip(1) + b);
        lemma_run_bytes_concat(run_byte(state, a[0], width, buflen), a.skip(1), b, width, buflen);
    }
}

/// One row of pixels, packed and then unpacked, lands unchanged at the end
/// of the buffer, and the machine starts the next row afresh.
proof fn lemma_run_row(acc: Seq<u8>, row: Seq<u8>, width: nat, buflen: nat)
    requires
        1 <= row.len() <= width,
        forall|j: int| 0 <= j < row.len() ==> #[trigger] row[j] <= 1,
        acc.len() + row.len() <= buflen,
    ensures
        run_bytes(
            RunState::Going { pixels: acc, remaining: row.len() as nat },
            pack_row(row),
            width,
            buflen,
        ) == (RunState::Going { pixels: acc + row, remaining: width }),
    decreases row.len(),
{
    let state = RunState::Going { pixels: acc, remaining: row.len() as nat };
    if row.len() <= 8 {
        lemma_pack8_round_trip(row);
        assert(pack_row(row) == seq![pack8(row)]);
        assert(pack_row(row).skip(1) =~= Seq::<u8>::empty());
        assert(pack_row(row)[0] == pack8(row));
        assert(run_byte(state, pack8(row), width, buflen) == (RunState::Going {
            pixels: acc + row,
            remaining: width,
        }));
        assert(run_bytes(state, pack_row(row), width, buflen) == run_bytes(
            run_byte(state, pack8(row), width, buflen),
            pack_row(row).skip(1),
            width,
            buflen,
        ));
    } else {
        let chunk = row.take(8);
        let rest = row.skip(8);
        lemma_pack8_round_trip(chunk);
        assert(pack_row(row) == seq![pack8(chunk)] + pack_row(rest));
        assert((seq![pack8(chunk)] + pack_row(rest))[0] == pack8(chunk));
        assert((seq![pack8(chunk)] + pack_row(rest)).skip(1) =~= pack_row(rest));
        let mid = run_byte(state, pack8(chunk), width, buflen);
        assert(mid == (RunState::Going {
            pixels: acc + chunk,
            remaining: (row.len() - 8) as nat,
        }));
        lemma_run_row(acc + chunk, rest, width, buflen);
        assert((acc + chunk) + rest =~= acc + row);
        assert(run_bytes(state, pack_row(row), width, buflen) == run_bytes(
            mid,
            pack_row(rest),
            width,
            buflen,
        ));
    }
}

/// A whole pixel buffer, packed row by row and then unpacked, lands
/// unchanged at the end of the buffer.
proof fn lemma_run_pixels(acc: Seq<u8>, pixels: Seq<u8>, width: nat, buflen: nat)
    requires
        width >= 1,
        pixels.len() % width == 0,
        forall|j: int| 0 <= j < pixels.len() ==> #[trigger] pixels[j] <= 1,
        acc.len() + pixels.len() <= buflen,
    ensures
        run_bytes(
            RunState::Going { pixels: acc, remaining: width },
            pack_pixels(pixels, width),
            width,
            buflen,
        ) == (RunState::Going { pixels: acc + pixels, remaining: width }),
    decreases pixels.len(),
{
    if pixels.len() == 0 {
        assert(pack_pixels(pixels, width) == Seq::<u8>::empty());
        assert(acc + pixels =~= acc);
    } else if pixels.len() <= width {
        assert(pixels.len() == width) by (nonlinear_arith)
            requires
                pixels.len() % width == 0,
                0 < pixels.len() <= width,
                width >= 1,
        ;
        assert(pack_pixels(pixels, width) == pack_row(pixels));
        lemma_run_row(acc, pixels, width, buflen);
    } else {
        let row = pixels.take(width as int);
        let rest = pixels.skip(width as int);
        assert(pack_pixels(pixels, width) == pack_row(row) + pack_pixels(rest, width));
        lemma_run_bytes_concat(
            RunState::Going { pixels: acc, remaining: width },
            pack_row(row),
            pack_pixels(rest, width),
            width,
            buflen,
        );
        assert(row.len() == width);
        lemma_run_row(acc, row, width, buflen);
        assert(rest.len() % width == 0) by (nonlinear_arith)
            requires
                pixels.len() % width == 0,
                rest.len() == pixels.len() - width,
                width >= 1,
        ;
        lemma_run_pixels(acc + row, rest, width, buflen);
        assert((acc + row) + rest =~= acc + pixels);
    }
}


// ---------------------------------------------------------------------------
// The round-trip law
// ---------------------------------------------------------------------------

/// The pixel section the encoder writes decodes back to the very pixels it
/// was written from.
proof fn lemma_pixels_round_trip(pixels: Seq<u8>, width: u32)
    requires
        width >= 1,
        pixels.len() as int % (width as int) == 0,
        crate::encode::binary_pixels(pixels),
    ensures
        crate::decode::decode_pixels(
            encoded_pixel_part(pixels, width),
            width as nat,
            pixels.len(),
        ) == crate::decode::PixelOutcome::Pixels(pixels),
{
    let bytes = pack_pixels(pixels, width as nat);
    let init = crate::decode::RunState::Going { pixels: seq![], remaining: width as nat };
    lemma_lines_of_pixel_part(pixels, width);
    let ls = seq![Seq::<char>::empty()] + data_line_contents(bytes) + seq!["};"@];
    // the empty first line carries no tokens
    assert(ls[0] == Seq::<char>::empty());
    assert(ls.len() >= 2);
    assert(crate::text::trim_start(Seq::<char>::empty()) == Seq::<char>::empty());
    assert(crate::text::trim_end(Seq::<char>::empty()) == Seq::<char>::empty());
    assert(crate::text::trim(ls[0]) == Seq::<char>::empty());
    assert(crate::text::split_commas_from(Seq::<char>::empty(), seq![]) == seq![
        Seq::<char>::empty(),
    ]);
    assert(crate::text::split_commas(Seq::<char>::empty()) =~= Seq::<Seq<char>>::empty());
    assert(crate::decode::line_tokens(Seq::<char>::empty()) =~= Seq::<Seq<char>>::empty());
    assert(crate::decode::run_tokens(init, crate::decode::line_tokens(crate::text::trim(ls[0])), width as nat, pixels.len())
        == init);
    assert(ls.skip(1) =~= data_line_contents(bytes) + seq!["};"@]);
    lemma_decode_data_lines(init, bytes, width as nat, pixels.len());
    // the whole byte sequence lands the pixels exactly
    assert((pixels.len() as int) % (width as int) == 0);
    lemma_run_pixels(seq![], pixels, width as nat, pixels.len());
    assert(seq![] + pixels =~= pixels);
    assert(run_bytes(init, bytes, width as nat, pixels.len())
        == (crate::decode::RunState::Going { pixels, remaining: width as nat }));
    assert(crate::decode::decode_lines(init, ls, width as nat, pixels.len())
        == crate::decode::state_outcome(run_bytes(init, bytes, width as nat, pixels.len()), pixels.len()));
}

/// The round-trip law: decoding a document the encoder wrote gives back the
/// header fields and the pixel buffer it was written from, for any width,
/// whether or not it is a multiple of eight, and with or without a hotspot.
///
/// The one name the law leaves out is a name that itself ends in `_width`:
/// the decoder strips every trailing `_width` from the first token, so such
/// a name cannot survive the trip.
pub proof fn lemma_round_trip(
    pixels: Seq<u8>,
    name: Seq<char>,
    width: u32,
    height: u32,
    x_hot: Option<u32>,
    y_hot: Option<u32>,
)
    requires
        width >= 1,
        pixels.len() == width as int * height as int,
        crate::encode::binary_pixels(pixels),
        crate::text::valid_identifier(name),
        !crate::text::seq_ends_with(name, "_width"@),
        x_hot is Some <==> y_hot is Some,
    ensures
        ({
            let text = crate::encode::encode_text(pixels, name, width, height, x_hot, y_hot);
            let pixel_part = encoded_pixel_part(pixels, width);
            let header = (crate::decode::Header {
                name,
                width,
                height,
                x_hot,
                y_hot,
                data_start: text.len() - pixel_part.len(),
            });
            &&& crate::decode::parse_header(text) == crate::decode::HeaderOutcome::Parsed(header)
            &&& crate::decode::decode_pixels(
                text.skip(header.data_start),
                width as nat,
                pixels.len(),
            ) == crate::decode::PixelOutcome::Pixels(pixels)
        }),
{
    lemma_header_round_trip(pixels, name, width, height, x_hot, y_hot);
    assert((pixels.len() as int) % (width as int) == 0) by (nonlinear_arith)
        requires
            pixels.len() == width as int * height as int,
            width >= 1,
    ;
    lemma_pixels_round_trip(pixels, width);
}

} // verus!
