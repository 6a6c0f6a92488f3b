//! Characters, lines, and whitespace tokenization shared by the decoder and
//! the encoder.

use vstd::prelude::*;

verus! {

use vstd::std_specs::iter::IteratorSpec;
use vstd::string::StrSliceExecFns;

// ---------------------------------------------------------------------------
// Character classes
// ---------------------------------------------------------------------------

/// What `char::is_whitespace` returns on a character above ASCII: whether it
/// has the Unicode `White_Space` property.
pub uninterp spec fn nonascii_whitespace(c: char) -> bool;

/// What `unicode_ident::is_xid_start` returns on a character above ASCII:
/// whether it has the Unicode `XID_Start` property.
pub uninterp spec fn nonascii_xid_start(c: char) -> bool;

/// What `unicode_ident::is_xid_continue` returns on a character above ASCII:
/// whether it has the Unicode `XID_Continue` property.
pub uninterp spec fn nonascii_xid_continue(c: char) -> bool;

/// The ASCII characters with the Unicode `White_Space` property: space,
/// horizontal tab, line feed, vertical tab, form feed, carriage return.
pub open spec fn ascii_whitespace(c: char) -> bool {
    c == ' ' || c == '\t' || c == '\n' || c == '\u{b}' || c == '\u{c}' || c == '\r'
}

/// The ASCII letters, which are exactly the ASCII characters with the
/// Unicode `XID_Start` property.
pub open spec fn ascii_letter(c: char) -> bool {
    ('a' <= c && c <= 'z') || ('A' <= c && c <= 'Z')
}

/// The ASCII characters with the Unicode `XID_Continue` property: the
/// letters, the decimal digits, and the low line (underscore).
pub open spec fn ascii_xid_continue(c: char) -> bool {
    ascii_letter(c) || ('0' <= c && c <= '9') || c == '_'
}

/// The characters with the Unicode `White_Space` property. Its ASCII members
/// are written out; above ASCII it is what `char::is_whitespace` answers.
pub open spec fn unicode_whitespace(c: char) -> bool {
    if c <= '\u{7f}' {
        ascii_whitespace(c)
    } else {
        nonascii_whitespace(c)
    }
}

/// The characters with the Unicode `XID_Start` property. Its ASCII members
/// are exactly the letters; above ASCII it is what
/// `unicode_ident::is_xid_start` answers, and UAX #31 guarantees that none of
/// those characters has the `White_Space` property.
pub open spec fn xid_start(c: char) -> bool {
    if c <= '\u{7f}' {
        ascii_letter(c)
    } else {
        nonascii_xid_start(c) && !nonascii_whitespace(c)
    }
}

/// The characters with the Unicode `XID_Continue` property. Its ASCII members
/// are exactly the letters, the decimal digits and the low line; above ASCII
/// it is what `unicode_ident::is_xid_continue` answers, and UAX #31
/// guarantees that none of those characters has the `White_Space` property.
pub open spec fn xid_continue(c: char) -> bool {
    if c <= '\u{7f}' {
        ascii_xid_continue(c)
    } else {
        nonascii_xid_continue(c) && !nonascii_whitespace(c)
    }
}

/// Relies on `char::is_whitespace`: true exactly for the characters with the
/// Unicode `White_Space` property, whose ASCII members are space, horizontal
/// tab, line feed, vertical tab, form feed and carriage return.
pub assume_specification[ char::is_whitespace ](c: char) -> (r: bool)
    ensures
        r == unicode_whitespace(c),
        c > '\u{7f}' ==> r == nonascii_whitespace(c),
;

/// Relies on `unicode_ident::is_xid_start`: true exactly for the characters
/// with the Unicode `XID_Start` property. Its ASCII members are exactly the
/// letters, and UAX #31 keeps `XID_Start` disjoint from the `White_Space`
/// characters.
pub assume_specification[ unicode_ident::is_xid_start ](c: char) -> (r: bool)
    ensures
        r == xid_start(c),
        c > '\u{7f}' ==> r == nonascii_xid_start(c),
;

/// Relies on `unicode_ident::is_xid_continue`: true exactly for the
/// characters with the Unicode `XID_Continue` property. Its ASCII members are
/// exactly the letters, the decimal digits and the low line, and UAX #31
/// keeps `XID_Continue` disjoint from the `White_Space` characters.
pub assume_specification[ unicode_ident::is_xid_continue ](c: char) -> (r: bool)
    ensures
        r == xid_continue(c),
        c > '\u{7f}' ==> r == nonascii_xid_continue(c),
;

/// A nonempty sequence of characters whose first character may start an
/// identifier and whose remaining characters may continue one.
pub open spec fn valid_identifier(s: Seq<char>) -> bool {
    &&& s.len() > 0
    &&& xid_start(s[0])
    &&& forall|i: int| 1 <= i < s.len() ==> xid_continue(#[trigger] s[i])
}

// ---------------------------------------------------------------------------
// Sequence helpers
// ---------------------------------------------------------------------------

/// `s` begins with `prefix`.
pub open spec fn seq_starts_with(s: Seq<char>, prefix: Seq<char>) -> bool {
    prefix.len() <= s.len() && s.take(prefix.len() as int) == prefix
}

/// `s` ends with `suffix`.
pub open spec fn seq_ends_with(s: Seq<char>, suffix: Seq<char>) -> bool {
    suffix.len() <= s.len() && s.skip(s.len() - suffix.len()) == suffix
}

/// `s` with every copy of the nonempty suffix `suffix` removed from its end,
/// one after the other, as `str::trim_end_matches` removes a pattern.
pub open spec fn strip_suffixes(s: Seq<char>, suffix: Seq<char>) -> Seq<char>
    decreases s.len(),
{
    if suffix.len() > 0 && seq_ends_with(s, suffix) {
        strip_suffixes(s.take(s.len() - suffix.len()), suffix)
    } else {
        s
    }
}

// ---------------------------------------------------------------------------
// Whitespace: trimming and splitting
// ---------------------------------------------------------------------------

/// `s` without leading whitespace.
pub open spec fn trim_start(s: Seq<char>) -> Seq<char>
    decreases s.len(),
{
    if s.len() > 0 && unicode_whitespace(s[0]) {
        trim_start(s.skip(1))
    } else {
        s
    }
}

/// `s` without trailing whitespace.
pub open spec fn trim_end(s: Seq<char>) -> Seq<char>
    decreases s.len(),
{
    if s.len() > 0 && unicode_whitespace(s.last()) {
        trim_end(s.drop_last())
    } else {
        s
    }
}

/// `s` without leading and trailing whitespace, as `str::trim` returns it.
pub open spec fn trim(s: Seq<char>) -> Seq<char> {
    trim_end(trim_start(s))
}

/// The tokens of `s` read left to right when `pending` holds the characters
/// of a token already begun: whitespace ends the pending token, any other
/// character extends it.
pub open spec fn split_ws_from(s: Seq<char>, pending: Seq<char>) -> Seq<Seq<char>>
    decreases s.len(),
{
    if s.len() == 0 {
        if pending.len() == 0 {
            seq![]
        } else {
            seq![pending]
        }
    } else if unicode_whitespace(s[0]) {
        if pending.len() == 0 {
            split_ws_from(s.skip(1), seq![])
        } else {
            seq![pending] + split_ws_from(s.skip(1), seq![])
        }
    } else {
        split_ws_from(s.skip(1), pending.push(s[0]))
    }
}

/// The whitespace-separated tokens of `s`, as `str::split_whitespace`
/// produces them: the maximal runs of non-whitespace characters.
pub open spec fn split_ws(s: Seq<char>) -> Seq<Seq<char>> {
    split_ws_from(s, seq![])
}

// ---------------------------------------------------------------------------
// Lines
// ---------------------------------------------------------------------------

/// The position of the first line feed in `text` at or after `from`, or the
/// end of `text` if there is none.
pub open spec fn line_end(text: Seq<char>, from: int) -> int
    decreases text.len() - from,
{
    if from < 0 || from >= text.len() {
        text.len() as int
    } else if text[from] == '\n' {
        from
    } else {
        line_end(text, from + 1)
    }
}

/// The position at which the line after the one starting at `from` begins:
/// just past the next line feed, or the end of `text`.
pub open spec fn next_line_start(text: Seq<char>, from: int) -> int {
    if line_end(text, from) < text.len() {
        line_end(text, from) + 1
    } else {
        text.len() as int
    }
}

/// The line of `text` starting at `from`, up to but not including the next
/// line feed.
pub open spec fn line_at(text: Seq<char>, from: int) -> Seq<char> {
    text.subrange(from, line_end(text, from))
}

/// `text` cut at every line feed when `pending` holds the piece already
/// begun; the line feeds themselves are dropped.
pub open spec fn split_nl_from(text: Seq<char>, pending: Seq<char>) -> Seq<Seq<char>>
    decreases text.len(),
{
    if text.len() == 0 {
        seq![pending]
    } else if text[0] == '\n' {
        seq![pending] + split_nl_from(text.skip(1), seq![])
    } else {
        split_nl_from(text.skip(1), pending.push(text[0]))
    }
}

/// `text` cut at every line feed, the line feeds themselves dropped. A final
/// empty piece is kept here, so `"a\n"` yields `["a", ""]`.
pub open spec fn split_nl(text: Seq<char>) -> Seq<Seq<char>> {
    split_nl_from(text, seq![])
}

/// The lines of `text`, as `BufRead::lines` yields them: cut at every line
/// feed, without a trailing empty line when `text` ends in a line feed (or is
/// empty).
pub open spec fn lines_of(text: Seq<char>) -> Seq<Seq<char>> {
    let raw = split_nl(text);
    if raw.last().len() == 0 {
        raw.drop_last()
    } else {
        raw
    }
}

// ---------------------------------------------------------------------------
// Commas
// ---------------------------------------------------------------------------

/// `s` cut at every comma when `pending` holds the piece already begun; the
/// commas themselves are dropped.
pub open spec fn split_commas_from(s: Seq<char>, pending: Seq<char>) -> Seq<Seq<char>>
    decreases s.len(),
{
    if s.len() == 0 {
        seq![pending]
    } else if s[0] == ',' {
        seq![pending] + split_commas_from(s.skip(1), seq![])
    } else {
        split_commas_from(s.skip(1), pending.push(s[0]))
    }
}

/// `s` cut at every comma, as `str::split_terminator(',')` yields the pieces:
/// a final empty piece is dropped, so `"a,"` gives `["a"]` and `""` gives
/// nothing.
pub open spec fn split_commas(s: Seq<char>) -> Seq<Seq<char>> {
    let raw = split_commas_from(s, seq![]);
    if raw.last().len() == 0 {
        raw.drop_last()
    } else {
        raw
    }
}

// ---------------------------------------------------------------------------
// Executable helpers
// ---------------------------------------------------------------------------

/// Collects the characters of `s`.
pub fn to_chars(s: &str) -> (r: Vec<char>)
    ensures
        r@ == s@,
{
    broadcast use vstd::string::axiom_spec_iter, vstd::string::next_postcondition;

    let mut it = s.chars();
    let mut r: Vec<char> = Vec::new();
    loop
        invariant
            r@ + it.remaining() == s@,
        ensures
            r@ == s@,
        decreases s@.len() - r@.len(),
    {
        match it.next() {
            Some(c) => {
                r.push(c);
                proof {
                    assert(r@ + it.remaining() =~= s@);
                }
            },
            None => {
                proof {
                    assert(r@ =~= s@);
                }
                break;
            },
        }
    }
    r
}

/// Whether the characters of `v` are exactly those of `s`.
pub fn eq_str(v: &Vec<char>, s: &str) -> (r: bool)
    ensures
        r == (v@ == s@),
{
    let n = s.unicode_len();
    if v.len() != n {
        return false;
    }
    let mut i: usize = 0;
    while i < n
        invariant
            n == s@.len(),
            v@.len() == n,
            i <= n,
            forall|j: int| 0 <= j < i ==> v@[j] == s@[j],
        decreases n - i,
    {
        if v[i] != s.get_char(i) {
            return false;
        }
        i += 1;
    }
    proof {
        assert(v@ =~= s@);
    }
    true
}

/// The characters of `v` from `lo` up to `hi`.
pub fn subvec(v: &Vec<char>, lo: usize, hi: usize) -> (r: Vec<char>)
    requires
        lo <= hi <= v@.len(),
    ensures
        r@ == v@.subrange(lo as int, hi as int),
{
    let mut r: Vec<char> = Vec::new();
    let mut i = lo;
    while i < hi
        invariant
            lo <= i <= hi <= v@.len(),
            r@ == v@.subrange(lo as int, i as int),
        decreases hi - i,
    {
        r.push(v[i]);
        i += 1;
        proof {
            assert(r@ =~= v@.subrange(lo as int, i as int));
        }
    }
    r
}

/// Whether the characters of `v` starting at `from` begin with `s`.
pub fn starts_with_str(v: &Vec<char>, from: usize, s: &str) -> (r: bool)
    requires
        from <= v@.len(),
    ensures
        r == seq_starts_with(v@.skip(from as int), s@),
{
    let n = s.unicode_len();
    if v.len() - from < n {
        return false;
    }
    let mut i: usize = 0;
    while i < n
        invariant
            n == s@.len(),
            from + n <= v@.len(),
            v@.len() <= usize::MAX,
            i <= n,
            forall|j: int| 0 <= j < i ==> v@[from + j] == s@[j],
        decreases n - i,
    {
        if v[from + i] != s.get_char(i) {
            proof {
                assert(v@.skip(from as int).take(n as int)[i as int] != s@[i as int]);
            }
            return false;
        }
        i += 1;
    }
    proof {
        assert(v@.skip(from as int).take(n as int) =~= s@);
    }
    true
}

/// Whether the characters of `v` starting at `from` begin with `w`.
pub fn starts_with_chars(v: &Vec<char>, from: usize, w: &Vec<char>) -> (r: bool)
    requires
        from <= v@.len(),
    ensures
        r == seq_starts_with(v@.skip(from as int), w@),
{
    let n = w.len();
    if v.len() - from < n {
        return false;
    }
    let mut i: usize = 0;
    while i < n
        invariant
            n == w@.len(),
            from + n <= v@.len(),
            v@.len() <= usize::MAX,
            i <= n,
            forall|j: int| 0 <= j < i ==> v@[from + j] == w@[j],
        decreases n - i,
    {
        if v[from + i] != w[i] {
            proof {
                assert(v@.skip(from as int).take(n as int)[i as int] != w@[i as int]);
            }
            return false;
        }
        i += 1;
    }
    proof {
        assert(v@.skip(from as int).take(n as int) =~= w@);
    }
    true
}

/// Relies on `String`'s `FromIterator` implementation: collects the
/// characters of `v` into a string, in order.
#[verifier::external_body]
pub fn string_from_chars(v: &Vec<char>) -> (s: String)
    ensures
        s@ == v@,
{
    v.iter().collect()
}

/// A sequence starts with a concatenation exactly when it starts with the
/// first part and the rest, after that part, starts with the second.
pub proof fn lemma_starts_with_concat(s: Seq<char>, a: Seq<char>, b: Seq<char>)
    ensures
        seq_starts_with(s, a + b) <==> (seq_starts_with(s, a) && seq_starts_with(
            s.skip(a.len() as int),
            b,
        )),
{
    if seq_starts_with(s, a + b) {
        assert((a + b).len() == a.len() + b.len());
        assert forall|i: int| 0 <= i < a.len() + b.len() implies s[i] == (a + b)[i] by {
            assert(s.take(a.len() + b.len() as int)[i] == s[i]);
        }
        assert(s.take(a.len() as int) =~= a);
        assert(s.skip(a.len() as int).take(b.len() as int) =~= b);
    }
    if seq_starts_with(s, a) && seq_starts_with(s.skip(a.len() as int), b) {
        assert forall|i: int| 0 <= i < a.len() implies s[i] == a[i] by {
            assert(s.take(a.len() as int)[i] == s[i]);
        }
        assert forall|i: int| 0 <= i < b.len() implies s[a.len() + i] == b[i] by {
            assert(s.skip(a.len() as int).take(b.len() as int)[i] == s[a.len() + i]);
        }
        assert(s.take((a + b).len() as int) =~= a + b);
    }
}

/// The views of the elements of a sequence of character vectors.
pub open spec fn views_of(toks: Seq<Vec<char>>) -> Seq<Seq<char>> {
    Seq::new(toks.len(), |i: int| toks[i]@)
}

/// The whitespace-separated tokens of `line`.
pub fn split_ws_exec(line: &Vec<char>) -> (toks: Vec<Vec<char>>)
    ensures
        views_of(toks@) == split_ws(line@),
{
    let n = line.len();
    let mut toks: Vec<Vec<char>> = Vec::new();
    let mut cur: Vec<char> = Vec::new();
    let mut i: usize = 0;
    proof {
        assert(line@.skip(0) =~= line@);
        assert(views_of(toks@) + split_ws_from(line@, seq![]) =~= split_ws_from(line@, seq![]));
    }
    while i < n
        invariant
            i <= n == line@.len(),
            split_ws(line@) == views_of(toks@) + split_ws_from(line@.skip(i as int), cur@),
        decreases n - i,
    {
        let ghost prev_toks = toks@;
        let ghost prev_cur = cur@;
        let ghost s = line@.skip(i as int);
        let c = line[i];
        if c.is_whitespace() {
            if cur.len() > 0 {
                toks.push(cur);
                cur = Vec::new();
            }
        } else {
            cur.push(c);
        }
        i += 1;
        proof {
            assert(s.skip(1) =~= line@.skip(i as int));
            assert(s[0] == c);
            if unicode_whitespace(c) {
                if prev_cur.len() > 0 {
                    assert(split_ws_from(s, prev_cur) == seq![prev_cur] + split_ws_from(
                        line@.skip(i as int),
                        seq![],
                    ));
                    assert(views_of(toks@) =~= views_of(prev_toks) + seq![prev_cur]);
                    assert(views_of(prev_toks) + (seq![prev_cur] + split_ws_from(
                        line@.skip(i as int),
                        seq![],
                    )) =~= views_of(toks@) + split_ws_from(line@.skip(i as int), cur@));
                } else {
                    assert(prev_cur =~= seq![]);
                    assert(split_ws_from(s, prev_cur) == split_ws_from(
                        line@.skip(i as int),
                        cur@,
                    ));
                }
            } else {
                assert(cur@ == prev_cur.push(c));
                assert(s.len() > 0);
                assert(!unicode_whitespace(s[0]));
                assert(split_ws_from(s, prev_cur) == split_ws_from(s.skip(1), prev_cur.push(s[0])));
                assert(split_ws_from(s, prev_cur) == split_ws_from(
                    line@.skip(i as int),
                    cur@,
                ));
            }
        }
    }
    if cur.len() > 0 {
        let ghost prev_toks = toks@;
        let ghost prev_cur = cur@;
        toks.push(cur);
        proof {
            assert(line@.skip(n as int) =~= Seq::<char>::empty());
            assert(views_of(toks@) =~= views_of(prev_toks) + seq![prev_cur]);
        }
    } else {
        proof {
            assert(line@.skip(n as int) =~= Seq::<char>::empty());
            assert(views_of(toks@) + split_ws_from(line@.skip(n as int), cur@) =~= views_of(
                toks@,
            ));
        }
    }
    toks
}

/// The pieces of `line` cut at every comma, as `split_commas` describes them.
pub fn split_commas_exec(line: &Vec<char>) -> (toks: Vec<Vec<char>>)
    ensures
        views_of(toks@) == split_commas(line@),
{
    let n = line.len();
    let mut toks: Vec<Vec<char>> = Vec::new();
    let mut cur: Vec<char> = Vec::new();
    let mut i: usize = 0;
    proof {
        assert(line@.skip(0) =~= line@);
        assert(views_of(toks@) + split_commas_from(line@, seq![]) =~= split_commas_from(
            line@,
            seq![],
        ));
    }
    while i < n
        invariant
            i <= n == line@.len(),
            split_commas_from(line@, seq![]) == views_of(toks@) + split_commas_from(
                line@.skip(i as int),
                cur@,
            ),
        decreases n - i,
    {
        let ghost prev_toks = toks@;
        let ghost prev_cur = cur@;
        let ghost s = line@.skip(i as int);
        let c = line[i];
        if c == ',' {
            toks.push(cur);
            cur = Vec::new();
        } else {
            cur.push(c);
        }
        i += 1;
        proof {
            assert(s.skip(1) =~= line@.skip(i as int));
            assert(s[0] == c);
            if c == ',' {
                assert(views_of(toks@) =~= views_of(prev_toks) + seq![prev_cur]);
                assert(views_of(prev_toks) + (seq![prev_cur] + split_commas_from(
                    line@.skip(i as int),
                    seq![],
                )) =~= views_of(toks@) + split_commas_from(line@.skip(i as int), cur@));
            }
        }
    }
    proof {
        assert(line@.skip(n as int) =~= Seq::<char>::empty());
    }
    if cur.len() > 0 {
        let ghost prev_toks = toks@;
        let ghost prev_cur = cur@;
        toks.push(cur);
        proof {
            assert(views_of(toks@) =~= views_of(prev_toks) + seq![prev_cur]);
            assert(views_of(toks@).last().len() > 0);
            assert(views_of(toks@).len() > 0);
        }
    } else {
        let ghost whole = views_of(toks@) + seq![cur@];
        proof {
            assert(whole.last().len() == 0);
            assert(whole.drop_last() =~= views_of(toks@));
        }
    }
    toks
}

/// The lines of `text` from position `from` on, as `lines_of` describes them.
pub fn split_lines_exec(text: &Vec<char>, from: usize) -> (ls: Vec<Vec<char>>)
    requires
        from <= text@.len(),
    ensures
        views_of(ls@) == lines_of(text@.skip(from as int)),
{
    let n = text.len();
    let ghost whole = text@.skip(from as int);
    let mut ls: Vec<Vec<char>> = Vec::new();
    let mut cur: Vec<char> = Vec::new();
    let mut i: usize = from;
    proof {
        assert(views_of(ls@) + split_nl_from(whole, seq![]) =~= split_nl_from(whole, seq![]));
    }
    while i < n
        invariant
            from <= i <= n == text@.len(),
            split_nl_from(whole, seq![]) == views_of(ls@) + split_nl_from(
                text@.skip(i as int),
                cur@,
            ),
            whole == text@.skip(from as int),
        decreases n - i,
    {
        let ghost prev_ls = ls@;
        let ghost prev_cur = cur@;
        let ghost s = text@.skip(i as int);
        let c = text[i];
        if c == '\n' {
            ls.push(cur);
            cur = Vec::new();
        } else {
            cur.push(c);
        }
        i += 1;
        proof {
            assert(s.skip(1) =~= text@.skip(i as int));
            assert(s[0] == c);
            if c == '\n' {
                assert(views_of(ls@) =~= views_of(prev_ls) + seq![prev_cur]);
                assert(views_of(prev_ls) + (seq![prev_cur] + split_nl_from(
                    text@.skip(i as int),
                    seq![],
                )) =~= views_of(ls@) + split_nl_from(text@.skip(i as int), cur@));
            }
        }
    }
    proof {
        assert(text@.skip(n as int) =~= Seq::<char>::empty());
    }
    if cur.len() > 0 {
        let ghost prev_ls = ls@;
        let ghost prev_cur = cur@;
        ls.push(cur);
        proof {
            assert(views_of(ls@) =~= views_of(prev_ls) + seq![prev_cur]);
            assert(views_of(ls@).last().len() > 0);
            assert(views_of(ls@).len() > 0);
        }
    } else {
        let ghost whole_pieces = views_of(ls@) + seq![cur@];
        proof {
            assert(whole_pieces.last().len() == 0);
            assert(whole_pieces.drop_last() =~= views_of(ls@));
        }
    }
    ls
}

/// `v` without leading and trailing whitespace.
pub fn trim_exec(v: &Vec<char>) -> (r: Vec<char>)
    ensures
        r@ == trim(v@),
{
    let n = v.len();
    let mut i: usize = 0;
    proof {
        assert(v@.skip(0) =~= v@);
    }
    while i < n && v[i].is_whitespace()
        invariant
            i <= n == v@.len(),
            trim_start(v@) == trim_start(v@.skip(i as int)),
        decreases n - i,
    {
        let ghost s = v@.skip(i as int);
        i += 1;
        proof {
            assert(s.skip(1) =~= v@.skip(i as int));
        }
    }
    proof {
        if i == n {
            assert(v@.skip(i as int) =~= Seq::<char>::empty());
        }
        assert(trim_start(v@) == v@.skip(i as int));
    }
    let ghost t = trim_start(v@);
    let mut j: usize = n;
    while j > i && v[j - 1].is_whitespace()
        invariant
            i <= j <= n == v@.len(),
            t == trim_start(v@),
            t == v@.skip(i as int),
            trim_end(t) == trim_end(v@.subrange(i as int, j as int)),
        decreases j,
    {
        let ghost u = v@.subrange(i as int, j as int);
        proof {
            assert(u.len() > 0 && unicode_whitespace(u.last()));
            assert(u.drop_last() =~= v@.subrange(i as int, j - 1 as int));
        }
        j -= 1;
    }
    proof {
        let u = v@.subrange(i as int, j as int);
        if j == i {
            assert(u.len() == 0);
        } else {
            assert(!unicode_whitespace(u.last()));
        }
        assert(trim_end(u) == u);
        assert(t =~= v@.subrange(i as int, n as int));
    }
    subvec(v, i, j)
}

/// `v` with every trailing copy of the nonempty pattern `s` removed, as
/// `str::trim_end_matches` removes them.
pub fn strip_suffixes_exec(v: Vec<char>, s: &str) -> (r: Vec<char>)
    requires
        s@.len() > 0,
    ensures
        r@ == strip_suffixes(v@, s@),
{
    let ghost orig = v@;
    let n = s.unicode_len();
    let mut v = v;
    loop
        invariant
            n == s@.len() > 0,
            strip_suffixes(orig, s@) == strip_suffixes(v@, s@),
        ensures
            strip_suffixes(orig, s@) == v@,
        decreases v@.len(),
    {
        if !ends_with_str(&v, s) {
            break;
        }
        let ghost prev = v@;
        let m = v.len() - n;
        v.truncate(m);
        proof {
            assert(v@ =~= prev.take(prev.len() - s@.len()));
        }
    }
    v
}

/// Whether the characters of `v` end with `s`.
pub fn ends_with_str(v: &Vec<char>, s: &str) -> (r: bool)
    ensures
        r == seq_ends_with(v@, s@),
{
    let n = s.unicode_len();
    if v.len() < n {
        return false;
    }
    let from = v.len() - n;
    let mut i: usize = 0;
    while i < n
        invariant
            n == s@.len(),
            from == v@.len() - n,
            v@.len() <= usize::MAX,
            i <= n,
            forall|j: int| 0 <= j < i ==> v@[from + j] == s@[j],
        decreases n - i,
    {
        if v[from + i] != s.get_char(i) {
            proof {
                assert(v@.skip(from as int)[i as int] != s@[i as int]);
            }
            return false;
        }
        i += 1;
    }
    proof {
        assert(v@.skip(from as int) =~= s@);
    }
    true
}

} // verus!

