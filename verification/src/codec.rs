//! Encoding and parsing of the catalog document.
//!
//! The catalog is persisted as one structured text document of the shape
//! `{"models":[{"model_id":<string>,"files":[{"size":<number>,"path":<string>},...]},...]}`.
//! The parser tolerates ASCII whitespace between tokens; strings carry the
//! usual escapes (`\"`, `\\`, `\/`, `\b`, `\t`, `\n`, `\f`, `\r`, and
//! `\u` with four hexadecimal digits naming a non-surrogate code point);
//! numbers are decimal and must fit in a `u64`. The encoder emits the
//! compact form with no whitespace between tokens, escaping `"`, `\` and
//! the control characters.
//! [`lemma_parse_encode`] proves the round trip: parsing an encoded document
//! yields exactly the document that was encoded.

use vstd::prelude::*;
use vstd::string::StrSliceExecFns;
use vstd::string::StringExecFns;
use crate::models::{ModelFile, ModelFileView, ModelInfo, ModelInfoView, ModelIndexData};

verus! {

/// The catalog document on disk was present but structurally invalid.
#[derive(Debug, Clone, PartialEq, Eq)]
pub struct ParseError;

// ---------------------------------------------------------------------------
// Characters
// ---------------------------------------------------------------------------

/// Whitespace the parser tolerates between tokens.
pub open spec fn is_ws_char(c: char) -> bool {
    c == ' ' || c == '\t' || c == '\n' || c == '\r'
}

/// Decimal digit.
pub open spec fn is_digit_char(c: char) -> bool {
    48 <= (c as u32) && (c as u32) <= 57
}

/// The character for one decimal digit.
pub open spec fn digit_char(d: nat) -> char {
    ((d + 48) as u8) as char
}

/// The numeric value of one decimal digit character.
pub open spec fn digit_value(c: char) -> nat {
    ((c as u32) - 48) as nat
}

/// Hexadecimal digit, either case.
pub open spec fn is_hex_digit_char(c: char) -> bool {
    (48 <= (c as u32) && (c as u32) <= 57) || (97 <= (c as u32) && (c as u32) <= 102) || (65 <= (
    c as u32) && (c as u32) <= 70)
}

/// The numeric value of one hexadecimal digit character.
pub open spec fn hex_value(c: char) -> nat {
    if 48 <= (c as u32) && (c as u32) <= 57 {
        ((c as u32) - 48) as nat
    } else if 97 <= (c as u32) && (c as u32) <= 102 {
        ((c as u32) - 87) as nat
    } else {
        ((c as u32) - 55) as nat
    }
}

/// The lowercase character for one hexadecimal digit.
pub open spec fn hex_digit_char(d: nat) -> char {
    if d < 10 {
        ((d + 48) as u8) as char
    } else {
        ((d + 87) as u8) as char
    }
}

/// The character with code point `v`; meaningful for Unicode scalar values.
pub open spec fn char_of_code(v: nat) -> char {
    choose|c: char| (#[trigger] (c as u32)) == v
}

/// A surrogate code point, which names no character.
pub open spec fn is_surrogate_code(v: nat) -> bool {
    0xD800 <= v < 0xE000
}

// ---------------------------------------------------------------------------
// Encoding, at the specification level
// ---------------------------------------------------------------------------

/// A string character as it appears inside a quoted literal: `"` and `\`
/// are preceded by a backslash, a control character becomes its short
/// escape or a `\u00..` escape, and every other character stands for
/// itself.
pub open spec fn escape_char(c: char) -> Seq<char> {
    if c == '"' || c == '\\' {
        seq!['\\', c]
    } else if c == '\u{8}' {
        seq!['\\', 'b']
    } else if c == '\t' {
        seq!['\\', 't']
    } else if c == '\n' {
        seq!['\\', 'n']
    } else if c == '\u{c}' {
        seq!['\\', 'f']
    } else if c == '\r' {
        seq!['\\', 'r']
    } else if (c as u32) < 32 {
        seq![
            '\\',
            'u',
            '0',
            '0',
            hex_digit_char((((c as u32) / 16) as nat)),
            hex_digit_char((((c as u32) % 16) as nat)),
        ]
    } else {
        seq![c]
    }
}

/// A whole string body, escaped character by character.
pub open spec fn escape_chars(s: Seq<char>) -> Seq<char>
    decreases s.len(),
{
    if s.len() == 0 {
        Seq::empty()
    } else {
        escape_char(s[0]) + escape_chars(s.drop_first())
    }
}

/// A quoted, escaped string literal.
pub open spec fn enc_string(s: Seq<char>) -> Seq<char> {
    seq!['"'] + escape_chars(s) + seq!['"']
}

/// The decimal digits of a number, most significant first.
pub open spec fn dec_digits(n: nat) -> Seq<char>
    decreases n,
{
    if n < 10 {
        seq![digit_char(n)]
    } else {
        dec_digits(n / 10).push(digit_char(n % 10))
    }
}

/// The `"models"` key, with its quotes.
pub open spec fn key_models() -> Seq<char> {
    seq!['"', 'm', 'o', 'd', 'e', 'l', 's', '"']
}

/// The `"model_id"` key, with its quotes.
pub open spec fn key_model_id() -> Seq<char> {
    seq!['"', 'm', 'o', 'd', 'e', 'l', '_', 'i', 'd', '"']
}

/// The `"files"` key, with its quotes.
pub open spec fn key_files() -> Seq<char> {
    seq!['"', 'f', 'i', 'l', 'e', 's', '"']
}

/// The `"size"` key, with its quotes.
pub open spec fn key_size() -> Seq<char> {
    seq!['"', 's', 'i', 'z', 'e', '"']
}

/// The `"path"` key, with its quotes.
pub open spec fn key_path() -> Seq<char> {
    seq!['"', 'p', 'a', 't', 'h', '"']
}

/// Already-encoded array elements joined with commas.
pub open spec fn join_comma(items: Seq<Seq<char>>) -> Seq<char>
    decreases items.len(),
{
    if items.len() == 0 {
        Seq::empty()
    } else if items.len() == 1 {
        items[0]
    } else {
        items[0] + seq![','] + join_comma(items.drop_first())
    }
}

/// An array of already-encoded elements.
pub open spec fn enc_array(items: Seq<Seq<char>>) -> Seq<char> {
    seq!['['] + join_comma(items) + seq![']']
}

/// One file object: `{"size":<number>,"path":<string>}`.
pub open spec fn enc_file(f: ModelFileView) -> Seq<char> {
    seq!['{'] + key_size() + seq![':'] + dec_digits(f.size as nat) + seq![','] + key_path()
        + seq![':'] + enc_string(f.path) + seq!['}']
}

/// The file array of one record.
pub open spec fn enc_files(files: Seq<ModelFileView>) -> Seq<char> {
    enc_array(files.map_values(|f: ModelFileView| enc_file(f)))
}

/// One record object: `{"model_id":<string>,"files":<array>}`.
pub open spec fn enc_model(m: ModelInfoView) -> Seq<char> {
    seq!['{'] + key_model_id() + seq![':'] + enc_string(m.model_id) + seq![','] + key_files()
        + seq![':'] + enc_files(m.files) + seq!['}']
}

/// The record array of a document.
pub open spec fn enc_models(models: Seq<ModelInfoView>) -> Seq<char> {
    enc_array(models.map_values(|m: ModelInfoView| enc_model(m)))
}

/// A whole catalog document: `{"models":<array>}`.
pub open spec fn enc_doc(models: Seq<ModelInfoView>) -> Seq<char> {
    seq!['{'] + key_models() + seq![':'] + enc_models(models) + seq!['}']
}

// ---------------------------------------------------------------------------
// Parsing, at the specification level
// ---------------------------------------------------------------------------

/// First position at or after `i` that does not hold whitespace.
pub open spec fn skip_ws(s: Seq<char>, i: int) -> int
    decreases s.len() - i,
{
    if 0 <= i && i < s.len() && is_ws_char(s[i]) {
        skip_ws(s, i + 1)
    } else {
        i
    }
}

/// Position after the next token character, when that token is `c`.
pub open spec fn expect_char_at(s: Seq<char>, i: int, c: char) -> Option<int> {
    let j = skip_ws(s, i);
    if j < s.len() && s[j] == c {
        Some(j + 1)
    } else {
        None
    }
}

/// Position after the literal `lit`, when it stands at the next token.
pub open spec fn expect_lit(s: Seq<char>, i: int, lit: Seq<char>) -> Option<int> {
    let j = skip_ws(s, i);
    if j + lit.len() <= s.len() && s.subrange(j, j + lit.len()) == lit {
        Some(j + lit.len())
    } else {
        None
    }
}

/// The body of a string literal, read from just after the opening quote:
/// the unescaped content and the position after the closing quote. After a
/// backslash the parser accepts the escapes `"`, `\`, `/`, `b`, `t`, `n`,
/// `f`, `r`, and `u` with four hexadecimal digits naming a non-surrogate
/// code point.
pub open spec fn parse_string_body(s: Seq<char>, i: int, acc: Seq<char>) -> Option<(Seq<char>, int)>
    decreases s.len() - i,
{
    if i < 0 || i >= s.len() {
        None
    } else if s[i] == '"' {
        Some((acc, i + 1))
    } else if s[i] == '\\' {
        if i + 1 < s.len() {
            let e = s[i + 1];
            if e == '"' || e == '\\' || e == '/' {
                parse_string_body(s, i + 2, acc.push(e))
            } else if e == 'b' {
                parse_string_body(s, i + 2, acc.push('\u{8}'))
            } else if e == 't' {
                parse_string_body(s, i + 2, acc.push('\t'))
            } else if e == 'n' {
                parse_string_body(s, i + 2, acc.push('\n'))
            } else if e == 'f' {
                parse_string_body(s, i + 2, acc.push('\u{c}'))
            } else if e == 'r' {
                parse_string_body(s, i + 2, acc.push('\r'))
            } else if e == 'u' {
                if i + 6 <= s.len() && is_hex_digit_char(s[i + 2]) && is_hex_digit_char(s[i + 3])
                    && is_hex_digit_char(s[i + 4]) && is_hex_digit_char(s[i + 5]) {
                    let v = hex_value(s[i + 2]) * 4096 + hex_value(s[i + 3]) * 256 + hex_value(
                        s[i + 4],
                    ) * 16 + hex_value(s[i + 5]);
                    if is_surrogate_code(v) {
                        None
                    } else {
                        parse_string_body(s, i + 6, acc.push(char_of_code(v)))
                    }
                } else {
                    None
                }
            } else {
                None
            }
        } else {
            None
        }
    } else {
        parse_string_body(s, i + 1, acc.push(s[i]))
    }
}

/// A quoted string literal at the next token.
pub open spec fn parse_string(s: Seq<char>, i: int) -> Option<(Seq<char>, int)> {
    let j = skip_ws(s, i);
    if j < s.len() && s[j] == '"' {
        parse_string_body(s, j + 1, Seq::empty())
    } else {
        None
    }
}

/// The maximal digit run from `i`, folded onto `acc`, and the position after
/// it.
pub open spec fn parse_digits(s: Seq<char>, i: int, acc: nat) -> (nat, int)
    decreases s.len() - i,
{
    if 0 <= i && i < s.len() && is_digit_char(s[i]) {
        parse_digits(s, i + 1, acc * 10 + digit_value(s[i]))
    } else {
        (acc, i)
    }
}

/// A decimal number at the next token; it must fit in a `u64`.
pub open spec fn parse_u64(s: Seq<char>, i: int) -> Option<(u64, int)> {
    let j = skip_ws(s, i);
    if j < s.len() && is_digit_char(s[j]) {
        let (v, k) = parse_digits(s, j, 0);
        if v <= u64::MAX {
            Some((v as u64, k))
        } else {
            None
        }
    } else {
        None
    }
}

/// One file object: `{"size":<number>,"path":<string>}`.
pub open spec fn parse_file(s: Seq<char>, i: int) -> Option<(ModelFileView, int)> {
    match expect_char_at(s, i, '{') {
        None => None,
        Some(i1) => match expect_lit(s, i1, key_size()) {
            None => None,
            Some(i2) => match expect_char_at(s, i2, ':') {
                None => None,
                Some(i3) => match parse_u64(s, i3) {
                    None => None,
                    Some((size, i4)) => match expect_char_at(s, i4, ',') {
                        None => None,
                        Some(i5) => match expect_lit(s, i5, key_path()) {
                            None => None,
                            Some(i6) => match expect_char_at(s, i6, ':') {
                                None => None,
                                Some(i7) => match parse_string(s, i7) {
                                    None => None,
                                    Some((path, i8)) => match expect_char_at(s, i8, '}') {
                                        None => None,
                                        Some(i9) => Some((ModelFileView { size, path }, i9)),
                                    },
                                },
                            },
                        },
                    },
                },
            },
        },
    }
}

/// The remaining elements of a file array, read from just after an element:
/// either `]`, or `,` followed by another file. The position guard keeps the
/// recursion well-founded; a successful element parse always moves forward,
/// so the guard never fails on real input.
pub open spec fn parse_files_rest(s: Seq<char>, i: int, acc: Seq<ModelFileView>) -> Option<
    (Seq<ModelFileView>, int),
>
    decreases s.len() - i,
{
    match expect_char_at(s, i, ']') {
        Some(j) => Some((acc, j)),
        None => match expect_char_at(s, i, ',') {
            None => None,
            Some(j) => match parse_file(s, j) {
                None => None,
                Some((f, k)) => if i < k && k <= s.len() {
                    parse_files_rest(s, k, acc.push(f))
                } else {
                    None
                },
            },
        },
    }
}

/// A file array at the next token.
pub open spec fn parse_files(s: Seq<char>, i: int) -> Option<(Seq<ModelFileView>, int)> {
    match expect_char_at(s, i, '[') {
        None => None,
        Some(j) => match expect_char_at(s, j, ']') {
            Some(k) => Some((Seq::empty(), k)),
            None => match parse_file(s, j) {
                None => None,
                Some((f, k)) => if j < k && k <= s.len() {
                    parse_files_rest(s, k, seq![f])
                } else {
                    None
                },
            },
        },
    }
}

/// One record object: `{"model_id":<string>,"files":<array>}`.
pub open spec fn parse_model(s: Seq<char>, i: int) -> Option<(ModelInfoView, int)> {
    match expect_char_at(s, i, '{') {
        None => None,
        Some(i1) => match expect_lit(s, i1, key_model_id()) {
            None => None,
            Some(i2) => match expect_char_at(s, i2, ':') {
                None => None,
                Some(i3) => match parse_string(s, i3) {
                    None => None,
                    Some((model_id, i4)) => match expect_char_at(s, i4, ',') {
                        None => None,
                        Some(i5) => match expect_lit(s, i5, key_files()) {
                            None => None,
                            Some(i6) => match expect_char_at(s, i6, ':') {
                                None => None,
                                Some(i7) => match parse_files(s, i7) {
                                    None => None,
                                    Some((files, i8)) => match expect_char_at(s, i8, '}') {
                                        None => None,
                                        Some(i9) => Some(
                                            (ModelInfoView { model_id, files }, i9),
                                        ),
                                    },
                                },
                            },
                        },
                    },
                },
            },
        },
    }
}

/// The remaining elements of a record array, as for files.
pub open spec fn parse_models_rest(s: Seq<char>, i: int, acc: Seq<ModelInfoView>) -> Option<
    (Seq<ModelInfoView>, int),
>
    decreases s.len() - i,
{
    match expect_char_at(s, i, ']') {
        Some(j) => Some((acc, j)),
        None => match expect_char_at(s, i, ',') {
            None => None,
            Some(j) => match parse_model(s, j) {
                None => None,
                Some((m, k)) => if i < k && k <= s.len() {
                    parse_models_rest(s, k, acc.push(m))
                } else {
                    None
                },
            },
        },
    }
}

/// A record array at the next token.
pub open spec fn parse_models(s: Seq<char>, i: int) -> Option<(Seq<ModelInfoView>, int)> {
    match expect_char_at(s, i, '[') {
        None => None,
        Some(j) => match expect_char_at(s, j, ']') {
            Some(k) => Some((Seq::empty(), k)),
            None => match parse_model(s, j) {
                None => None,
                Some((m, k)) => if j < k && k <= s.len() {
                    parse_models_rest(s, k, seq![m])
                } else {
                    None
                },
            },
        },
    }
}

/// A whole catalog document: `{"models":<array>}` with nothing but
/// whitespace after it.
pub open spec fn parse_doc(s: Seq<char>) -> Option<Seq<ModelInfoView>> {
    match expect_char_at(s, 0, '{') {
        None => None,
        Some(i1) => match expect_lit(s, i1, key_models()) {
            None => None,
            Some(i2) => match expect_char_at(s, i2, ':') {
                None => None,
                Some(i3) => match parse_models(s, i3) {
                    None => None,
                    Some((models, i4)) => match expect_char_at(s, i4, '}') {
                        None => None,
                        Some(i5) => if skip_ws(s, i5) == s.len() {
                            Some(models)
                        } else {
                            None
                        },
                    },
                },
            },
        },
    }
}

// ---------------------------------------------------------------------------
// The executable encoder
// ---------------------------------------------------------------------------

/// Relies on std's `String::push`: appends exactly the given character at the
/// end of the string.
#[verifier::external_body]
pub(crate) fn push_char(out: &mut String, c: char)
    ensures
        final(out)@ == old(out)@.push(c),
{
    out.push(c);
}

/// Relies on std's `char::from_u32`: yields the character with the given
/// code point, and `None` exactly for surrogates and values past the
/// largest code point.
#[verifier::external_body]
fn char_from_u32(v: u32) -> (r: Option<char>)
    ensures
        r matches Some(c) ==> (c as u32) == v,
        r is None ==> (0xD800 <= v < 0xE000 || v > 0x10FFFF),
{
    char::from_u32(v)
}

/// The character with a code point names that code point.
proof fn lemma_char_of_code(c: char)
    ensures
        char_of_code((c as u32) as nat) == c,
{
    assert((char_of_code((c as u32) as nat) as u32) == (c as u32)) by {
        assert((c as u32) == (c as u32));
    }
}

proof fn lemma_hex_digit_char_props(d: nat)
    requires
        d < 16,
    ensures
        is_hex_digit_char(hex_digit_char(d)),
        hex_value(hex_digit_char(d)) == d,
{
}

fn hex_digit(d: u8) -> (c: char)
    requires
        d < 16,
    ensures
        c == hex_digit_char(d as nat),
{
    if d < 10 {
        (d + 48) as char
    } else {
        (d + 87) as char
    }
}

fn hex_val(c: char) -> (r: Option<u8>)
    ensures
        r is Some <==> is_hex_digit_char(c),
        r matches Some(d) ==> (d < 16 && d as nat == hex_value(c)),
{
    let u: u32 = c as u32;
    if 48 <= u && u <= 57 {
        Some((u - 48) as u8)
    } else if 97 <= u && u <= 102 {
        Some((u - 87) as u8)
    } else if 65 <= u && u <= 70 {
        Some((u - 55) as u8)
    } else {
        None
    }
}

proof fn lemma_escape_chars_snoc(s: Seq<char>, c: char)
    ensures
        escape_chars(s.push(c)) == escape_chars(s) + escape_char(c),
    decreases s.len(),
{
    if s.len() == 0 {
        assert(s.push(c)[0] == c);
        assert(s.push(c).drop_first() =~= Seq::<char>::empty());
        assert(escape_chars(Seq::<char>::empty()) == Seq::<char>::empty());
        assert(escape_chars(s.push(c)) == escape_char(c) + Seq::<char>::empty());
        assert(escape_chars(s.push(c)) =~= escape_chars(s) + escape_char(c));
    } else {
        lemma_escape_chars_snoc(s.drop_first(), c);
        assert(s.push(c)[0] == s[0]);
        assert(s.push(c).drop_first() =~= s.drop_first().push(c));
        assert(escape_chars(s.push(c)) == escape_char(s[0]) + escape_chars(s.drop_first().push(c)));
        assert(escape_chars(s.push(c)) =~= escape_chars(s) + escape_char(c));
    }
}

/// Appends the quoted, escaped form of `s` to `out`.
fn write_string(out: &mut String, s: &str)
    ensures
        final(out)@ == old(out)@ + enc_string(s@),
{
    let ghost base: Seq<char> = out@;
    push_char(out, '"');
    let n: usize = s.unicode_len();
    let mut i: usize = 0;
    while i < n
        invariant
            n == s@.len(),
            i <= n,
            out@ == base + seq!['"'] + escape_chars(s@.take(i as int)),
        decreases n - i,
    {
        let c: char = s.get_char(i);
        proof {
            lemma_escape_chars_snoc(s@.take(i as int), c);
            assert(s@.take(i as int + 1) =~= s@.take(i as int).push(c));
        }
        if c == '"' || c == '\\' {
            push_char(out, '\\');
            push_char(out, c);
        } else {
            let u: u32 = c as u32;
            if u == 8 {
                push_char(out, '\\');
                push_char(out, 'b');
            } else if u == 9 {
                push_char(out, '\\');
                push_char(out, 't');
            } else if u == 10 {
                push_char(out, '\\');
                push_char(out, 'n');
            } else if u == 12 {
                push_char(out, '\\');
                push_char(out, 'f');
            } else if u == 13 {
                push_char(out, '\\');
                push_char(out, 'r');
            } else if u < 32 {
                push_char(out, '\\');
                push_char(out, 'u');
                push_char(out, '0');
                push_char(out, '0');
                let h1: char = hex_digit((u / 16) as u8);
                let h0: char = hex_digit((u % 16) as u8);
                push_char(out, h1);
                push_char(out, h0);
            } else {
                push_char(out, c);
            }
        }
        proof {
            assert(out@ =~= base + seq!['"'] + escape_chars(s@.take(i as int + 1)));
        }
        i = i + 1;
    }
    push_char(out, '"');
    proof {
        assert(s@.take(n as int) =~= s@);
        assert(out@ =~= base + enc_string(s@));
    }
}

/// Appends the decimal digits of `n` to `out`, most significant first.
fn write_u64(out: &mut String, n: u64)
    ensures
        final(out)@ == old(out)@ + dec_digits(n as nat),
    decreases n,
{
    if n >= 10 {
        write_u64(out, n / 10);
    }
    let d: u8 = (n % 10) as u8;
    push_char(out, (d + 48) as char);
    proof {
        if n >= 10 {
            assert(out@ =~= old(out)@ + dec_digits(n as nat));
        } else {
            assert(out@ =~= old(out)@ + dec_digits(n as nat));
        }
    }
}

/// Appends `{"size":...,"path":...}` for one file to `out`.
fn write_file(out: &mut String, f: &ModelFile)
    ensures
        final(out)@ == old(out)@ + enc_file(f@),
{
    push_char(out, '{');
    out.append("\"size\"");
    proof {
        reveal_strlit("\"size\"");
        assert("\"size\""@ =~= key_size());
    }
    push_char(out, ':');
    write_u64(out, f.size);
    push_char(out, ',');
    out.append("\"path\"");
    proof {
        reveal_strlit("\"path\"");
        assert("\"path\""@ =~= key_path());
    }
    push_char(out, ':');
    write_string(out, f.path.as_str());
    push_char(out, '}');
    proof {
        assert(out@ =~= old(out)@ + enc_file(f@));
    }
}

proof fn lemma_join_comma_snoc(items: Seq<Seq<char>>, x: Seq<char>)
    ensures
        items.len() == 0 ==> join_comma(items.push(x)) == x,
        items.len() > 0 ==> join_comma(items.push(x)) == join_comma(items) + seq![','] + x,
    decreases items.len(),
{
    if items.len() == 0 {
        assert(join_comma(items.push(x)) == items.push(x)[0]);
    } else if items.len() == 1 {
        assert(items.push(x)[0] == items[0]);
        assert(items.push(x).drop_first() =~= items.drop_first().push(x));
        assert(items.drop_first().push(x) =~= seq![x]);
        assert(join_comma(seq![x]) == x);
        assert(join_comma(items.push(x)) =~= join_comma(items) + seq![','] + x);
    } else {
        lemma_join_comma_snoc(items.drop_first(), x);
        assert(items.push(x)[0] == items[0]);
        assert(items.push(x).drop_first() =~= items.drop_first().push(x));
        assert(join_comma(items.push(x)) == items[0] + seq![','] + join_comma(
            items.drop_first().push(x),
        ));
        assert(join_comma(items.push(x)) =~= join_comma(items) + seq![','] + x);
    }
}

/// Appends the file array of one record to `out`.
fn write_files(out: &mut String, files: &Vec<ModelFile>)
    ensures
        final(out)@ == old(out)@ + enc_files(files@.map_values(|f: ModelFile| f@)),
{
    let ghost base: Seq<char> = out@;
    let ghost encs: Seq<Seq<char>> = files@.map_values(|f: ModelFile| f@).map_values(
        |f: ModelFileView| enc_file(f),
    );
    push_char(out, '[');
    let mut i: usize = 0;
    while i < files.len()
        invariant
            i <= files.len(),
            encs == files@.map_values(|f: ModelFile| f@).map_values(
                |f: ModelFileView| enc_file(f),
            ),
            encs.len() == files.len(),
            out@ == base + seq!['['] + join_comma(encs.take(i as int)),
        decreases files.len() - i,
    {
        if i > 0 {
            push_char(out, ',');
        }
        write_file(out, &files[i]);
        proof {
            lemma_join_comma_snoc(encs.take(i as int), encs[i as int]);
            assert(encs.take(i as int + 1) =~= encs.take(i as int).push(encs[i as int]));
            assert(out@ =~= base + seq!['['] + join_comma(encs.take(i as int + 1)));
        }
        i = i + 1;
    }
    push_char(out, ']');
    proof {
        assert(encs.take(files.len() as int) =~= encs);
        assert(out@ =~= base + enc_files(files@.map_values(|f: ModelFile| f@)));
    }
}

/// Appends `{"model_id":...,"files":[...]}` for one record to `out`.
fn write_model(out: &mut String, m: &ModelInfo)
    ensures
        final(out)@ == old(out)@ + enc_model(m@),
{
    push_char(out, '{');
    out.append("\"model_id\"");
    proof {
        reveal_strlit("\"model_id\"");
        assert("\"model_id\""@ =~= key_model_id());
    }
    push_char(out, ':');
    write_string(out, m.model_id.as_str());
    push_char(out, ',');
    out.append("\"files\"");
    proof {
        reveal_strlit("\"files\"");
        assert("\"files\""@ =~= key_files());
    }
    push_char(out, ':');
    write_files(out, &m.files);
    push_char(out, '}');
    proof {
        assert(out@ =~= old(out)@ + enc_model(m@));
    }
}

/// Encodes a whole catalog document as one line of text.
pub fn encode_model_index(doc: &ModelIndexData) -> (r: String)
    ensures
        r@ == enc_doc(doc@),
{
    let mut out: String = String::new();
    let ghost encs: Seq<Seq<char>> = doc@.map_values(|m: ModelInfoView| enc_model(m));
    push_char(&mut out, '{');
    out.append("\"models\"");
    proof {
        reveal_strlit("\"models\"");
        assert("\"models\""@ =~= key_models());
    }
    push_char(&mut out, ':');
    push_char(&mut out, '[');
    let ghost mid: Seq<char> = out@;
    let mut i: usize = 0;
    while i < doc.models.len()
        invariant
            i <= doc.models.len(),
            encs == doc@.map_values(|m: ModelInfoView| enc_model(m)),
            encs.len() == doc.models.len(),
            out@ == mid + join_comma(encs.take(i as int)),
        decreases doc.models.len() - i,
    {
        if i > 0 {
            push_char(&mut out, ',');
        }
        write_model(&mut out, &doc.models[i]);
        proof {
            lemma_join_comma_snoc(encs.take(i as int), encs[i as int]);
            assert(encs.take(i as int + 1) =~= encs.take(i as int).push(encs[i as int]));
            assert(out@ =~= mid + join_comma(encs.take(i as int + 1)));
        }
        i = i + 1;
    }
    push_char(&mut out, ']');
    push_char(&mut out, '}');
    proof {
        assert(encs.take(doc.models.len() as int) =~= encs);
        assert(out@ =~= enc_doc(doc@));
    }
    out
}

// ---------------------------------------------------------------------------
// The round trip: parsing inverts encoding
// ---------------------------------------------------------------------------

proof fn lemma_skip_ws_stay(s: Seq<char>, i: int)
    requires
        i >= s.len() || i < 0 || !is_ws_char(s[i]),
    ensures
        skip_ws(s, i) == i,
{
}

/// Carries a fragment equation down to one of its parts: if `frag` stands at
/// `i` in `s` and `part` stands at `off` in `frag`, then `part` stands at
/// `i + off` in `s`.
proof fn lemma_subrange_part(s: Seq<char>, i: int, frag: Seq<char>, off: int, part: Seq<char>)
    requires
        0 <= i,
        i + frag.len() <= s.len(),
        s.subrange(i, i + frag.len()) == frag,
        0 <= off,
        off + part.len() <= frag.len(),
        frag.subrange(off, off + part.len()) == part,
    ensures
        s.subrange(i + off, i + off + part.len()) == part,
{
    assert forall|t: int| 0 <= t < part.len() implies s[i + off + t] == part[t] by {
        assert(s.subrange(i, i + frag.len())[off + t] == s[i + off + t]);
        assert(frag.subrange(off, off + part.len())[t] == frag[off + t]);
    }
    assert(s.subrange(i + off, i + off + part.len()) =~= part);
}

/// A character of a fragment, read off the surrounding text.
proof fn lemma_frag_index(s: Seq<char>, i: int, frag: Seq<char>, off: int)
    requires
        0 <= i,
        i + frag.len() <= s.len(),
        s.subrange(i, i + frag.len()) == frag,
        0 <= off < frag.len(),
    ensures
        s[i + off] == frag[off],
{
    assert(s.subrange(i, i + frag.len())[off] == s[i + off]);
}

proof fn lemma_dec_digits_are_digits(n: nat)
    ensures
        dec_digits(n).len() >= 1,
        forall|t: int| 0 <= t < dec_digits(n).len() ==> is_digit_char(#[trigger] dec_digits(n)[t]),
    decreases n,
{
    if n < 10 {
        assert(is_digit_char(digit_char(n)));
    } else {
        lemma_dec_digits_are_digits(n / 10);
        assert(is_digit_char(digit_char(n % 10)));
        assert forall|t: int| 0 <= t < dec_digits(n).len() implies is_digit_char(
            #[trigger] dec_digits(n)[t],
        ) by {
            if t < dec_digits(n / 10).len() {
                assert(dec_digits(n)[t] == dec_digits(n / 10)[t]);
            } else {
                assert(dec_digits(n)[t] == digit_char(n % 10));
            }
        }
    }
}

/// The value of a digit run folded left onto `acc`.
spec fn digits_value(acc: nat, d: Seq<char>) -> nat
    decreases d.len(),
{
    if d.len() == 0 {
        acc
    } else {
        digits_value(acc * 10 + digit_value(d[0]), d.drop_first())
    }
}

proof fn lemma_digits_value_snoc(acc: nat, d: Seq<char>, c: char)
    ensures
        digits_value(acc, d.push(c)) == digits_value(acc, d) * 10 + digit_value(c),
    decreases d.len(),
{
    if d.len() == 0 {
        assert(d.push(c)[0] == c);
        assert(d.push(c).drop_first() =~= Seq::<char>::empty());
        assert(digits_value(acc * 10 + digit_value(c), Seq::<char>::empty()) == acc * 10
            + digit_value(c));
        assert(digits_value(acc, d.push(c)) == acc * 10 + digit_value(c));
        assert(digits_value(acc, d) == acc);
    } else {
        assert(d.push(c)[0] == d[0]);
        assert(d.push(c).drop_first() =~= d.drop_first().push(c));
        lemma_digits_value_snoc(acc * 10 + digit_value(d[0]), d.drop_first(), c);
        assert(digits_value(acc, d.push(c)) == digits_value(
            acc * 10 + digit_value(d[0]),
            d.drop_first().push(c),
        ));
        assert(digits_value(acc, d) == digits_value(acc * 10 + digit_value(d[0]), d.drop_first()));
    }
}

proof fn lemma_dec_digits_value(n: nat)
    ensures
        digits_value(0, dec_digits(n)) == n,
    decreases n,
{
    if n < 10 {
        assert(digit_value(digit_char(n)) == n);
        assert(dec_digits(n) == seq![digit_char(n)]);
        assert(dec_digits(n)[0] == digit_char(n));
        assert(dec_digits(n).drop_first() =~= Seq::<char>::empty());
        assert(digits_value(0, dec_digits(n)) == digits_value(
            0 * 10 + digit_value(digit_char(n)),
            dec_digits(n).drop_first(),
        ));
        assert(digits_value(n, Seq::<char>::empty()) == n);
    } else {
        lemma_dec_digits_value(n / 10);
        lemma_digits_value_snoc(0, dec_digits(n / 10), digit_char(n % 10));
        assert(digit_value(digit_char(n % 10)) == n % 10);
        assert(digits_value(0, dec_digits(n)) == digits_value(0, dec_digits(n / 10)) * 10 + n % 10);
    }
}

/// Parsing a maximal digit run that stands at `i` folds its value onto
/// `acc` and stops right after it.
proof fn lemma_parse_digits_run(s: Seq<char>, i: int, d: Seq<char>, acc: nat)
    requires
        0 <= i,
        i + d.len() <= s.len(),
        s.subrange(i, i + d.len()) == d,
        forall|t: int| 0 <= t < d.len() ==> is_digit_char(#[trigger] d[t]),
        i + d.len() == s.len() || !is_digit_char(s[i + d.len()]),
    ensures
        parse_digits(s, i, acc) == (digits_value(acc, d), i + d.len()),
    decreases d.len(),
{
    if d.len() == 0 {
        assert(parse_digits(s, i, acc) == (acc, i));
    } else {
        lemma_frag_index(s, i, d, 0);
        assert(is_digit_char(s[i]));
        lemma_subrange_part(s, i, d, 1, d.drop_first());
        assert(d.subrange(1, d.len() as int) =~= d.drop_first());
        lemma_subrange_part(s, i, d, 1, d.subrange(1, d.len() as int));
        lemma_parse_digits_run(s, i + 1, d.drop_first(), acc * 10 + digit_value(s[i]));
        assert(digit_value(s[i]) == digit_value(d[0]));
        assert(digits_value(acc, d) == digits_value(acc * 10 + digit_value(d[0]), d.drop_first()));
    }
}

/// A digit character is not whitespace.
proof fn lemma_digit_not_ws(c: char)
    requires
        is_digit_char(c),
    ensures
        !is_ws_char(c),
{
}

/// Parsing a number that stands encoded at `i`, with no digit right after
/// it, yields exactly that number.
proof fn lemma_parse_u64_at(s: Seq<char>, i: int, n: u64)
    requires
        0 <= i,
        i + dec_digits(n as nat).len() <= s.len(),
        s.subrange(i, i + dec_digits(n as nat).len()) == dec_digits(n as nat),
        i + dec_digits(n as nat).len() == s.len() || !is_digit_char(s[i + dec_digits(n as nat).len()]),
    ensures
        parse_u64(s, i) == Some((n, i + dec_digits(n as nat).len())),
{
    let d = dec_digits(n as nat);
    lemma_dec_digits_are_digits(n as nat);
    lemma_frag_index(s, i, d, 0);
    assert(is_digit_char(s[i]));
    lemma_digit_not_ws(s[i]);
    lemma_skip_ws_stay(s, i);
    lemma_parse_digits_run(s, i, d, 0);
    lemma_dec_digits_value(n as nat);
}

/// Parsing a string body that stands escaped at `i`, with its closing quote,
/// appends exactly the unescaped content to `acc`.
proof fn lemma_parse_string_body_at(s: Seq<char>, i: int, content: Seq<char>, acc: Seq<char>)
    requires
        0 <= i,
        i + escape_chars(content).len() + 1 <= s.len(),
        s.subrange(i, i + escape_chars(content).len()) == escape_chars(content),
        s[i + escape_chars(content).len()] == '"',
    ensures
        parse_string_body(s, i, acc) == Some(
            (acc + content, i + escape_chars(content).len() + 1),
        ),
    decreases content.len(),
{
    let e = escape_chars(content);
    if content.len() == 0 {
        assert(e.len() == 0);
        assert(s[i] == '"');
        assert(acc + content =~= acc);
    } else {
        let c0 = content[0];
        let rest = content.drop_first();
        let ec = escape_char(c0);
        let l = ec.len() as int;
        assert(e == ec + escape_chars(rest));
        assert(e.subrange(l, e.len() as int) =~= escape_chars(rest));
        lemma_subrange_part(s, i, e, l, escape_chars(rest));
        lemma_frag_index(s, i, e, 0);
        if c0 == '"' || c0 == '\\' {
            lemma_frag_index(s, i, e, 1);
            assert(s[i] == '\\' && s[i + 1] == c0);
        } else if c0 == '\u{8}' {
            lemma_frag_index(s, i, e, 1);
            assert(s[i] == '\\' && s[i + 1] == 'b');
        } else if c0 == '\t' {
            lemma_frag_index(s, i, e, 1);
            assert(s[i] == '\\' && s[i + 1] == 't');
        } else if c0 == '\n' {
            lemma_frag_index(s, i, e, 1);
            assert(s[i] == '\\' && s[i + 1] == 'n');
        } else if c0 == '\u{c}' {
            lemma_frag_index(s, i, e, 1);
            assert(s[i] == '\\' && s[i + 1] == 'f');
        } else if c0 == '\r' {
            lemma_frag_index(s, i, e, 1);
            assert(s[i] == '\\' && s[i + 1] == 'r');
        } else if (c0 as u32) < 32 {
            let hi = (((c0 as u32) / 16) as nat);
            let lo = (((c0 as u32) % 16) as nat);
            lemma_hex_digit_char_props(hi);
            lemma_hex_digit_char_props(lo);
            lemma_frag_index(s, i, e, 1);
            lemma_frag_index(s, i, e, 2);
            lemma_frag_index(s, i, e, 3);
            lemma_frag_index(s, i, e, 4);
            lemma_frag_index(s, i, e, 5);
            assert(s[i] == '\\' && s[i + 1] == 'u' && s[i + 2] == '0' && s[i + 3] == '0');
            assert(s[i + 4] == hex_digit_char(hi) && s[i + 5] == hex_digit_char(lo));
            assert(hex_value('0') == 0);
            let v = hex_value(s[i + 2]) * 4096 + hex_value(s[i + 3]) * 256 + hex_value(s[i + 4])
                * 16 + hex_value(s[i + 5]);
            assert(v == ((c0 as u32) as nat));
            assert(!is_surrogate_code(v));
            lemma_char_of_code(c0);
            assert(char_of_code(v) == c0);
        } else {
            assert(s[i] == c0);
        }
        lemma_parse_string_body_at(s, i + l, rest, acc.push(c0));
        assert(acc.push(c0) + rest =~= acc + content);
    }
}

/// Parsing a string literal that stands encoded at `i` yields exactly its
/// content.
proof fn lemma_parse_string_at(s: Seq<char>, i: int, content: Seq<char>)
    requires
        0 <= i,
        i + enc_string(content).len() <= s.len(),
        s.subrange(i, i + enc_string(content).len()) == enc_string(content),
    ensures
        parse_string(s, i) == Some((content, i + enc_string(content).len())),
{
    let e = enc_string(content);
    assert(e[0] == '"');
    lemma_frag_index(s, i, e, 0);
    lemma_skip_ws_stay(s, i);
    assert(e.subrange(1, 1 + escape_chars(content).len() as int) =~= escape_chars(content));
    lemma_subrange_part(s, i, e, 1, escape_chars(content));
    assert(e[1 + escape_chars(content).len() as int] == '"');
    lemma_frag_index(s, i, e, 1 + escape_chars(content).len() as int);
    lemma_parse_string_body_at(s, i + 1, content, Seq::empty());
    assert(Seq::<char>::empty() + content =~= content);
}

/// A literal (such as a quoted key) that stands verbatim at `i`, starting
/// with a non-whitespace character, is matched exactly.
proof fn lemma_expect_lit_at(s: Seq<char>, i: int, lit: Seq<char>)
    requires
        0 <= i,
        lit.len() > 0,
        !is_ws_char(lit[0]),
        i + lit.len() <= s.len(),
        s.subrange(i, i + lit.len()) == lit,
    ensures
        expect_lit(s, i, lit) == Some(i + lit.len()),
{
    lemma_frag_index(s, i, lit, 0);
    lemma_skip_ws_stay(s, i);
}

/// A single token character standing at `i` is matched exactly.
proof fn lemma_expect_char_at(s: Seq<char>, i: int, c: char)
    requires
        0 <= i < s.len(),
        s[i] == c,
        !is_ws_char(c),
    ensures
        expect_char_at(s, i, c) == Some(i + 1),
{
    lemma_skip_ws_stay(s, i);
}


/// One character out of the middle piece of a three-part concatenation.
proof fn lemma_mid_index(pre: Seq<char>, mid: Seq<char>, suf: Seq<char>, k: int)
    requires
        0 <= k < mid.len(),
    ensures
        (pre + mid + suf)[pre.len() + k] == mid[k],
{
}

/// Regrouping a three-part middle piece around its first part.
proof fn lemma_regroup_head(pre: Seq<char>, x: Seq<char>, y: Seq<char>, z: Seq<char>, suf: Seq<char>)
    ensures
        pre + (x + y + z) + suf == (pre + x) + y + (z + suf),
{
    assert(pre + (x + y + z) + suf =~= (pre + x) + y + (z + suf));
}

/// Regrouping a three-part middle piece around its last part.
proof fn lemma_regroup_tail(pre: Seq<char>, x: Seq<char>, y: Seq<char>, z: Seq<char>, suf: Seq<char>)
    ensures
        pre + (x + y + z) + suf == (pre + x + y) + z + suf,
{
    assert(pre + (x + y + z) + suf =~= (pre + x + y) + z + suf);
}

/// Parsing a file object that stands encoded between `pre` and `suf` yields
/// exactly that file.
#[verifier::rlimit(100)]
proof fn lemma_parse_file_pre(s: Seq<char>, pre: Seq<char>, f: ModelFileView, suf: Seq<char>)
    requires
        s == pre + enc_file(f) + suf,
    ensures
        parse_file(s, pre.len() as int) == Some(
            (f, (pre.len() + enc_file(f).len()) as int),
        ),
{
    let i = pre.len() as int;
    let e = enc_file(f);
    let ld = dec_digits(f.size as nat).len() as int;
    let ls = enc_string(f.path).len() as int;
    lemma_dec_digits_are_digits(f.size as nat);
    assert(e.len() == 17 + ld + ls);
    assert(i + e.len() <= s.len());
    assert(s.subrange(i, i + e.len()) =~= e);
    lemma_frag_index(s, i, e, 0);
    assert(e[0] == '{');
    lemma_expect_char_at(s, i, '{');
    assert(e.subrange(1, 7) =~= key_size());
    lemma_subrange_part(s, i, e, 1, key_size());
    lemma_expect_lit_at(s, i + 1, key_size());
    lemma_frag_index(s, i, e, 7);
    assert(e[7] == ':');
    lemma_expect_char_at(s, i + 7, ':');
    assert(e.subrange(8, 8 + ld) =~= dec_digits(f.size as nat));
    lemma_subrange_part(s, i, e, 8, dec_digits(f.size as nat));
    lemma_frag_index(s, i, e, 8 + ld);
    assert(e[8 + ld] == ',');
    lemma_parse_u64_at(s, i + 8, f.size);
    lemma_expect_char_at(s, i + 8 + ld, ',');
    assert(e.subrange(9 + ld, 15 + ld) =~= key_path());
    lemma_subrange_part(s, i, e, 9 + ld, key_path());
    lemma_expect_lit_at(s, i + 9 + ld, key_path());
    lemma_frag_index(s, i, e, 15 + ld);
    assert(e[15 + ld] == ':');
    lemma_expect_char_at(s, i + 15 + ld, ':');
    assert(e.subrange(16 + ld, 16 + ld + ls) =~= enc_string(f.path));
    lemma_subrange_part(s, i, e, 16 + ld, enc_string(f.path));
    lemma_parse_string_at(s, i + 16 + ld, f.path);
    lemma_frag_index(s, i, e, 16 + ld + ls);
    assert(e[16 + ld + ls] == '}');
    lemma_expect_char_at(s, i + 16 + ld + ls, '}');
    assert(ModelFileView { size: f.size, path: f.path } == f);
}

/// The text of a file array after its first element: `]`, or `,` and an
/// element and the rest.
spec fn enc_files_tail(files: Seq<ModelFileView>) -> Seq<char>
    decreases files.len(),
{
    if files.len() == 0 {
        seq![']']
    } else {
        seq![','] + enc_file(files[0]) + enc_files_tail(files.drop_first())
    }
}

proof fn lemma_enc_files_shape(files: Seq<ModelFileView>)
    ensures
        files.len() == 0 ==> enc_files(files) == seq!['[', ']'],
        files.len() > 0 ==> enc_files(files) == seq!['['] + enc_file(files[0]) + enc_files_tail(
            files.drop_first(),
        ),
{
    let encs = files.map_values(|f: ModelFileView| enc_file(f));
    if files.len() == 0 {
        assert(encs.len() == 0);
        assert(enc_files(files) =~= seq!['[', ']']);
    } else {
        lemma_join_vs_files_tail(files);
        let tail = enc_files_tail(files.drop_first());
        assert(enc_files(files) == seq!['['] + join_comma(encs) + seq![']']);
        assert(seq!['['] + join_comma(encs) + seq![']'] =~= seq!['['] + (join_comma(encs)
            + seq![']']));
        assert(join_comma(encs) + seq![']'] == enc_file(files[0]) + tail);
        assert(seq!['['] + (enc_file(files[0]) + tail) =~= seq!['['] + enc_file(files[0]) + tail);
    }
}

proof fn lemma_join_vs_files_tail(files: Seq<ModelFileView>)
    requires
        files.len() > 0,
    ensures
        join_comma(files.map_values(|f: ModelFileView| enc_file(f))) + seq![']'] == enc_file(
            files[0],
        ) + enc_files_tail(files.drop_first()),
    decreases files.len(),
{
    let encs = files.map_values(|f: ModelFileView| enc_file(f));
    assert(encs[0] == enc_file(files[0]));
    if files.len() == 1 {
        assert(files.drop_first().len() == 0);
        assert(enc_files_tail(files.drop_first()) == seq![']']);
        assert(join_comma(encs) == encs[0]);
        assert(join_comma(encs) + seq![']'] =~= enc_file(files[0]) + seq![']']);
    } else {
        let rest = files.drop_first();
        lemma_join_vs_files_tail(rest);
        assert(encs.drop_first() =~= rest.map_values(|f: ModelFileView| enc_file(f)));
        let x = join_comma(encs.drop_first());
        assert(x + seq![']'] == enc_file(rest[0]) + enc_files_tail(rest.drop_first()));
        assert(join_comma(encs) == encs[0] + seq![','] + x);
        assert(enc_files_tail(rest) == seq![','] + enc_file(rest[0]) + enc_files_tail(
            rest.drop_first(),
        ));
        assert((encs[0] + seq![','] + x) + seq![']'] =~= encs[0] + (seq![','] + (x + seq![']'])));
        assert(encs[0] + (seq![','] + (enc_file(rest[0]) + enc_files_tail(rest.drop_first())))
            =~= encs[0] + (seq![','] + enc_file(rest[0]) + enc_files_tail(rest.drop_first())));
    }
}

/// One unfolding step of the file-array tail: with the element parsed and
/// the continuation's result given, the tail parse from `pre` is that
/// result.
#[verifier::rlimit(100)]
#[verifier::spinoff_prover]
proof fn lemma_parse_files_rest_step(
    s: Seq<char>,
    pre: Seq<char>,
    rem: Seq<ModelFileView>,
    acc: Seq<ModelFileView>,
    suf: Seq<char>,
    tail_result: Option<(Seq<ModelFileView>, int)>,
)
    requires
        rem.len() > 0,
        s == pre + enc_files_tail(rem) + suf,
        parse_files_rest(
            s,
            (pre.len() + 1 + enc_file(rem[0]).len()) as int,
            acc.push(rem[0]),
        ) == tail_result,
    ensures
        parse_files_rest(s, pre.len() as int, acc) == tail_result,
{
    let i = pre.len() as int;
    let t = enc_files_tail(rem);
    let f0 = rem[0];
    let e0 = enc_file(f0);
    let t1 = enc_files_tail(rem.drop_first());
    assert(t == seq![','] + e0 + t1);
    lemma_mid_index(pre, t, suf, 0);
    assert(t[0] == ',');
    assert(s[i] == ',');
    lemma_skip_ws_stay(s, i);
    assert(expect_char_at(s, i, ']') is None);
    lemma_expect_char_at(s, i, ',');
    lemma_regroup_head(pre, seq![','], e0, t1, suf);
    lemma_parse_file_pre(s, pre + seq![','], f0, t1 + suf);
    assert(parse_file(s, i + 1) == Some((f0, i + 1 + e0.len())));
}

#[verifier::rlimit(100)]
#[verifier::spinoff_prover]
proof fn lemma_parse_files_rest_pre(
    s: Seq<char>,
    pre: Seq<char>,
    rem: Seq<ModelFileView>,
    acc: Seq<ModelFileView>,
    suf: Seq<char>,
)
    requires
        s == pre + enc_files_tail(rem) + suf,
    ensures
        parse_files_rest(s, pre.len() as int, acc) == Some(
            (acc + rem, (pre.len() + enc_files_tail(rem).len()) as int),
        ),
    decreases rem.len(),
{
    let i = pre.len() as int;
    let t = enc_files_tail(rem);
    if rem.len() == 0 {
        assert(t == seq![']']);
        lemma_mid_index(pre, t, suf, 0);
        assert(s[i] == ']');
        lemma_expect_char_at(s, i, ']');
        assert(acc + rem =~= acc);
    } else {
        let f0 = rem[0];
        let e0 = enc_file(f0);
        let t1 = enc_files_tail(rem.drop_first());
        assert(t == seq![','] + e0 + t1);
        lemma_regroup_tail(pre, seq![','], e0, t1, suf);
        lemma_parse_files_rest_pre(s, pre + seq![','] + e0, rem.drop_first(), acc.push(f0), suf);
        assert(acc.push(f0) + rem.drop_first() =~= acc + rem);
        assert(t.len() == 1 + e0.len() + t1.len());
        lemma_parse_files_rest_step(
            s,
            pre,
            rem,
            acc,
            suf,
            Some((acc + rem, (pre.len() + enc_files_tail(rem).len()) as int)),
        );
    }
}

/// An empty file array parses to the empty sequence.
#[verifier::rlimit(100)]
#[verifier::spinoff_prover]
proof fn lemma_parse_files_empty(s: Seq<char>, pre: Seq<char>, suf: Seq<char>)
    requires
        s == pre + seq!['[', ']'] + suf,
    ensures
        parse_files(s, pre.len() as int) == Some(
            (Seq::<ModelFileView>::empty(), pre.len() + 2int),
        ),
{
    let i = pre.len() as int;
    let e = seq!['[', ']'];
    lemma_mid_index(pre, e, suf, 0);
    lemma_mid_index(pre, e, suf, 1);
    assert(s[i] == '[');
    assert(s[i + 1] == ']');
    lemma_expect_char_at(s, i, '[');
    lemma_expect_char_at(s, i + 1, ']');
}

/// One unfolding step of the file array's head: with the first element
/// parsed and the tail's result given, the array parse from `pre` is that
/// result.
#[verifier::rlimit(100)]
#[verifier::spinoff_prover]
proof fn lemma_parse_files_head_step(
    s: Seq<char>,
    pre: Seq<char>,
    files: Seq<ModelFileView>,
    suf: Seq<char>,
    tail_result: Option<(Seq<ModelFileView>, int)>,
)
    requires
        files.len() > 0,
        s == pre + enc_files(files) + suf,
        enc_files(files) == seq!['['] + enc_file(files[0]) + enc_files_tail(files.drop_first()),
        parse_files_rest(
            s,
            (pre.len() + 1 + enc_file(files[0]).len()) as int,
            seq![files[0]],
        ) == tail_result,
    ensures
        parse_files(s, pre.len() as int) == tail_result,
{
    let i = pre.len() as int;
    let e = enc_files(files);
    let f0 = files[0];
    let e0 = enc_file(f0);
    let t1 = enc_files_tail(files.drop_first());
    lemma_mid_index(pre, e, suf, 0);
    assert(e[0] == '[');
    assert(s[i] == '[');
    lemma_expect_char_at(s, i, '[');
    lemma_mid_index(pre, e, suf, 1);
    assert(e0[0] == '{');
    assert(e[1] == '{');
    assert(s[i + 1] == '{');
    lemma_skip_ws_stay(s, i + 1);
    assert(expect_char_at(s, i + 1, ']') is None);
    lemma_regroup_head(pre, seq!['['], e0, t1, suf);
    lemma_parse_file_pre(s, pre + seq!['['], f0, t1 + suf);
    assert(parse_file(s, i + 1) == Some((f0, i + 1 + e0.len())));
}

#[verifier::rlimit(100)]
#[verifier::spinoff_prover]
proof fn lemma_parse_files_pre(
    s: Seq<char>,
    pre: Seq<char>,
    files: Seq<ModelFileView>,
    suf: Seq<char>,
)
    requires
        s == pre + enc_files(files) + suf,
    ensures
        parse_files(s, pre.len() as int) == Some(
            (files, (pre.len() + enc_files(files).len()) as int),
        ),
{
    let i = pre.len() as int;
    let e = enc_files(files);
    lemma_enc_files_shape(files);
    if files.len() == 0 {
        assert(e == seq!['[', ']']);
        lemma_parse_files_empty(s, pre, suf);
        assert(files =~= Seq::<ModelFileView>::empty());
    } else {
        let f0 = files[0];
        let e0 = enc_file(f0);
        let t1 = enc_files_tail(files.drop_first());
        lemma_regroup_tail(pre, seq!['['], e0, t1, suf);
        lemma_parse_files_rest_pre(s, pre + seq!['['] + e0, files.drop_first(), seq![f0], suf);
        assert(seq![f0] + files.drop_first() =~= files);
        assert(e.len() == 1 + e0.len() + t1.len());
        lemma_parse_files_head_step(
            s,
            pre,
            files,
            suf,
            Some((files, (pre.len() + enc_files(files).len()) as int)),
        );
    }
}

/// Parsing a record object that stands encoded between `pre` and `suf`
/// yields exactly that record.
#[verifier::rlimit(100)]
proof fn lemma_parse_model_pre(s: Seq<char>, pre: Seq<char>, m: ModelInfoView, suf: Seq<char>)
    requires
        s == pre + enc_model(m) + suf,
    ensures
        parse_model(s, pre.len() as int) == Some(
            (m, (pre.len() + enc_model(m).len()) as int),
        ),
{
    let i = pre.len() as int;
    let e = enc_model(m);
    let lm = enc_string(m.model_id).len() as int;
    let lfs = enc_files(m.files).len() as int;
    assert(e.len() == 22 + lm + lfs);
    assert(s.subrange(i, i + e.len()) =~= e);
    lemma_frag_index(s, i, e, 0);
    assert(e[0] == '{');
    lemma_expect_char_at(s, i, '{');
    assert(e.subrange(1, 11) =~= key_model_id());
    lemma_subrange_part(s, i, e, 1, key_model_id());
    lemma_expect_lit_at(s, i + 1, key_model_id());
    lemma_frag_index(s, i, e, 11);
    assert(e[11] == ':');
    lemma_expect_char_at(s, i + 11, ':');
    assert(e.subrange(12, 12 + lm) =~= enc_string(m.model_id));
    lemma_subrange_part(s, i, e, 12, enc_string(m.model_id));
    lemma_parse_string_at(s, i + 12, m.model_id);
    lemma_frag_index(s, i, e, 12 + lm);
    assert(e[12 + lm] == ',');
    lemma_expect_char_at(s, i + 12 + lm, ',');
    assert(e.subrange(13 + lm, 20 + lm) =~= key_files());
    lemma_subrange_part(s, i, e, 13 + lm, key_files());
    lemma_expect_lit_at(s, i + 13 + lm, key_files());
    lemma_frag_index(s, i, e, 20 + lm);
    assert(e[20 + lm] == ':');
    lemma_expect_char_at(s, i + 20 + lm, ':');
    assert(s =~= (pre + e.subrange(0, 21 + lm)) + enc_files(m.files) + (seq!['}'] + suf));
    lemma_parse_files_pre(
        s,
        pre + e.subrange(0, 21 + lm),
        m.files,
        seq!['}'] + suf,
    );
    assert(parse_files(s, i + 21 + lm) == Some((m.files, i + 21 + lm + lfs)));
    lemma_frag_index(s, i, e, 21 + lm + lfs);
    assert(e[21 + lm + lfs] == '}');
    lemma_expect_char_at(s, i + 21 + lm + lfs, '}');
    assert(ModelInfoView { model_id: m.model_id, files: m.files } == m);
}

/// The text of a record array after its first element.
spec fn enc_models_tail(models: Seq<ModelInfoView>) -> Seq<char>
    decreases models.len(),
{
    if models.len() == 0 {
        seq![']']
    } else {
        seq![','] + enc_model(models[0]) + enc_models_tail(models.drop_first())
    }
}


proof fn lemma_enc_model_first(m: ModelInfoView)
    ensures
        enc_model(m).len() > 0,
        enc_model(m)[0] == '{',
{
}

proof fn lemma_join_vs_models_tail(models: Seq<ModelInfoView>)
    requires
        models.len() > 0,
    ensures
        join_comma(models.map_values(|m: ModelInfoView| enc_model(m))) + seq![']'] == enc_model(
            models[0],
        ) + enc_models_tail(models.drop_first()),
    decreases models.len(),
{
    let encs = models.map_values(|m: ModelInfoView| enc_model(m));
    assert(encs[0] == enc_model(models[0]));
    if models.len() == 1 {
        assert(models.drop_first().len() == 0);
        assert(enc_models_tail(models.drop_first()) == seq![']']);
        assert(join_comma(encs) == encs[0]);
        assert(join_comma(encs) + seq![']'] =~= enc_model(models[0]) + seq![']']);
    } else {
        let rest = models.drop_first();
        lemma_join_vs_models_tail(rest);
        assert(encs.drop_first() =~= rest.map_values(|m: ModelInfoView| enc_model(m)));
        let x = join_comma(encs.drop_first());
        assert(x + seq![']'] == enc_model(rest[0]) + enc_models_tail(rest.drop_first()));
        assert(join_comma(encs) == encs[0] + seq![','] + x);
        assert(enc_models_tail(rest) == seq![','] + enc_model(rest[0]) + enc_models_tail(
            rest.drop_first(),
        ));
        assert((encs[0] + seq![','] + x) + seq![']'] =~= encs[0] + (seq![','] + (x + seq![']'])));
        assert(encs[0] + (seq![','] + (enc_model(rest[0]) + enc_models_tail(rest.drop_first())))
            =~= encs[0] + (seq![','] + enc_model(rest[0]) + enc_models_tail(rest.drop_first())));
    }
}

proof fn lemma_enc_models_shape(models: Seq<ModelInfoView>)
    ensures
        models.len() == 0 ==> enc_models(models) == seq!['[', ']'],
        models.len() > 0 ==> enc_models(models) == seq!['['] + enc_model(models[0])
            + enc_models_tail(models.drop_first()),
{
    let encs = models.map_values(|m: ModelInfoView| enc_model(m));
    if models.len() == 0 {
        assert(encs.len() == 0);
        assert(enc_models(models) =~= seq!['[', ']']);
    } else {
        lemma_join_vs_models_tail(models);
        let tail = enc_models_tail(models.drop_first());
        assert(enc_models(models) == seq!['['] + join_comma(encs) + seq![']']);
        assert(seq!['['] + join_comma(encs) + seq![']'] =~= seq!['['] + (join_comma(encs)
            + seq![']']));
        assert(join_comma(encs) + seq![']'] == enc_model(models[0]) + tail);
        assert(seq!['['] + (enc_model(models[0]) + tail) =~= seq!['['] + enc_model(models[0])
            + tail);
    }
}

/// One unfolding step of the record-array tail: with the element parsed and
/// the continuation's result given, the tail parse from `pre` is that
/// result.
#[verifier::rlimit(100)]
#[verifier::spinoff_prover]
proof fn lemma_parse_models_rest_step(
    s: Seq<char>,
    pre: Seq<char>,
    rem: Seq<ModelInfoView>,
    acc: Seq<ModelInfoView>,
    suf: Seq<char>,
    tail_result: Option<(Seq<ModelInfoView>, int)>,
)
    requires
        rem.len() > 0,
        s == pre + enc_models_tail(rem) + suf,
        parse_models_rest(
            s,
            (pre.len() + 1 + enc_model(rem[0]).len()) as int,
            acc.push(rem[0]),
        ) == tail_result,
    ensures
        parse_models_rest(s, pre.len() as int, acc) == tail_result,
{
    let i = pre.len() as int;
    let t = enc_models_tail(rem);
    let m0 = rem[0];
    let e0 = enc_model(m0);
    let t1 = enc_models_tail(rem.drop_first());
    assert(t == seq![','] + e0 + t1);
    lemma_mid_index(pre, t, suf, 0);
    assert(t[0] == ',');
    assert(s[i] == ',');
    lemma_skip_ws_stay(s, i);
    assert(expect_char_at(s, i, ']') is None);
    lemma_expect_char_at(s, i, ',');
    lemma_regroup_head(pre, seq![','], e0, t1, suf);
    lemma_parse_model_pre(s, pre + seq![','], m0, t1 + suf);
    assert(parse_model(s, i + 1) == Some((m0, i + 1 + e0.len())));
}

#[verifier::rlimit(100)]
#[verifier::spinoff_prover]
proof fn lemma_parse_models_rest_pre(
    s: Seq<char>,
    pre: Seq<char>,
    rem: Seq<ModelInfoView>,
    acc: Seq<ModelInfoView>,
    suf: Seq<char>,
)
    requires
        s == pre + enc_models_tail(rem) + suf,
    ensures
        parse_models_rest(s, pre.len() as int, acc) == Some(
            (acc + rem, (pre.len() + enc_models_tail(rem).len()) as int),
        ),
    decreases rem.len(),
{
    let i = pre.len() as int;
    let t = enc_models_tail(rem);
    if rem.len() == 0 {
        assert(t == seq![']']);
        lemma_mid_index(pre, t, suf, 0);
        assert(s[i] == ']');
        lemma_expect_char_at(s, i, ']');
        assert(acc + rem =~= acc);
    } else {
        let m0 = rem[0];
        let e0 = enc_model(m0);
        let t1 = enc_models_tail(rem.drop_first());
        assert(t == seq![','] + e0 + t1);
        lemma_regroup_tail(pre, seq![','], e0, t1, suf);
        lemma_parse_models_rest_pre(s, pre + seq![','] + e0, rem.drop_first(), acc.push(m0), suf);
        assert(acc.push(m0) + rem.drop_first() =~= acc + rem);
        assert(t.len() == 1 + e0.len() + t1.len());
        lemma_parse_models_rest_step(
            s,
            pre,
            rem,
            acc,
            suf,
            Some((acc + rem, (pre.len() + enc_models_tail(rem).len()) as int)),
        );
    }
}

/// One unfolding step of the record array's head: with the first element
/// parsed and the tail's result given, the array parse from `pre` is that
/// result.
#[verifier::rlimit(100)]
#[verifier::spinoff_prover]
proof fn lemma_parse_models_head_step(
    s: Seq<char>,
    pre: Seq<char>,
    models: Seq<ModelInfoView>,
    suf: Seq<char>,
    tail_result: Option<(Seq<ModelInfoView>, int)>,
)
    requires
        models.len() > 0,
        s == pre + enc_models(models) + suf,
        enc_models(models) == seq!['['] + enc_model(models[0]) + enc_models_tail(
            models.drop_first(),
        ),
        parse_models_rest(
            s,
            (pre.len() + 1 + enc_model(models[0]).len()) as int,
            seq![models[0]],
        ) == tail_result,
    ensures
        parse_models(s, pre.len() as int) == tail_result,
{
    let i = pre.len() as int;
    let e = enc_models(models);
    let m0 = models[0];
    let e0 = enc_model(m0);
    let t1 = enc_models_tail(models.drop_first());
    lemma_mid_index(pre, e, suf, 0);
    assert(e[0] == '[');
    assert(s[i] == '[');
    lemma_expect_char_at(s, i, '[');
    lemma_mid_index(pre, e, suf, 1);
    lemma_enc_model_first(m0);
    assert(e[1] == '{');
    assert(s[i + 1] == '{');
    lemma_skip_ws_stay(s, i + 1);
    assert(expect_char_at(s, i + 1, ']') is None);
    lemma_regroup_head(pre, seq!['['], e0, t1, suf);
    lemma_parse_model_pre(s, pre + seq!['['], m0, t1 + suf);
    assert(parse_model(s, i + 1) == Some((m0, i + 1 + e0.len())));
}

/// An empty record array parses to the empty sequence.
#[verifier::rlimit(100)]
#[verifier::spinoff_prover]
proof fn lemma_parse_models_empty(s: Seq<char>, pre: Seq<char>, suf: Seq<char>)
    requires
        s == pre + seq!['[', ']'] + suf,
    ensures
        parse_models(s, pre.len() as int) == Some(
            (Seq::<ModelInfoView>::empty(), pre.len() + 2int),
        ),
{
    let i = pre.len() as int;
    let e = seq!['[', ']'];
    lemma_mid_index(pre, e, suf, 0);
    lemma_mid_index(pre, e, suf, 1);
    assert(s[i] == '[');
    assert(s[i + 1] == ']');
    lemma_expect_char_at(s, i, '[');
    lemma_expect_char_at(s, i + 1, ']');
}

#[verifier::rlimit(100)]
#[verifier::spinoff_prover]
proof fn lemma_parse_models_pre(
    s: Seq<char>,
    pre: Seq<char>,
    models: Seq<ModelInfoView>,
    suf: Seq<char>,
)
    requires
        s == pre + enc_models(models) + suf,
    ensures
        parse_models(s, pre.len() as int) == Some(
            (models, (pre.len() + enc_models(models).len()) as int),
        ),
{
    let i = pre.len() as int;
    let e = enc_models(models);
    lemma_enc_models_shape(models);
    if models.len() == 0 {
        assert(e == seq!['[', ']']);
        lemma_parse_models_empty(s, pre, suf);
        assert(models =~= Seq::<ModelInfoView>::empty());
    } else {
        let m0 = models[0];
        let e0 = enc_model(m0);
        let t1 = enc_models_tail(models.drop_first());
        lemma_regroup_tail(pre, seq!['['], e0, t1, suf);
        lemma_parse_models_rest_pre(s, pre + seq!['['] + e0, models.drop_first(), seq![m0], suf);
        assert(seq![m0] + models.drop_first() =~= models);
        assert(e.len() == 1 + e0.len() + t1.len());
        lemma_parse_models_head_step(
            s,
            pre,
            models,
            suf,
            Some((models, (pre.len() + enc_models(models).len()) as int)),
        );
    }
}

/// The round trip: parsing an encoded catalog document yields exactly the
/// records that were encoded. This holds for every document, whatever its
/// identifiers and paths contain.
pub proof fn lemma_parse_encode(models: Seq<ModelInfoView>)
    ensures
        parse_doc(enc_doc(models)) == Some(models),
{
    let s = enc_doc(models);
    let lms = enc_models(models).len() as int;
    assert(s.len() == 11 + lms);
    assert(s.subrange(0, s.len() as int) =~= s);
    lemma_frag_index(s, 0, s, 0);
    assert(s[0] == '{');
    lemma_expect_char_at(s, 0, '{');
    assert(s.subrange(1, 9) =~= key_models());
    lemma_expect_lit_at(s, 1, key_models());
    assert(s[9] == ':');
    lemma_expect_char_at(s, 9, ':');
    assert(s =~= s.subrange(0, 10) + enc_models(models) + seq!['}']);
    lemma_parse_models_pre(
        s,
        s.subrange(0, 10),
        models,
        seq!['}'],
    );
    assert(parse_models(s, 10) == Some((models, 10 + lms)));
    assert(s[10 + lms] == '}');
    lemma_expect_char_at(s, 10 + lms, '}');
    lemma_skip_ws_stay(s, s.len() as int);
    assert(parse_doc(s) == Some(models));
}

// ---------------------------------------------------------------------------
// The executable parser
// ---------------------------------------------------------------------------

fn is_ws(c: char) -> (b: bool)
    ensures
        b == is_ws_char(c),
{
    c == ' ' || c == '\t' || c == '\n' || c == '\r'
}

fn is_digit(c: char) -> (b: bool)
    ensures
        b == is_digit_char(c),
{
    let u: u32 = c as u32;
    48 <= u && u <= 57
}

/// The characters of a string slice, in order.
pub(crate) fn str_chars(s: &str) -> (r: Vec<char>)
    ensures
        r@ == s@,
{
    let n: usize = s.unicode_len();
    let mut r: Vec<char> = Vec::new();
    let mut i: usize = 0;
    while i < n
        invariant
            n == s@.len(),
            i <= n,
            r@ == s@.take(i as int),
        decreases n - i,
    {
        let c: char = s.get_char(i);
        r.push(c);
        proof {
            assert(s@.take(i as int + 1) =~= s@.take(i as int).push(s@[i as int]));
        }
        i = i + 1;
    }
    proof {
        assert(s@.take(n as int) =~= s@);
    }
    r
}

fn skip_ws_at(s: &Vec<char>, i: usize) -> (r: usize)
    requires
        i <= s.len(),
    ensures
        r as int == skip_ws(s@, i as int),
        i <= r <= s.len(),
{
    let mut j: usize = i;
    while j < s.len() && is_ws(s[j])
        invariant
            i <= j <= s.len(),
            skip_ws(s@, i as int) == skip_ws(s@, j as int),
        decreases s.len() - j,
    {
        proof {
            assert(skip_ws(s@, j as int) == skip_ws(s@, j as int + 1));
        }
        j = j + 1;
    }
    j
}

fn expect_char(s: &Vec<char>, i: usize, c: char) -> (r: Option<usize>)
    requires
        i <= s.len(),
    ensures
        r is None ==> expect_char_at(s@, i as int, c) is None,
        r matches Some(j) ==> (expect_char_at(s@, i as int, c) == Some(j as int) && i < j
            <= s.len()),
{
    let j: usize = skip_ws_at(s, i);
    if j < s.len() && s[j] == c {
        Some(j + 1)
    } else {
        None
    }
}

fn expect_key(s: &Vec<char>, i: usize, key: &Vec<char>) -> (r: Option<usize>)
    requires
        i <= s.len(),
    ensures
        r is None ==> expect_lit(s@, i as int, key@) is None,
        r matches Some(j) ==> (expect_lit(s@, i as int, key@) == Some(j as int) && i <= j
            <= s.len()),
{
    let j: usize = skip_ws_at(s, i);
    if s.len() - j < key.len() {
        return None;
    }
    let mut k: usize = 0;
    while k < key.len()
        invariant
            j + key.len() <= s.len(),
            k <= key.len(),
            j as int == skip_ws(s@, i as int),
            forall|t: int| 0 <= t < k ==> s@[j + t] == key@[t],
        decreases key.len() - k,
    {
        if s[j + k] != key[k] {
            proof {
                let sub = s@.subrange(j as int, j as int + key@.len() as int);
                assert(sub[k as int] == s@[j as int + k]);
                assert(sub != key@);
            }
            return None;
        }
        k = k + 1;
    }
    proof {
        assert(s@.subrange(j as int, j as int + key@.len() as int) =~= key@);
    }
    Some(j + key.len())
}

fn parse_string_exec(s: &Vec<char>, i: usize) -> (r: Option<(String, usize)>)
    requires
        i <= s.len(),
    ensures
        r is None ==> parse_string(s@, i as int) is None,
        r matches Some(p) ==> (parse_string(s@, i as int) == Some((p.0@, p.1 as int)) && i < p.1
            <= s.len()),
{
    let j: usize = skip_ws_at(s, i);
    if !(j < s.len() && s[j] == '"') {
        return None;
    }
    let mut pos: usize = j + 1;
    let mut out: String = String::new();
    let mut ret: Option<(String, usize)> = None;
    loop
        invariant_except_break
            j + 1 <= pos <= s.len(),
            ret is None,
            parse_string_body(s@, j as int + 1, Seq::empty()) == parse_string_body(
                s@,
                pos as int,
                out@,
            ),
        ensures
            ret is None ==> parse_string_body(s@, j as int + 1, Seq::empty()) is None,
            ret matches Some(p) ==> (parse_string_body(s@, j as int + 1, Seq::empty()) == Some(
                (p.0@, p.1 as int),
            ) && j + 1 < p.1 <= s.len()),
        decreases s.len() - pos,
    {
        if pos >= s.len() {
            break ;
        }
        let c: char = s[pos];
        if c == '"' {
            ret = Some((out, pos + 1));
            break ;
        } else if c == '\\' {
            if pos + 1 < s.len() {
                let e: char = s[pos + 1];
                if e == '"' || e == '\\' || e == '/' {
                    push_char(&mut out, e);
                    pos = pos + 2;
                } else if e == 'b' {
                    push_char(&mut out, '\u{8}');
                    pos = pos + 2;
                } else if e == 't' {
                    push_char(&mut out, '\t');
                    pos = pos + 2;
                } else if e == 'n' {
                    push_char(&mut out, '\n');
                    pos = pos + 2;
                } else if e == 'f' {
                    push_char(&mut out, '\u{c}');
                    pos = pos + 2;
                } else if e == 'r' {
                    push_char(&mut out, '\r');
                    pos = pos + 2;
                } else if e == 'u' {
                    if s.len() - pos < 6 {
                        break ;
                    }
                    let d3: u8 = match hex_val(s[pos + 2]) {
                        Some(v) => v,
                        None => {
                            break ;
                        },
                    };
                    let d2: u8 = match hex_val(s[pos + 3]) {
                        Some(v) => v,
                        None => {
                            break ;
                        },
                    };
                    let d1: u8 = match hex_val(s[pos + 4]) {
                        Some(v) => v,
                        None => {
                            break ;
                        },
                    };
                    let d0: u8 = match hex_val(s[pos + 5]) {
                        Some(v) => v,
                        None => {
                            break ;
                        },
                    };
                    let v: u32 = (d3 as u32) * 4096 + (d2 as u32) * 256 + (d1 as u32) * 16 + (
                    d0 as u32);
                    if 0xD800 <= v && v < 0xE000 {
                        break ;
                    }
                    match char_from_u32(v) {
                        Some(ch) => {
                            proof {
                                lemma_char_of_code(ch);
                            }
                            push_char(&mut out, ch);
                            pos = pos + 6;
                        },
                        None => {
                            break ;
                        },
                    }
                } else {
                    break ;
                }
            } else {
                break ;
            }
        } else {
            push_char(&mut out, c);
            pos = pos + 1;
        }
    }
    ret
}

fn parse_u64_exec(s: &Vec<char>, i: usize) -> (r: Option<(u64, usize)>)
    requires
        i <= s.len(),
    ensures
        r is None ==> parse_u64(s@, i as int) is None,
        r matches Some(p) ==> (parse_u64(s@, i as int) == Some((p.0, p.1 as int)) && i < p.1
            <= s.len()),
{
    let j: usize = skip_ws_at(s, i);
    if !(j < s.len() && is_digit(s[j])) {
        return None;
    }
    let mut pos: usize = j;
    let mut acc: u64 = 0;
    let mut over: bool = false;
    let ghost mut tv: nat = 0;
    let lim: u64 = u64::MAX / 10;
    while pos < s.len() && is_digit(s[pos])
        invariant
            j <= pos <= s.len(),
            lim == u64::MAX / 10,
            parse_digits(s@, j as int, 0) == parse_digits(s@, pos as int, tv),
            !over ==> acc == tv,
            over ==> tv > u64::MAX,
        decreases s.len() - pos,
    {
        let d: u8 = ((s[pos] as u32) - 48) as u8;
        proof {
            assert(d == digit_value(s@[pos as int]));
            assert(parse_digits(s@, pos as int, tv) == parse_digits(
                s@,
                pos as int + 1,
                tv * 10 + digit_value(s@[pos as int]),
            ));
        }
        if !over {
            if acc > lim || (acc == lim && d > 5) {
                over = true;
                proof {
                    assert(acc * 10 + d > u64::MAX);
                }
            } else {
                proof {
                    assert(acc * 10 + d <= u64::MAX);
                }
                acc = acc * 10 + (d as u64);
            }
        }
        proof {
            tv = tv * 10 + digit_value(s@[pos as int]);
        }
        pos = pos + 1;
    }
    if over {
        None
    } else {
        Some((acc, pos))
    }
}

fn parse_file_exec(s: &Vec<char>, i: usize, ksize: &Vec<char>, kpath: &Vec<char>) -> (r: Option<
    (ModelFile, usize),
>)
    requires
        i <= s.len(),
        ksize@ == key_size(),
        kpath@ == key_path(),
    ensures
        r is None ==> parse_file(s@, i as int) is None,
        r matches Some(p) ==> (parse_file(s@, i as int) == Some((p.0@, p.1 as int)) && i < p.1
            <= s.len()),
{
    let i1: usize = match expect_char(s, i, '{') {
        Some(v) => v,
        None => {
            return None;
        },
    };
    let i2: usize = match expect_key(s, i1, ksize) {
        Some(v) => v,
        None => {
            return None;
        },
    };
    let i3: usize = match expect_char(s, i2, ':') {
        Some(v) => v,
        None => {
            return None;
        },
    };
    let (size, i4): (u64, usize) = match parse_u64_exec(s, i3) {
        Some(v) => v,
        None => {
            return None;
        },
    };
    let i5: usize = match expect_char(s, i4, ',') {
        Some(v) => v,
        None => {
            return None;
        },
    };
    let i6: usize = match expect_key(s, i5, kpath) {
        Some(v) => v,
        None => {
            return None;
        },
    };
    let i7: usize = match expect_char(s, i6, ':') {
        Some(v) => v,
        None => {
            return None;
        },
    };
    let (path, i8): (String, usize) = match parse_string_exec(s, i7) {
        Some(v) => v,
        None => {
            return None;
        },
    };
    let i9: usize = match expect_char(s, i8, '}') {
        Some(v) => v,
        None => {
            return None;
        },
    };
    Some((ModelFile { size: size, path: path }, i9))
}

fn parse_files_exec(s: &Vec<char>, i: usize, ksize: &Vec<char>, kpath: &Vec<char>) -> (r: Option<
    (Vec<ModelFile>, usize),
>)
    requires
        i <= s.len(),
        ksize@ == key_size(),
        kpath@ == key_path(),
    ensures
        r is None ==> parse_files(s@, i as int) is None,
        r matches Some(p) ==> (parse_files(s@, i as int) == Some(
            (p.0@.map_values(|f: ModelFile| f@), p.1 as int),
        ) && i < p.1 <= s.len()),
{
    let i1: usize = match expect_char(s, i, '[') {
        Some(v) => v,
        None => {
            return None;
        },
    };
    match expect_char(s, i1, ']') {
        Some(k) => {
            let empty: Vec<ModelFile> = Vec::new();
            proof {
                assert(empty@.map_values(|f: ModelFile| f@) =~= Seq::<ModelFileView>::empty());
            }
            return Some((empty, k));
        },
        None => {},
    }
    let (f0, k0): (ModelFile, usize) = match parse_file_exec(s, i1, ksize, kpath) {
        Some(v) => v,
        None => {
            return None;
        },
    };
    let ghost fv0: ModelFileView = f0@;
    let mut acc: Vec<ModelFile> = Vec::new();
    acc.push(f0);
    let mut pos: usize = k0;
    proof {
        assert(acc@.map_values(|f: ModelFile| f@) =~= seq![fv0]);
    }
    let mut ret: Option<(Vec<ModelFile>, usize)> = None;
    loop
        invariant_except_break
            i < pos <= s.len(),
            ret is None,
            ksize@ == key_size(),
            kpath@ == key_path(),
            parse_files(s@, i as int) == parse_files_rest(
                s@,
                pos as int,
                acc@.map_values(|f: ModelFile| f@),
            ),
        ensures
            ret is None ==> parse_files(s@, i as int) is None,
            ret matches Some(p) ==> (parse_files(s@, i as int) == Some(
                (p.0@.map_values(|f: ModelFile| f@), p.1 as int),
            ) && i < p.1 <= s.len()),
        decreases s.len() - pos,
    {
        match expect_char(s, pos, ']') {
            Some(k) => {
                ret = Some((acc, k));
                break ;
            },
            None => {},
        }
        let j2: usize = match expect_char(s, pos, ',') {
            Some(v) => v,
            None => {
                break ;
            },
        };
        let (f, k): (ModelFile, usize) = match parse_file_exec(s, j2, ksize, kpath) {
            Some(v) => v,
            None => {
                break ;
            },
        };
        let ghost fv: ModelFileView = f@;
        let ghost accv: Seq<ModelFileView> = acc@.map_values(|g: ModelFile| g@);
        acc.push(f);
        proof {
            assert(acc@.map_values(|g: ModelFile| g@) =~= accv.push(fv));
        }
        pos = k;
    }
    ret
}

fn parse_model_exec(
    s: &Vec<char>,
    i: usize,
    kmodel_id: &Vec<char>,
    kfiles: &Vec<char>,
    ksize: &Vec<char>,
    kpath: &Vec<char>,
) -> (r: Option<(ModelInfo, usize)>)
    requires
        i <= s.len(),
        kmodel_id@ == key_model_id(),
        kfiles@ == key_files(),
        ksize@ == key_size(),
        kpath@ == key_path(),
    ensures
        r is None ==> parse_model(s@, i as int) is None,
        r matches Some(p) ==> (parse_model(s@, i as int) == Some((p.0@, p.1 as int)) && i < p.1
            <= s.len()),
{
    let i1: usize = match expect_char(s, i, '{') {
        Some(v) => v,
        None => {
            return None;
        },
    };
    let i2: usize = match expect_key(s, i1, kmodel_id) {
        Some(v) => v,
        None => {
            return None;
        },
    };
    let i3: usize = match expect_char(s, i2, ':') {
        Some(v) => v,
        None => {
            return None;
        },
    };
    let (model_id, i4): (String, usize) = match parse_string_exec(s, i3) {
        Some(v) => v,
        None => {
            return None;
        },
    };
    let i5: usize = match expect_char(s, i4, ',') {
        Some(v) => v,
        None => {
            return None;
        },
    };
    let i6: usize = match expect_key(s, i5, kfiles) {
        Some(v) => v,
        None => {
            return None;
        },
    };
    let i7: usize = match expect_char(s, i6, ':') {
        Some(v) => v,
        None => {
            return None;
        },
    };
    let (files, i8): (Vec<ModelFile>, usize) = match parse_files_exec(s, i7, ksize, kpath) {
        Some(v) => v,
        None => {
            return None;
        },
    };
    let i9: usize = match expect_char(s, i8, '}') {
        Some(v) => v,
        None => {
            return None;
        },
    };
    Some((ModelInfo { model_id: model_id, files: files }, i9))
}

fn parse_models_exec(
    s: &Vec<char>,
    i: usize,
    kmodel_id: &Vec<char>,
    kfiles: &Vec<char>,
    ksize: &Vec<char>,
    kpath: &Vec<char>,
) -> (r: Option<(Vec<ModelInfo>, usize)>)
    requires
        i <= s.len(),
        kmodel_id@ == key_model_id(),
        kfiles@ == key_files(),
        ksize@ == key_size(),
        kpath@ == key_path(),
    ensures
        r is None ==> parse_models(s@, i as int) is None,
        r matches Some(p) ==> (parse_models(s@, i as int) == Some(
            (p.0@.map_values(|m: ModelInfo| m@), p.1 as int),
        ) && i < p.1 <= s.len()),
{
    let i1: usize = match expect_char(s, i, '[') {
        Some(v) => v,
        None => {
            return None;
        },
    };
    match expect_char(s, i1, ']') {
        Some(k) => {
            let empty: Vec<ModelInfo> = Vec::new();
            proof {
                assert(empty@.map_values(|m: ModelInfo| m@) =~= Seq::<ModelInfoView>::empty());
            }
            return Some((empty, k));
        },
        None => {},
    }
    let (m0, k0): (ModelInfo, usize) = match parse_model_exec(s, i1, kmodel_id, kfiles, ksize, kpath) {
        Some(v) => v,
        None => {
            return None;
        },
    };
    let ghost mv0: ModelInfoView = m0@;
    let mut acc: Vec<ModelInfo> = Vec::new();
    acc.push(m0);
    let mut pos: usize = k0;
    proof {
        assert(acc@.map_values(|m: ModelInfo| m@) =~= seq![mv0]);
    }
    let mut ret: Option<(Vec<ModelInfo>, usize)> = None;
    loop
        invariant_except_break
            i < pos <= s.len(),
            ret is None,
            kmodel_id@ == key_model_id(),
            kfiles@ == key_files(),
            ksize@ == key_size(),
            kpath@ == key_path(),
            parse_models(s@, i as int) == parse_models_rest(
                s@,
                pos as int,
                acc@.map_values(|m: ModelInfo| m@),
            ),
        ensures
            ret is None ==> parse_models(s@, i as int) is None,
            ret matches Some(p) ==> (parse_models(s@, i as int) == Some(
                (p.0@.map_values(|m: ModelInfo| m@), p.1 as int),
            ) && i < p.1 <= s.len()),
        decreases s.len() - pos,
    {
        match expect_char(s, pos, ']') {
            Some(k) => {
                ret = Some((acc, k));
                break ;
            },
            None => {},
        }
        let j2: usize = match expect_char(s, pos, ',') {
            Some(v) => v,
            None => {
                break ;
            },
        };
        let (m, k): (ModelInfo, usize) = match parse_model_exec(s, j2, kmodel_id, kfiles, ksize, kpath) {
            Some(v) => v,
            None => {
                break ;
            },
        };
        let ghost mv: ModelInfoView = m@;
        let ghost accv: Seq<ModelInfoView> = acc@.map_values(|g: ModelInfo| g@);
        acc.push(m);
        proof {
            assert(acc@.map_values(|g: ModelInfo| g@) =~= accv.push(mv));
        }
        pos = k;
    }
    ret
}

/// Parses a catalog document from text. Returns `Err` exactly on the inputs
/// the document grammar rejects.
pub fn parse_model_index(text: &str) -> (r: Result<ModelIndexData, ParseError>)
    ensures
        r matches Ok(d) ==> parse_doc(text@) == Some(d@),
        r is Err ==> parse_doc(text@) is None,
{
    let s: Vec<char> = str_chars(text);
    let kmodels: Vec<char> = vec!['"', 'm', 'o', 'd', 'e', 'l', 's', '"'];
    let kmodel_id: Vec<char> = vec!['"', 'm', 'o', 'd', 'e', 'l', '_', 'i', 'd', '"'];
    let kfiles: Vec<char> = vec!['"', 'f', 'i', 'l', 'e', 's', '"'];
    let ksize: Vec<char> = vec!['"', 's', 'i', 'z', 'e', '"'];
    let kpath: Vec<char> = vec!['"', 'p', 'a', 't', 'h', '"'];
    proof {
        assert(kmodels@ =~= key_models());
        assert(kmodel_id@ =~= key_model_id());
        assert(kfiles@ =~= key_files());
        assert(ksize@ =~= key_size());
        assert(kpath@ =~= key_path());
    }
    let i1: usize = match expect_char(&s, 0, '{') {
        Some(v) => v,
        None => {
            return Err(ParseError);
        },
    };
    let i2: usize = match expect_key(&s, i1, &kmodels) {
        Some(v) => v,
        None => {
            return Err(ParseError);
        },
    };
    let i3: usize = match expect_char(&s, i2, ':') {
        Some(v) => v,
        None => {
            return Err(ParseError);
        },
    };
    let (models, i4): (Vec<ModelInfo>, usize) = match parse_models_exec(
        &s,
        i3,
        &kmodel_id,
        &kfiles,
        &ksize,
        &kpath,
    ) {
        Some(v) => v,
        None => {
            return Err(ParseError);
        },
    };
    let i5: usize = match expect_char(&s, i4, '}') {
        Some(v) => v,
        None => {
            return Err(ParseError);
        },
    };
    let e: usize = skip_ws_at(&s, i5);
    if e != s.len() {
        return Err(ParseError);
    }
    Ok(ModelIndexData { models: models })
}

} // verus!
