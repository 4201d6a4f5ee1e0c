//! The persisted form of the recency store: a JSON array of records
//! `{"key": ..., "last_run": ..., "count": ...}`. The encoder emits compact
//! JSON; the decoder accepts the same documents with any amount of
//! interleaving whitespace, and decoding what was encoded gives the store
//! back unchanged.

use vstd::prelude::*;
use crate::recents::RecModel;
use crate::recents::RecentEntry;
use crate::recents::store_model;
use crate::recents::entry_model;

verus! {

/// The decimal digit character for a value below ten.
pub open spec fn dec_digit(d: int) -> char {
    (0x30 + d) as char
}

/// The decimal digits of a number, most significant first.
pub open spec fn dec_of(n: int) -> Seq<char>
    decreases n,
{
    if n < 10 {
        seq![dec_digit(n)]
    } else {
        dec_of(n / 10) + seq![dec_digit(n % 10)]
    }
}

/// The lowercase hexadecimal digit character for a value below sixteen.
pub open spec fn hex_digit(d: int) -> char {
    if d < 10 {
        (0x30 + d) as char
    } else {
        (0x61 + (d - 10)) as char
    }
}

/// How one character is written inside a JSON string: quote and backslash
/// escaped, control characters in `\u00..` form, everything else as itself.
pub open spec fn esc_char(c: char) -> Seq<char> {
    if c == '"' {
        seq!['\\', '"']
    } else if c == '\\' {
        seq!['\\', '\\']
    } else if (c as u32) < 0x20 {
        seq!['\\', 'u', '0', '0', hex_digit(c as int / 16), hex_digit(c as int % 16)]
    } else {
        seq![c]
    }
}

/// The escaped body of a JSON string.
pub open spec fn enc_str_body(s: Seq<char>) -> Seq<char>
    decreases s.len(),
{
    if s.len() == 0 {
        Seq::empty()
    } else {
        esc_char(s[0]) + enc_str_body(s.drop_first())
    }
}

/// A whole JSON string: the escaped body between quotes.
pub open spec fn enc_string(s: Seq<char>) -> Seq<char> {
    seq!['"'] + enc_str_body(s) + seq!['"']
}

/// One encoded record.
pub open spec fn enc_entry(m: RecModel) -> Seq<char> {
    seq!['{'] + enc_string(seq!['k', 'e', 'y']) + seq![':'] + enc_string(m.0) + seq![',']
        + enc_string(seq!['l', 'a', 's', 't', '_', 'r', 'u', 'n']) + seq![':'] + dec_of(
        m.1 as int,
    ) + seq![','] + enc_string(seq!['c', 'o', 'u', 'n', 't']) + seq![':'] + dec_of(m.2 as int)
        + seq!['}']
}

/// The encoded records, comma-separated.
pub open spec fn enc_entries(s: Seq<RecModel>) -> Seq<char>
    decreases s.len(),
{
    if s.len() == 0 {
        Seq::empty()
    } else if s.len() == 1 {
        enc_entry(s[0])
    } else {
        enc_entry(s[0]) + seq![','] + enc_entries(s.drop_first())
    }
}

/// The encoded store: the records in a JSON array.
pub open spec fn enc_store(s: Seq<RecModel>) -> Seq<char> {
    seq!['['] + enc_entries(s) + seq![']']
}

/// Appends one character to a string.
///
/// Relies on `String::push`: the character is appended, nothing else changes.
#[verifier::external_body]
pub(crate) fn push_char(s: &mut String, c: char)
    ensures
        final(s)@ == old(s)@.push(c),
{
    s.push(c);
}

/// Writes the decimal digits of `n` onto `out`.
fn write_dec(out: &mut String, n: u64)
    ensures
        final(out)@ == old(out)@ + dec_of(n as int),
    decreases n,
{
    if n < 10 {
        let c = ((0x30 + n) as u8) as char;
        proof {
            assert(c == dec_digit(n as int));
            assert(old(out)@ + dec_of(n as int) =~= old(out)@.push(c));
        }
        push_char(out, c);
    } else {
        write_dec(out, n / 10);
        let d = n % 10;
        let c = ((0x30 + d) as u8) as char;
        proof {
            assert(c == dec_digit(d as int));
            assert(old(out)@ + dec_of(n as int) =~= (old(out)@ + dec_of(n as int / 10)).push(c));
        }
        push_char(out, c);
    }
}

/// The lowercase hexadecimal digit character for a value below sixteen.
pub(crate) fn hex_digit_char(d: u32) -> (c: char)
    requires
        d < 16,
    ensures
        c == hex_digit(d as int),
{
    if d < 10 {
        ((0x30 + d) as u8) as char
    } else {
        ((0x61 + (d - 10)) as u8) as char
    }
}

/// Writes the escaped body of a JSON string onto `out`.
fn write_str_body(out: &mut String, s: &str)
    ensures
        final(out)@ == old(out)@ + enc_str_body(s@),
{
    let len = s.unicode_len();
    let mut i: usize = 0;
    proof {
        assert(out@ =~= out@ + enc_str_body(s@.take(0)));
    }
    while i < len
        invariant
            len == s@.len(),
            i <= len,
            out@ == old(out)@ + enc_str_body(s@.take(i as int)),
        decreases len - i,
    {
        let ghost taken = s@.take(i as int);
        let c = s.get_char(i);
        if c == '"' {
            push_char(out, '\\');
            push_char(out, '"');
        } else if c == '\\' {
            push_char(out, '\\');
            push_char(out, '\\');
        } else if (c as u32) < 0x20 {
            push_char(out, '\\');
            push_char(out, 'u');
            push_char(out, '0');
            push_char(out, '0');
            push_char(out, hex_digit_char((c as u32) / 16));
            push_char(out, hex_digit_char((c as u32) % 16));
        } else {
            push_char(out, c);
        }
        proof {
            lemma_enc_str_body_snoc(s@, i as int);
            assert(out@ =~= old(out)@ + enc_str_body(s@.take(i as int + 1)));
        }
        i = i + 1;
    }
    proof {
        assert(s@.take(len as int) =~= s@);
    }
}

/// Extending the encoded prefix by one character appends that character's
/// escape.
proof fn lemma_enc_str_body_snoc(s: Seq<char>, i: int)
    requires
        0 <= i < s.len(),
    ensures
        enc_str_body(s.take(i + 1)) == enc_str_body(s.take(i)) + esc_char(s[i]),
    decreases i,
{
    if i == 0 {
        assert(s.take(1) =~= seq![s[0]]);
        assert(s.take(1).drop_first() =~= Seq::<char>::empty());
        assert(s.take(1)[0] == s[0]);
        assert(enc_str_body(s.take(0)) =~= Seq::<char>::empty());
        assert(enc_str_body(s.take(1)) == esc_char(s[0]) + enc_str_body(s.take(1).drop_first()));
        assert(esc_char(s[0]) + Seq::<char>::empty() =~= esc_char(s[0]));
        assert(enc_str_body(s.take(0)) + esc_char(s[0]) =~= esc_char(s[0]));
    } else {
        lemma_enc_str_body_snoc(s.drop_first(), i - 1);
        assert(s.take(i + 1).drop_first() =~= s.drop_first().take(i));
        assert(s.take(i).drop_first() =~= s.drop_first().take(i - 1));
        assert(s.take(i + 1)[0] == s[0]);
        assert(s.take(i)[0] == s[0]);
        assert(s.drop_first()[i - 1] == s[i]);
        assert(enc_str_body(s.take(i + 1)) =~= esc_char(s[0]) + enc_str_body(
            s.drop_first().take(i),
        ));
        assert(enc_str_body(s.take(i)) + esc_char(s[i]) =~= esc_char(s[0]) + (enc_str_body(
            s.drop_first().take(i - 1),
        ) + esc_char(s.drop_first()[i - 1])));
    }
}

/// Writes a whole JSON string onto `out`.
fn write_string(out: &mut String, s: &str)
    ensures
        final(out)@ == old(out)@ + enc_string(s@),
{
    push_char(out, '"');
    write_str_body(out, s);
    push_char(out, '"');
    proof {
        assert(final(out)@ =~= old(out)@ + enc_string(s@));
    }
}

/// Serializes the store to its JSON text.
#[verifier::rlimit(100)]
pub fn encode_recents(recents: &Vec<RecentEntry>) -> (text: String)
    ensures
        text@ == enc_store(store_model(recents@)),
{
    let ghost m = store_model(recents@);
    let mut out = String::new();
    push_char(&mut out, '[');
    let n = recents.len();
    let mut i: usize = 0;
    proof {
        assert(out@ =~= seq!['['] + enc_entries(m.take(0)));
    }
    while i < n
        invariant
            n == recents@.len(),
            m == store_model(recents@),
            m.len() == n,
            i <= n,
            out@ == seq!['['] + enc_entries(m.take(i as int)),
        decreases n - i,
    {
        if i > 0 {
            push_char(&mut out, ',');
        }
        let ghost out_before = out@;
        push_char(&mut out, '{');
        write_string(&mut out, "key");
        push_char(&mut out, ':');
        write_string(&mut out, recents[i].key.as_str());
        push_char(&mut out, ',');
        write_string(&mut out, "last_run");
        push_char(&mut out, ':');
        write_dec(&mut out, recents[i].last_run);
        push_char(&mut out, ',');
        write_string(&mut out, "count");
        push_char(&mut out, ':');
        write_dec(&mut out, recents[i].count as u64);
        push_char(&mut out, '}');
        proof {
            reveal_strlit("key");
            reveal_strlit("last_run");
            reveal_strlit("count");
            assert("key"@ =~= seq!['k', 'e', 'y']);
            assert("last_run"@ =~= seq!['l', 'a', 's', 't', '_', 'r', 'u', 'n']);
            assert("count"@ =~= seq!['c', 'o', 'u', 'n', 't']);
            assert(out@ =~= out_before + enc_entry(m[i as int]));
            lemma_enc_entries_snoc(m, i as int);
            assert(out@ =~= seq!['['] + enc_entries(m.take(i as int + 1)));
        }
        i = i + 1;
    }
    push_char(&mut out, ']');
    proof {
        assert(m.take(n as int) =~= m);
        assert(out@ =~= enc_store(m));
    }
    out
}

/// Extending the encoded prefix by one record appends that record (with its
/// separating comma after the first).
proof fn lemma_enc_entries_snoc(m: Seq<RecModel>, i: int)
    requires
        0 <= i < m.len(),
    ensures
        i == 0 ==> enc_entries(m.take(1)) == enc_entries(m.take(0)) + enc_entry(m[0]),
        i > 0 ==> enc_entries(m.take(i + 1)) == enc_entries(m.take(i)) + seq![','] + enc_entry(
            m[i],
        ),
    decreases i,
{
    if i == 0 {
        assert(m.take(1) =~= seq![m[0]]);
        assert(enc_entries(m.take(1)) =~= enc_entry(m[0]));
        assert(enc_entries(m.take(0)) + enc_entry(m[0]) =~= enc_entry(m[0]));
    } else {
        lemma_enc_entries_snoc(m.drop_first(), i - 1);
        assert(m.take(i + 1).drop_first() =~= m.drop_first().take(i));
        assert(m.take(i).drop_first() =~= m.drop_first().take(i - 1));
        assert(m.take(i + 1)[0] == m[0]);
        assert(m.take(i)[0] == m[0]);
        assert(m.take(i + 1).len() == i + 1);
        assert(m.drop_first()[i - 1] == m[i]);
        if i == 1 {
            assert(enc_entries(m.take(2)) =~= enc_entry(m[0]) + seq![','] + enc_entries(
                m.drop_first().take(1),
            ));
            assert(enc_entries(m.drop_first().take(1)) =~= enc_entry(m[1]));
            assert(enc_entries(m.take(1)) =~= enc_entry(m[0]));
            assert(enc_entries(m.take(2)) =~= enc_entries(m.take(1)) + seq![','] + enc_entry(
                m[1],
            ));
        } else {
            assert(enc_entries(m.take(i + 1)) =~= enc_entry(m[0]) + seq![','] + enc_entries(
                m.drop_first().take(i),
            ));
            assert(enc_entries(m.take(i)) =~= enc_entry(m[0]) + seq![','] + enc_entries(
                m.drop_first().take(i - 1),
            ));
            assert(enc_entries(m.drop_first().take(i)) =~= enc_entries(m.drop_first().take(i - 1))
                + seq![','] + enc_entry(m.drop_first()[i - 1]));
            assert(enc_entries(m.take(i + 1)) =~= enc_entries(m.take(i)) + seq![','] + enc_entry(
                m[i],
            ));
        }
    }
}

/// JSON whitespace.
pub open spec fn is_json_ws(c: char) -> bool {
    c == ' ' || c == '\t' || c == '\n' || c == '\r'
}

/// The first position at or after `i` that does not hold whitespace.
pub open spec fn skip_ws(s: Seq<char>, i: int) -> int
    decreases s.len() - i,
{
    if 0 <= i < s.len() && is_json_ws(s[i]) {
        skip_ws(s, i + 1)
    } else {
        i
    }
}

/// A decimal digit character.
pub open spec fn is_dec_digit(c: char) -> bool {
    0x30 <= c as u32 <= 0x39
}

/// The value of a decimal digit character.
pub open spec fn digit_val(c: char) -> int {
    c as int - 0x30
}

/// Reads digits from `i` onward into the accumulator; fails on overflow,
/// stops at the first non-digit.
pub open spec fn parse_num_loop(s: Seq<char>, i: int, acc: u64) -> Option<(u64, int)>
    decreases s.len() - i,
{
    if 0 <= i < s.len() && is_dec_digit(s[i]) {
        if acc as int * 10 + digit_val(s[i]) > u64::MAX {
            None
        } else {
            parse_num_loop(s, i + 1, (acc * 10 + digit_val(s[i])) as u64)
        }
    } else {
        Some((acc, i))
    }
}

/// A number: at least one digit at `i`.
pub open spec fn parse_num(s: Seq<char>, i: int) -> Option<(u64, int)> {
    if 0 <= i < s.len() && is_dec_digit(s[i]) {
        parse_num_loop(s, i, 0)
    } else {
        None
    }
}

/// The value of a hexadecimal digit character, or -1.
pub open spec fn hex_val(c: char) -> int {
    if 0x30 <= c as u32 <= 0x39 {
        c as int - 0x30
    } else if 0x61 <= c as u32 <= 0x66 {
        c as int - 0x61 + 10
    } else if 0x41 <= c as u32 <= 0x46 {
        c as int - 0x41 + 10
    } else {
        -1
    }
}

/// Reads a JSON string body from `i` (after the opening quote) up to the
/// closing quote, resolving escapes, onto the accumulator.
pub open spec fn parse_str_body(s: Seq<char>, i: int, acc: Seq<char>) -> Option<(Seq<char>, int)>
    decreases s.len() - i, 1int,
{
    if i < 0 || i >= s.len() {
        None
    } else {
        let c = s[i];
        if c == '"' {
            Some((acc, i + 1))
        } else if c == '\\' {
            parse_escape(s, i, acc)
        } else if (c as u32) < 0x20 {
            None
        } else {
            parse_str_body(s, i + 1, acc.push(c))
        }
    }
}

/// Resolves one escape sequence at `i` (which holds the backslash).
pub open spec fn parse_escape(s: Seq<char>, i: int, acc: Seq<char>) -> Option<(Seq<char>, int)>
    decreases s.len() - i, 0int,
{
    if i + 1 >= s.len() {
        None
    } else {
        let e = s[i + 1];
        if e == '"' {
            parse_str_body(s, i + 2, acc.push('"'))
        } else if e == '\\' {
            parse_str_body(s, i + 2, acc.push('\\'))
        } else if e == '/' {
            parse_str_body(s, i + 2, acc.push('/'))
        } else if e == 'b' {
            parse_str_body(s, i + 2, acc.push(8u32 as char))
        } else if e == 'f' {
            parse_str_body(s, i + 2, acc.push(12u32 as char))
        } else if e == 'n' {
            parse_str_body(s, i + 2, acc.push('\n'))
        } else if e == 'r' {
            parse_str_body(s, i + 2, acc.push('\r'))
        } else if e == 't' {
            parse_str_body(s, i + 2, acc.push('\t'))
        } else if e == 'u' {
            if i + 6 > s.len() {
                None
            } else {
                let v = hex_val(s[i + 2]) * 4096 + hex_val(s[i + 3]) * 256 + hex_val(s[i + 4]) * 16
                    + hex_val(s[i + 5]);
                if hex_val(s[i + 2]) < 0 || hex_val(s[i + 3]) < 0 || hex_val(s[i + 4]) < 0
                    || hex_val(s[i + 5]) < 0 {
                    None
                } else if 0xD800 <= v <= 0xDFFF {
                    None
                } else {
                    parse_str_body(s, i + 6, acc.push(v as char))
                }
            }
        } else {
            None
        }
    }
}

/// A JSON string: a quote at `i`, then the body.
pub open spec fn parse_string(s: Seq<char>, i: int) -> Option<(Seq<char>, int)> {
    if 0 <= i < s.len() && s[i] == '"' {
        parse_str_body(s, i + 1, Seq::empty())
    } else {
        None
    }
}

/// One given character at `i`.
pub open spec fn expect_char(s: Seq<char>, i: int, c: char) -> Option<int> {
    if 0 <= i < s.len() && s[i] == c {
        Some(i + 1)
    } else {
        None
    }
}

/// A field name (a JSON string equal to `name`) and its colon, whitespace
/// allowed around both.
pub open spec fn parse_field_name(s: Seq<char>, i: int, name: Seq<char>) -> Option<int> {
    match parse_string(s, skip_ws(s, i)) {
        Option::None => None,
        Option::Some((f, j)) => {
            if f == name {
                expect_char(s, skip_ws(s, j), ':')
            } else {
                None
            }
        },
    }
}

/// One record: `{"key": <string>, "last_run": <number>, "count": <number>}`,
/// whitespace allowed between tokens, the count within `u32`.
pub open spec fn parse_entry(s: Seq<char>, i: int) -> Option<(RecModel, int)> {
    match expect_char(s, skip_ws(s, i), '{') {
        Option::None => None,
        Option::Some(i1) => match parse_field_name(s, i1, seq!['k', 'e', 'y']) {
            Option::None => None,
            Option::Some(i2) => match parse_string(s, skip_ws(s, i2)) {
                Option::None => None,
                Option::Some((key, i3)) => match expect_char(s, skip_ws(s, i3), ',') {
                    Option::None => None,
                    Option::Some(i4) => match parse_field_name(
                        s,
                        i4,
                        seq!['l', 'a', 's', 't', '_', 'r', 'u', 'n'],
                    ) {
                        Option::None => None,
                        Option::Some(i5) => match parse_num(s, skip_ws(s, i5)) {
                            Option::None => None,
                            Option::Some((last_run, i6)) => match expect_char(
                                s,
                                skip_ws(s, i6),
                                ',',
                            ) {
                                Option::None => None,
                                Option::Some(i7) => match parse_field_name(
                                    s,
                                    i7,
                                    seq!['c', 'o', 'u', 'n', 't'],
                                ) {
                                    Option::None => None,
                                    Option::Some(i8) => match parse_num(s, skip_ws(s, i8)) {
                                        Option::None => None,
                                        Option::Some((count, i9)) => {
                                            if count > u32::MAX {
                                                None
                                            } else {
                                                match expect_char(s, skip_ws(s, i9), '}') {
                                                    Option::None => None,
                                                    Option::Some(i10) => Some(
                                                        ((key, last_run, count as u32), i10),
                                                    ),
                                                }
                                            }
                                        },
                                    },
                                },
                            },
                        },
                    },
                },
            },
        },
    }
}

/// The records after the first: either a comma and another record, or the
/// closing bracket. The fuel bounds the recursion; one unit is spent per
/// record.
pub open spec fn parse_entries_rest(s: Seq<char>, i: int, acc: Seq<RecModel>, fuel: nat) -> Option<
    (Seq<RecModel>, int),
>
    decreases fuel,
{
    if fuel == 0 {
        None
    } else {
        let iw = skip_ws(s, i);
        if 0 <= iw < s.len() && s[iw] == ',' {
            match parse_entry(s, iw + 1) {
                Option::None => None,
                Option::Some((m, j)) => parse_entries_rest(
                    s,
                    j,
                    acc.push(m),
                    (fuel - 1) as nat,
                ),
            }
        } else if 0 <= iw < s.len() && s[iw] == ']' {
            Some((acc, iw + 1))
        } else {
            None
        }
    }
}

/// Finds the next position that holds no whitespace.
fn ws_skip(s: &str, i: usize) -> (j: usize)
    requires
        i <= s@.len(),
    ensures
        j as int == skip_ws(s@, i as int),
        i <= j <= s@.len(),
{
    let len = s.unicode_len();
    let mut j = i;
    loop
        invariant
            len == s@.len(),
            i <= j <= len,
            skip_ws(s@, i as int) == skip_ws(s@, j as int),
        decreases len - j,
    {
        if j >= len {
            return j;
        }
        let c = s.get_char(j);
        if !(c == ' ' || c == '\t' || c == '\n' || c == '\r') {
            return j;
        }
        j = j + 1;
    }
}

/// Reads a number.
fn num_parse(s: &str, i: usize) -> (r: Option<(u64, usize)>)
    requires
        i <= s@.len(),
    ensures
        match r {
            Some((v, j)) => parse_num(s@, i as int) == Some((v, j as int)) && i < j <= s@.len(),
            None => parse_num(s@, i as int) is None,
        },
{
    let len = s.unicode_len();
    if i >= len {
        return None;
    }
    let c0 = s.get_char(i);
    if !('0' <= c0 && c0 <= '9') {
        proof {
            assert(!is_dec_digit(s@[i as int]));
        }
        return None;
    }
    let mut j = i;
    let mut acc: u64 = 0;
    loop
        invariant
            len == s@.len(),
            i < len,
            is_dec_digit(s@[i as int]),
            i <= j <= len,
            parse_num_loop(s@, i as int, 0) == parse_num_loop(s@, j as int, acc),
        decreases len - j,
    {
        if j >= len {
            return Some((acc, j));
        }
        let c = s.get_char(j);
        if !('0' <= c && c <= '9') {
            return Some((acc, j));
        }
        let d = (c as u32 - 0x30) as u64;
        let wide: u128 = acc as u128 * 10 + d as u128;
        if wide > u64::MAX as u128 {
            return None;
        }
        acc = wide as u64;
        j = j + 1;
    }
}

/// Turns a Unicode scalar value into its character.
///
/// Relies on `char::from_u32`: for a value below 0x110000 and outside the
/// surrogate range it returns that scalar's character.
#[verifier::external_body]
fn char_from_u32(v: u32) -> (c: char)
    requires
        v < 0xD800 || (0xE000 <= v && v <= 0x10FFFF),
    ensures
        c == (v as char),
{
    char::from_u32(v).unwrap_or(' ')
}

/// The value of a hexadecimal digit character, or -1 as `None`.
fn hex_digit_val(c: char) -> (r: Option<u32>)
    ensures
        match r {
            Some(v) => hex_val(c) == v && v < 16,
            None => hex_val(c) < 0,
        },
{
    let u = c as u32;
    if 0x30 <= u && u <= 0x39 {
        Some(u - 0x30)
    } else if 0x61 <= u && u <= 0x66 {
        Some(u - 0x61 + 10)
    } else if 0x41 <= u && u <= 0x46 {
        Some(u - 0x41 + 10)
    } else {
        None
    }
}

/// Reads a JSON string starting at the opening quote.
fn string_parse(s: &str, i: usize) -> (r: Option<(String, usize)>)
    requires
        i <= s@.len(),
    ensures
        match r {
            Some((v, j)) => parse_string(s@, i as int) == Some((v@, j as int)) && i < j
                <= s@.len(),
            None => parse_string(s@, i as int) is None,
        },
{
    let len = s.unicode_len();
    if i >= len || s.get_char(i) != '"' {
        return None;
    }
    let mut j = i + 1;
    let mut acc = String::new();
    while j < len
        invariant
            len == s@.len(),
            i < len,
            s@[i as int] == '"',
            i + 1 <= j <= len,
            parse_str_body(s@, i as int + 1, Seq::<char>::empty()) == parse_str_body(
                s@,
                j as int,
                acc@,
            ),
        decreases len - j,
    {
        let c = s.get_char(j);
        if c == '"' {
            return Some((acc, j + 1));
        } else if c == '\\' {
            if j + 1 >= len {
                proof {
                    assert(s@[j as int] == '\\');
                    assert(parse_escape(s@, j as int, acc@) is None);
                    assert(parse_str_body(s@, j as int, acc@) is None);
                }
                return None;
            }
            let e = s.get_char(j + 1);
            if e == '"' {
                push_char(&mut acc, '"');
                j = j + 2;
            } else if e == '\\' {
                push_char(&mut acc, '\\');
                j = j + 2;
            } else if e == '/' {
                push_char(&mut acc, '/');
                j = j + 2;
            } else if e == 'b' {
                push_char(&mut acc, (8u8) as char);
                j = j + 2;
            } else if e == 'f' {
                push_char(&mut acc, (12u8) as char);
                j = j + 2;
            } else if e == 'n' {
                push_char(&mut acc, '\n');
                j = j + 2;
            } else if e == 'r' {
                push_char(&mut acc, '\r');
                j = j + 2;
            } else if e == 't' {
                push_char(&mut acc, '\t');
                j = j + 2;
            } else if e == 'u' {
                if len - j < 6 {
                    return None;
                }
                let h1 = hex_digit_val(s.get_char(j + 2));
                let h2 = hex_digit_val(s.get_char(j + 3));
                let h3 = hex_digit_val(s.get_char(j + 4));
                let h4 = hex_digit_val(s.get_char(j + 5));
                match (h1, h2, h3, h4) {
                    (Some(v1), Some(v2), Some(v3), Some(v4)) => {
                        let v = v1 * 4096 + v2 * 256 + v3 * 16 + v4;
                        if 0xD800 <= v && v <= 0xDFFF {
                            return None;
                        }
                        push_char(&mut acc, char_from_u32(v));
                        j = j + 6;
                    },
                    _ => {
                        proof {
                            assert(parse_escape(s@, j as int, acc@) is None);
                            assert(parse_str_body(s@, j as int, acc@) is None);
                        }
                        return None;
                    },
                }
            } else {
                return None;
            }
        } else if (c as u32) < 0x20 {
            return None;
        } else {
            push_char(&mut acc, c);
            j = j + 1;
        }
    }
    None
}

/// Reads one given character.
fn char_expect(s: &str, i: usize, c: char) -> (r: Option<usize>)
    requires
        i <= s@.len(),
    ensures
        match r {
            Some(j) => expect_char(s@, i as int, c) == Some(j as int) && i < j <= s@.len(),
            None => expect_char(s@, i as int, c) is None,
        },
{
    let len = s.unicode_len();
    if i < len && s.get_char(i) == c {
        Some(i + 1)
    } else {
        None
    }
}

/// Reads a field name equal to `name`, and its colon.
fn field_name_parse(s: &str, i: usize, name: &str) -> (r: Option<usize>)
    requires
        i <= s@.len(),
    ensures
        match r {
            Some(j) => parse_field_name(s@, i as int, name@) == Some(j as int) && j <= s@.len(),
            None => parse_field_name(s@, i as int, name@) is None,
        },
{
    let iw = ws_skip(s, i);
    match string_parse(s, iw) {
        Some((f, j)) => {
            if crate::strutil::str_eq(f.as_str(), name) {
                let jw = ws_skip(s, j);
                char_expect(s, jw, ':')
            } else {
                None
            }
        },
        None => None,
    }
}

/// Reads one record.
fn entry_parse(s: &str, i: usize) -> (r: Option<(RecentEntry, usize)>)
    requires
        i <= s@.len(),
    ensures
        match r {
            Some((e, j)) => parse_entry(s@, i as int) == Some((entry_model(e), j as int)) && j
                <= s@.len(),
            None => parse_entry(s@, i as int) is None,
        },
{
    proof {
        reveal_strlit("key");
        reveal_strlit("last_run");
        reveal_strlit("count");
        assert("key"@ =~= seq!['k', 'e', 'y']);
        assert("last_run"@ =~= seq!['l', 'a', 's', 't', '_', 'r', 'u', 'n']);
        assert("count"@ =~= seq!['c', 'o', 'u', 'n', 't']);
    }
    let iw = ws_skip(s, i);
    let i1 = match char_expect(s, iw, '{') {
        Some(j) => j,
        None => {
            return None;
        },
    };
    let i2 = match field_name_parse(s, i1, "key") {
        Some(j) => j,
        None => {
            return None;
        },
    };
    let i2w = ws_skip(s, i2);
    let (key, i3) = match string_parse(s, i2w) {
        Some(p) => p,
        None => {
            return None;
        },
    };
    let i3w = ws_skip(s, i3);
    let i4 = match char_expect(s, i3w, ',') {
        Some(j) => j,
        None => {
            return None;
        },
    };
    let i5 = match field_name_parse(s, i4, "last_run") {
        Some(j) => j,
        None => {
            return None;
        },
    };
    let i5w = ws_skip(s, i5);
    let (last_run, i6) = match num_parse(s, i5w) {
        Some(p) => p,
        None => {
            return None;
        },
    };
    let i6w = ws_skip(s, i6);
    let i7 = match char_expect(s, i6w, ',') {
        Some(j) => j,
        None => {
            return None;
        },
    };
    let i8 = match field_name_parse(s, i7, "count") {
        Some(j) => j,
        None => {
            return None;
        },
    };
    let i8w = ws_skip(s, i8);
    let (count, i9) = match num_parse(s, i8w) {
        Some(p) => p,
        None => {
            return None;
        },
    };
    if count > u32::MAX as u64 {
        return None;
    }
    let i9w = ws_skip(s, i9);
    let i10 = match char_expect(s, i9w, '}') {
        Some(j) => j,
        None => {
            return None;
        },
    };
    Some((RecentEntry { key, last_run, count: count as u32 }, i10))
}

/// A whole persisted store: a JSON array of records and nothing after it.
pub open spec fn parse_store(s: Seq<char>) -> Option<Seq<RecModel>> {
    match expect_char(s, skip_ws(s, 0), '[') {
        Option::None => None,
        Option::Some(i1) => {
            let i1w = skip_ws(s, i1);
            if 0 <= i1w < s.len() && s[i1w] == ']' {
                if skip_ws(s, i1w + 1) == s.len() {
                    Some(Seq::empty())
                } else {
                    None
                }
            } else {
                match parse_entry(s, i1) {
                    Option::None => None,
                    Option::Some((m, j)) => match parse_entries_rest(
                        s,
                        j,
                        seq![m],
                        (s.len() + 1) as nat,
                    ) {
                        Option::None => None,
                        Option::Some((ms, j2)) => {
                            if skip_ws(s, j2) == s.len() {
                                Some(ms)
                            } else {
                                None
                            }
                        },
                    },
                }
            }
        },
    }
}


/// Deserializes a persisted store: the records of a well-formed document, or
/// nothing for text the store format does not describe.
pub fn decode_recents(text: &str) -> (r: Option<Vec<RecentEntry>>)
    ensures
        match r {
            Some(v) => parse_store(text@) == Some(store_model(v@)),
            None => parse_store(text@) is None,
        },
{
    let len = text.unicode_len();
    let i0 = ws_skip(text, 0);
    let i1 = match char_expect(text, i0, '[') {
        Some(j) => j,
        None => {
            return None;
        },
    };
    let i1w = ws_skip(text, i1);
    if i1w < len && text.get_char(i1w) == ']' {
        if ws_skip(text, i1w + 1) == len {
            let out: Vec<RecentEntry> = Vec::new();
            proof {
                assert(store_model(out@) =~= Seq::<RecModel>::empty());
            }
            return Some(out);
        } else {
            return None;
        }
    }
    let (first, j_first) = match entry_parse(text, i1) {
        Some(p) => p,
        None => {
            return None;
        },
    };
    let mut out: Vec<RecentEntry> = Vec::new();
    out.push(first);
    let ghost m_first = store_model(out@);
    let ghost full_fuel = (text@.len() + 1) as nat;
    proof {
        assert(m_first =~= seq![entry_model(out@[0])]);
    }
    let mut j: usize = j_first;
    let mut fuel: u128 = len as u128 + 1;
    loop
        invariant
            len == text@.len(),
            j <= len,
            fuel <= len as u128 + 1,
            parse_entries_rest(text@, j_first as int, m_first, full_fuel) == parse_entries_rest(
                text@,
                j as int,
                store_model(out@),
                fuel as nat,
            ),
            (parse_store(text@) == match parse_entries_rest(
                text@,
                j_first as int,
                m_first,
                full_fuel,
            ) {
                Option::None => None::<Seq<RecModel>>,
                Option::Some((ms, j2)) => if skip_ws(text@, j2) == text@.len() {
                    Some(ms)
                } else {
                    None
                },
            }),
        decreases fuel,
    {
        if fuel == 0 {
            return None;
        }
        let iw = ws_skip(text, j);
        if iw < len && text.get_char(iw) == ',' {
            match entry_parse(text, iw + 1) {
                Some((e, j2)) => {
                    let ghost m_before = store_model(out@);
                    let ghost em = entry_model(e);
                    out.push(e);
                    proof {
                        assert(store_model(out@) =~= m_before.push(em));
                    }
                    j = j2;
                    fuel = fuel - 1;
                },
                None => {
                    return None;
                },
            }
        } else if iw < len && text.get_char(iw) == ']' {
            if ws_skip(text, iw + 1) == len {
                return Some(out);
            } else {
                return None;
            }
        } else {
            return None;
        }
    }
}

/// The value of a digit string read left to right onto an accumulator.
pub open spec fn val_acc(acc: int, ds: Seq<char>) -> int
    decreases ds.len(),
{
    if ds.len() == 0 {
        acc
    } else {
        val_acc(acc * 10 + digit_val(ds[0]), ds.drop_first())
    }
}

/// A decimal digit character's value lies between 0 and 9.
proof fn lemma_digit_char_val(c: char)
    ensures
        is_dec_digit(c) ==> 0 <= digit_val(c) <= 9,
{
}

/// Reading digits never shrinks a non-negative accumulator.
proof fn lemma_val_acc_ge(acc: int, ds: Seq<char>)
    requires
        acc >= 0,
        forall|t: int| 0 <= t < ds.len() ==> is_dec_digit(#[trigger] ds[t]),
    ensures
        val_acc(acc, ds) >= acc,
    decreases ds.len(),
{
    if ds.len() > 0 {
        assert(is_dec_digit(ds[0]));
        lemma_digit_char_val(ds[0]);
        assert forall|t: int| 0 <= t < ds.drop_first().len() implies is_dec_digit(
            #[trigger] ds.drop_first()[t],
        ) by {
            assert(ds.drop_first()[t] == ds[t + 1]);
        }
        lemma_val_acc_ge(acc * 10 + digit_val(ds[0]), ds.drop_first());
    }
}

/// Reading a concatenation reads its parts in turn.
proof fn lemma_val_acc_append(acc: int, a: Seq<char>, b: Seq<char>)
    ensures
        val_acc(acc, a + b) == val_acc(val_acc(acc, a), b),
    decreases a.len(),
{
    if a.len() == 0 {
        assert(a + b =~= b);
    } else {
        assert((a + b).drop_first() =~= a.drop_first() + b);
        assert((a + b)[0] == a[0]);
        lemma_val_acc_append(acc * 10 + digit_val(a[0]), a.drop_first(), b);
    }
}

/// A digit character round-trips through its value.
proof fn lemma_dec_digit_char(d: int)
    requires
        0 <= d < 10,
    ensures
        is_dec_digit(dec_digit(d)),
        digit_val(dec_digit(d)) == d,
{
    assert(dec_digit(d) as u32 == 0x30 + d);
}

/// Decimal texts hold only digits and at least one of them.
proof fn lemma_dec_of_digits(n: int)
    requires
        n >= 0,
    ensures
        dec_of(n).len() >= 1,
        forall|t: int| 0 <= t < dec_of(n).len() ==> is_dec_digit(#[trigger] dec_of(n)[t]),
    decreases n,
{
    if n < 10 {
        lemma_dec_digit_char(n);
    } else {
        lemma_dec_of_digits(n / 10);
        lemma_dec_digit_char(n % 10);
        assert forall|t: int| 0 <= t < dec_of(n).len() implies is_dec_digit(
            #[trigger] dec_of(n)[t],
        ) by {
            if t < dec_of(n / 10).len() {
                assert(dec_of(n)[t] == dec_of(n / 10)[t]);
            } else {
                assert(dec_of(n)[t] == dec_digit(n % 10));
            }
        }
    }
}

/// Reading back a number's decimal text gives the number.
proof fn lemma_val_acc_dec(n: int)
    requires
        n >= 0,
    ensures
        val_acc(0, dec_of(n)) == n,
    decreases n,
{
    if n < 10 {
        lemma_dec_digit_char(n);
        assert(dec_of(n) == seq![dec_digit(n)]);
        assert(seq![dec_digit(n)][0] == dec_digit(n));
        assert(seq![dec_digit(n)].drop_first() =~= Seq::<char>::empty());
        assert(val_acc(0 * 10 + digit_val(dec_digit(n)), Seq::<char>::empty()) == n);
    } else {
        lemma_val_acc_dec(n / 10);
        lemma_dec_digit_char(n % 10);
        lemma_val_acc_append(0, dec_of(n / 10), seq![dec_digit(n % 10)]);
        assert(val_acc(n / 10, seq![dec_digit(n % 10)]) == (n / 10) * 10 + n % 10) by {
            assert(seq![dec_digit(n % 10)][0] == dec_digit(n % 10));
            assert(seq![dec_digit(n % 10)].drop_first() =~= Seq::<char>::empty());
            assert(val_acc((n / 10) * 10 + digit_val(dec_digit(n % 10)), Seq::<char>::empty())
                == (n / 10) * 10 + n % 10);
        }
        vstd::arithmetic::div_mod::lemma_fundamental_div_mod(n, 10);
    }
}

/// Reading digits from a text that holds them, up to a non-digit, yields
/// their accumulated value.
proof fn lemma_parse_num_loop_digits(s: Seq<char>, i: int, j: int, acc: u64)
    requires
        0 <= i <= j <= s.len(),
        forall|t: int| i <= t < j ==> is_dec_digit(#[trigger] s[t]),
        j == s.len() || !is_dec_digit(s[j]),
        val_acc(acc as int, s.subrange(i, j)) <= u64::MAX,
    ensures
        parse_num_loop(s, i, acc) == Some((val_acc(acc as int, s.subrange(i, j)) as u64, j)),
    decreases j - i,
{
    let sub = s.subrange(i, j);
    if i == j {
        assert(sub.len() == 0);
    } else {
        assert(is_dec_digit(s[i]));
        lemma_digit_char_val(s[i]);
        assert(sub[0] == s[i]);
        assert(sub.drop_first() =~= s.subrange(i + 1, j));
        let acc2 = acc as int * 10 + digit_val(s[i]);
        assert forall|t: int| 0 <= t < sub.drop_first().len() implies is_dec_digit(
            #[trigger] sub.drop_first()[t],
        ) by {
            assert(sub.drop_first()[t] == s[i + 1 + t]);
        }
        lemma_val_acc_ge(acc2, s.subrange(i + 1, j));
        assert(acc2 <= u64::MAX);
        lemma_parse_num_loop_digits(s, i + 1, j, acc2 as u64);
    }
}

/// Reading back an encoded number at its place in a larger text gives the
/// number, stopping right after it.
proof fn lemma_parse_num_of_enc(s: Seq<char>, i: int, n: u64)
    requires
        0 <= i,
        i + dec_of(n as int).len() <= s.len(),
        s.subrange(i, i + dec_of(n as int).len()) == dec_of(n as int),
        i + dec_of(n as int).len() == s.len() || !is_dec_digit(s[i + dec_of(n as int).len()]),
    ensures
        parse_num(s, i) == Some((n, i + dec_of(n as int).len())),
{
    let len = dec_of(n as int).len();
    lemma_dec_of_digits(n as int);
    lemma_val_acc_dec(n as int);
    assert forall|t: int| i <= t < i + len implies is_dec_digit(#[trigger] s[t]) by {
        assert(s[t] == dec_of(n as int)[t - i]);
    }
    assert(s[i] == dec_of(n as int)[0]);
    lemma_parse_num_loop_digits(s, i, i + len, 0);
}

/// A character round-trips through its scalar value.
proof fn lemma_char_scalar(c: char)
    ensures
        ((c as u32) as char) == c,
        c as u32 <= 0x10FFFF,
{
}

/// A hexadecimal digit character reads back as its value.
proof fn lemma_hex_val_digit(d: int)
    requires
        0 <= d < 16,
    ensures
        hex_val(hex_digit(d)) == d,
{
    if d < 10 {
        assert(hex_digit(d) as u32 == 0x30 + d);
    } else {
        assert(hex_digit(d) as u32 == 0x61 + (d - 10));
    }
}

/// Reading back an escaped string body followed by its closing quote yields
/// the original characters.
proof fn lemma_parse_str_body_of_enc(s: Seq<char>, i: int, content: Seq<char>, acc: Seq<char>)
    requires
        0 <= i,
        i + enc_str_body(content).len() + 1 <= s.len(),
        s.subrange(i, i + enc_str_body(content).len() + 1) == enc_str_body(content) + seq!['"'],
    ensures
        parse_str_body(s, i, acc) == Some(
            (acc + content, i + enc_str_body(content).len() + 1),
        ),
    decreases content.len(),
{
    let body = enc_str_body(content);
    if content.len() == 0 {
        assert(body.len() == 0);
        assert(s[i] == (body + seq!['"'])[0]);
        assert(s[i] == '"');
        assert(acc + content =~= acc);
    } else {
        let c = content[0];
        let e = esc_char(c);
        let rest = content.drop_first();
        let rbody = enc_str_body(rest);
        assert(body == e + rbody);
        assert forall|t: int| 0 <= t < e.len() implies s[i + t] == e[t] by {
            assert(s[i + t] == (body + seq!['"'])[t]);
            assert((e + rbody)[t] == e[t]);
        }
        assert(s[i + 0] == e[0]);
        assert(s[i] == e[0]);
        let i2 = i + e.len();
        assert(s.subrange(i2, i2 + rbody.len() + 1) =~= rbody + seq!['"']) by {
            assert forall|t: int| 0 <= t < rbody.len() + 1 implies s.subrange(
                i2,
                i2 + rbody.len() + 1,
            )[t] == (rbody + seq!['"'])[t] by {
                assert(s[i2 + t] == (body + seq!['"'])[e.len() + t]);
            }
        }
        lemma_char_scalar(c);
        if c == '"' {
            assert(s[i] == '\\' && s[i + 1] == '"');
            lemma_parse_str_body_of_enc(s, i2, rest, acc.push('"'));
            assert(acc.push('"') + rest =~= acc + content);
            assert(parse_str_body(s, i, acc) == parse_escape(s, i, acc));
            assert(parse_escape(s, i, acc) == parse_str_body(s, i + 2, acc.push('"')));
        } else if c == '\\' {
            assert(s[i] == '\\' && s[i + 1] == '\\');
            lemma_parse_str_body_of_enc(s, i2, rest, acc.push('\\'));
            assert(acc.push('\\') + rest =~= acc + content);
            assert(parse_str_body(s, i, acc) == parse_escape(s, i, acc));
            assert(parse_escape(s, i, acc) == parse_str_body(s, i + 2, acc.push('\\')));
        } else if (c as u32) < 0x20 {
            assert(s[i] == '\\' && s[i + 1] == 'u' && s[i + 2] == '0' && s[i + 3] == '0');
            assert(s[i + 4] == hex_digit(c as int / 16));
            assert(s[i + 5] == hex_digit(c as int % 16));
            assert(hex_val('0') == 0);
            lemma_hex_val_digit(c as int / 16);
            lemma_hex_val_digit(c as int % 16);
            let v = hex_val(s[i + 2]) * 4096 + hex_val(s[i + 3]) * 256 + hex_val(s[i + 4]) * 16
                + hex_val(s[i + 5]);
            assert(v == (c as int / 16) * 16 + c as int % 16);
            vstd::arithmetic::div_mod::lemma_fundamental_div_mod(c as int, 16);
            assert(v == c as u32);
            assert((v as char) == c);
            lemma_parse_str_body_of_enc(s, i2, rest, acc.push(c));
            assert(acc.push(c) + rest =~= acc + content);
            assert(parse_str_body(s, i, acc) == parse_escape(s, i, acc));
            assert(parse_escape(s, i, acc) == parse_str_body(s, i + 6, acc.push(c)));
        } else {
            assert(s[i] == c);
            assert(c != '"' && c != '\\' && (c as u32) >= 0x20);
            lemma_parse_str_body_of_enc(s, i + 1, rest, acc.push(c));
            assert(acc.push(c) + rest =~= acc + content);
            assert(parse_str_body(s, i, acc) == parse_str_body(s, i + 1, acc.push(c)));
        }
    }
}

/// A window that holds a concatenation splits into windows holding the parts.
proof fn lemma_subrange_split(s: Seq<char>, i: int, a: Seq<char>, b: Seq<char>)
    requires
        0 <= i,
        i + a.len() + b.len() <= s.len(),
        s.subrange(i, i + a.len() + b.len()) == a + b,
    ensures
        s.subrange(i, i + a.len()) == a,
        s.subrange(i + a.len(), i + a.len() + b.len()) == b,
{
    assert forall|t: int| 0 <= t < a.len() implies s.subrange(i, i + a.len())[t] == a[t] by {
        assert(s[i + t] == (a + b)[t]);
    }
    assert(s.subrange(i, i + a.len()) =~= a);
    assert forall|t: int| 0 <= t < b.len() implies s.subrange(
        i + a.len(),
        i + a.len() + b.len(),
    )[t] == b[t] by {
        assert(s[i + a.len() + t] == (a + b)[a.len() + t]);
    }
    assert(s.subrange(i + a.len(), i + a.len() + b.len()) =~= b);
}

/// Reading back an encoded string at its place gives the original characters.
proof fn lemma_parse_string_of_enc(s: Seq<char>, i: int, content: Seq<char>)
    requires
        0 <= i,
        i + enc_string(content).len() <= s.len(),
        s.subrange(i, i + enc_string(content).len()) == enc_string(content),
    ensures
        parse_string(s, i) == Some((content, i + enc_string(content).len())),
{
    let body = enc_str_body(content);
    assert(s[i] == enc_string(content)[0]);
    assert(enc_string(content)[0] == '"');
    assert(s.subrange(i + 1, i + 1 + body.len() + 1) =~= body + seq!['"']) by {
        assert forall|t: int| 0 <= t < body.len() + 1 implies s.subrange(
            i + 1,
            i + 1 + body.len() + 1,
        )[t] == (body + seq!['"'])[t] by {
            assert(s[i + 1 + t] == enc_string(content)[1 + t]);
            assert(enc_string(content)[1 + t] == ((seq!['"'] + body) + seq!['"'])[1 + t]);
        }
    }
    lemma_parse_str_body_of_enc(s, i + 1, content, Seq::empty());
    assert(Seq::<char>::empty() + content =~= content);
}

/// Whitespace skipping stands still on a non-whitespace character.
proof fn lemma_skip_ws_noop(s: Seq<char>, i: int)
    requires
        0 <= i < s.len(),
        !is_json_ws(s[i]),
    ensures
        skip_ws(s, i) == i,
{
}

/// Reading back an encoded field name and its colon lands right after them.
proof fn lemma_parse_field_name_of_enc(s: Seq<char>, i: int, name: Seq<char>)
    requires
        0 <= i,
        i + enc_string(name).len() + 1 <= s.len(),
        s.subrange(i, i + enc_string(name).len() + 1) == enc_string(name) + seq![':'],
    ensures
        parse_field_name(s, i, name) == Some(i + enc_string(name).len() + 1),
{
    let sl = enc_string(name).len();
    lemma_subrange_split(s, i, enc_string(name), seq![':']);
    assert(s[i] == enc_string(name)[0]);
    assert(enc_string(name)[0] == '"');
    lemma_skip_ws_noop(s, i);
    lemma_parse_string_of_enc(s, i, name);
    assert(s.subrange(i + sl, i + sl + 1)[0] == s[i + sl]);
    assert(s[i + sl] == ':');
    lemma_skip_ws_noop(s, i + sl);
}

/// Reading back an encoded record at its place gives the record, stopping
/// right after it.
#[verifier::rlimit(100)]
#[verifier::spinoff_prover]
proof fn lemma_parse_entry_of_enc(s: Seq<char>, i: int, m: RecModel)
    requires
        0 <= i,
        i + enc_entry(m).len() <= s.len(),
        s.subrange(i, i + enc_entry(m).len()) == enc_entry(m),
    ensures
        parse_entry(s, i) == Some((m, i + enc_entry(m).len())),
{
    let kn = seq!['k', 'e', 'y'];
    let ln = seq!['l', 'a', 's', 't', '_', 'r', 'u', 'n'];
    let cn = seq!['c', 'o', 'u', 'n', 't'];
    let q1 = enc_string(kn) + seq![':'];
    let q2 = enc_string(m.0);
    let q3 = enc_string(ln) + seq![':'];
    let q4 = dec_of(m.1 as int);
    let q5 = enc_string(cn) + seq![':'];
    let q6 = dec_of(m.2 as int);
    let whole = enc_entry(m);
    assert(whole =~= seq!['{'] + (q1 + (q2 + (seq![','] + (q3 + (q4 + (seq![','] + (q5 + (q6
        + seq!['}'])))))))));
    let r0 = i + 1;
    lemma_subrange_split(
        s,
        i,
        seq!['{'],
        q1 + (q2 + (seq![','] + (q3 + (q4 + (seq![','] + (q5 + (q6 + seq!['}']))))))),
    );
    assert(s[i] == s.subrange(i, i + 1)[0]);
    assert(s[i] == '{');
    lemma_skip_ws_noop(s, i);
    let r1 = r0 + q1.len();
    lemma_subrange_split(
        s,
        r0,
        q1,
        q2 + (seq![','] + (q3 + (q4 + (seq![','] + (q5 + (q6 + seq!['}'])))))),
    );
    lemma_parse_field_name_of_enc(s, r0, kn);
    let r2 = r1 + q2.len();
    lemma_subrange_split(s, r1, q2, seq![','] + (q3 + (q4 + (seq![','] + (q5 + (q6 + seq!['}']))))));
    assert(s[r1] == q2[0]);
    assert(q2[0] == '"');
    lemma_skip_ws_noop(s, r1);
    lemma_parse_string_of_enc(s, r1, m.0);
    let r3 = r2 + 1;
    lemma_subrange_split(s, r2, seq![','], q3 + (q4 + (seq![','] + (q5 + (q6 + seq!['}'])))));
    assert(s[r2] == s.subrange(r2, r2 + 1)[0]);
    assert(s[r2] == ',');
    lemma_skip_ws_noop(s, r2);
    let r4 = r3 + q3.len();
    lemma_subrange_split(s, r3, q3, q4 + (seq![','] + (q5 + (q6 + seq!['}']))));
    lemma_parse_field_name_of_enc(s, r3, ln);
    let r5 = r4 + q4.len();
    lemma_subrange_split(s, r4, q4, seq![','] + (q5 + (q6 + seq!['}'])));
    lemma_dec_of_digits(m.1 as int);
    assert(s[r4] == q4[0]);
    lemma_digit_char_val(q4[0]);
    assert(!is_json_ws(s[r4]));
    lemma_skip_ws_noop(s, r4);
    assert(s[r5] == s.subrange(r5, r5 + (seq![','] + (q5 + (q6 + seq!['}']))).len())[0]);
    assert(s[r5] == ',');
    assert(!is_dec_digit(s[r5]));
    lemma_parse_num_of_enc(s, r4, m.1);
    lemma_skip_ws_noop(s, r5);
    let r6 = r5 + 1;
    lemma_subrange_split(s, r5, seq![','], q5 + (q6 + seq!['}']));
    let r7 = r6 + q5.len();
    lemma_subrange_split(s, r6, q5, q6 + seq!['}']);
    lemma_parse_field_name_of_enc(s, r6, cn);
    let r8 = r7 + q6.len();
    lemma_subrange_split(s, r7, q6, seq!['}']);
    lemma_dec_of_digits(m.2 as int);
    assert(s[r7] == q6[0]);
    lemma_digit_char_val(q6[0]);
    assert(!is_json_ws(s[r7]));
    lemma_skip_ws_noop(s, r7);
    assert(s[r8] == s.subrange(r8, r8 + 1)[0]);
    assert(s[r8] == '}');
    assert(!is_dec_digit(s[r8]));
    lemma_parse_num_of_enc(s, r7, m.2 as u64);
    lemma_skip_ws_noop(s, r8);
    assert(r8 + 1 == i + whole.len());
    assert(((m.2 as u64) as u32) == m.2);
    assert((m.0, m.1, (m.2 as u64) as u32) == m);
}

/// The encoded records after the first: each preceded by its comma.
spec fn enc_tail(rest: Seq<RecModel>) -> Seq<char>
    decreases rest.len(),
{
    if rest.len() == 0 {
        Seq::empty()
    } else {
        seq![','] + enc_entry(rest[0]) + enc_tail(rest.drop_first())
    }
}

/// A non-empty store's encoded records are the first record and the tail.
proof fn lemma_enc_entries_tail(m: Seq<RecModel>)
    requires
        m.len() >= 1,
    ensures
        enc_entries(m) == enc_entry(m[0]) + enc_tail(m.drop_first()),
    decreases m.len(),
{
    if m.len() == 1 {
        assert(enc_tail(m.drop_first()) =~= Seq::<char>::empty());
        assert(enc_entry(m[0]) + Seq::<char>::empty() =~= enc_entry(m[0]));
    } else {
        lemma_enc_entries_tail(m.drop_first());
        assert(m.drop_first()[0] == m[1]);
        assert(m.drop_first().drop_first() =~= m.drop_first().drop_first());
        assert(enc_entries(m) == enc_entry(m[0]) + seq![','] + enc_entries(m.drop_first()));
        assert(enc_entry(m[0]) + seq![','] + (enc_entry(m[1]) + enc_tail(
            m.drop_first().drop_first(),
        )) =~= enc_entry(m[0]) + enc_tail(m.drop_first()));
    }
}

/// The tail text holds at least one character per record.
proof fn lemma_enc_tail_len(rest: Seq<RecModel>)
    ensures
        enc_tail(rest).len() >= rest.len(),
    decreases rest.len(),
{
    if rest.len() > 0 {
        lemma_enc_tail_len(rest.drop_first());
    }
}

/// Reading back an encoded record tail up to the closing bracket at the end
/// of the text appends exactly those records.
proof fn lemma_parse_entries_rest_of_enc(
    s: Seq<char>,
    i: int,
    rest: Seq<RecModel>,
    acc: Seq<RecModel>,
    fuel: nat,
)
    requires
        0 <= i,
        i + enc_tail(rest).len() + 1 == s.len(),
        s.subrange(i, s.len() as int) == enc_tail(rest) + seq![']'],
        fuel >= rest.len() + 1,
    ensures
        parse_entries_rest(s, i, acc, fuel) == Some((acc + rest, s.len() as int)),
    decreases rest.len(),
{
    if rest.len() == 0 {
        assert(enc_tail(rest).len() == 0);
        assert(s[i] == s.subrange(i, s.len() as int)[0]);
        assert(s[i] == ']');
        lemma_skip_ws_noop(s, i);
        assert(acc + rest =~= acc);
    } else {
        let m0 = rest[0];
        let rest2 = rest.drop_first();
        let ee = enc_entry(m0);
        assert(enc_tail(rest) + seq![']'] =~= seq![','] + (ee + (enc_tail(rest2) + seq![']'])));
        lemma_subrange_split(s, i, seq![','], ee + (enc_tail(rest2) + seq![']']));
        assert(s[i] == s.subrange(i, i + 1)[0]);
        assert(s[i] == ',');
        lemma_skip_ws_noop(s, i);
        lemma_subrange_split(s, i + 1, ee, enc_tail(rest2) + seq![']']);
        lemma_parse_entry_of_enc(s, i + 1, m0);
        let j = i + 1 + ee.len();
        lemma_parse_entries_rest_of_enc(s, j, rest2, acc.push(m0), (fuel - 1) as nat);
        assert(acc.push(m0) + rest2 =~= acc + rest);
    }
}

/// Decoding what the encoder wrote of an empty store gives it back.
proof fn lemma_store_round_trip_empty(m: Seq<RecModel>)
    requires
        m.len() == 0,
    ensures
        parse_store(enc_store(m)) == Some(m),
{
    let s = enc_store(m);
    assert(enc_entries(m).len() == 0);
    assert(s =~= seq!['['] + seq![']']);
    assert(s[0] == '[');
    lemma_skip_ws_noop(s, 0);
    assert(s[1] == ']');
    assert(s.len() == 2);
    assert(skip_ws(s, 2) == 2);
    assert(m =~= Seq::<RecModel>::empty());
}

/// Decoding what the encoder wrote of a non-empty store gives it back.
#[verifier::rlimit(100)]
#[verifier::spinoff_prover]
proof fn lemma_store_round_trip_some(m: Seq<RecModel>)
    requires
        m.len() >= 1,
    ensures
        parse_store(enc_store(m)) == Some(m),
{
    let s = enc_store(m);
    let es = enc_entries(m);
    assert(s[0] == '[');
    lemma_skip_ws_noop(s, 0);
    assert(expect_char(s, 0, '[') == Some(1int));
    lemma_enc_entries_tail(m);
    let m0 = m[0];
    let rest = m.drop_first();
    let ee = enc_entry(m0);
    let tail = enc_tail(rest);
    assert(s.len() == 1 + ee.len() + tail.len() + 1);
    assert forall|t: int| 0 <= t < es.len() implies s[1 + t] == es[t] by {}
    assert(s.subrange(1, 1 + ee.len() as int) =~= ee) by {
        assert forall|t: int| 0 <= t < ee.len() implies s.subrange(1, 1 + ee.len() as int)[t]
            == ee[t] by {
            assert(s[1 + t] == es[t]);
            assert(es[t] == (ee + tail)[t]);
        }
    }
    let j: int = 1 + ee.len() as int;
    assert(s.subrange(j, s.len() as int) =~= tail + seq![']']) by {
        assert forall|t: int| 0 <= t < tail.len() + 1 implies s.subrange(j, s.len() as int)[t]
            == (tail + seq![']'])[t] by {
            if t < tail.len() {
                assert(s[j + t] == es[ee.len() + t]);
                assert(es[ee.len() + t] == (ee + tail)[ee.len() + t]);
            } else {
                assert(s[j + t] == ']');
            }
        }
    }
    assert(s[1] == es[0]);
    assert(es[0] == (ee + tail)[0]);
    assert(ee[0] == '{');
    lemma_skip_ws_noop(s, 1);
    lemma_parse_entry_of_enc(s, 1, m0);
    assert(parse_entry(s, 1) == Some((m0, j)));
    lemma_enc_tail_len(rest);
    lemma_parse_entries_rest_of_enc(s, j, rest, seq![m0], (s.len() + 1) as nat);
    assert(parse_entries_rest(s, j, seq![m0], (s.len() + 1) as nat) == Some(
        (seq![m0] + rest, s.len() as int),
    ));
    assert(seq![m0] + rest =~= m);
    assert(skip_ws(s, s.len() as int) == s.len() as int);
}

/// Decoding what the encoder wrote gives the store back unchanged: the
/// persisted form loses nothing.
pub proof fn lemma_store_round_trip(m: Seq<RecModel>)
    ensures
        parse_store(enc_store(m)) == Some(m),
{
    if m.len() == 0 {
        lemma_store_round_trip_empty(m);
    } else {
        lemma_store_round_trip_some(m);
    }
}

} // verus!
