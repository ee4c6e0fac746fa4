//! The on-disk format of a record: one JSON object per file holding the four
//! fields of [`Data`] as string members. [`encode_record`] writes one
//! canonical frame: members in declaration order, no insignificant
//! whitespace, a fixed escaping. [`decode_record`] accepts every JSON
//! serialization of a record: members in any order, insignificant whitespace,
//! and the standard JSON escape forms, including `\uXXXX` with either hex
//! case and surrogate pairs.

use vstd::prelude::*;

use crate::record::Data;
use crate::record::DataView;
use crate::record::DbError;
use crate::record::OperationType;

verus! {

/// The code point of a character.
pub open spec fn code_of(c: char) -> int {
    (c as u32) as int
}

/// The character with code point `v`, for valid code points.
pub open spec fn char_of(v: int) -> char {
    (v as u32) as char
}

/// The lower-case hexadecimal digit for `v`, for `0 <= v < 16`.
pub open spec fn hex_digit(v: int) -> char {
    if v < 10 {
        char_of(48 + v)
    } else {
        char_of(87 + v)
    }
}

/// Whether `c` is a hexadecimal digit, of either case.
pub open spec fn is_hex(c: char) -> bool {
    (48 <= code_of(c) && code_of(c) <= 57) || (97 <= code_of(c) && code_of(c) <= 102) || (65
        <= code_of(c) && code_of(c) <= 70)
}

/// The value of the hexadecimal digit `c`.
pub open spec fn hex_val(c: char) -> int {
    if code_of(c) <= 57 {
        code_of(c) - 48
    } else if code_of(c) >= 97 {
        code_of(c) - 87
    } else {
        code_of(c) - 55
    }
}

/// Whether `c` is JSON whitespace: space, tab, line feed or carriage return.
pub open spec fn is_ws(c: char) -> bool {
    code_of(c) == 32 || code_of(c) == 9 || code_of(c) == 10 || code_of(c) == 13
}

/// The canonical escaping of one character inside a quoted JSON string:
/// quote, backslash and the common control characters get their short
/// escapes, every other control character a `\u00..` escape, and every
/// remaining character stands for itself.
pub open spec fn escape_char(c: char) -> Seq<char> {
    if c == '"' {
        seq!['\\', '"']
    } else if c == '\\' {
        seq!['\\', '\\']
    } else if c == '\n' {
        seq!['\\', 'n']
    } else if c == '\r' {
        seq!['\\', 'r']
    } else if c == '\t' {
        seq!['\\', 't']
    } else if code_of(c) < 32 {
        seq!['\\', 'u', '0', '0', hex_digit(code_of(c) / 16), hex_digit(code_of(c) % 16)]
    } else {
        seq![c]
    }
}

/// The canonical escaping of a whole string, character by character.
pub open spec fn escape_seq(s: Seq<char>) -> Seq<char>
    decreases s.len(),
{
    if s.len() == 0 {
        Seq::empty()
    } else {
        escape_char(s[0]) + escape_seq(s.skip(1))
    }
}

/// A string as the canonical frame writes it: quoted and escaped.
pub open spec fn quoted(v: Seq<char>) -> Seq<char> {
    seq!['"'] + escape_seq(v) + seq!['"']
}

/// The tag text under which an operation type is stored.
pub open spec fn op_name(op: OperationType) -> Seq<char> {
    match op {
        OperationType::Insert => "Insert"@,
        OperationType::Update => "Update"@,
        OperationType::Delete => "Delete"@,
    }
}

/// The canonical frame of a record: a JSON object holding the partition key,
/// the sort key, the value and the operation type, in that order, without
/// insignificant whitespace.
pub open spec fn encode_spec(d: DataView) -> Seq<char> {
    seq!['{'] + quoted("partition_key"@) + seq![':'] + quoted(d.partition_key) + seq![',']
        + quoted("sort_key"@) + seq![':'] + quoted(d.sort_key) + seq![','] + quoted("value"@)
        + seq![':'] + quoted(d.value) + seq![','] + quoted("operation_type"@) + seq![':'] + quoted(
        op_name(d.operation_type),
    ) + seq!['}']
}

/// The first position at or after `i` that does not hold JSON whitespace.
pub open spec fn skip_ws(s: Seq<char>, i: int) -> int
    decreases s.len() - i,
{
    if 0 <= i < s.len() && is_ws(s[i]) {
        skip_ws(s, i + 1)
    } else {
        i
    }
}

/// Matches the single character `c` at position `i` of `s`.
pub open spec fn expect_char(s: Seq<char>, i: int, c: char) -> Option<int> {
    if 0 <= i < s.len() && s[i] == c {
        Some(i + 1)
    } else {
        None
    }
}

/// Parses the escaped body of a quoted JSON string starting at position `i`,
/// stopping in front of the closing quote: the unescaped text and the
/// position of that quote. All standard escape forms are accepted: the short
/// escapes, `\uXXXX` with hex digits of either case, and surrogate pairs for
/// code points beyond the basic plane. Unescaped control characters and lone
/// surrogates are rejected.
pub open spec fn parse_string_body(s: Seq<char>, i: int) -> Option<(Seq<char>, int)>
    decreases s.len() - i,
{
    if i < 0 || i >= s.len() {
        None
    } else {
        let c = s[i];
        if c == '"' {
            Some((Seq::empty(), i))
        } else if c == '\\' {
            if i + 1 >= s.len() {
                None
            } else {
                let e = s[i + 1];
                if e == '"' || e == '\\' || e == '/' || e == 'b' || e == 'f' || e == 'n' || e == 'r'
                    || e == 't' {
                    let decoded = if e == '"' {
                        '"'
                    } else if e == '\\' {
                        '\\'
                    } else if e == '/' {
                        '/'
                    } else if e == 'b' {
                        char_of(8)
                    } else if e == 'f' {
                        char_of(12)
                    } else if e == 'n' {
                        '\n'
                    } else if e == 'r' {
                        '\r'
                    } else {
                        '\t'
                    };
                    match parse_string_body(s, i + 2) {
                        Some((tail, j)) => Some((seq![decoded] + tail, j)),
                        None => None,
                    }
                } else if e == 'u' {
                    if i + 5 >= s.len() {
                        None
                    } else if is_hex(s[i + 2]) && is_hex(s[i + 3]) && is_hex(s[i + 4]) && is_hex(
                        s[i + 5],
                    ) {
                        let v = 4096 * hex_val(s[i + 2]) + 256 * hex_val(s[i + 3]) + 16 * hex_val(
                            s[i + 4],
                        ) + hex_val(s[i + 5]);
                        if v < 0xD800 || v > 0xDFFF {
                            match parse_string_body(s, i + 6) {
                                Some((tail, j)) => Some((seq![char_of(v)] + tail, j)),
                                None => None,
                            }
                        } else if v < 0xDC00 {
                            if i + 11 >= s.len() {
                                None
                            } else if s[i + 6] == '\\' && s[i + 7] == 'u' && is_hex(s[i + 8])
                                && is_hex(s[i + 9]) && is_hex(s[i + 10]) && is_hex(s[i + 11]) {
                                let w = 4096 * hex_val(s[i + 8]) + 256 * hex_val(s[i + 9]) + 16
                                    * hex_val(s[i + 10]) + hex_val(s[i + 11]);
                                if 0xDC00 <= w <= 0xDFFF {
                                    let code = 0x10000 + (v - 0xD800) * 0x400 + (w - 0xDC00);
                                    match parse_string_body(s, i + 12) {
                                        Some((tail, j)) => Some((seq![char_of(code)] + tail, j)),
                                        None => None,
                                    }
                                } else {
                                    None
                                }
                            } else {
                                None
                            }
                        } else {
                            None
                        }
                    } else {
                        None
                    }
                } else {
                    None
                }
            }
        } else if code_of(c) < 32 {
            None
        } else {
            match parse_string_body(s, i + 1) {
                Some((tail, j)) => Some((seq![c] + tail, j)),
                None => None,
            }
        }
    }
}

/// Parses a whole quoted JSON string at position `i`: the unescaped text and
/// the position just past the closing quote.
pub open spec fn parse_string(s: Seq<char>, i: int) -> Option<(Seq<char>, int)> {
    if expect_char(s, i, '"') is Some {
        match parse_string_body(s, i + 1) {
            Some((v, j)) => Some((v, j + 1)),
            None => None,
        }
    } else {
        None
    }
}

/// Parses one object member at position `i`: a quoted key, a colon and a
/// quoted value, with whitespace around the colon.
pub open spec fn parse_member(s: Seq<char>, i: int) -> Option<((Seq<char>, Seq<char>), int)> {
    match parse_string(s, i) {
        Some((key, j1)) => match expect_char(s, skip_ws(s, j1), ':') {
            Some(j2) => match parse_string(s, skip_ws(s, j2)) {
                Some((value, j3)) => Some(((key, value), j3)),
                None => None,
            },
            None => None,
        },
        None => None,
    }
}

/// The value of the first member with the given key, if any.
pub open spec fn find_member(pairs: Seq<(Seq<char>, Seq<char>)>, name: Seq<char>) -> Option<
    Seq<char>,
>
    decreases pairs.len(),
{
    if pairs.len() == 0 {
        None
    } else if pairs[0].0 == name {
        Some(pairs[0].1)
    } else {
        find_member(pairs.skip(1), name)
    }
}

/// The operation type a tag text stands for, if any.
pub open spec fn tag_of(v: Seq<char>) -> Option<OperationType> {
    if v == "Insert"@ {
        Some(OperationType::Insert)
    } else if v == "Update"@ {
        Some(OperationType::Update)
    } else if v == "Delete"@ {
        Some(OperationType::Delete)
    } else {
        None
    }
}

/// The record that a list of members stands for: each of the four field
/// names present, the operation tag one of the three known ones.
pub open spec fn assemble_record(pairs: Seq<(Seq<char>, Seq<char>)>) -> Option<DataView> {
    match (
        find_member(pairs, "partition_key"@),
        find_member(pairs, "sort_key"@),
        find_member(pairs, "value"@),
        find_member(pairs, "operation_type"@),
    ) {
        (Some(pk), Some(sk), Some(value), Some(tag)) => match tag_of(tag) {
            Some(op) => Some(
                DataView { partition_key: pk, sort_key: sk, value, operation_type: op },
            ),
            None => None,
        },
        _ => None,
    }
}

/// The record that the payload `s` stands for, if `s` is a JSON
/// serialization of one: an object with exactly the four members, in any
/// order, with insignificant whitespace allowed between tokens. This is the
/// functional specification of [`decode_record`].
pub open spec fn decode_spec(s: Seq<char>) -> Option<DataView> {
    match expect_char(s, skip_ws(s, 0), '{') {
        Some(i1) => match parse_member(s, skip_ws(s, i1)) {
            Some((m1, j1)) => match expect_char(s, skip_ws(s, j1), ',') {
                Some(i2) => match parse_member(s, skip_ws(s, i2)) {
                    Some((m2, j2)) => match expect_char(s, skip_ws(s, j2), ',') {
                        Some(i3) => match parse_member(s, skip_ws(s, i3)) {
                            Some((m3, j3)) => match expect_char(s, skip_ws(s, j3), ',') {
                                Some(i4) => match parse_member(s, skip_ws(s, i4)) {
                                    Some((m4, j4)) => match expect_char(s, skip_ws(s, j4), '}') {
                                        Some(i5) => if skip_ws(s, i5) == s.len() {
                                            assemble_record(seq![m1, m2, m3, m4])
                                        } else {
                                            None
                                        },
                                        None => None,
                                    },
                                    None => None,
                                },
                                None => None,
                            },
                            None => None,
                        },
                        None => None,
                    },
                    None => None,
                },
                None => None,
            },
            None => None,
        },
        None => None,
    }
}

/// Relies on String::push: appends exactly the one character.
#[verifier::external_body]
fn push_char(s: &mut String, c: char)
    ensures
        final(s)@ == old(s)@.push(c),
{
    s.push(c);
}

/// Relies on char::from_u32: for a valid Unicode scalar value — below the
/// surrogate range, or between it and the highest code point — it returns
/// the character with that code point.
#[verifier::external_body]
fn char_from_code(v: u32) -> (r: char)
    requires
        v < 0xD800 || (0xE000 <= v && v <= 0x10FFFF),
    ensures
        r == char_of(v as int),
{
    char::from_u32(v).unwrap()
}

fn hex_digit_exec(v: u8) -> (r: char)
    requires
        v < 16,
    ensures
        r == hex_digit(v as int),
{
    if v < 10 {
        (48 + v) as char
    } else {
        (87 + v) as char
    }
}

fn push_escaped_char(out: &mut String, c: char)
    ensures
        final(out)@ == old(out)@ + escape_char(c),
{
    let ghost pre = out@;
    if c == '"' {
        push_char(out, '\\');
        push_char(out, '"');
    } else if c == '\\' {
        push_char(out, '\\');
        push_char(out, '\\');
    } else if c == '\n' {
        push_char(out, '\\');
        push_char(out, 'n');
    } else if c == '\r' {
        push_char(out, '\\');
        push_char(out, 'r');
    } else if c == '\t' {
        push_char(out, '\\');
        push_char(out, 't');
    } else if (c as u32) < 32 {
        let v: u32 = c as u32;
        push_char(out, '\\');
        push_char(out, 'u');
        push_char(out, '0');
        push_char(out, '0');
        push_char(out, hex_digit_exec((v / 16) as u8));
        push_char(out, hex_digit_exec((v % 16) as u8));
    } else {
        push_char(out, c);
    }
    proof {
        assert(out@ =~= pre + escape_char(c));
    }
}

fn push_escaped_str(out: &mut String, s: &String)
    ensures
        final(out)@ == old(out)@ + escape_seq(s@),
{
    let ghost pre = out@;
    let n: usize = s.as_str().unicode_len();
    let mut i: usize = 0;
    while i < n
        invariant
            i <= n,
            n == s@.len(),
            out@ == pre + escape_seq(s@.take(i as int)),
        decreases n - i,
    {
        let c = s.as_str().get_char(i);
        push_escaped_char(out, c);
        proof {
            lemma_escape_append(s@.take(i as int), seq![c]);
            assert(s@.take(i + 1) =~= s@.take(i as int) + seq![c]);
            assert(seq![c].skip(1) =~= Seq::<char>::empty());
            assert(escape_seq(Seq::<char>::empty()) == Seq::<char>::empty());
            assert(escape_seq(seq![c]) =~= escape_char(c));
            assert(out@ =~= pre + escape_seq(s@.take(i + 1)));
        }
        i = i + 1;
    }
    proof {
        assert(s@.take(n as int) =~= s@);
    }
}

/// Escaping a concatenation escapes the parts and joins them.
proof fn lemma_escape_append(a: Seq<char>, b: Seq<char>)
    ensures
        escape_seq(a + b) == escape_seq(a) + escape_seq(b),
    decreases a.len(),
{
    if a.len() == 0 {
        assert(a + b =~= b);
        assert(escape_seq(a) =~= Seq::<char>::empty());
        assert(escape_seq(a) + escape_seq(b) =~= escape_seq(b));
    } else {
        assert((a + b)[0] == a[0]);
        assert((a + b).skip(1) =~= a.skip(1) + b);
        assert((a + b).len() > 0);
        lemma_escape_append(a.skip(1), b);
        assert(escape_seq(a + b) == escape_char(a[0]) + escape_seq(a.skip(1) + b));
        assert(escape_seq(a + b) =~= escape_seq(a) + escape_seq(b));
    }
}

/// A character the canonical escaping leaves as it stands.
pub open spec fn unescaped_char(c: char) -> bool {
    c != '"' && c != '\\' && code_of(c) >= 32
}

/// Escaping a string of such characters changes nothing.
proof fn lemma_escape_plain(v: Seq<char>)
    requires
        forall|k: int| 0 <= k < v.len() ==> unescaped_char(#[trigger] v[k]),
    ensures
        escape_seq(v) == v,
    decreases v.len(),
{
    if v.len() == 0 {
        assert(escape_seq(v) =~= v);
    } else {
        assert(unescaped_char(v[0]));
        assert(escape_char(v[0]) == seq![v[0]]);
        assert forall|k: int| 0 <= k < v.skip(1).len() implies unescaped_char(
            #[trigger] v.skip(1)[k],
        ) by {
            assert(v.skip(1)[k] == v[k + 1]);
        }
        lemma_escape_plain(v.skip(1));
        assert(escape_seq(v) =~= v);
    }
}

/// Frames a record canonically for durable storage.
#[verifier::rlimit(100)]
pub fn encode_record(d: &Data) -> (r: String)
    ensures
        r@ == encode_spec(d@),
{
    let mut out = String::new();
    out.append("{\"partition_key\":\"");
    push_escaped_str(&mut out, &d.partition_key);
    out.append("\",\"sort_key\":\"");
    push_escaped_str(&mut out, &d.sort_key);
    out.append("\",\"value\":\"");
    push_escaped_str(&mut out, &d.value);
    out.append("\",\"operation_type\":");
    match d.operation_type {
        OperationType::Insert => out.append("\"Insert\""),
        OperationType::Update => out.append("\"Update\""),
        OperationType::Delete => out.append("\"Delete\""),
    }
    out.append("}");
    proof {
        reveal_strlit("}");
        lemma_frame_literals();
        assert(out@ =~= encode_spec(d@));
    }
    out
}

/// The literal pieces the encoder appends match the structural shape of the
/// canonical frame.
proof fn lemma_frame_literals()
    ensures
        "{\"partition_key\":\""@ == seq!['{'] + quoted("partition_key"@) + seq![':'] + seq!['"'],
        "\",\"sort_key\":\""@ == seq!['"'] + seq![','] + quoted("sort_key"@) + seq![':']
            + seq!['"'],
        "\",\"value\":\""@ == seq!['"'] + seq![','] + quoted("value"@) + seq![':'] + seq!['"'],
        "\",\"operation_type\":"@ == seq!['"'] + seq![','] + quoted("operation_type"@) + seq![':'],
        "\"Insert\""@ == quoted("Insert"@),
        "\"Update\""@ == quoted("Update"@),
        "\"Delete\""@ == quoted("Delete"@),
{
    reveal_strlit("{\"partition_key\":\"");
    reveal_strlit("\",\"sort_key\":\"");
    reveal_strlit("\",\"value\":\"");
    reveal_strlit("\",\"operation_type\":");
    reveal_strlit("\"Insert\"");
    reveal_strlit("\"Update\"");
    reveal_strlit("\"Delete\"");
    reveal_strlit("partition_key");
    reveal_strlit("sort_key");
    reveal_strlit("value");
    reveal_strlit("operation_type");
    reveal_strlit("Insert");
    reveal_strlit("Update");
    reveal_strlit("Delete");
    lemma_keys_plain();
    assert("{\"partition_key\":\""@ =~= seq!['{'] + quoted("partition_key"@) + seq![':']
        + seq!['"']);
    assert("\",\"sort_key\":\""@ =~= seq!['"'] + seq![','] + quoted("sort_key"@) + seq![':']
        + seq!['"']);
    assert("\",\"value\":\""@ =~= seq!['"'] + seq![','] + quoted("value"@) + seq![':']
        + seq!['"']);
    assert("\",\"operation_type\":"@ =~= seq!['"'] + seq![','] + quoted("operation_type"@)
        + seq![':']);
    assert("\"Insert\""@ =~= quoted("Insert"@));
    assert("\"Update\""@ =~= quoted("Update"@));
    assert("\"Delete\""@ =~= quoted("Delete"@));
}

/// The four field names and the three tag texts hold no character that the
/// canonical escaping would touch.
proof fn lemma_keys_plain()
    ensures
        escape_seq("partition_key"@) == "partition_key"@,
        escape_seq("sort_key"@) == "sort_key"@,
        escape_seq("value"@) == "value"@,
        escape_seq("operation_type"@) == "operation_type"@,
        escape_seq("Insert"@) == "Insert"@,
        escape_seq("Update"@) == "Update"@,
        escape_seq("Delete"@) == "Delete"@,
{
    reveal_strlit("partition_key");
    reveal_strlit("sort_key");
    reveal_strlit("value");
    reveal_strlit("operation_type");
    reveal_strlit("Insert");
    reveal_strlit("Update");
    reveal_strlit("Delete");
    lemma_escape_plain("partition_key"@);
    lemma_escape_plain("sort_key"@);
    lemma_escape_plain("value"@);
    lemma_escape_plain("operation_type"@);
    lemma_escape_plain("Insert"@);
    lemma_escape_plain("Update"@);
    lemma_escape_plain("Delete"@);
}

/// Parsing a string body that starts with the canonical escaping of `v`,
/// followed by a closing quote, recovers exactly `v`.
proof fn lemma_parse_escape(s: Seq<char>, i: int, v: Seq<char>, rest: Seq<char>)
    requires
        0 <= i <= s.len(),
        s.skip(i) == escape_seq(v) + seq!['"'] + rest,
    ensures
        parse_string_body(s, i) == Some((v, i + escape_seq(v).len())),
    decreases v.len(),
{
    if v.len() == 0 {
        assert(escape_seq(v) == Seq::<char>::empty());
        assert(s.skip(i).len() == s.len() - i);
        assert(i < s.len());
        assert(s[i] == s.skip(i)[0]);
        assert(s[i] == '"');
        assert(parse_string_body(s, i) == Some((Seq::<char>::empty(), i)));
    } else {
        let c = v[0];
        let v2 = v.skip(1);
        let ec = escape_char(c);
        assert(escape_seq(v) == ec + escape_seq(v2));
        let el: int = ec.len() as int;
        assert(s.skip(i).len() == s.len() - i);
        assert(s.len() - i == escape_seq(v).len() + 1 + rest.len());
        assert(escape_seq(v).len() == el + escape_seq(v2).len());
        assert(i + el + 1 <= s.len());
        assert forall|k: int| 0 <= k < el implies s[i + k] == ec[k] by {
            assert(s[i + k] == s.skip(i)[k]);
        }
        assert forall|k: int|
            0 <= k < s.len() - (i + el) implies s.skip(i + el)[k] == (escape_seq(v2)
                + seq!['"'] + rest)[k] by {
            assert(s.skip(i + el)[k] == s.skip(i)[el + k]);
            assert(s.skip(i)[el + k] == (escape_seq(v) + seq!['"'] + rest)[el + k]);
        }
        assert(s.skip(i + el) =~= escape_seq(v2) + seq!['"'] + rest);
        lemma_parse_escape(s, i + el, v2, rest);
        assert(seq![c] + v2 =~= v);
        if c == '"' {
            assert(s[i] == '\\' && s[i + 1] == '"');
            assert(parse_string_body(s, i) == Some((v, i + escape_seq(v).len())));
        } else if c == '\\' {
            assert(s[i] == '\\' && s[i + 1] == '\\');
            assert(parse_string_body(s, i) == Some((v, i + escape_seq(v).len())));
        } else if c == '\n' {
            assert(s[i] == '\\' && s[i + 1] == 'n');
            assert(parse_string_body(s, i) == Some((v, i + escape_seq(v).len())));
        } else if c == '\r' {
            assert(s[i] == '\\' && s[i + 1] == 'r');
            assert(parse_string_body(s, i) == Some((v, i + escape_seq(v).len())));
        } else if c == '\t' {
            assert(s[i] == '\\' && s[i + 1] == 't');
            assert(parse_string_body(s, i) == Some((v, i + escape_seq(v).len())));
        } else if code_of(c) < 32 {
            let cv = code_of(c);
            assert(0 <= cv);
            assert(s[i] == '\\' && s[i + 1] == 'u' && s[i + 2] == '0' && s[i + 3] == '0');
            assert(s[i + 4] == hex_digit(cv / 16) && s[i + 5] == hex_digit(cv % 16));
            assert(0 <= cv / 16 < 16 && 0 <= cv % 16 < 16);
            assert(is_hex('0') && hex_val('0') == 0);
            assert(is_hex(hex_digit(cv / 16)) && hex_val(hex_digit(cv / 16)) == cv / 16);
            assert(is_hex(hex_digit(cv % 16)) && hex_val(hex_digit(cv % 16)) == cv % 16);
            vstd::arithmetic::div_mod::lemma_fundamental_div_mod(cv, 16);
            assert(4096 * hex_val(s[i + 2]) + 256 * hex_val(s[i + 3]) + 16 * hex_val(s[i + 4])
                + hex_val(s[i + 5]) == cv);
            vstd::utf8::char_u32_cast(c, cv as u32);
            assert(char_of(cv) == c);
            assert(parse_string_body(s, i) == Some((v, i + escape_seq(v).len())));
        } else {
            assert(s[i] == c);
            assert(parse_string_body(s, i) == Some((v, i + escape_seq(v).len())));
        }
    }
}

/// Parsing a whole quoted string that stands at `i` as the canonical quoting
/// of `v` recovers exactly `v` and stops just past the closing quote.
proof fn lemma_parse_quoted(s: Seq<char>, i: int, v: Seq<char>, rest: Seq<char>)
    requires
        0 <= i <= s.len(),
        s.skip(i) == quoted(v) + rest,
    ensures
        parse_string(s, i) == Some((v, i + quoted(v).len())),
{
    assert(s.skip(i).len() == s.len() - i);
    assert(s[i] == s.skip(i)[0]);
    assert(s[i] == '"');
    assert(expect_char(s, i, '"') == Some(i + 1));
    assert forall|k: int|
        0 <= k < s.len() - (i + 1) implies s.skip(i + 1)[k] == (escape_seq(v)
            + seq!['"'] + rest)[k] by {
        assert(s.skip(i + 1)[k] == s.skip(i)[k + 1]);
        assert(s.skip(i)[k + 1] == (quoted(v) + rest)[k + 1]);
    }
    assert(s.skip(i + 1) =~= escape_seq(v) + seq!['"'] + rest);
    lemma_parse_escape(s, i + 1, v, rest);
    assert(parse_string(s, i) == Some((v, i + 1 + escape_seq(v).len() + 1)));
    assert(quoted(v).len() == escape_seq(v).len() + 2);
}

/// Law: decoding the canonical frame of any record yields that record again.
/// This is the verified core of durability: what a write makes durable, a
/// later cold read parses back unchanged.
#[verifier::rlimit(100)]
pub proof fn lemma_encode_then_decode(d: DataView)
    ensures
        decode_spec(encode_spec(d)) == Some(d),
{
    reveal_strlit("partition_key");
    reveal_strlit("sort_key");
    reveal_strlit("value");
    reveal_strlit("operation_type");
    reveal_strlit("Insert");
    reveal_strlit("Update");
    reveal_strlit("Delete");
    let s = encode_spec(d);
    let k1 = "partition_key"@;
    let k2 = "sort_key"@;
    let k3 = "value"@;
    let k4 = "operation_type"@;
    let tag = op_name(d.operation_type);
    let a1 = 1int;
    let a2 = a1 + quoted(k1).len() as int;
    let a3 = a2 + 1;
    let a4 = a3 + quoted(d.partition_key).len() as int;
    let a5 = a4 + 1;
    let a6 = a5 + quoted(k2).len() as int;
    let a7 = a6 + 1;
    let a8 = a7 + quoted(d.sort_key).len() as int;
    let a9 = a8 + 1;
    let a10 = a9 + quoted(k3).len() as int;
    let a11 = a10 + 1;
    let a12 = a11 + quoted(d.value).len() as int;
    let a13 = a12 + 1;
    let a14 = a13 + quoted(k4).len() as int;
    let a15 = a14 + 1;
    let a16 = a15 + quoted(tag).len() as int;
    let a17 = a16 + 1;
    assert(s.len() == a17);
    assert(tag.len() == 6) by {
        match d.operation_type {
            OperationType::Insert => {},
            OperationType::Update => {},
            OperationType::Delete => {},
        }
    }
    // The object opens at the first character; nothing before it is
    // whitespace to skip.
    assert(s[0] == '{');
    assert(skip_ws(s, 0) == 0);
    assert(expect_char(s, 0, '{') == Some(a1));
    // First member: the partition key.
    assert(s[a1] == '"');
    assert(skip_ws(s, a1) == a1);
    assert(s.skip(a1) =~= quoted(k1) + s.skip(a2));
    lemma_parse_quoted(s, a1, k1, s.skip(a2));
    assert(s[a2] == ':');
    assert(skip_ws(s, a2) == a2);
    assert(expect_char(s, a2, ':') == Some(a3));
    assert(s[a3] == '"');
    assert(skip_ws(s, a3) == a3);
    assert(s.skip(a3) =~= quoted(d.partition_key) + s.skip(a4));
    lemma_parse_quoted(s, a3, d.partition_key, s.skip(a4));
    assert(parse_member(s, a1) == Some(((k1, d.partition_key), a4)));
    assert(s[a4] == ',');
    assert(skip_ws(s, a4) == a4);
    assert(expect_char(s, a4, ',') == Some(a5));
    // Second member: the sort key.
    assert(s[a5] == '"');
    assert(skip_ws(s, a5) == a5);
    assert(s.skip(a5) =~= quoted(k2) + s.skip(a6));
    lemma_parse_quoted(s, a5, k2, s.skip(a6));
    assert(s[a6] == ':');
    assert(skip_ws(s, a6) == a6);
    assert(expect_char(s, a6, ':') == Some(a7));
    assert(s[a7] == '"');
    assert(skip_ws(s, a7) == a7);
    assert(s.skip(a7) =~= quoted(d.sort_key) + s.skip(a8));
    lemma_parse_quoted(s, a7, d.sort_key, s.skip(a8));
    assert(parse_member(s, a5) == Some(((k2, d.sort_key), a8)));
    assert(s[a8] == ',');
    assert(skip_ws(s, a8) == a8);
    assert(expect_char(s, a8, ',') == Some(a9));
    // Third member: the value.
    assert(s[a9] == '"');
    assert(skip_ws(s, a9) == a9);
    assert(s.skip(a9) =~= quoted(k3) + s.skip(a10));
    lemma_parse_quoted(s, a9, k3, s.skip(a10));
    assert(s[a10] == ':');
    assert(skip_ws(s, a10) == a10);
    assert(expect_char(s, a10, ':') == Some(a11));
    assert(s[a11] == '"');
    assert(skip_ws(s, a11) == a11);
    assert(s.skip(a11) =~= quoted(d.value) + s.skip(a12));
    lemma_parse_quoted(s, a11, d.value, s.skip(a12));
    assert(parse_member(s, a9) == Some(((k3, d.value), a12)));
    assert(s[a12] == ',');
    assert(skip_ws(s, a12) == a12);
    assert(expect_char(s, a12, ',') == Some(a13));
    // Fourth member: the operation tag.
    assert(s[a13] == '"');
    assert(skip_ws(s, a13) == a13);
    assert(s.skip(a13) =~= quoted(k4) + s.skip(a14));
    lemma_parse_quoted(s, a13, k4, s.skip(a14));
    assert(s[a14] == ':');
    assert(skip_ws(s, a14) == a14);
    assert(expect_char(s, a14, ':') == Some(a15));
    assert(s[a15] == '"');
    assert(skip_ws(s, a15) == a15);
    assert(s.skip(a15) =~= quoted(tag) + s.skip(a16));
    lemma_parse_quoted(s, a15, tag, s.skip(a16));
    assert(parse_member(s, a13) == Some(((k4, tag), a16)));
    // The object closes and nothing follows.
    assert(s[a16] == '}');
    assert(skip_ws(s, a16) == a16);
    assert(expect_char(s, a16, '}') == Some(a17));
    assert(skip_ws(s, a17) == a17);
    // The four members assemble to the record: the names are pairwise
    // distinct, so each lookup finds its own member.
    let pairs = seq![(k1, d.partition_key), (k2, d.sort_key), (k3, d.value), (k4, tag)];
    assert(k1.len() == 13 && k2.len() == 8 && k3.len() == 5 && k4.len() == 14);
    let p1 = pairs.skip(1);
    let p2 = p1.skip(1);
    let p3 = p2.skip(1);
    assert(p1 =~= seq![(k2, d.sort_key), (k3, d.value), (k4, tag)]);
    assert(p2 =~= seq![(k3, d.value), (k4, tag)]);
    assert(p3 =~= seq![(k4, tag)]);
    assert(find_member(pairs, k1) == Some(d.partition_key));
    assert(find_member(p1, k2) == Some(d.sort_key));
    assert(find_member(pairs, k2) == find_member(p1, k2));
    assert(find_member(p2, k3) == Some(d.value));
    assert(find_member(p1, k3) == find_member(p2, k3));
    assert(find_member(pairs, k3) == find_member(p1, k3));
    assert(find_member(p3, k4) == Some(tag));
    assert(find_member(p2, k4) == find_member(p3, k4));
    assert(find_member(p1, k4) == find_member(p2, k4));
    assert(find_member(pairs, k4) == find_member(p1, k4));
    assert(tag_of(tag) == Some(d.operation_type)) by {
        match d.operation_type {
            OperationType::Insert => {},
            OperationType::Update => {
                assert("Update"@[0] == 'U' && "Insert"@[0] == 'I');
            },
            OperationType::Delete => {
                assert("Delete"@[0] == 'D' && "Insert"@[0] == 'I' && "Update"@[0] == 'U');
            },
        }
    }
    assert(assemble_record(pairs) == Some(d));
    assert(decode_spec(s) == Some(d));
}

fn skip_ws_exec(s: &str, i: usize) -> (r: usize)
    requires
        i as int <= s@.len(),
    ensures
        r as int == skip_ws(s@, i as int),
        i <= r,
        r as int <= s@.len(),
{
    let n: usize = s.unicode_len();
    let mut p: usize = i;
    loop
        invariant
            i <= p <= n,
            n == s@.len(),
            skip_ws(s@, i as int) == skip_ws(s@, p as int),
        decreases n - p,
    {
        if p >= n {
            return p;
        }
        let c = s.get_char(p);
        if !((c as u32) == 32 || (c as u32) == 9 || (c as u32) == 10 || (c as u32) == 13) {
            return p;
        }
        p = p + 1;
    }
}

fn expect_char_exec(s: &str, i: usize, c: char) -> (r: Option<usize>)
    ensures
        match r {
            Some(j) => expect_char(s@, i as int, c) == Some(j as int) && j as int <= s@.len(),
            None => expect_char(s@, i as int, c) is None,
        },
{
    let n: usize = s.unicode_len();
    if i < n && s.get_char(i) == c {
        Some(i + 1)
    } else {
        None
    }
}

fn is_hex_exec(c: char) -> (r: bool)
    ensures
        r == is_hex(c),
{
    let u: u32 = c as u32;
    (48 <= u && u <= 57) || (97 <= u && u <= 102) || (65 <= u && u <= 70)
}

fn hex_val_exec(c: char) -> (r: u8)
    requires
        is_hex(c),
    ensures
        r as int == hex_val(c),
        r < 16,
{
    let u: u32 = c as u32;
    if u <= 57 {
        (u - 48) as u8
    } else if u >= 97 {
        (u - 87) as u8
    } else {
        (u - 55) as u8
    }
}

/// Prepends already-unescaped text to the outcome of parsing the rest of a
/// string body.
pub open spec fn body_compose(acc: Seq<char>, r: Option<(Seq<char>, int)>) -> Option<
    (Seq<char>, int),
> {
    match r {
        Some((tail, j)) => Some((acc + tail, j)),
        None => None,
    }
}

proof fn lemma_compose_assoc(a: Seq<char>, b: Seq<char>, r: Option<(Seq<char>, int)>)
    ensures
        body_compose(a, body_compose(b, r)) == body_compose(a + b, r),
{
    if let Some((tail, j)) = r {
        assert(a + (b + tail) =~= (a + b) + tail);
    }
}

fn parse_body(s: &str, i: usize) -> (r: Option<(String, usize)>)
    requires
        i as int <= s@.len(),
    ensures
        match r {
            Some(v) => parse_string_body(s@, i as int) == Some((v.0@, v.1 as int)) && (
            v.1 as int) < s@.len(),
            None => parse_string_body(s@, i as int) is None,
        },
{
    let n: usize = s.unicode_len();
    let mut p: usize = i;
    let mut out = String::new();
    loop
        invariant
            i <= p <= n,
            n == s@.len(),
            parse_string_body(s@, i as int) == body_compose(out@, parse_string_body(s@, p as int)),
        decreases n - p,
    {
        let ghost p0 = p as int;
        let ghost acc0 = out@;
        if p >= n {
            return None;
        }
        let c = s.get_char(p);
        if c == '"' {
            proof {
                assert(parse_string_body(s@, p0) == Some((Seq::<char>::empty(), p0)));
                assert(acc0 + Seq::<char>::empty() =~= acc0);
            }
            return Some((out, p));
        } else if c == '\\' {
            if p + 1 >= n {
                return None;
            }
            let e = s.get_char(p + 1);
            if e == '"' || e == '\\' || e == '/' || e == 'b' || e == 'f' || e == 'n' || e == 'r'
                || e == 't' {
                let decoded: char = if e == '"' {
                    '"'
                } else if e == '\\' {
                    '\\'
                } else if e == '/' {
                    '/'
                } else if e == 'b' {
                    '\u{8}'
                } else if e == 'f' {
                    '\u{c}'
                } else if e == 'n' {
                    '\n'
                } else if e == 'r' {
                    '\r'
                } else {
                    '\t'
                };
                push_char(&mut out, decoded);
                p = p + 2;
                proof {
                    assert(parse_string_body(s@, p0) == body_compose(
                        seq![decoded],
                        parse_string_body(s@, p as int),
                    ));
                    lemma_compose_assoc(acc0, seq![decoded], parse_string_body(s@, p as int));
                    assert(acc0.push(decoded) =~= acc0 + seq![decoded]);
                }
            } else if e == 'u' {
                if n - p < 6 {
                    return None;
                }
                let h1 = s.get_char(p + 2);
                let h2 = s.get_char(p + 3);
                let h3 = s.get_char(p + 4);
                let h4 = s.get_char(p + 5);
                if !(is_hex_exec(h1) && is_hex_exec(h2) && is_hex_exec(h3) && is_hex_exec(h4)) {
                    return None;
                }
                let v: u32 = 4096 * (hex_val_exec(h1) as u32) + 256 * (hex_val_exec(h2) as u32)
                    + 16 * (hex_val_exec(h3) as u32) + (hex_val_exec(h4) as u32);
                if v < 0xD800 || v > 0xDFFF {
                    let decoded: char = char_from_code(v);
                    push_char(&mut out, decoded);
                    p = p + 6;
                    proof {
                        assert(parse_string_body(s@, p0) == body_compose(
                            seq![decoded],
                            parse_string_body(s@, p as int),
                        ));
                        lemma_compose_assoc(acc0, seq![decoded], parse_string_body(s@, p as int));
                        assert(acc0.push(decoded) =~= acc0 + seq![decoded]);
                    }
                } else if v < 0xDC00 {
                    if n - p < 12 {
                        return None;
                    }
                    if !(s.get_char(p + 6) == '\\' && s.get_char(p + 7) == 'u') {
                        return None;
                    }
                    let g1 = s.get_char(p + 8);
                    let g2 = s.get_char(p + 9);
                    let g3 = s.get_char(p + 10);
                    let g4 = s.get_char(p + 11);
                    if !(is_hex_exec(g1) && is_hex_exec(g2) && is_hex_exec(g3) && is_hex_exec(g4)) {
                        return None;
                    }
                    let w: u32 = 4096 * (hex_val_exec(g1) as u32) + 256 * (hex_val_exec(g2) as u32)
                        + 16 * (hex_val_exec(g3) as u32) + (hex_val_exec(g4) as u32);
                    if !(0xDC00 <= w && w <= 0xDFFF) {
                        return None;
                    }
                    let code: u32 = 0x10000 + (v - 0xD800) * 0x400 + (w - 0xDC00);
                    let decoded: char = char_from_code(code);
                    push_char(&mut out, decoded);
                    p = p + 12;
                    proof {
                        assert(parse_string_body(s@, p0) == body_compose(
                            seq![decoded],
                            parse_string_body(s@, p as int),
                        ));
                        lemma_compose_assoc(acc0, seq![decoded], parse_string_body(s@, p as int));
                        assert(acc0.push(decoded) =~= acc0 + seq![decoded]);
                    }
                } else {
                    return None;
                }
            } else {
                return None;
            }
        } else if (c as u32) < 32 {
            return None;
        } else {
            push_char(&mut out, c);
            p = p + 1;
            proof {
                assert(parse_string_body(s@, p0) == body_compose(
                    seq![c],
                    parse_string_body(s@, p as int),
                ));
                lemma_compose_assoc(acc0, seq![c], parse_string_body(s@, p as int));
                assert(acc0.push(c) =~= acc0 + seq![c]);
            }
        }
    }
}

fn parse_string_exec(s: &str, i: usize) -> (r: Option<(String, usize)>)
    requires
        i as int <= s@.len(),
    ensures
        match r {
            Some(v) => parse_string(s@, i as int) == Some((v.0@, v.1 as int)) && (
            v.1 as int) <= s@.len(),
            None => parse_string(s@, i as int) is None,
        },
{
    let n: usize = s.unicode_len();
    match expect_char_exec(s, i, '"') {
        Some(_j) => {},
        None => {
            return None;
        },
    }
    match parse_body(s, i + 1) {
        Some((v, j)) => {
            proof {
                assert(j < n);
            }
            Some((v, j + 1))
        },
        None => None,
    }
}

fn parse_member_exec(s: &str, i: usize) -> (r: Option<((String, String), usize)>)
    requires
        i as int <= s@.len(),
    ensures
        match r {
            Some(v) => parse_member(s@, i as int) == Some(((v.0.0@, v.0.1@), v.1 as int))
                && v.1 as int <= s@.len(),
            None => parse_member(s@, i as int) is None,
        },
{
    let (key, j1) = match parse_string_exec(s, i) {
        Some(v) => v,
        None => {
            return None;
        },
    };
    let j2 = match expect_char_exec(s, skip_ws_exec(s, j1), ':') {
        Some(j) => j,
        None => {
            return None;
        },
    };
    let (value, j3) = match parse_string_exec(s, skip_ws_exec(s, j2)) {
        Some(v) => v,
        None => {
            return None;
        },
    };
    Some(((key, value), j3))
}

fn str_eq(a: &str, b: &str) -> (r: bool)
    ensures
        r == (a@ == b@),
{
    let na: usize = a.unicode_len();
    let nb: usize = b.unicode_len();
    if na != nb {
        return false;
    }
    let mut k: usize = 0;
    while k < na
        invariant
            k <= na,
            na == a@.len(),
            na == b@.len(),
            forall|j: int| 0 <= j < k ==> a@[j] == b@[j],
        decreases na - k,
    {
        if a.get_char(k) != b.get_char(k) {
            return false;
        }
        k = k + 1;
    }
    proof {
        assert(a@ =~= b@);
    }
    true
}

/// The members of an entry list, as the mathematical pairs they stand for.
pub open spec fn members_view(pairs: Seq<(String, String)>) -> Seq<(Seq<char>, Seq<char>)> {
    pairs.map_values(|p: (String, String)| (p.0@, p.1@))
}

fn find_member_exec(pairs: &Vec<(String, String)>, name: &str) -> (r: Option<String>)
    ensures
        match r {
            Some(v) => find_member(members_view(pairs@), name@) == Some(v@),
            None => find_member(members_view(pairs@), name@) is None,
        },
{
    let n: usize = pairs.len();
    let mut k: usize = 0;
    proof {
        assert(members_view(pairs@).skip(0) =~= members_view(pairs@));
    }
    while k < n
        invariant
            k <= n,
            n == pairs@.len(),
            find_member(members_view(pairs@), name@) == find_member(
                members_view(pairs@).skip(k as int),
                name@,
            ),
        decreases n - k,
    {
        let ghost rest = members_view(pairs@).skip(k as int);
        proof {
            assert(rest[0] == members_view(pairs@)[k as int]);
        }
        if str_eq(pairs[k].0.as_str(), name) {
            return Some(pairs[k].1.clone());
        }
        proof {
            assert(rest.skip(1) =~= members_view(pairs@).skip(k + 1));
        }
        k = k + 1;
    }
    proof {
        assert(members_view(pairs@).skip(n as int) =~= Seq::<(Seq<char>, Seq<char>)>::empty());
    }
    None
}

/// Parses a durable payload back into a record. Every JSON serialization of
/// a record is accepted; anything else is a `SerializationError`.
pub fn decode_record(s: &str) -> (r: Result<Data, DbError>)
    ensures
        match r {
            Ok(d) => decode_spec(s@) == Some(d@),
            Err(e) => decode_spec(s@) is None && e == DbError::SerializationError,
        },
{
    let i1 = match expect_char_exec(s, skip_ws_exec(s, 0), '{') {
        Some(j) => j,
        None => {
            return Err(DbError::SerializationError);
        },
    };
    let (m1, j1) = match parse_member_exec(s, skip_ws_exec(s, i1)) {
        Some(v) => v,
        None => {
            return Err(DbError::SerializationError);
        },
    };
    let i2 = match expect_char_exec(s, skip_ws_exec(s, j1), ',') {
        Some(j) => j,
        None => {
            return Err(DbError::SerializationError);
        },
    };
    let (m2, j2) = match parse_member_exec(s, skip_ws_exec(s, i2)) {
        Some(v) => v,
        None => {
            return Err(DbError::SerializationError);
        },
    };
    let i3 = match expect_char_exec(s, skip_ws_exec(s, j2), ',') {
        Some(j) => j,
        None => {
            return Err(DbError::SerializationError);
        },
    };
    let (m3, j3) = match parse_member_exec(s, skip_ws_exec(s, i3)) {
        Some(v) => v,
        None => {
            return Err(DbError::SerializationError);
        },
    };
    let i4 = match expect_char_exec(s, skip_ws_exec(s, j3), ',') {
        Some(j) => j,
        None => {
            return Err(DbError::SerializationError);
        },
    };
    let (m4, j4) = match parse_member_exec(s, skip_ws_exec(s, i4)) {
        Some(v) => v,
        None => {
            return Err(DbError::SerializationError);
        },
    };
    let i5 = match expect_char_exec(s, skip_ws_exec(s, j4), '}') {
        Some(j) => j,
        None => {
            return Err(DbError::SerializationError);
        },
    };
    let n: usize = s.unicode_len();
    if skip_ws_exec(s, i5) != n {
        return Err(DbError::SerializationError);
    }
    let mut members: Vec<(String, String)> = Vec::new();
    members.push(m1);
    members.push(m2);
    members.push(m3);
    members.push(m4);
    let ghost pairs = seq![
        (members@[0].0@, members@[0].1@),
        (members@[1].0@, members@[1].1@),
        (members@[2].0@, members@[2].1@),
        (members@[3].0@, members@[3].1@),
    ];
    proof {
        assert(members_view(members@) =~= pairs);
    }
    let partition_key = match find_member_exec(&members, "partition_key") {
        Some(v) => v,
        None => {
            return Err(DbError::SerializationError);
        },
    };
    let sort_key = match find_member_exec(&members, "sort_key") {
        Some(v) => v,
        None => {
            return Err(DbError::SerializationError);
        },
    };
    let value = match find_member_exec(&members, "value") {
        Some(v) => v,
        None => {
            return Err(DbError::SerializationError);
        },
    };
    let tag = match find_member_exec(&members, "operation_type") {
        Some(v) => v,
        None => {
            return Err(DbError::SerializationError);
        },
    };
    let operation_type: OperationType = if str_eq(tag.as_str(), "Insert") {
        OperationType::Insert
    } else if str_eq(tag.as_str(), "Update") {
        OperationType::Update
    } else if str_eq(tag.as_str(), "Delete") {
        OperationType::Delete
    } else {
        return Err(DbError::SerializationError);
    };
    Ok(Data { partition_key, sort_key, value, operation_type })
}

} // verus!
