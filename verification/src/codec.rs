//! The snapshot text format: a JSON document holding every item and the
//! global revision. The writer is specified exactly, character by
//! character; the reader accepts exactly the writer's canonical form.
//! Every accepted text is proved to be the serialization of what the
//! reader yields; in the other direction, acceptance is proved for
//! canonical scalars and numbers, and for item-free snapshots at the
//! store level — for nested values it is covered by tests.

use vstd::prelude::*;

use crate::json::{JVal, JsonValue};
use crate::store::TiddlerView;
use crate::store::Tiddler;
use crate::strutil::{dec_digits, digit_char, str_to_chars, u64_to_dec};

verus! {

/// The lowercase hexadecimal digit character for `d`.
pub open spec fn hex_char(d: nat) -> char {
    if d < 10 {
        digit_char(d)
    } else {
        (87 + d) as char
    }
}

/// How one character appears inside a quoted string: the quote and the
/// backslash are escaped, the three named control characters take their
/// short escapes, every other control character its hexadecimal escape,
/// and any other character stands for itself.
pub open spec fn esc_char(c: char) -> Seq<char> {
    if c == '"' {
        seq!['\\', '"']
    } else if c == '\\' {
        seq!['\\', '\\']
    } else if c == '\n' {
        seq!['\\', 'n']
    } else if c == '\r' {
        seq!['\\', 'r']
    } else if c == '\t' {
        seq!['\\', 't']
    } else if 0 <= c as int && (c as int) < 32 {
        let hi = hex_char(((c as int) / 16) as nat);
        let lo = hex_char(((c as int) % 16) as nat);
        seq!['\\', 'u', '0', '0', hi, lo]
    } else {
        seq![c]
    }
}

/// The code point of `c`.
fn char_code(c: char) -> (r: u32)
    ensures
        r as int == c as int,
{
    c as u32
}

/// The lowercase hexadecimal digit character for `d`, built by value.
fn hex_digit(d: u32) -> (r: char)
    requires
        d < 16,
    ensures
        r == hex_char(d as nat),
{
    if d < 10 {
        (48 + d as u8) as char
    } else {
        (87 + d as u8) as char
    }
}

/// The value of a lowercase hexadecimal digit character.
fn hex_val(c: char) -> (r: Option<u32>)
    ensures
        r matches Some(v) ==> v < 16 && hex_char(v as nat) == c,
{
    let out: Option<u32> = if c == '0' {
        Some(0)
    } else if c == '1' {
        Some(1)
    } else if c == '2' {
        Some(2)
    } else if c == '3' {
        Some(3)
    } else if c == '4' {
        Some(4)
    } else if c == '5' {
        Some(5)
    } else if c == '6' {
        Some(6)
    } else if c == '7' {
        Some(7)
    } else if c == '8' {
        Some(8)
    } else if c == '9' {
        Some(9)
    } else if c == 'a' {
        Some(10)
    } else if c == 'b' {
        Some(11)
    } else if c == 'c' {
        Some(12)
    } else if c == 'd' {
        Some(13)
    } else if c == 'e' {
        Some(14)
    } else if c == 'f' {
        Some(15)
    } else {
        None
    };
    proof {
        assert(hex_char(0) == '0' && hex_char(1) == '1' && hex_char(2) == '2' && hex_char(3)
            == '3' && hex_char(4) == '4' && hex_char(5) == '5' && hex_char(6) == '6' && hex_char(7)
            == '7' && hex_char(8) == '8' && hex_char(9) == '9');
        assert(hex_char(10) == 'a' && hex_char(11) == 'b' && hex_char(12) == 'c' && hex_char(13)
            == 'd' && hex_char(14) == 'e' && hex_char(15) == 'f');
    }
    out
}

/// The escaped form of a whole string body.
pub open spec fn esc(s: Seq<char>) -> Seq<char>
    decreases s,
{
    if s.len() == 0 {
        Seq::empty()
    } else {
        esc(s.drop_last()) + esc_char(s.last())
    }
}

/// A quoted, escaped string.
pub open spec fn ser_str(s: Seq<char>) -> Seq<char> {
    seq!['"'] + esc(s) + seq!['"']
}

/// A decimal integer, with a leading minus sign when negative.
pub open spec fn ser_int(i: int) -> Seq<char> {
    if i < 0 {
        seq!['-'] + dec_digits((-i) as nat)
    } else {
        dec_digits(i as nat)
    }
}

/// The serialized form of a structured value.
pub open spec fn ser_val(v: JVal) -> Seq<char>
    decreases v,
{
    match v {
        JVal::Null => seq!['n', 'u', 'l', 'l'],
        JVal::Bool(b) => if b {
            seq!['t', 'r', 'u', 'e']
        } else {
            seq!['f', 'a', 'l', 's', 'e']
        },
        JVal::Int(i) => ser_int(i as int),
        JVal::Str(s) => ser_str(s),
        JVal::Arr(items) => seq!['['] + ser_elems(items) + seq![']'],
        JVal::Obj(fields) => seq!['{'] + ser_fields(fields) + seq!['}'],
    }
}

/// The comma-separated serialized elements of an array.
pub open spec fn ser_elems(items: Seq<JVal>) -> Seq<char>
    decreases items,
{
    if items.len() == 0 {
        Seq::empty()
    } else if items.len() == 1 {
        ser_val(items[0])
    } else {
        ser_elems(items.drop_last()) + seq![','] + ser_val(items.last())
    }
}

/// The comma-separated serialized fields of an object.
pub open spec fn ser_fields(fields: Seq<(Seq<char>, JVal)>) -> Seq<char>
    decreases fields,
{
    if fields.len() == 0 {
        Seq::empty()
    } else if fields.len() == 1 {
        ser_str(fields[0].0) + seq![':'] + ser_val(fields[0].1)
    } else {
        ser_fields(fields.drop_last()) + seq![','] + ser_str(fields.last().0) + seq![':']
            + ser_val(fields.last().1)
    }
}

/// The serialized form of one stored item.
pub open spec fn ser_tiddler(t: TiddlerView) -> Seq<char> {
    seq!['{', '"', 'm', 'e', 't', 'a', '"', ':'] + ser_val(t.meta) + seq![
        ',',
        '"',
        't',
        'e',
        'x',
        't',
        '"',
        ':',
    ] + ser_str(t.text) + seq![',', '"', 'r', 'e', 'v', 'i', 's', 'i', 'o', 'n', '"', ':']
        + dec_digits(t.revision) + seq!['}']
}

/// The comma-separated serialized entries of the store, in store order.
pub open spec fn ser_entries(entries: Seq<(Seq<char>, TiddlerView)>) -> Seq<char>
    decreases entries,
{
    if entries.len() == 0 {
        Seq::empty()
    } else if entries.len() == 1 {
        ser_str(entries[0].0) + seq![':'] + ser_tiddler(entries[0].1)
    } else {
        ser_entries(entries.drop_last()) + seq![','] + ser_str(entries.last().0) + seq![':']
            + ser_tiddler(entries.last().1)
    }
}

/// The whole snapshot: every item keyed under `tiddlers`, then the global
/// revision.
pub open spec fn ser_snapshot(entries: Seq<(Seq<char>, TiddlerView)>, revision: nat) -> Seq<
    char,
> {
    seq!['{', '"', 't', 'i', 'd', 'd', 'l', 'e', 'r', 's', '"', ':', '{'] + ser_entries(entries)
        + seq!['}', ',', '"', 'r', 'e', 'v', 'i', 's', 'i', 'o', 'n', '"', ':'] + dec_digits(
        revision,
    ) + seq!['}']
}

/// Whether `c` is a decimal digit character.
pub open spec fn is_digit(c: char) -> bool {
    digit_val(c) < 10
}

/// The value of a digit character; 10 for any other character.
pub open spec fn digit_val(c: char) -> nat {
    if c == '0' {
        0
    } else if c == '1' {
        1
    } else if c == '2' {
        2
    } else if c == '3' {
        3
    } else if c == '4' {
        4
    } else if c == '5' {
        5
    } else if c == '6' {
        6
    } else if c == '7' {
        7
    } else if c == '8' {
        8
    } else if c == '9' {
        9
    } else {
        10
    }
}

/// A digit character is recovered from its value.
proof fn lemma_digit_char_val(c: char)
    requires
        is_digit(c),
    ensures
        digit_char(digit_val(c)) == c,
{
    assert(digit_char(0) == '0');
    assert(digit_char(1) == '1');
    assert(digit_char(2) == '2');
    assert(digit_char(3) == '3');
    assert(digit_char(4) == '4');
    assert(digit_char(5) == '5');
    assert(digit_char(6) == '6');
    assert(digit_char(7) == '7');
    assert(digit_char(8) == '8');
    assert(digit_char(9) == '9');
}

/// The value of a digit character, read off by cases.
fn digit_of(c: char) -> (r: Option<u64>)
    ensures
        match r {
            Some(d) => is_digit(c) && d < 10 && d as nat == digit_val(c),
            None => !is_digit(c),
        },
{
    if c == '0' {
        Some(0)
    } else if c == '1' {
        Some(1)
    } else if c == '2' {
        Some(2)
    } else if c == '3' {
        Some(3)
    } else if c == '4' {
        Some(4)
    } else if c == '5' {
        Some(5)
    } else if c == '6' {
        Some(6)
    } else if c == '7' {
        Some(7)
    } else if c == '8' {
        Some(8)
    } else if c == '9' {
        Some(9)
    } else {
        None
    }
}

/// Whether every character of `ds` is a decimal digit.
pub open spec fn is_digit_seq(ds: Seq<char>) -> bool {
    forall|i: int| 0 <= i < ds.len() ==> is_digit(ds[i])
}

/// The number that the digit characters `ds` denote.
pub open spec fn seq_val(ds: Seq<char>) -> nat
    decreases ds,
{
    if ds.len() == 0 {
        0
    } else {
        seq_val(ds.drop_last()) * 10 + digit_val(ds.last())
    }
}

/// A digit sequence without a leading zero denotes a number of at least 1.
proof fn lemma_seq_val_lower(ds: Seq<char>)
    requires
        ds.len() >= 1,
        is_digit_seq(ds),
        ds[0] != '0',
    ensures
        seq_val(ds) >= 1,
    decreases ds.len(),
{
    if ds.len() == 1 {
        assert(ds.last() == ds[0]);
        assert(digit_val(ds[0]) >= 1);
    } else {
        let dl = ds.drop_last();
        assert(dl[0] == ds[0]);
        lemma_seq_val_lower(dl);
        assert(seq_val(ds) >= seq_val(dl) * 10) by (nonlinear_arith)
            requires
                seq_val(ds) == seq_val(dl) * 10 + digit_val(ds.last()),
        ;
        assert(seq_val(dl) * 10 >= 10) by (nonlinear_arith)
            requires
                seq_val(dl) >= 1,
        ;
    }
}

/// Every digit character is recovered from its value, and only 0 renders
/// as the zero digit.
proof fn lemma_digit_char_of_val(d: nat)
    requires
        d < 10,
    ensures
        is_digit(digit_char(d)),
        digit_val(digit_char(d)) == d,
        (digit_char(d) == '0') == (d == 0),
{
    assert(digit_char(0) == '0');
    assert(digit_char(1) == '1');
    assert(digit_char(2) == '2');
    assert(digit_char(3) == '3');
    assert(digit_char(4) == '4');
    assert(digit_char(5) == '5');
    assert(digit_char(6) == '6');
    assert(digit_char(7) == '7');
    assert(digit_char(8) == '8');
    assert(digit_char(9) == '9');
}

/// What a rendered number looks like: at least one character, digits
/// throughout, a leading zero only for zero itself, and it denotes the
/// number it renders.
pub proof fn lemma_dec_digits_props(n: nat)
    ensures
        dec_digits(n).len() >= 1,
        is_digit_seq(dec_digits(n)),
        (dec_digits(n)[0] == '0') == (n == 0),
        seq_val(dec_digits(n)) == n,
    decreases n,
{
    if n < 10 {
        lemma_digit_char_of_val(n);
        assert(dec_digits(n) =~= seq![digit_char(n)]);
        assert(dec_digits(n).drop_last() =~= Seq::<char>::empty());
        assert(seq_val(dec_digits(n).drop_last()) == 0);
        assert(seq_val(dec_digits(n)) == digit_val(digit_char(n)));
    } else {
        lemma_dec_digits_props(n / 10);
        lemma_digit_char_of_val(n % 10);
        let ds = dec_digits(n);
        assert(ds == dec_digits(n / 10).push(digit_char(n % 10)));
        assert(ds.drop_last() =~= dec_digits(n / 10));
        assert(ds.last() == digit_char(n % 10));
        assert(seq_val(ds) == (n / 10) * 10 + (n % 10));
        assert((n / 10) * 10 + (n % 10) == n);
        assert forall|k: int| 0 <= k < ds.len() implies is_digit(ds[k]) by {
            if k < ds.len() - 1 {
                assert(ds[k] == dec_digits(n / 10)[k]);
            }
        }
        assert(ds[0] == dec_digits(n / 10)[0]);
        assert(n / 10 >= 1);
    }
}

/// A prefix of a digit sequence denotes no more than the whole.
proof fn lemma_seq_val_take_le(ds: Seq<char>, k: int)
    requires
        0 <= k <= ds.len(),
    ensures
        seq_val(ds.take(k)) <= seq_val(ds),
    decreases ds.len() - k,
{
    if k == ds.len() {
        assert(ds.take(k) =~= ds);
    } else {
        lemma_seq_val_take_le(ds, k + 1);
        assert(ds.take(k + 1).drop_last() =~= ds.take(k));
        assert(seq_val(ds.take(k + 1)) == seq_val(ds.take(k)) * 10 + digit_val(
            ds.take(k + 1).last(),
        ));
        assert(seq_val(ds.take(k)) * 10 >= seq_val(ds.take(k))) by (nonlinear_arith);
    }
}

/// Appends the decimal digits of `n`.
pub fn write_digits(n: u64, out: &mut Vec<char>)
    ensures
        final(out)@ == old(out)@ + dec_digits(n as nat),
{
    let mut d = u64_to_dec(n);
    out.append(&mut d);
}

/// Appends the serialized form of `i`.
fn write_int(i: i64, out: &mut Vec<char>)
    ensures
        final(out)@ == old(out)@ + ser_int(i as int),
{
    if i < 0 {
        out.push('-');
        let mag: u64 = ((-(i + 1)) as u64) + 1;
        write_digits(mag, out);
        proof {
            assert(mag as nat == (-(i as int)) as nat);
            assert(out@ =~= old(out)@ + ser_int(i as int));
        }
    } else {
        write_digits(i as u64, out);
    }
}

/// Appends the escaped body of `s`.
fn write_str_body(s: &String, out: &mut Vec<char>)
    ensures
        final(out)@ == old(out)@ + esc(s@),
{
    let chars = str_to_chars(s.as_str());
    let mut j: usize = 0;
    while j < chars.len()
        invariant
            chars@ == s@,
            j <= chars@.len(),
            out@ == old(out)@ + esc(s@.take(j as int)),
        decreases chars@.len() - j,
    {
        let c = chars[j];
        if c == '"' {
            out.push('\\');
            out.push('"');
        } else if c == '\\' {
            out.push('\\');
            out.push('\\');
        } else if c == '\n' {
            out.push('\\');
            out.push('n');
        } else if c == '\r' {
            out.push('\\');
            out.push('r');
        } else if c == '\t' {
            out.push('\\');
            out.push('t');
        } else {
            let u = char_code(c);
            if u < 32 {
                out.push('\\');
                out.push('u');
                out.push('0');
                out.push('0');
                out.push(hex_digit(u / 16));
                out.push(hex_digit(u % 16));
                proof {
                    assert(((c as int) / 16) as nat == (u / 16) as nat);
                    assert(((c as int) % 16) as nat == (u % 16) as nat);
                }
            } else {
                out.push(c);
            }
        }
        proof {
            assert(s@.take(j + 1).drop_last() =~= s@.take(j as int));
            assert(s@.take(j + 1).last() == s@[j as int]);
            assert(out@ =~= old(out)@ + esc(s@.take(j + 1)));
        }
        j += 1;
    }
    proof {
        assert(s@.take(s@.len() as int) =~= s@);
    }
}

/// Appends the quoted, escaped form of `s`.
pub fn write_qstr(s: &String, out: &mut Vec<char>)
    ensures
        final(out)@ == old(out)@ + ser_str(s@),
{
    out.push('"');
    write_str_body(s, out);
    out.push('"');
    proof {
        assert(out@ =~= old(out)@ + ser_str(s@));
    }
}

/// Appends the serialized elements of `items`, comma-separated.
fn write_vals(items: &Vec<JsonValue>, out: &mut Vec<char>)
    ensures
        final(out)@ == old(out)@ + ser_elems(JsonValue::view_elems(items@)),
    decreases items@,
{
    let mut j: usize = 0;
    while j < items.len()
        invariant
            j <= items@.len(),
            out@ == old(out)@ + ser_elems(JsonValue::view_elems(items@.take(j as int))),
        decreases items@.len() - j,
    {
        if j > 0 {
            out.push(',');
        }
        proof {
            assert(decreases_to!(items@ => items@[j as int]));
        }
        write_val(&items[j], out);
        proof {
            let prev = JsonValue::view_elems(items@.take(j as int));
            let cur = JsonValue::view_elems(items@.take(j + 1));
            assert(items@.take(j + 1).drop_last() =~= items@.take(j as int));
            assert(items@.take(j + 1).last() == items@[j as int]);
            assert(cur == prev.push(items@[j as int]@));
            crate::json::lemma_view_elems(items@.take(j as int));
            if j == 0 {
                assert(cur.len() == 1 && cur[0] == items@[0]@);
                assert(ser_elems(cur) == ser_val(items@[0]@));
            } else {
                assert(cur.drop_last() =~= prev);
                assert(ser_elems(cur) == ser_elems(prev) + seq![','] + ser_val(
                    items@[j as int]@,
                ));
            }
            assert(out@ =~= old(out)@ + ser_elems(cur));
        }
        j += 1;
    }
    proof {
        assert(items@.take(items@.len() as int) =~= items@);
    }
}

/// Appends one serialized object field.
fn write_field(entry: &(String, JsonValue), out: &mut Vec<char>)
    ensures
        final(out)@ == old(out)@ + ser_str(entry.0@) + seq![':'] + ser_val(entry.1@),
    decreases *entry,
{
    proof {
        assert(decreases_to!(*entry => entry.1));
    }
    write_qstr(&entry.0, out);
    out.push(':');
    write_val(&entry.1, out);
    proof {
        assert(out@ =~= old(out)@ + ser_str(entry.0@) + seq![':'] + ser_val(entry.1@));
    }
}

/// Appends the serialized fields of an object, comma-separated.
fn write_field_vec(fields: &Vec<(String, JsonValue)>, out: &mut Vec<char>)
    ensures
        final(out)@ == old(out)@ + ser_fields(JsonValue::view_fields(fields@)),
    decreases fields@,
{
    let mut j: usize = 0;
    while j < fields.len()
        invariant
            j <= fields@.len(),
            out@ == old(out)@ + ser_fields(JsonValue::view_fields(fields@.take(j as int))),
        decreases fields@.len() - j,
    {
        if j > 0 {
            out.push(',');
        }
        proof {
            assert(decreases_to!(fields@ => fields@[j as int]));
        }
        write_field(&fields[j], out);
        proof {
            let prev = JsonValue::view_fields(fields@.take(j as int));
            let cur = JsonValue::view_fields(fields@.take(j + 1));
            assert(fields@.take(j + 1).drop_last() =~= fields@.take(j as int));
            assert(fields@.take(j + 1).last() == fields@[j as int]);
            assert(cur == prev.push((fields@[j as int].0@, fields@[j as int].1@)));
            crate::json::lemma_view_fields(fields@.take(j as int));
            if j == 0 {
                assert(cur.len() == 1 && cur[0] == (fields@[0].0@, fields@[0].1@));
            } else {
                assert(cur.drop_last() =~= prev);
            }
            assert(out@ =~= old(out)@ + ser_fields(cur));
        }
        j += 1;
    }
    proof {
        assert(fields@.take(fields@.len() as int) =~= fields@);
    }
}

/// Appends the serialized form of `v`.
pub fn write_val(v: &JsonValue, out: &mut Vec<char>)
    ensures
        final(out)@ == old(out)@ + ser_val(v@),
    decreases *v,
{
    match v {
        JsonValue::Null => {
            out.push('n');
            out.push('u');
            out.push('l');
            out.push('l');
            proof {
                assert(out@ =~= old(out)@ + ser_val(v@));
            }
        },
        JsonValue::Bool(b) => {
            if *b {
                out.push('t');
                out.push('r');
                out.push('u');
                out.push('e');
            } else {
                out.push('f');
                out.push('a');
                out.push('l');
                out.push('s');
                out.push('e');
            }
            proof {
                assert(out@ =~= old(out)@ + ser_val(v@));
            }
        },
        JsonValue::Int(i) => {
            write_int(*i, out);
        },
        JsonValue::Str(s) => {
            write_qstr(s, out);
        },
        JsonValue::Arr(items) => {
            proof {
                assert(decreases_to!(*v => (*v)->Arr_0));
            }
            out.push('[');
            write_vals(items, out);
            out.push(']');
            proof {
                assert(out@ =~= old(out)@ + ser_val(v@));
            }
        },
        JsonValue::Obj(fields) => {
            proof {
                assert(decreases_to!(*v => (*v)->Obj_0));
            }
            out.push('{');
            write_field_vec(fields, out);
            out.push('}');
            proof {
                assert(out@ =~= old(out)@ + ser_val(v@));
            }
        },
    }
}

/// Appends the serialized form of one stored item.
pub fn write_tiddler(t: &Tiddler, out: &mut Vec<char>)
    ensures
        final(out)@ == old(out)@ + ser_tiddler(t@),
{
    out.push('{');
    out.push('"');
    out.push('m');
    out.push('e');
    out.push('t');
    out.push('a');
    out.push('"');
    out.push(':');
    write_val(&t.meta, out);
    out.push(',');
    out.push('"');
    out.push('t');
    out.push('e');
    out.push('x');
    out.push('t');
    out.push('"');
    out.push(':');
    write_qstr(&t.text, out);
    out.push(',');
    out.push('"');
    out.push('r');
    out.push('e');
    out.push('v');
    out.push('i');
    out.push('s');
    out.push('i');
    out.push('o');
    out.push('n');
    out.push('"');
    out.push(':');
    write_digits(t.revision as u64, out);
    out.push('}');
    proof {
        assert(out@ =~= old(out)@ + ser_tiddler(t@));
    }
}

/// The serialized form of a single value, as characters.
pub fn json_to_chars(v: &JsonValue) -> (r: Vec<char>)
    ensures
        r@ == ser_val(v@),
{
    let mut out: Vec<char> = Vec::new();
    write_val(v, &mut out);
    proof {
        assert(out@ =~= ser_val(v@));
    }
    out
}

/// The index just past `pat`, when the characters of `s` starting at `i`
/// are exactly `pat`.
pub fn expect_chars(s: &Vec<char>, i: usize, pat: &Vec<char>) -> (r: Option<usize>)
    requires
        i <= s@.len(),
    ensures
        r matches Some(e) ==> e == i + pat@.len() && e <= s@.len() && s@.subrange(
            i as int,
            e as int,
        ) == pat@,
        r is None ==> !(i + pat@.len() <= s@.len() && s@.subrange(i as int, i + pat@.len())
            == pat@),
{
    if pat.len() > s.len() - i {
        return None;
    }
    let end: usize = i + pat.len();
    let mut cur: usize = i;
    while cur < end
        invariant
            i <= cur <= end,
            end == i + pat@.len(),
            end <= s@.len(),
            forall|k: int| 0 <= k < cur - i ==> s@[i + k] == pat@[k],
        decreases end - cur,
    {
        if s[cur] != pat[cur - i] {
            proof {
                if i + pat@.len() <= s@.len() && s@.subrange(i as int, i + pat@.len()) == pat@ {
                    assert(s@.subrange(i as int, i + pat@.len())[cur - i] == s@[cur as int]);
                }
            }
            return None;
        }
        cur += 1;
    }
    proof {
        assert(s@.subrange(i as int, i + pat@.len()) =~= pat@);
    }
    Some(end)
}

/// Reads one quoted string starting at `i`; what was consumed is exactly
/// the canonical serialization of the string returned.
pub fn parse_string(s: &Vec<char>, i: usize) -> (r: Option<(String, usize)>)
    requires
        i <= s@.len(),
    ensures
        r matches Some((st, j)) ==> i < j <= s@.len() && s@.subrange(i as int, j as int)
            == ser_str(st@),
{
    if i >= s.len() || s[i] != '"' {
        return None;
    }
    let mut built: Vec<char> = Vec::new();
    let mut cur: usize = i + 1;
    proof {
        assert(s@.subrange(i + 1, i + 1) =~= esc(built@));
    }
    loop
        invariant
            i < cur <= s@.len(),
            i < s@.len(),
            s@[i as int] == '"',
            s@.subrange(i + 1, cur as int) == esc(built@),
        decreases s@.len() - cur,
    {
        if cur >= s.len() {
            return None;
        }
        let c = s[cur];
        if c == '"' {
            let st = crate::strutil::chars_to_string(&built);
            proof {
                assert(s@.subrange(i as int, cur + 1) =~= seq!['"'] + s@.subrange(i + 1, cur as int)
                    + seq!['"']);
                assert(s@.subrange(i as int, cur + 1) =~= ser_str(built@));
            }
            return Some((st, cur + 1));
        } else if c == '\\' {
            if cur + 1 >= s.len() {
                return None;
            }
            let e = s[cur + 1];
            let d: char;
            if e == '"' {
                d = '"';
            } else if e == '\\' {
                d = '\\';
            } else if e == 'n' {
                d = '\n';
            } else if e == 'r' {
                d = '\r';
            } else if e == 't' {
                d = '\t';
            } else if e == 'u' {
                if s.len() - cur < 6 {
                    return None;
                }
                if s[cur + 2] != '0' || s[cur + 3] != '0' {
                    return None;
                }
                let hi: u32;
                match hex_val(s[cur + 4]) {
                    Some(v) => {
                        hi = v;
                    },
                    None => {
                        return None;
                    },
                }
                let lo: u32;
                match hex_val(s[cur + 5]) {
                    Some(v) => {
                        lo = v;
                    },
                    None => {
                        return None;
                    },
                }
                let code = hi * 16 + lo;
                if code >= 32 || code == 9 || code == 10 || code == 13 {
                    return None;
                }
                let dd = (code as u8) as char;
                let ghost prev = built@;
                built.push(dd);
                proof {
                    assert(built@.drop_last() =~= prev);
                    assert(dd as int == code as int);
                    assert((hi as int * 16 + lo as int) / 16 == hi as int) by (nonlinear_arith)
                        requires
                            0 <= lo < 16,
                            0 <= hi,
                    ;
                    assert((hi as int * 16 + lo as int) % 16 == lo as int) by (nonlinear_arith)
                        requires
                            0 <= lo < 16,
                            0 <= hi,
                    ;
                    assert(((dd as int) / 16) as nat == hi as nat);
                    assert(((dd as int) % 16) as nat == lo as nat);
                    assert(esc_char(dd) =~= seq!['\\', 'u', '0', '0', s@[cur + 4], s@[cur + 5]]);
                    assert(s@.subrange(i + 1, cur + 6) =~= s@.subrange(i + 1, cur as int) + seq![
                        s@[cur as int],
                        s@[cur + 1],
                        s@[cur + 2],
                        s@[cur + 3],
                        s@[cur + 4],
                        s@[cur + 5],
                    ]);
                    assert(s@.subrange(i + 1, cur + 6) =~= esc(built@));
                }
                cur = cur + 6;
                continue;
            } else {
                return None;
            }
            let ghost prev = built@;
            built.push(d);
            proof {
                assert(built@.drop_last() =~= prev);
                assert(esc_char(d) =~= seq!['\\', e]);
                assert(s@.subrange(i + 1, cur + 2) =~= s@.subrange(i + 1, cur as int) + seq![
                    s@[cur as int],
                    s@[cur + 1],
                ]);
                assert(s@.subrange(i + 1, cur + 2) =~= esc(built@));
            }
            cur = cur + 2;
        } else {
            let u = char_code(c);
            if u < 32 {
                return None;
            }
            let ghost prev = built@;
            built.push(c);
            proof {
                assert(built@.drop_last() =~= prev);
                assert(esc_char(c) =~= seq![c]);
                assert(s@.subrange(i + 1, cur + 1) =~= s@.subrange(i + 1, cur as int) + seq![
                    s@[cur as int],
                ]);
                assert(s@.subrange(i + 1, cur + 1) =~= esc(built@));
            }
            cur = cur + 1;
        }
    }
}

/// Whether the canonical decimal rendering of `w` stands at `i` in `s`,
/// with the digit run ending there: the next character, if any, is not a
/// digit.
pub open spec fn canonical_number_at(s: Seq<char>, i: int, w: u64) -> bool {
    &&& i + dec_digits(w as nat).len() <= s.len()
    &&& s.subrange(i, i + dec_digits(w as nat).len()) == dec_digits(w as nat)
    &&& (i + dec_digits(w as nat).len() == s.len() || !is_digit(
        s[i + dec_digits(w as nat).len()],
    ))
}

/// Reads one unsigned decimal number starting at `i`; what was consumed is
/// exactly the canonical rendering of the number returned, and every
/// canonical number standing at `i` is read.
pub fn parse_u64(s: &Vec<char>, i: usize) -> (r: Option<(u64, usize)>)
    requires
        i <= s@.len(),
    ensures
        r matches Some((n, j)) ==> i < j <= s@.len() && s@.subrange(i as int, j as int)
            == dec_digits(n as nat),
        i < s@.len() && s@[i as int] == '0' ==> (r matches Some((n, j)) && n == 0 && j == i
            + 1),
        forall|w: u64|
            canonical_number_at(s@, i as int, w) ==> (r matches Some((m, j)) && m == w && j == i
                + dec_digits(w as nat).len()),
{
    if i >= s.len() {
        proof {
            assert forall|w: u64| !canonical_number_at(s@, i as int, w) by {
                lemma_dec_digits_props(w as nat);
            }
        }
        return None;
    }
    let c0 = s[i];
    proof {
        if s@[i as int] == '0' {
            assert(c0 == '0');
            assert(is_digit(c0));
        }
    }
    let d0: u64;
    match digit_of(c0) {
        Some(d) => {
            d0 = d;
        },
        None => {
            proof {
                assert forall|w: u64| !canonical_number_at(s@, i as int, w) by {
                    lemma_dec_digits_props(w as nat);
                    if canonical_number_at(s@, i as int, w) {
                        let c_first = s@[i as int];
                        assert(s@.subrange(i as int, i + dec_digits(w as nat).len())[0]
                            == c_first);
                    }
                }
            }
            return None;
        },
    }
    if c0 == '0' {
        proof {
            assert(dec_digits(0) =~= seq!['0']);
            assert(s@.subrange(i as int, i + 1) =~= seq!['0']);
            assert forall|w: u64|
                canonical_number_at(s@, i as int, w) implies w == 0 && dec_digits(w as nat).len()
                == 1 by {
                lemma_dec_digits_props(w as nat);
                assert(s@.subrange(i as int, i + dec_digits(w as nat).len())[0] == s@[i as int]);
            }
        }
        return Some((0, i + 1));
    }
    let mut n: u64 = d0;
    let mut cur: usize = i + 1;
    proof {
        let ds0 = s@.subrange(i as int, i + 1);
        assert(ds0 =~= seq![c0]);
        assert(ds0.drop_last() =~= Seq::<char>::empty());
        assert(seq_val(ds0.drop_last()) == 0);
        assert(ds0.last() == c0);
        assert(seq_val(ds0) == seq_val(ds0.drop_last()) * 10 + digit_val(ds0.last()));
        assert(n as nat == seq_val(ds0));
    }
    loop
        invariant
            i < cur <= s@.len(),
            i < s@.len(),
            s@[i as int] != '0',
            is_digit_seq(s@.subrange(i as int, cur as int)),
            n as nat == seq_val(s@.subrange(i as int, cur as int)),
        ensures
            i < cur <= s@.len(),
            is_digit_seq(s@.subrange(i as int, cur as int)),
            n as nat == seq_val(s@.subrange(i as int, cur as int)),
            cur == s@.len() || !is_digit(s@[cur as int]),
        decreases s@.len() - cur,
    {
        if cur >= s.len() {
            break;
        }
        let c = s[cur];
        let d: u64;
        match digit_of(c) {
            Some(dd) => {
                d = dd;
            },
            None => {
                proof {
                    assert(c == s@[cur as int]);
                }
                break;
            },
        }
        if n > (u64::MAX - d) / 10 {
            proof {
                assert forall|w: u64| !canonical_number_at(s@, i as int, w) by {
                    lemma_dec_digits_props(w as nat);
                    if canonical_number_at(s@, i as int, w) {
                        let l = dec_digits(w as nat).len() as int;
                        if cur >= i + l {
                            if cur > i + l {
                                assert(s@.subrange(i as int, cur as int)[l] == s@[i + l]);
                            }
                        } else {
                            assert(s@.subrange(i as int, cur + 1) =~= dec_digits(w as nat).take(
                                cur + 1 - i,
                            ));
                            lemma_seq_val_take_le(dec_digits(w as nat), cur + 1 - i);
                            assert(s@.subrange(i as int, cur + 1).drop_last() =~= s@.subrange(
                                i as int,
                                cur as int,
                            ));
                            assert(s@.subrange(i as int, cur + 1).last() == s@[cur as int]);
                            assert(seq_val(s@.subrange(i as int, cur + 1)) == seq_val(
                                s@.subrange(i as int, cur as int),
                            ) * 10 + digit_val(s@[cur as int]));
                            let m0: int = u64::MAX - d;
                            assert(10 * (m0 / 10) + m0 % 10 == m0);
                            assert((n as int) * 10 >= (m0 / 10) * 10 + 10) by (nonlinear_arith)
                                requires
                                    n as int > m0 / 10,
                            ;
                            assert((n as int) * 10 + d > u64::MAX);
                        }
                    }
                }
            }
            return None;
        }
        proof {
            let m: int = u64::MAX - d;
            assert(10 * (m / 10) <= m) by (nonlinear_arith);
            assert((n as int) * 10 <= 10 * (m / 10)) by (nonlinear_arith)
                requires
                    n as int <= m / 10,
            ;
        }
        let ghost prev = s@.subrange(i as int, cur as int);
        n = n * 10 + d;
        proof {
            let ds = s@.subrange(i as int, cur + 1);
            assert(ds.drop_last() =~= prev);
            assert(ds.last() == s@[cur as int]);
            assert(s@[cur as int] == c);
            assert(seq_val(ds) == seq_val(ds.drop_last()) * 10 + digit_val(ds.last()));
            assert(n as nat == seq_val(ds));
            assert forall|k: int| 0 <= k < ds.len() implies is_digit(ds[k]) by {
                if k < ds.len() - 1 {
                    assert(ds[k] == prev[k]);
                }
            }
        }
        cur = cur + 1;
    }
    proof {
        lemma_dec_digits_canon(s@.subrange(i as int, cur as int));
        assert forall|w: u64|
            canonical_number_at(s@, i as int, w) implies n == w && cur == i + dec_digits(
            w as nat,
        ).len() by {
            lemma_dec_digits_props(w as nat);
            let l = dec_digits(w as nat).len() as int;
            assert(s@.subrange(i as int, cur as int)[0] == s@[i as int]);
            if cur > i + l {
                assert(s@.subrange(i as int, cur as int)[l] == s@[i + l]);
            } else if cur < i + l {
                assert(s@.subrange(i as int, i + l)[cur - i] == s@[cur as int]);
            }
            assert(s@.subrange(i as int, cur as int) == s@.subrange(i as int, i + l));
            assert(n as nat == seq_val(dec_digits(w as nat)));
        }
    }
    Some((n, cur))
}

/// Reads one signed decimal number starting at `i`; what was consumed is
/// exactly the canonical serialization of the number returned, and every
/// canonical unsigned number within range that stands at `i` is read.
pub fn parse_int(s: &Vec<char>, i: usize) -> (r: Option<(i64, usize)>)
    requires
        i <= s@.len(),
    ensures
        r matches Some((v, j)) ==> i < j <= s@.len() && s@.subrange(i as int, j as int)
            == ser_int(v as int),
        forall|w: u64|
            canonical_number_at(s@, i as int, w) && w <= 9223372036854775807u64 ==> (r
                matches Some((v, j)) && v == w && j == i + dec_digits(w as nat).len()),
{
    proof {
        assert forall|w: u64|
            canonical_number_at(s@, i as int, w) implies is_digit(s@[i as int]) by {
            lemma_dec_digits_props(w as nat);
            assert(s@.subrange(i as int, i + dec_digits(w as nat).len())[0] == s@[i as int]);
        }
    }
    if i < s.len() && s[i] == '-' {
        match parse_u64(s, i + 1) {
            Some((n, j)) => {
                if n == 0 {
                    return None;
                }
                let v: i64;
                if n <= 9223372036854775807u64 {
                    v = -(n as i64);
                } else if n == 9223372036854775808u64 {
                    v = i64::MIN;
                } else {
                    return None;
                }
                proof {
                    assert((-(v as int)) as nat == n as nat);
                    assert(s@.subrange(i as int, j as int) =~= seq!['-'] + s@.subrange(
                        i + 1,
                        j as int,
                    ));
                    assert(s@.subrange(i as int, j as int) =~= ser_int(v as int));
                }
                Some((v, j))
            },
            None => None,
        }
    } else {
        match parse_u64(s, i) {
            Some((n, j)) => {
                if n <= 9223372036854775807u64 {
                    Some((n as i64, j))
                } else {
                    None
                }
            },
            None => None,
        }
    }
}

/// Reads one value starting at `i`; what was consumed is exactly the
/// canonical serialization of the value returned.
pub fn parse_val(s: &Vec<char>, i: usize) -> (r: Option<(JsonValue, usize)>)
    requires
        i <= s@.len(),
    ensures
        r matches Some((v, j)) ==> i < j <= s@.len() && s@.subrange(i as int, j as int)
            == ser_val(v@),
        s@.subrange(i as int, s@.len() as int) == ser_val(JVal::Null) ==> (r matches Some(
            (v, j),
        ) && v@ == JVal::Null && j == s@.len()),
        s@.subrange(i as int, s@.len() as int) == ser_val(JVal::Bool(true)) ==> (r matches Some(
            (v, j),
        ) && v@ == JVal::Bool(true) && j == s@.len()),
        s@.subrange(i as int, s@.len() as int) == ser_val(JVal::Bool(false)) ==> (r matches Some(
            (v, j),
        ) && v@ == JVal::Bool(false) && j == s@.len()),
    decreases s@.len() - i,
{
    proof {
        if s@.subrange(i as int, s@.len() as int) == ser_val(JVal::Null) {
            assert(ser_val(JVal::Null) =~= seq!['n', 'u', 'l', 'l']);
            assert(s@.subrange(i as int, s@.len() as int).len() == s@.len() - i);
            assert(s@.len() - i == 4);
            assert(s@.subrange(i as int, s@.len() as int)[0] == s@[i as int]);
            assert(s@.subrange(i as int, s@.len() as int)[1] == s@[i + 1]);
            assert(s@.subrange(i as int, s@.len() as int)[2] == s@[i + 2]);
            assert(s@.subrange(i as int, s@.len() as int)[3] == s@[i + 3]);
            assert(s@[i as int] == 'n' && s@[i + 1] == 'u' && s@[i + 2] == 'l' && s@[i + 3]
                == 'l');
        }
        if s@.subrange(i as int, s@.len() as int) == ser_val(JVal::Bool(true)) {
            assert(ser_val(JVal::Bool(true)) =~= seq!['t', 'r', 'u', 'e']);
            assert(s@.subrange(i as int, s@.len() as int).len() == s@.len() - i);
            assert(s@.len() - i == 4);
            assert(s@.subrange(i as int, s@.len() as int)[0] == s@[i as int]);
            assert(s@.subrange(i as int, s@.len() as int)[1] == s@[i + 1]);
            assert(s@.subrange(i as int, s@.len() as int)[2] == s@[i + 2]);
            assert(s@.subrange(i as int, s@.len() as int)[3] == s@[i + 3]);
            assert(s@[i as int] == 't' && s@[i + 1] == 'r' && s@[i + 2] == 'u' && s@[i + 3]
                == 'e');
        }
        if s@.subrange(i as int, s@.len() as int) == ser_val(JVal::Bool(false)) {
            assert(ser_val(JVal::Bool(false)) =~= seq!['f', 'a', 'l', 's', 'e']);
            assert(s@.subrange(i as int, s@.len() as int).len() == s@.len() - i);
            assert(s@.len() - i == 5);
            assert(s@.subrange(i as int, s@.len() as int)[0] == s@[i as int]);
            assert(s@.subrange(i as int, s@.len() as int)[1] == s@[i + 1]);
            assert(s@.subrange(i as int, s@.len() as int)[2] == s@[i + 2]);
            assert(s@.subrange(i as int, s@.len() as int)[3] == s@[i + 3]);
            assert(s@.subrange(i as int, s@.len() as int)[4] == s@[i + 4]);
            assert(s@[i as int] == 'f' && s@[i + 1] == 'a' && s@[i + 2] == 'l' && s@[i + 3]
                == 's' && s@[i + 4] == 'e');
        }
    }
    if i >= s.len() {
        return None;
    }
    let c = s[i];
    if c == 'n' {
        if s.len() - i >= 4 && s[i + 1] == 'u' && s[i + 2] == 'l' && s[i + 3] == 'l' {
            proof {
                assert(s@.subrange(i as int, i + 4) =~= seq!['n', 'u', 'l', 'l']);
            }
            Some((JsonValue::Null, i + 4))
        } else {
            None
        }
    } else if c == 't' {
        if s.len() - i >= 4 && s[i + 1] == 'r' && s[i + 2] == 'u' && s[i + 3] == 'e' {
            proof {
                assert(s@.subrange(i as int, i + 4) =~= seq!['t', 'r', 'u', 'e']);
            }
            Some((JsonValue::Bool(true), i + 4))
        } else {
            None
        }
    } else if c == 'f' {
        if s.len() - i >= 5 && s[i + 1] == 'a' && s[i + 2] == 'l' && s[i + 3] == 's' && s[i + 4]
            == 'e' {
            proof {
                assert(s@.subrange(i as int, i + 5) =~= seq!['f', 'a', 'l', 's', 'e']);
            }
            Some((JsonValue::Bool(false), i + 5))
        } else {
            None
        }
    } else if c == '"' {
        match parse_string(s, i) {
            Some((st, j)) => Some((JsonValue::Str(st), j)),
            None => None,
        }
    } else if c == '[' {
        let mut items: Vec<JsonValue> = Vec::new();
        let mut cur: usize = i + 1;
        if cur < s.len() && s[cur] == ']' {
            proof {
                assert(JsonValue::view_elems(items@) =~= Seq::<JVal>::empty());
                assert(s@.subrange(i as int, cur + 1) =~= seq!['['] + ser_elems(
                    JsonValue::view_elems(items@),
                ) + seq![']']);
            }
            return Some((JsonValue::Arr(items), cur + 1));
        }
        match parse_val(s, cur) {
            None => {
                return None;
            },
            Some((v, j)) => {
                items.push(v);
                cur = j;
                proof {
                    crate::json::lemma_view_elems(items@);
                    assert(JsonValue::view_elems(items@).len() == 1);
                    assert(s@.subrange(i + 1, cur as int) =~= ser_elems(
                        JsonValue::view_elems(items@),
                    ));
                }
            },
        }
        loop
            invariant
                i < cur <= s@.len(),
                i < s@.len(),
                s@[i as int] == '[',
                items@.len() >= 1,
                s@.subrange(i + 1, cur as int) == ser_elems(JsonValue::view_elems(items@)),
            decreases s@.len() - cur,
        {
            if cur >= s.len() {
                return None;
            }
            if s[cur] == ']' {
                proof {
                    assert(s@.subrange(i as int, cur + 1) =~= seq!['['] + s@.subrange(
                        i + 1,
                        cur as int,
                    ) + seq![']']);
                    assert(s@.subrange(i as int, cur + 1) =~= ser_val(
                        JVal::Arr(JsonValue::view_elems(items@)),
                    ));
                }
                return Some((JsonValue::Arr(items), cur + 1));
            }
            if s[cur] != ',' {
                return None;
            }
            match parse_val(s, cur + 1) {
                None => {
                    return None;
                },
                Some((v, j2)) => {
                    let ghost prev = items@;
                    items.push(v);
                    proof {
                        let pv = JsonValue::view_elems(prev);
                        let nv = JsonValue::view_elems(items@);
                        assert(items@.drop_last() =~= prev);
                        assert(nv == pv.push(v@));
                        crate::json::lemma_view_elems(prev);
                        assert(nv.len() >= 2);
                        assert(nv.drop_last() =~= pv);
                        assert(ser_elems(nv) == ser_elems(pv) + seq![','] + ser_val(v@));
                        assert(s@.subrange(i + 1, j2 as int) =~= s@.subrange(i + 1, cur as int)
                            + seq![s@[cur as int]] + s@.subrange(cur + 1, j2 as int));
                        assert(s@.subrange(i + 1, j2 as int) =~= ser_elems(nv));
                    }
                    cur = j2;
                },
            }
        }
    } else if c == '{' {
        let mut fields: Vec<(String, JsonValue)> = Vec::new();
        let mut cur: usize = i + 1;
        if cur < s.len() && s[cur] == '}' {
            proof {
                assert(JsonValue::view_fields(fields@) =~= Seq::<(Seq<char>, JVal)>::empty());
                assert(s@.subrange(i as int, cur + 1) =~= seq!['{'] + ser_fields(
                    JsonValue::view_fields(fields@),
                ) + seq!['}']);
            }
            return Some((JsonValue::Obj(fields), cur + 1));
        }
        match parse_field(s, cur) {
            None => {
                return None;
            },
            Some((k, v, j)) => {
                fields.push((k, v));
                proof {
                    crate::json::lemma_view_fields(fields@);
                    assert(JsonValue::view_fields(fields@).len() == 1);
                    assert(s@.subrange(i + 1, j as int) =~= ser_fields(
                        JsonValue::view_fields(fields@),
                    ));
                }
                cur = j;
            },
        }
        loop
            invariant
                i < cur <= s@.len(),
                i < s@.len(),
                s@[i as int] == '{',
                fields@.len() >= 1,
                s@.subrange(i + 1, cur as int) == ser_fields(JsonValue::view_fields(fields@)),
            decreases s@.len() - cur,
        {
            if cur >= s.len() {
                return None;
            }
            if s[cur] == '}' {
                proof {
                    assert(s@.subrange(i as int, cur + 1) =~= seq!['{'] + s@.subrange(
                        i + 1,
                        cur as int,
                    ) + seq!['}']);
                    assert(s@.subrange(i as int, cur + 1) =~= ser_val(
                        JVal::Obj(JsonValue::view_fields(fields@)),
                    ));
                }
                return Some((JsonValue::Obj(fields), cur + 1));
            }
            if s[cur] != ',' {
                return None;
            }
            match parse_field(s, cur + 1) {
                None => {
                    return None;
                },
                Some((k, v, j2)) => {
                    let ghost prev = fields@;
                    fields.push((k, v));
                    proof {
                        let pv = JsonValue::view_fields(prev);
                        let nv = JsonValue::view_fields(fields@);
                        assert(fields@.drop_last() =~= prev);
                        assert(nv == pv.push((k@, v@)));
                        crate::json::lemma_view_fields(prev);
                        assert(nv.len() >= 2);
                        assert(nv.drop_last() =~= pv);
                        assert(ser_fields(nv) == ser_fields(pv) + seq![','] + ser_str(k@) + seq![
                            ':',
                        ] + ser_val(v@));
                        assert(s@.subrange(i + 1, j2 as int) =~= s@.subrange(i + 1, cur as int)
                            + seq![s@[cur as int]] + s@.subrange(cur + 1, j2 as int));
                        assert(s@.subrange(i + 1, j2 as int) =~= ser_fields(nv));
                    }
                    cur = j2;
                },
            }
        }
    } else if c == '-' {
        match parse_int(s, i) {
            Some((v, j)) => Some((JsonValue::Int(v), j)),
            None => None,
        }
    } else {
        match digit_of(c) {
            Some(_) => match parse_int(s, i) {
                Some((v, j)) => Some((JsonValue::Int(v), j)),
                None => None,
            },
            None => None,
        }
    }
}

/// Reads one `"key":value` pair starting at `i`; what was consumed is
/// exactly the serialized key, a colon, and the serialized value.
fn parse_field(s: &Vec<char>, i: usize) -> (r: Option<(String, JsonValue, usize)>)
    requires
        i <= s@.len(),
    ensures
        r matches Some((k, v, j)) ==> i < j <= s@.len() && s@.subrange(i as int, j as int)
            == ser_str(k@) + seq![':'] + ser_val(v@),
    decreases s@.len() - i,
{
    match parse_string(s, i) {
        None => None,
        Some((k, j)) => {
            if j >= s.len() || s[j] != ':' {
                return None;
            }
            match parse_val(s, j + 1) {
                None => None,
                Some((v, j2)) => {
                    proof {
                        assert(s@.subrange(i as int, j2 as int) =~= s@.subrange(i as int, j as int)
                            + seq![s@[j as int]] + s@.subrange(j + 1, j2 as int));
                    }
                    Some((k, v, j2))
                },
            }
        },
    }
}

/// Reads one complete value from `text`. Whatever is accepted is exactly
/// the canonical serialization of the value returned; canonical scalar
/// texts are proved to be accepted.
pub fn parse_json(text: &str) -> (r: Option<JsonValue>)
    ensures
        r matches Some(v) ==> text@ == ser_val(v@),
        text@ == ser_val(JVal::Null) ==> (r matches Some(v) && v@ == JVal::Null),
        text@ == ser_val(JVal::Bool(true)) ==> (r matches Some(v) && v@ == JVal::Bool(true)),
        text@ == ser_val(JVal::Bool(false)) ==> (r matches Some(v) && v@ == JVal::Bool(false)),
{
    let s = str_to_chars(text);
    proof {
        if text@ == ser_val(JVal::Null) || text@ == ser_val(JVal::Bool(true)) || text@ == ser_val(
            JVal::Bool(false),
        ) {
            assert(s@.subrange(0, s@.len() as int) =~= s@);
        }
    }
    match parse_val(&s, 0) {
        Some((v, j)) => {
            if j == s.len() {
                proof {
                    assert(s@.subrange(0, j as int) =~= s@);
                }
                Some(v)
            } else {
                None
            }
        },
        None => None,
    }
}

/// Reads one serialized item starting at `i`; what was consumed is exactly
/// the canonical serialization of the item returned.
pub fn parse_tiddler(s: &Vec<char>, i: usize) -> (r: Option<(Tiddler, usize)>)
    requires
        i <= s@.len(),
    ensures
        r matches Some((t, j)) ==> i < j <= s@.len() && s@.subrange(i as int, j as int)
            == ser_tiddler(t@),
{
    let pat1: Vec<char> = vec!['{', '"', 'm', 'e', 't', 'a', '"', ':'];
    proof {
        assert(pat1@ =~= seq!['{', '"', 'm', 'e', 't', 'a', '"', ':']);
    }
    let c1: usize;
    match expect_chars(s, i, &pat1) {
        Some(e) => {
            c1 = e;
        },
        None => {
            return None;
        },
    }
    match parse_val(s, c1) {
        None => None,
        Some((meta, j1)) => {
            let pat2: Vec<char> = vec![',', '"', 't', 'e', 'x', 't', '"', ':'];
            proof {
                assert(pat2@ =~= seq![',', '"', 't', 'e', 'x', 't', '"', ':']);
            }
            let c2: usize;
            match expect_chars(s, j1, &pat2) {
                Some(e) => {
                    c2 = e;
                },
                None => {
                    return None;
                },
            }
            match parse_string(s, c2) {
                None => None,
                Some((text, j2)) => {
                    let pat3: Vec<char> = vec![
                        ',',
                        '"',
                        'r',
                        'e',
                        'v',
                        'i',
                        's',
                        'i',
                        'o',
                        'n',
                        '"',
                        ':',
                    ];
                    proof {
                        assert(pat3@ =~= seq![
                            ',',
                            '"',
                            'r',
                            'e',
                            'v',
                            'i',
                            's',
                            'i',
                            'o',
                            'n',
                            '"',
                            ':',
                        ]);
                    }
                    let c3: usize;
                    match expect_chars(s, j2, &pat3) {
                        Some(e) => {
                            c3 = e;
                        },
                        None => {
                            return None;
                        },
                    }
                    match parse_u64(s, c3) {
                        None => None,
                        Some((n, j3)) => {
                            if n > 0xffff_ffffu64 {
                                return None;
                            }
                            if j3 >= s.len() || s[j3] != '}' {
                                return None;
                            }
                            let t = Tiddler { meta, text, revision: n as u32 };
                            proof {
                                assert(s@.subrange(i as int, j3 + 1) =~= s@.subrange(
                                    i as int,
                                    c1 as int,
                                ) + s@.subrange(c1 as int, j1 as int) + s@.subrange(
                                    j1 as int,
                                    c2 as int,
                                ) + s@.subrange(c2 as int, j2 as int) + s@.subrange(
                                    j2 as int,
                                    c3 as int,
                                ) + s@.subrange(c3 as int, j3 as int) + s@.subrange(
                                    j3 as int,
                                    j3 + 1,
                                ));
                                assert(s@.subrange(j3 as int, j3 + 1) =~= seq!['}']);
                                assert(s@.subrange(i as int, j3 + 1) =~= ser_tiddler(t@));
                            }
                            Some((t, j3 + 1))
                        },
                    }
                },
            }
        },
    }
}

/// Reads one `"key":item` pair of the snapshot's item table starting at
/// `i`; what was consumed is exactly the serialized key, a colon, and the
/// serialized item.
pub fn parse_entry(s: &Vec<char>, i: usize) -> (r: Option<(String, Tiddler, usize)>)
    requires
        i <= s@.len(),
    ensures
        r matches Some((k, t, j)) ==> i < j <= s@.len() && s@.subrange(i as int, j as int)
            == ser_str(k@) + seq![':'] + ser_tiddler(t@),
{
    match parse_string(s, i) {
        None => None,
        Some((k, j)) => {
            if j >= s.len() || s[j] != ':' {
                return None;
            }
            match parse_tiddler(s, j + 1) {
                None => None,
                Some((t, j2)) => {
                    proof {
                        assert(s@.subrange(i as int, j2 as int) =~= s@.subrange(i as int, j as int)
                            + seq![s@[j as int]] + s@.subrange(j + 1, j2 as int));
                    }
                    Some((k, t, j2))
                },
            }
        },
    }
}

/// A canonical digit sequence — no leading zero unless it is exactly "0" —
/// is recovered by rendering the number it denotes.
pub proof fn lemma_dec_digits_canon(ds: Seq<char>)
    requires
        ds.len() >= 1,
        is_digit_seq(ds),
        ds[0] != '0' || ds.len() == 1,
    ensures
        dec_digits(seq_val(ds)) == ds,
    decreases ds.len(),
{
    if ds.len() == 1 {
        let d = digit_val(ds[0]);
        assert(ds.last() == ds[0]);
        assert(ds.drop_last().len() == 0);
        assert(seq_val(ds.drop_last()) == 0);
        assert(seq_val(ds) == d);
        assert(d < 10);
        lemma_digit_char_val(ds[0]);
        assert(dec_digits(d) =~= ds);
    } else {
        let dl = ds.drop_last();
        assert(dl[0] == ds[0]);
        lemma_seq_val_lower(dl);
        lemma_dec_digits_canon(dl);
        let n = seq_val(ds);
        let a = seq_val(dl);
        let d = digit_val(ds.last());
        assert(n == a * 10 + d);
        assert(d < 10);
        assert(n >= 10 && n / 10 == a && n % 10 == d) by (nonlinear_arith)
            requires
                n == a * 10 + d,
                a >= 1,
                0 <= d < 10,
        ;
        assert(dec_digits(n) == dec_digits(a).push(digit_char(d)));
        lemma_digit_char_val(ds.last());
        assert(dec_digits(n) =~= ds);
    }
}

} // verus!
