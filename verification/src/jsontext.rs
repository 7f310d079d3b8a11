//! Serialization of values to JSON text, and truthiness of JSON text.
//!
//! The expression bridge hands data to the evaluator as JSON text and reads
//! the result back as JSON text; this module defines both directions' pure
//! parts: a serializer for the library's own values, and the truthiness test
//! on a serialized result (`false`, `null`, a zero number, an empty string,
//! an empty array and an empty object are false).

use vstd::prelude::*;
use crate::json::{arr_view, pairs_view, value_truthy, Value, ValueV};
use crate::text::{find_char, first_index_of, lemma_first_index_of};

verus! {

/// The character for one decimal digit.
pub open spec fn dec_digit(d: int) -> char {
    if d == 0 {
        '0'
    } else if d == 1 {
        '1'
    } else if d == 2 {
        '2'
    } else if d == 3 {
        '3'
    } else if d == 4 {
        '4'
    } else if d == 5 {
        '5'
    } else if d == 6 {
        '6'
    } else if d == 7 {
        '7'
    } else if d == 8 {
        '8'
    } else {
        '9'
    }
}

/// Decimal digits of a natural number, most significant first.
pub open spec fn dec_text(n: nat) -> Seq<char>
    decreases n,
{
    if n < 10 {
        seq![dec_digit(n as int)]
    } else {
        dec_text(n / 10).push(dec_digit((n % 10) as int))
    }
}

/// Decimal text of an integer, with a leading `-` when negative.
pub open spec fn int_text(n: int) -> Seq<char> {
    if n < 0 {
        seq!['-'] + dec_text((-n) as nat)
    } else {
        dec_text(n as nat)
    }
}

/// The character for one hexadecimal digit.
pub open spec fn hex_digit(d: int) -> char {
    if d < 10 {
        dec_digit(d)
    } else if d == 10 {
        'a'
    } else if d == 11 {
        'b'
    } else if d == 12 {
        'c'
    } else if d == 13 {
        'd'
    } else if d == 14 {
        'e'
    } else {
        'f'
    }
}

/// JSON escape of one character: quotes and backslashes get a backslash,
/// control characters become `\u00XX`, everything else stands for itself.
pub open spec fn esc_char(c: char) -> Seq<char> {
    if c == '"' {
        seq!['\\', '"']
    } else if c == '\\' {
        seq!['\\', '\\']
    } else if (c as u32) < 32 {
        seq!['\\', 'u', '0', '0', hex_digit((c as u32 / 16) as int), hex_digit((c as u32 % 16) as int)]
    } else {
        seq![c]
    }
}

/// JSON escape of a whole string.
pub open spec fn esc_text(s: Seq<char>) -> Seq<char>
    decreases s.len(),
{
    if s.len() == 0 {
        Seq::empty()
    } else {
        esc_char(s[0]) + esc_text(s.drop_first())
    }
}

/// A JSON string literal.
pub open spec fn quoted(s: Seq<char>) -> Seq<char> {
    seq!['"'] + esc_text(s) + seq!['"']
}

/// The JSON text of a value.
pub open spec fn json_text_of(v: ValueV) -> Seq<char>
    decreases v, 0int,
{
    match v {
        ValueV::Null => seq!['n', 'u', 'l', 'l'],
        ValueV::Bool(b) => if b {
            seq!['t', 'r', 'u', 'e']
        } else {
            seq!['f', 'a', 'l', 's', 'e']
        },
        ValueV::Number(n) => int_text(n as int),
        ValueV::String(s) => quoted(s),
        ValueV::Array(vs) => seq!['['] + arr_items_text(vs) + seq![']'],
        ValueV::Object(ps) => seq!['{'] + obj_items_text(ps) + seq!['}'],
    }
}

/// The comma-separated items of a JSON array.
pub open spec fn arr_items_text(vs: Seq<ValueV>) -> Seq<char>
    decreases vs, 1int,
{
    if vs.len() == 0 {
        Seq::empty()
    } else if vs.len() == 1 {
        json_text_of(vs[0])
    } else {
        json_text_of(vs[0]) + seq![','] + arr_items_text(vs.drop_first())
    }
}

/// The comma-separated entries of a JSON object.
pub open spec fn obj_items_text(ps: Seq<(Seq<char>, ValueV)>) -> Seq<char>
    decreases ps, 1int,
{
    if ps.len() == 0 {
        Seq::empty()
    } else if ps.len() == 1 {
        quoted(ps[0].0) + seq![':'] + json_text_of(ps[0].1)
    } else {
        quoted(ps[0].0) + seq![':'] + json_text_of(ps[0].1) + seq![','] + obj_items_text(
            ps.drop_first(),
        )
    }
}

fn dec_digit_exec(d: u64) -> (r: char)
    requires
        d < 10,
    ensures
        r == dec_digit(d as int),
{
    match d {
        0u64 => '0',
        1u64 => '1',
        2u64 => '2',
        3u64 => '3',
        4u64 => '4',
        5u64 => '5',
        6u64 => '6',
        7u64 => '7',
        8u64 => '8',
        _ => '9',
    }
}

fn hex_digit_exec(d: u32) -> (r: char)
    requires
        d < 16,
    ensures
        r == hex_digit(d as int),
{
    match d {
        0u32 => '0',
        1u32 => '1',
        2u32 => '2',
        3u32 => '3',
        4u32 => '4',
        5u32 => '5',
        6u32 => '6',
        7u32 => '7',
        8u32 => '8',
        9u32 => '9',
        10u32 => 'a',
        11u32 => 'b',
        12u32 => 'c',
        13u32 => 'd',
        14u32 => 'e',
        _ => 'f',
    }
}

/// Append the decimal digits of `n`.
fn write_dec(n: u64, out: &mut Vec<char>)
    ensures
        final(out)@ == old(out)@ + dec_text(n as nat),
    decreases n,
{
    if n < 10 {
        out.push(dec_digit_exec(n));
        proof {
            assert(final(out)@ =~= old(out)@ + dec_text(n as nat));
        }
    } else {
        write_dec(n / 10, out);
        out.push(dec_digit_exec(n % 10));
        proof {
            assert(final(out)@ =~= old(out)@ + dec_text(n as nat));
        }
    }
}

/// Append the decimal text of `n`, with a leading `-` when negative.
fn write_int(n: i64, out: &mut Vec<char>)
    ensures
        final(out)@ == old(out)@ + int_text(n as int),
{
    if n < 0 {
        out.push('-');
        let m: u64 = if n == i64::MIN {
            9223372036854775808u64
        } else {
            (-n) as u64
        };
        proof {
            assert(m as nat == (-(n as int)) as nat);
        }
        write_dec(m, out);
        proof {
            assert(final(out)@ =~= old(out)@ + int_text(n as int));
        }
    } else {
        write_dec(n as u64, out);
    }
}

/// Append the JSON escape of one character.
fn write_esc_char(c: char, out: &mut Vec<char>)
    ensures
        final(out)@ == old(out)@ + esc_char(c),
{
    if c == '"' {
        out.push('\\');
        out.push('"');
        proof {
            assert(final(out)@ =~= old(out)@ + esc_char(c));
        }
    } else if c == '\\' {
        out.push('\\');
        out.push('\\');
        proof {
            assert(final(out)@ =~= old(out)@ + esc_char(c));
        }
    } else if (c as u32) < 32 {
        out.push('\\');
        out.push('u');
        out.push('0');
        out.push('0');
        out.push(hex_digit_exec((c as u32) / 16));
        out.push(hex_digit_exec((c as u32) % 16));
        proof {
            assert(final(out)@ =~= old(out)@ + esc_char(c));
        }
    } else {
        out.push(c);
        proof {
            assert(final(out)@ =~= old(out)@ + esc_char(c));
        }
    }
}

/// Append a JSON string literal.
fn write_quoted(s: &Vec<char>, out: &mut Vec<char>)
    ensures
        final(out)@ == old(out)@ + quoted(s@),
{
    out.push('"');
    let mut i: usize = 0;
    while i < s.len()
        invariant
            i <= s@.len(),
            out@ == old(out)@ + seq!['"'] + esc_text(s@.take(i as int)),
        decreases s@.len() - i,
    {
        write_esc_char(s[i], out);
        proof {
            lemma_esc_text_take(s@, i as int);
        }
        i = i + 1;
    }
    out.push('"');
    proof {
        assert(s@.take(s@.len() as int) =~= s@);
        assert(final(out)@ =~= old(out)@ + quoted(s@));
    }
}

proof fn lemma_esc_text_take(s: Seq<char>, i: int)
    requires
        0 <= i < s.len(),
    ensures
        esc_text(s.take(i + 1)) == esc_text(s.take(i)) + esc_char(s[i]),
    decreases i,
{
    if i == 0 {
        assert(s.take(1)[0] == s[0]);
        assert(s.take(1).drop_first() =~= Seq::<char>::empty());
        assert(esc_text(s.take(1)) == esc_char(s[0]) + esc_text(s.take(1).drop_first()));
        assert(esc_text(s.take(0)) =~= Seq::<char>::empty());
        assert(esc_text(s.take(1)) =~= esc_text(s.take(0)) + esc_char(s[0]));
    } else {
        let t = s.drop_first();
        assert(s.take(i + 1)[0] == s[0]);
        assert(s.take(i + 1).drop_first() =~= t.take(i));
        assert(s.take(i).drop_first() =~= t.take(i - 1));
        assert(t[i - 1] == s[i]);
        lemma_esc_text_take(t, i - 1);
        assert(esc_text(s.take(i + 1)) == esc_char(s[0]) + esc_text(t.take(i)));
        assert(esc_text(s.take(i)) == esc_char(s[0]) + esc_text(t.take(i - 1)));
        assert(esc_text(s.take(i + 1)) =~= esc_text(s.take(i)) + esc_char(s[i]));
    }
}

/// Append the JSON text of a value.
fn write_value(v: &Value, out: &mut Vec<char>)
    ensures
        final(out)@ == old(out)@ + json_text_of(v@),
    decreases v, 1int,
{
    match v {
        Value::Null => {
            out.push('n');
            out.push('u');
            out.push('l');
            out.push('l');
            proof {
                assert(final(out)@ =~= old(out)@ + json_text_of(v@));
            }
        },
        Value::Bool(b) => {
            if *b {
                out.push('t');
                out.push('r');
                out.push('u');
                out.push('e');
            } else {
                out.push('f');
                out.push('a');
                out.push('l');
                out.push('s');
                out.push('e');
            }
            proof {
                assert(v@ == ValueV::Bool(*b));
                assert(final(out)@ =~= old(out)@ + json_text_of(v@));
            }
        },
        Value::Number(n) => {
            write_int(*n, out);
            proof {
                assert(v@ == ValueV::Number(*n));
            }
        },
        Value::String(s) => {
            let chars = crate::text::chars_of(s.as_str());
            write_quoted(&chars, out);
            proof {
                assert(v@ == ValueV::String(s@));
            }
        },
        Value::Array(vs) => {
            proof {
                assert(v@ == ValueV::Array(arr_view(vs@)));
            }
            out.push('[');
            write_arr_items(v, vs, out);
            out.push(']');
            proof {
                assert(final(out)@ =~= old(out)@ + json_text_of(v@));
            }
        },
        Value::Object(ps) => {
            proof {
                assert(v@ == ValueV::Object(pairs_view(ps@)));
            }
            out.push('{');
            write_obj_items(v, ps, out);
            out.push('}');
            proof {
                assert(final(out)@ =~= old(out)@ + json_text_of(v@));
            }
        },
    }
}

/// Append the comma-separated items of an array.
fn write_arr_items(v: &Value, vs: &Vec<Value>, out: &mut Vec<char>)
    requires
        *v == Value::Array(*vs),
    ensures
        final(out)@ == old(out)@ + arr_items_text(arr_view(vs@)),
    decreases v, 0int,
{
    let ghost vsv = arr_view(vs@);
    let mut i: usize = 0;
    while i < vs.len()
        invariant
            i <= vs@.len(),
            out@ == old(out)@ + arr_items_prefix(vsv, i as int),
        decreases vs@.len() - i,
    {
        proof {
            assert(decreases_to!(*v => v->Array_0));
            assert(decreases_to!(*v => vs@[i as int]));
        }
        if i > 0 {
            out.push(',');
        }
        write_value(&vs[i], out);
        proof {
            assert(arr_view(vs@)[i as int] == vs@[i as int]@);
            lemma_arr_items_prefix(vsv, i as int);
        }
        i = i + 1;
    }
    proof {
        lemma_arr_items_prefix_full(vsv);
    }
}

/// The serialized items of the first `i` array elements.
pub open spec fn arr_items_prefix(vs: Seq<ValueV>, i: int) -> Seq<char>
    decreases i,
{
    if i <= 0 {
        Seq::empty()
    } else if i == 1 {
        json_text_of(vs[0])
    } else {
        arr_items_prefix(vs, i - 1) + seq![','] + json_text_of(vs[i - 1])
    }
}

proof fn lemma_arr_items_prefix(vs: Seq<ValueV>, i: int)
    requires
        0 <= i < vs.len(),
    ensures
        arr_items_prefix(vs, i + 1) == if i == 0 {
            arr_items_prefix(vs, 0) + json_text_of(vs[0])
        } else {
            arr_items_prefix(vs, i) + seq![','] + json_text_of(vs[i])
        },
{
    if i == 0 {
        assert(arr_items_prefix(vs, 1) =~= arr_items_prefix(vs, 0) + json_text_of(vs[0]));
    }
}

proof fn lemma_arr_items_prefix_full(vs: Seq<ValueV>)
    ensures
        arr_items_prefix(vs, vs.len() as int) == arr_items_text(vs),
    decreases vs.len(),
{
    if vs.len() == 0 {
        assert(arr_items_prefix(vs, 0) =~= arr_items_text(vs));
    } else if vs.len() == 1 {
    } else {
        lemma_arr_items_prefix_full(vs.drop_first());
        lemma_arr_items_prefix_shift(vs, vs.len() as int);
        assert(arr_items_prefix(vs, vs.len() as int) =~= arr_items_text(vs));
    }
}

proof fn lemma_arr_items_prefix_shift(vs: Seq<ValueV>, i: int)
    requires
        vs.len() >= 1,
        1 <= i <= vs.len(),
    ensures
        arr_items_prefix(vs, i) == json_text_of(vs[0]) + sep_if(i > 1) + arr_items_prefix(
            vs.drop_first(),
            i - 1,
        ),
    decreases i,
{
    if i == 1 {
        assert(arr_items_prefix(vs, 1) =~= json_text_of(vs[0]) + sep_if(false)
            + arr_items_prefix(vs.drop_first(), 0));
    } else {
        lemma_arr_items_prefix_shift(vs, i - 1);
        assert(vs.drop_first()[i - 2] == vs[i - 1]);
        if i == 2 {
            assert(arr_items_prefix(vs, 2) == arr_items_prefix(vs, 1) + seq![','] + json_text_of(
                vs[1],
            ));
            assert(arr_items_prefix(vs.drop_first(), 1) == json_text_of(vs.drop_first()[0]));
            assert(arr_items_prefix(vs, 2) =~= json_text_of(vs[0]) + sep_if(true)
                + arr_items_prefix(vs.drop_first(), 1));
        } else {
            assert(arr_items_prefix(vs, i) =~= json_text_of(vs[0]) + sep_if(true)
                + arr_items_prefix(vs.drop_first(), i - 1));
        }
    }
}

/// A separating comma when the condition holds.
pub open spec fn sep_if(b: bool) -> Seq<char> {
    if b {
        seq![',']
    } else {
        Seq::empty()
    }
}

/// The serialized entries of the first `i` object entries.
pub open spec fn obj_items_prefix(ps: Seq<(Seq<char>, ValueV)>, i: int) -> Seq<char>
    decreases i,
{
    if i <= 0 {
        Seq::empty()
    } else if i == 1 {
        quoted(ps[0].0) + seq![':'] + json_text_of(ps[0].1)
    } else {
        obj_items_prefix(ps, i - 1) + seq![','] + quoted(ps[i - 1].0) + seq![':'] + json_text_of(
            ps[i - 1].1,
        )
    }
}

proof fn lemma_obj_items_prefix_full(ps: Seq<(Seq<char>, ValueV)>)
    ensures
        obj_items_prefix(ps, ps.len() as int) == obj_items_text(ps),
    decreases ps.len(),
{
    if ps.len() == 0 {
        assert(obj_items_prefix(ps, 0) =~= obj_items_text(ps));
    } else if ps.len() == 1 {
    } else {
        lemma_obj_items_prefix_full(ps.drop_first());
        lemma_obj_items_prefix_shift(ps, ps.len() as int);
        assert(obj_items_prefix(ps, ps.len() as int) =~= obj_items_text(ps));
    }
}

proof fn lemma_obj_items_prefix_shift(ps: Seq<(Seq<char>, ValueV)>, i: int)
    requires
        ps.len() >= 1,
        1 <= i <= ps.len(),
    ensures
        obj_items_prefix(ps, i) == quoted(ps[0].0) + seq![':'] + json_text_of(ps[0].1) + sep_if(
            i > 1,
        ) + obj_items_prefix(ps.drop_first(), i - 1),
    decreases i,
{
    if i == 1 {
        assert(obj_items_prefix(ps, 1) =~= quoted(ps[0].0) + seq![':'] + json_text_of(ps[0].1)
            + sep_if(false) + obj_items_prefix(ps.drop_first(), 0));
    } else {
        lemma_obj_items_prefix_shift(ps, i - 1);
        assert(ps.drop_first()[i - 2] == ps[i - 1]);
        if i == 2 {
            assert(obj_items_prefix(ps.drop_first(), 1) == quoted(ps.drop_first()[0].0)
                + seq![':'] + json_text_of(ps.drop_first()[0].1));
            assert(obj_items_prefix(ps, 2) =~= quoted(ps[0].0) + seq![':'] + json_text_of(
                ps[0].1,
            ) + sep_if(true) + obj_items_prefix(ps.drop_first(), 1));
        } else {
            assert(obj_items_prefix(ps, i) =~= quoted(ps[0].0) + seq![':'] + json_text_of(
                ps[0].1,
            ) + sep_if(true) + obj_items_prefix(ps.drop_first(), i - 1));
        }
    }
}

/// Append the comma-separated entries of an object.
fn write_obj_items(v: &Value, ps: &Vec<(String, Value)>, out: &mut Vec<char>)
    requires
        *v == Value::Object(*ps),
    ensures
        final(out)@ == old(out)@ + obj_items_text(pairs_view(ps@)),
    decreases v, 0int,
{
    let ghost psv = pairs_view(ps@);
    let mut i: usize = 0;
    while i < ps.len()
        invariant
            i <= ps@.len(),
            out@ == old(out)@ + obj_items_prefix(psv, i as int),
        decreases ps@.len() - i,
    {
        proof {
            assert(decreases_to!(*v => v->Object_0));
            assert(decreases_to!(*v => ps@[i as int].1));
        }
        if i > 0 {
            out.push(',');
        }
        let kchars = crate::text::chars_of(ps[i].0.as_str());
        write_quoted(&kchars, out);
        out.push(':');
        write_value(&ps[i].1, out);
        proof {
            assert(pairs_view(ps@)[i as int] == (ps@[i as int].0@, ps@[i as int].1@));
            if i == 0 {
                assert(obj_items_prefix(psv, 1) =~= obj_items_prefix(psv, 0) + quoted(psv[0].0)
                    + seq![':'] + json_text_of(psv[0].1));
            }
            assert(out@ =~= old(out)@ + obj_items_prefix(psv, i as int + 1));
        }
        i = i + 1;
    }
    proof {
        lemma_obj_items_prefix_full(psv);
    }
}

/// The JSON text of a value, as a string.
pub fn to_json_text(v: &Value) -> (r: String)
    ensures
        r@ == json_text_of(v@),
{
    let mut out: Vec<char> = Vec::new();
    write_value(v, &mut out);
    crate::text::string_of(&out)
}

/// Position where a number's mantissa ends: the first `e` or `E`.
pub open spec fn mantissa_end(t: Seq<char>) -> int {
    let e1 = first_index_of(t, 'e');
    let e2 = first_index_of(t, 'E');
    if e1 <= e2 {
        e1
    } else {
        e2
    }
}

/// A nonzero decimal digit.
pub open spec fn nonzero_digit(c: char) -> bool {
    c == '1' || c == '2' || c == '3' || c == '4' || c == '5' || c == '6' || c == '7' || c == '8'
        || c == '9'
}

/// Truthiness of a JSON-serialized value: `false`, `null`, a number with no
/// nonzero mantissa digit, the empty string, the empty array and the empty
/// object are false; everything else is true.
pub open spec fn json_text_truthy(t: Seq<char>) -> bool {
    if t.len() == 0 {
        false
    } else if t[0] == '"' {
        t.len() > 2
    } else if t[0] == '[' {
        t.len() > 2
    } else if t[0] == '{' {
        t.len() > 2
    } else if t[0] == 't' {
        true
    } else if t[0] == 'f' {
        false
    } else if t[0] == 'n' {
        false
    } else {
        exists|i: int| 0 <= i < mantissa_end(t) && i < t.len() && nonzero_digit(#[trigger] t[i])
    }
}

fn nonzero_digit_exec(c: char) -> (r: bool)
    ensures
        r == nonzero_digit(c),
{
    c == '1' || c == '2' || c == '3' || c == '4' || c == '5' || c == '6' || c == '7' || c == '8'
        || c == '9'
}

/// Decide `json_text_truthy` on a serialized value.
pub fn json_text_truthy_exec(t: &Vec<char>) -> (r: bool)
    ensures
        r == json_text_truthy(t@),
{
    if t.len() == 0 {
        return false;
    }
    let c0 = t[0];
    if c0 == '"' || c0 == '[' || c0 == '{' {
        t.len() > 2
    } else if c0 == 't' {
        true
    } else if c0 == 'f' || c0 == 'n' {
        false
    } else {
        let e1 = find_char(t, 'e');
        let e2 = find_char(t, 'E');
        let end = if e1 <= e2 {
            e1
        } else {
            e2
        };
        proof {
            lemma_first_index_of(t@, 'e');
            lemma_first_index_of(t@, 'E');
            assert(end == mantissa_end(t@));
        }
        let mut i: usize = 0;
        while i < end
            invariant
                i <= end,
                forall|j: int| 0 <= j < i ==> !nonzero_digit(#[trigger] t@[j]),
            decreases end - i,
        {
            if nonzero_digit_exec(t[i]) {
                return true;
            }
            i = i + 1;
        }
        false
    }
}

/// A decimal digit.
pub open spec fn digit_char(c: char) -> bool {
    c == '0' || nonzero_digit(c)
}

proof fn lemma_dec_text_digits(n: nat)
    ensures
        dec_text(n).len() >= 1,
        forall|i: int| 0 <= i < dec_text(n).len() ==> digit_char(#[trigger] dec_text(n)[i]),
        (exists|i: int|
            0 <= i < dec_text(n).len() && nonzero_digit(#[trigger] dec_text(n)[i])) <==> n != 0,
    decreases n,
{
    if n < 10 {
        assert(dec_text(n) == seq![dec_digit(n as int)]);
        assert(dec_text(n)[0] == dec_digit(n as int));
        if n != 0 {
            assert(nonzero_digit(dec_text(n)[0]));
        }
    } else {
        lemma_dec_text_digits(n / 10);
        let pre = dec_text(n / 10);
        let t = dec_text(n);
        assert(t == pre.push(dec_digit((n % 10) as int)));
        assert forall|i: int| 0 <= i < t.len() implies digit_char(#[trigger] t[i]) by {
            if i < pre.len() {
                assert(t[i] == pre[i]);
            }
        }
        assert(n / 10 != 0);
        let w = choose|i: int| 0 <= i < pre.len() && nonzero_digit(#[trigger] pre[i]);
        assert(t[w] == pre[w]);
        assert(nonzero_digit(t[w]));
    }
}

proof fn lemma_json_text_min_len(v: ValueV)
    ensures
        json_text_of(v).len() >= 1,
{
    match v {
        ValueV::Number(n) => {
            if n < 0 {
                lemma_dec_text_digits((-(n as int)) as nat);
            } else {
                lemma_dec_text_digits(n as nat);
            }
        },
        _ => {},
    }
}

/// Truthiness read off a serialized value agrees with truthiness of the
/// value itself: the bridge's boolean reading of its own serialization is
/// the documented truthiness.
pub proof fn lemma_truthy_agrees(v: ValueV)
    ensures
        json_text_truthy(json_text_of(v)) == value_truthy(v),
{
    let t = json_text_of(v);
    match v {
        ValueV::Null => {
            assert(t[0] == 'n');
        },
        ValueV::Bool(b) => {
            if b {
                assert(t[0] == 't');
            } else {
                assert(t[0] == 'f');
            }
        },
        ValueV::Number(n) => {
            let m: nat = if n < 0 {
                (-(n as int)) as nat
            } else {
                n as nat
            };
            lemma_dec_text_digits(m);
            let d = dec_text(m);
            if n < 0 {
                assert(t == seq!['-'] + d);
                assert(t[0] == '-');
            } else {
                assert(t == d);
                assert(t[0] == d[0]);
                assert(digit_char(t[0]));
            }
            assert(t[0] != '"' && t[0] != '[' && t[0] != '{' && t[0] != 't' && t[0] != 'f'
                && t[0] != 'n');
            assert forall|i: int| 0 <= i < t.len() implies t[i] != 'e' && t[i] != 'E' by {
                if n < 0 {
                    if i > 0 {
                        assert(t[i] == d[i - 1]);
                        assert(digit_char(d[i - 1]));
                    }
                } else {
                    assert(digit_char(t[i]));
                }
            }
            crate::text::lemma_first_index_unique(t, 'e', t.len() as int);
            crate::text::lemma_first_index_unique(t, 'E', t.len() as int);
            assert(mantissa_end(t) == t.len());
            if n != 0 {
                assert(m != 0);
                let w = choose|i: int| 0 <= i < d.len() && nonzero_digit(#[trigger] d[i]);
                if n < 0 {
                    assert(t[w + 1] == d[w]);
                    assert(json_text_truthy(t));
                } else {
                    assert(t[w] == d[w]);
                    assert(json_text_truthy(t));
                }
            } else {
                assert(t == seq![dec_digit(0)]);
                assert forall|i: int| 0 <= i < t.len() implies !nonzero_digit(
                    #[trigger] t[i],
                ) by {
                    assert(t[i] == '0');
                }
                assert(!json_text_truthy(t));
            }
        },
        ValueV::String(s) => {
            assert(t == seq!['"'] + esc_text(s) + seq!['"']);
            assert(t[0] == '"');
            if s.len() == 0 {
                assert(esc_text(s) =~= Seq::<char>::empty());
                assert(t.len() == 2);
            } else {
                assert(esc_text(s) == esc_char(s[0]) + esc_text(s.drop_first()));
                assert(esc_char(s[0]).len() >= 1);
                assert(t.len() > 2);
            }
        },
        ValueV::Array(vs) => {
            assert(t == seq!['['] + arr_items_text(vs) + seq![']']);
            assert(t[0] == '[');
            if vs.len() == 0 {
                assert(arr_items_text(vs) =~= Seq::<char>::empty());
                assert(t.len() == 2);
            } else {
                lemma_json_text_min_len(vs[0]);
                assert(arr_items_text(vs).len() >= 1);
                assert(t.len() > 2);
            }
        },
        ValueV::Object(ps) => {
            assert(t == seq!['{'] + obj_items_text(ps) + seq!['}']);
            assert(t[0] == '{');
            if ps.len() == 0 {
                assert(obj_items_text(ps) =~= Seq::<char>::empty());
                assert(t.len() == 2);
            } else {
                assert(quoted(ps[0].0).len() >= 2);
                assert(obj_items_text(ps).len() >= 1);
                assert(t.len() > 2);
            }
        },
    }
}

} // verus!
