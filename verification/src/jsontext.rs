//! The text form of structured values: decimal integers, JSON string
//! escaping, and the compact and indented JSON renderings.

use vstd::prelude::*;

use crate::value::{value_view, JsonValue, SpecValue};

verus! {

/// The character of one decimal digit.
pub open spec fn dec_digit(d: int) -> char {
    ((48 + d) as u8) as char
}

/// The decimal digits of a non-negative integer, most significant first.
pub open spec fn dec_str_nat(n: int) -> Seq<char>
    decreases n,
{
    if n < 10 {
        seq![dec_digit(n)]
    } else {
        dec_str_nat(n / 10).push(dec_digit(n % 10))
    }
}

/// The decimal form of an integer, with a leading minus sign when
/// negative.
pub open spec fn dec_str_int(n: int) -> Seq<char> {
    if n < 0 {
        seq!['-'] + dec_str_nat(-n)
    } else {
        dec_str_nat(n)
    }
}

/// Appends the decimal digits of a non-negative number.
pub(crate) fn push_dec_u64(out: &mut Vec<char>, m: u64)
    ensures
        final (out)@ == old(out)@ + dec_str_nat(m as int),
    decreases m,
{
    if m >= 10 {
        proof {
            assert(m / 10 < m) by (nonlinear_arith)
                requires
                    m >= 10,
            ;
        }
        push_dec_u64(out, m / 10);
        let d = (m % 10) as u8;
        out.push((48 + d) as char);
        proof {
            assert(out@ =~= old(out)@ + dec_str_nat(m as int));
        }
    } else {
        let d = m as u8;
        out.push((48 + d) as char);
        proof {
            assert(m % 10 == m as int);
            assert(out@ =~= old(out)@ + dec_str_nat(m as int));
        }
    }
}

/// Appends the decimal form of a signed number.
pub(crate) fn push_dec_i64(out: &mut Vec<char>, n: i64)
    ensures
        final (out)@ == old(out)@ + dec_str_int(n as int),
{
    if n >= 0 {
        push_dec_u64(out, n as u64);
    } else {
        out.push('-');
        let ghost mid = out@;
        let mag: u64 = if n == i64::MIN {
            9223372036854775808u64
        } else {
            (-n) as u64
        };
        proof {
            assert(mag as int == -(n as int));
        }
        push_dec_u64(out, mag);
        proof {
            assert(out@ =~= old(out)@ + dec_str_int(n as int));
        }
    }
}

/// The expansion of one character inside a JSON string literal: quote
/// and backslash are escaped, control characters take their short or
/// numeric escape.
pub open spec fn json_escape_char(c: char) -> Seq<char> {
    if c == '"' {
        seq!['\\', '"']
    } else if c == '\\' {
        seq!['\\', '\\']
    } else if c == '\u{8}' {
        seq!['\\', 'b']
    } else if c == '\t' {
        seq!['\\', 't']
    } else if c == '\n' {
        seq!['\\', 'n']
    } else if c == '\u{c}' {
        seq!['\\', 'f']
    } else if c == '\r' {
        seq!['\\', 'r']
    } else if (c as u32) < 32 {
        seq!['\\', 'u', '0', '0', hex_digit((c as u32 as int) / 16), hex_digit((c as u32 as int) % 16)]
    } else {
        seq![c]
    }
}

/// One lowercase hexadecimal digit.
pub open spec fn hex_digit(d: int) -> char {
    if d < 10 {
        ((48 + d) as u8) as char
    } else {
        ((87 + d) as u8) as char
    }
}

/// A JSON string body: every character replaced by its expansion.
pub open spec fn json_escape(s: Seq<char>) -> Seq<char>
    decreases s.len(),
{
    if s.len() == 0 {
        Seq::empty()
    } else {
        json_escape_char(s[0]) + json_escape(s.drop_first())
    }
}

/// The compact JSON text of a value.
pub open spec fn json_text(v: SpecValue) -> Seq<char>
    decreases v, 1int, 0int,
{
    match v {
        SpecValue::Null => seq!['n', 'u', 'l', 'l'],
        SpecValue::Bool(b) => if b {
            seq!['t', 'r', 'u', 'e']
        } else {
            seq!['f', 'a', 'l', 's', 'e']
        },
        SpecValue::Num(n) => dec_str_int(n),
        SpecValue::Str(s) => seq!['"'] + json_escape(s) + seq!['"'],
        SpecValue::Arr(items) => seq!['['] + json_text_items(v, 0) + seq![']'],
        SpecValue::Obj(entries) => seq!['{'] + json_text_entries(v, 0) + seq!['}'],
    }
}

/// The items of a list from the given index on, each preceded by a
/// comma except the first of the whole list.
pub open spec fn json_text_items(v: SpecValue, i: int) -> Seq<char>
    decreases v, 0int, (if v is Arr { v->Arr_0.len() - i } else { 0 }),
{
    if v is Arr {
        let items = v->Arr_0;
        if 0 <= i < items.len() {
            let sep: Seq<char> = if i > 0 {
                seq![',']
            } else {
                Seq::empty()
            };
            sep + json_text(items[i]) + json_text_items(v, i + 1)
        } else {
            Seq::empty()
        }
    } else {
        Seq::empty()
    }
}

/// The `"key":value` entries of a map from the given index on, each
/// preceded by a comma except the first of the whole map.
pub open spec fn json_text_entries(v: SpecValue, i: int) -> Seq<char>
    decreases v, 0int, (if v is Obj { v->Obj_0.len() - i } else { 0 }),
{
    if v is Obj {
        let entries = v->Obj_0;
        if 0 <= i < entries.len() {
            let sep: Seq<char> = if i > 0 {
                seq![',']
            } else {
                Seq::empty()
            };
            sep + seq!['"'] + json_escape(entries[i].0) + seq!['"', ':'] + json_text(entries[i].1)
                + json_text_entries(v, i + 1)
        } else {
            Seq::empty()
        }
    } else {
        Seq::empty()
    }
}

/// The raw text form of a scalar: a text scalar is its own characters,
/// anything else is its JSON text.
pub open spec fn spec_to_string_raw(v: SpecValue) -> Seq<char> {
    match v {
        SpecValue::Str(s) => s,
        _ => json_text(v),
    }
}

/// Appends the escaped body of a JSON string literal.
pub(crate) fn push_json_escaped(out: &mut Vec<char>, v: &[char])
    ensures
        final (out)@ == old(out)@ + json_escape(v@),
{
    let n = v.len();
    let mut i: usize = 0;
    proof {
        assert(v@.skip(0) =~= v@);
        assert(out@ + json_escape(v@) =~= old(out)@ + json_escape(v@));
    }
    while i < n
        invariant
            0 <= i <= n == v@.len(),
            out@ + json_escape(v@.skip(i as int)) == old(out)@ + json_escape(v@),
        decreases n - i,
    {
        let ghost tail = v@.skip(i as int);
        let ghost out0 = out@;
        let c = v[i];
        if c == '"' {
            out.push('\\');
            out.push('"');
        } else if c == '\\' {
            out.push('\\');
            out.push('\\');
        } else if c == '\u{8}' {
            out.push('\\');
            out.push('b');
        } else if c == '\t' {
            out.push('\\');
            out.push('t');
        } else if c == '\n' {
            out.push('\\');
            out.push('n');
        } else if c == '\u{c}' {
            out.push('\\');
            out.push('f');
        } else if c == '\r' {
            out.push('\\');
            out.push('r');
        } else if (c as u32) < 32 {
            let u = c as u32;
            out.push('\\');
            out.push('u');
            out.push('0');
            out.push('0');
            out.push(hex_digit_exec((u / 16) as u8));
            out.push(hex_digit_exec((u % 16) as u8));
        } else {
            out.push(c);
        }
        proof {
            assert(tail[0] == v@[i as int]);
            assert(tail.drop_first() =~= v@.skip(i + 1));
            assert(json_escape(tail) == json_escape_char(v@[i as int]) + json_escape(
                v@.skip(i + 1),
            ));
            assert(out@ =~= out0 + json_escape_char(v@[i as int]));
            assert(out@ + json_escape(v@.skip(i + 1)) =~= out0 + json_escape(tail));
        }
        i = i + 1;
    }
    proof {
        assert(v@.skip(n as int) =~= Seq::<char>::empty());
        assert(out@ =~= old(out)@ + json_escape(v@));
    }
}

/// One lowercase hexadecimal digit.
fn hex_digit_exec(d: u8) -> (r: char)
    requires
        d < 16,
    ensures
        r == hex_digit(d as int),
{
    if d < 10 {
        (48 + d) as char
    } else {
        (87 + d) as char
    }
}

/// Appends the compact JSON text of a value.
pub(crate) fn push_json(out: &mut Vec<char>, v: &JsonValue)
    ensures
        final (out)@ == old(out)@ + json_text(v@),
    decreases v,
{
    match v {
        JsonValue::Null => {
            out.push('n');
            out.push('u');
            out.push('l');
            out.push('l');
            proof {
                assert(out@ =~= old(out)@ + json_text(v@));
            }
        },
        JsonValue::Bool(b) => {
            if *b {
                out.push('t');
                out.push('r');
                out.push('u');
                out.push('e');
            } else {
                out.push('f');
                out.push('a');
                out.push('l');
                out.push('s');
                out.push('e');
            }
            proof {
                assert(out@ =~= old(out)@ + json_text(v@));
            }
        },
        JsonValue::Num(n) => {
            push_dec_i64(out, *n);
        },
        JsonValue::Str(s) => {
            out.push('"');
            let cs = crate::text::chars_vec(s.as_str());
            push_json_escaped(out, cs.as_slice());
            out.push('"');
            proof {
                assert(out@ =~= old(out)@ + json_text(v@));
            }
        },
        JsonValue::Arr(items) => {
            let ghost vv = v@;
            proof {
                crate::value::lemma_arr_view(*items);
            }
            out.push('[');
            let ghost base = out@;
            let n = items.len();
            let mut i: usize = 0;
            while i < n
                invariant
                    0 <= i <= n == items@.len(),
                    *v == JsonValue::Arr(*items),
                    vv == value_view(*v),
                    vv is Arr && vv->Arr_0 == crate::value::arr_view(items@),
                    out@ + json_text_items(vv, i as int) == base + json_text_items(vv, 0),
                decreases n - i,
            {
                let ghost out0 = out@;
                if i > 0 {
                    out.push(',');
                }
                proof {
                    assert(decreases_to!(*v => *items));
                    assert(decreases_to!(*items => items@));
                    assert(decreases_to!(items@ => items@[i as int]));
                }
                push_json(out, &items[i]);
                proof {
                    assert(vv->Arr_0[i as int] == items@[i as int]@);
                    let sep: Seq<char> = if i > 0 {
                        seq![',']
                    } else {
                        Seq::<char>::empty()
                    };
                    assert(out@ =~= out0 + sep + json_text(items@[i as int]@));
                    assert(out@ + json_text_items(vv, i + 1) =~= out0 + json_text_items(
                        vv,
                        i as int,
                    ));
                }
                i = i + 1;
            }
            out.push(']');
            proof {
                assert(json_text_items(vv, n as int) =~= Seq::<char>::empty());
                assert(out@ =~= old(out)@ + json_text(vv));
            }
        },
        JsonValue::Obj(entries) => {
            let ghost vv = v@;
            proof {
                crate::value::lemma_obj_view(*entries);
            }
            out.push('{');
            let ghost base = out@;
            let n = entries.len();
            let mut i: usize = 0;
            while i < n
                invariant
                    0 <= i <= n == entries@.len(),
                    *v == JsonValue::Obj(*entries),
                    vv == value_view(*v),
                    vv is Obj && vv->Obj_0 == crate::value::entries_view(entries@),
                    out@ + json_text_entries(vv, i as int) == base + json_text_entries(vv, 0),
                decreases n - i,
            {
                let ghost out0 = out@;
                if i > 0 {
                    out.push(',');
                }
                out.push('"');
                let kc = crate::text::chars_vec(entries[i].0.as_str());
                push_json_escaped(out, kc.as_slice());
                out.push('"');
                out.push(':');
                proof {
                    assert(decreases_to!(*v => *entries));
                    assert(decreases_to!(*entries => entries@));
                    assert(decreases_to!(entries@ => entries@[i as int]));
                    assert(decreases_to!(entries@[i as int] => entries@[i as int].1));
                }
                push_json(out, &entries[i].1);
                proof {
                    assert(vv->Obj_0[i as int] == (entries@[i as int].0@, entries@[i as int].1@));
                    let sep: Seq<char> = if i > 0 {
                        seq![',']
                    } else {
                        Seq::<char>::empty()
                    };
                    assert(out@ =~= out0 + sep + seq!['"'] + json_escape(entries@[i as int].0@)
                        + seq!['"', ':'] + json_text(entries@[i as int].1@));
                    assert(out@ + json_text_entries(vv, i + 1) =~= out0 + json_text_entries(
                        vv,
                        i as int,
                    ));
                }
                i = i + 1;
            }
            out.push('}');
            proof {
                assert(json_text_entries(vv, n as int) =~= Seq::<char>::empty());
                assert(out@ =~= old(out)@ + json_text(vv));
            }
        },
    }
}

/// The indented JSON text of a value, two spaces per level, `ind` being
/// the indentation of the surrounding line.
pub open spec fn json_pretty(v: SpecValue, ind: Seq<char>) -> Seq<char>
    decreases v, 1int, 0int,
{
    match v {
        SpecValue::Null => seq!['n', 'u', 'l', 'l'],
        SpecValue::Bool(b) => if b {
            seq!['t', 'r', 'u', 'e']
        } else {
            seq!['f', 'a', 'l', 's', 'e']
        },
        SpecValue::Num(n) => dec_str_int(n),
        SpecValue::Str(s) => seq!['"'] + json_escape(s) + seq!['"'],
        SpecValue::Arr(items) => if items.len() == 0 {
            seq!['[', ']']
        } else {
            seq!['[', '\n'] + json_pretty_items(v, 0, ind + seq![' ', ' ']) + seq!['\n'] + ind
                + seq![']']
        },
        SpecValue::Obj(entries) => if entries.len() == 0 {
            seq!['{', '}']
        } else {
            seq!['{', '\n'] + json_pretty_entries(v, 0, ind + seq![' ', ' ']) + seq!['\n'] + ind
                + seq!['}']
        },
    }
}

/// The indented items of a list from the given index on.
pub open spec fn json_pretty_items(v: SpecValue, i: int, ind2: Seq<char>) -> Seq<char>
    decreases v, 0int, (if v is Arr { v->Arr_0.len() - i } else { 0 }),
{
    if v is Arr {
        let items = v->Arr_0;
        if 0 <= i < items.len() {
            let sep: Seq<char> = if i > 0 {
                seq![',', '\n']
            } else {
                Seq::empty()
            };
            sep + ind2 + json_pretty(items[i], ind2) + json_pretty_items(v, i + 1, ind2)
        } else {
            Seq::empty()
        }
    } else {
        Seq::empty()
    }
}

/// The indented `"key": value` entries of a map from the given index on.
pub open spec fn json_pretty_entries(v: SpecValue, i: int, ind2: Seq<char>) -> Seq<char>
    decreases v, 0int, (if v is Obj { v->Obj_0.len() - i } else { 0 }),
{
    if v is Obj {
        let entries = v->Obj_0;
        if 0 <= i < entries.len() {
            let sep: Seq<char> = if i > 0 {
                seq![',', '\n']
            } else {
                Seq::empty()
            };
            sep + ind2 + seq!['"'] + json_escape(entries[i].0) + seq!['"', ':', ' '] + json_pretty(
                entries[i].1,
                ind2,
            ) + json_pretty_entries(v, i + 1, ind2)
        } else {
            Seq::empty()
        }
    } else {
        Seq::empty()
    }
}

/// The characters of a slice, copied.
fn copy_chars(v: &[char]) -> (r: Vec<char>)
    ensures
        r@ == v@,
{
    let mut r: Vec<char> = Vec::new();
    let mut i: usize = 0;
    while i < v.len()
        invariant
            0 <= i <= v@.len(),
            r@ == v@.take(i as int),
        decreases v@.len() - i,
    {
        r.push(v[i]);
        proof {
            assert(v@.take(i + 1) =~= v@.take(i as int).push(v@[i as int]));
        }
        i = i + 1;
    }
    proof {
        assert(v@.take(v@.len() as int) =~= v@);
    }
    r
}

/// Appends the indented JSON text of a value.
pub(crate) fn push_json_pretty(out: &mut Vec<char>, v: &JsonValue, ind: &[char])
    ensures
        final (out)@ == old(out)@ + json_pretty(v@, ind@),
    decreases v,
{
    match v {
        JsonValue::Null => {
            out.push('n');
            out.push('u');
            out.push('l');
            out.push('l');
            proof {
                assert(out@ =~= old(out)@ + json_pretty(v@, ind@));
            }
        },
        JsonValue::Bool(b) => {
            if *b {
                out.push('t');
                out.push('r');
                out.push('u');
                out.push('e');
            } else {
                out.push('f');
                out.push('a');
                out.push('l');
                out.push('s');
                out.push('e');
            }
            proof {
                assert(out@ =~= old(out)@ + json_pretty(v@, ind@));
            }
        },
        JsonValue::Num(n) => {
            push_dec_i64(out, *n);
        },
        JsonValue::Str(s) => {
            out.push('"');
            let cs = crate::text::chars_vec(s.as_str());
            push_json_escaped(out, cs.as_slice());
            out.push('"');
            proof {
                assert(out@ =~= old(out)@ + json_pretty(v@, ind@));
            }
        },
        JsonValue::Arr(items) => {
            let ghost vv = v@;
            proof {
                crate::value::lemma_arr_view(*items);
            }
            if items.len() == 0 {
                out.push('[');
                out.push(']');
                proof {
                    assert(out@ =~= old(out)@ + json_pretty(vv, ind@));
                }
            } else {
                let mut ind2 = copy_chars(ind);
                ind2.push(' ');
                ind2.push(' ');
                proof {
                    assert(ind2@ =~= ind@ + seq![' ', ' ']);
                }
                out.push('[');
                out.push('\n');
                let ghost base = out@;
                let n = items.len();
                let mut i: usize = 0;
                while i < n
                    invariant
                        0 <= i <= n == items@.len(),
                        *v == JsonValue::Arr(*items),
                        vv == value_view(*v),
                        vv is Arr && vv->Arr_0 == crate::value::arr_view(items@),
                        ind2@ == ind@ + seq![' ', ' '],
                        out@ + json_pretty_items(vv, i as int, ind2@) == base + json_pretty_items(
                            vv,
                            0,
                            ind2@,
                        ),
                    decreases n - i,
                {
                    let ghost out0 = out@;
                    if i > 0 {
                        out.push(',');
                        out.push('\n');
                    }
                    let mut k: usize = 0;
                    while k < ind2.len()
                        invariant
                            0 <= k <= ind2@.len(),
                            out@ == (if i > 0 {
                                out0 + seq![',', '\n']
                            } else {
                                out0
                            }) + ind2@.take(k as int),
                        decreases ind2@.len() - k,
                    {
                        out.push(ind2[k]);
                        proof {
                            assert(ind2@.take(k + 1) =~= ind2@.take(k as int).push(
                                ind2@[k as int],
                            ));
                        }
                        k = k + 1;
                    }
                    proof {
                        assert(ind2@.take(ind2@.len() as int) =~= ind2@);
                        assert(decreases_to!(*v => *items));
                        assert(decreases_to!(*items => items@));
                        assert(decreases_to!(items@ => items@[i as int]));
                    }
                    push_json_pretty(out, &items[i], ind2.as_slice());
                    proof {
                        assert(vv->Arr_0[i as int] == items@[i as int]@);
                        let sep: Seq<char> = if i > 0 {
                            seq![',', '\n']
                        } else {
                            Seq::<char>::empty()
                        };
                        assert(out@ =~= out0 + sep + ind2@ + json_pretty(
                            items@[i as int]@,
                            ind2@,
                        ));
                        assert(out@ + json_pretty_items(vv, i + 1, ind2@) =~= out0
                            + json_pretty_items(vv, i as int, ind2@));
                    }
                    i = i + 1;
                }
                out.push('\n');
                let mut k: usize = 0;
                let ghost out1 = out@;
                while k < ind.len()
                    invariant
                        0 <= k <= ind@.len(),
                        out@ == out1 + ind@.take(k as int),
                    decreases ind@.len() - k,
                {
                    out.push(ind[k]);
                    proof {
                        assert(ind@.take(k + 1) =~= ind@.take(k as int).push(ind@[k as int]));
                    }
                    k = k + 1;
                }
                out.push(']');
                proof {
                    assert(ind@.take(ind@.len() as int) =~= ind@);
                    assert(json_pretty_items(vv, n as int, ind2@) =~= Seq::<char>::empty());
                    assert(out@ =~= old(out)@ + json_pretty(vv, ind@));
                }
            }
        },
        JsonValue::Obj(entries) => {
            let ghost vv = v@;
            proof {
                crate::value::lemma_obj_view(*entries);
            }
            if entries.len() == 0 {
                out.push('{');
                out.push('}');
                proof {
                    assert(out@ =~= old(out)@ + json_pretty(vv, ind@));
                }
            } else {
                let mut ind2 = copy_chars(ind);
                ind2.push(' ');
                ind2.push(' ');
                proof {
                    assert(ind2@ =~= ind@ + seq![' ', ' ']);
                }
                out.push('{');
                out.push('\n');
                let ghost base = out@;
                let n = entries.len();
                let mut i: usize = 0;
                while i < n
                    invariant
                        0 <= i <= n == entries@.len(),
                        *v == JsonValue::Obj(*entries),
                        vv == value_view(*v),
                        vv is Obj && vv->Obj_0 == crate::value::entries_view(entries@),
                        ind2@ == ind@ + seq![' ', ' '],
                        out@ + json_pretty_entries(vv, i as int, ind2@) == base
                            + json_pretty_entries(vv, 0, ind2@),
                    decreases n - i,
                {
                    let ghost out0 = out@;
                    if i > 0 {
                        out.push(',');
                        out.push('\n');
                    }
                    let mut k: usize = 0;
                    while k < ind2.len()
                        invariant
                            0 <= k <= ind2@.len(),
                            out@ == (if i > 0 {
                                out0 + seq![',', '\n']
                            } else {
                                out0
                            }) + ind2@.take(k as int),
                        decreases ind2@.len() - k,
                    {
                        out.push(ind2[k]);
                        proof {
                            assert(ind2@.take(k + 1) =~= ind2@.take(k as int).push(
                                ind2@[k as int],
                            ));
                        }
                        k = k + 1;
                    }
                    proof {
                        assert(ind2@.take(ind2@.len() as int) =~= ind2@);
                    }
                    out.push('"');
                    let kc = crate::text::chars_vec(entries[i].0.as_str());
                    push_json_escaped(out, kc.as_slice());
                    out.push('"');
                    out.push(':');
                    out.push(' ');
                    proof {
                        assert(decreases_to!(*v => *entries));
                        assert(decreases_to!(*entries => entries@));
                        assert(decreases_to!(entries@ => entries@[i as int]));
                        assert(decreases_to!(entries@[i as int] => entries@[i as int].1));
                    }
                    push_json_pretty(out, &entries[i].1, ind2.as_slice());
                    proof {
                        assert(vv->Obj_0[i as int] == (
                            entries@[i as int].0@,
                            entries@[i as int].1@,
                        ));
                        let sep: Seq<char> = if i > 0 {
                            seq![',', '\n']
                        } else {
                            Seq::<char>::empty()
                        };
                        assert(out@ =~= out0 + sep + ind2@ + seq!['"'] + json_escape(
                            entries@[i as int].0@,
                        ) + seq!['"', ':', ' '] + json_pretty(entries@[i as int].1@, ind2@));
                        assert(out@ + json_pretty_entries(vv, i + 1, ind2@) =~= out0
                            + json_pretty_entries(vv, i as int, ind2@));
                    }
                    i = i + 1;
                }
                out.push('\n');
                let mut k: usize = 0;
                let ghost out1 = out@;
                while k < ind.len()
                    invariant
                        0 <= k <= ind@.len(),
                        out@ == out1 + ind@.take(k as int),
                    decreases ind@.len() - k,
                {
                    out.push(ind[k]);
                    proof {
                        assert(ind@.take(k + 1) =~= ind@.take(k as int).push(ind@[k as int]));
                    }
                    k = k + 1;
                }
                out.push('}');
                proof {
                    assert(ind@.take(ind@.len() as int) =~= ind@);
                    assert(json_pretty_entries(vv, n as int, ind2@) =~= Seq::<char>::empty());
                    assert(out@ =~= old(out)@ + json_pretty(vv, ind@));
                }
            }
        },
    }
}

} // verus!
