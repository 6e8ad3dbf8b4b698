//! Parsing JSON text into structured values: a recursive descent over
//! characters, driven by a fuel bound that the nesting of any input text
//! stays well under.

use vstd::prelude::*;

use crate::value::{obj_set, JsonValue, SpecValue};

verus! {

/// Relies on `char::from_u32`: a Unicode scalar value makes a char with
/// that value, a surrogate or out-of-range number makes nothing.
pub assume_specification[ char::from_u32 ](u: u32) -> (r: Option<char>)
    ensures
        (u < 0xD800 || (0xE000 <= u && u <= 0x10FFFF)) <==> r is Some,
        r matches Some(c) ==> c as u32 == u && c == char_from_code(u as int),
;

/// The character with the given Unicode scalar value.
pub open spec fn char_from_code(u: int) -> char {
    choose|c: char| (#[trigger] (c as u32)) == u
}

/// JSON insignificant whitespace.
pub open spec fn is_json_ws(c: char) -> bool {
    c == ' ' || c == '\t' || c == '\n' || c == '\r'
}

/// The index of the first non-whitespace character at or after `i`.
pub open spec fn skip_ws_at(s: Seq<char>, i: int) -> int
    decreases s.len() - i,
{
    if 0 <= i < s.len() && is_json_ws(s[i]) {
        skip_ws_at(s, i + 1)
    } else {
        i
    }
}

proof fn lemma_skip_ws_bounds(s: Seq<char>, i: int)
    requires
        0 <= i <= s.len(),
    ensures
        i <= skip_ws_at(s, i) <= s.len(),
    decreases s.len() - i,
{
    if i < s.len() && is_json_ws(s[i]) {
        lemma_skip_ws_bounds(s, i + 1);
    }
}

/// One hexadecimal digit's value, or a negative number for anything
/// else.
pub open spec fn hex_val(c: char) -> int {
    let u = c as u32 as int;
    if 48 <= u <= 57 {
        u - 48
    } else if 97 <= u <= 102 {
        u - 87
    } else if 65 <= u <= 70 {
        u - 55
    } else {
        -1
    }
}

/// Whether four hexadecimal digits stand at `i`.
pub open spec fn hex4_ok(s: Seq<char>, i: int) -> bool {
    &&& i + 4 <= s.len()
    &&& hex_val(s[i]) >= 0
    &&& hex_val(s[i + 1]) >= 0
    &&& hex_val(s[i + 2]) >= 0
    &&& hex_val(s[i + 3]) >= 0
}

/// The value of the four hexadecimal digits at `i`.
pub open spec fn hex4_val(s: Seq<char>, i: int) -> int {
    hex_val(s[i]) * 4096 + hex_val(s[i + 1]) * 256 + hex_val(s[i + 2]) * 16 + hex_val(s[i + 3])
}

/// The body of a JSON string literal from `i` (after the opening quote):
/// the decoded characters and the index after the closing quote. Escape
/// sequences take their JSON meaning; a surrogate escape must form a
/// pair; an unescaped control character is an error.
pub open spec fn parse_string_at(s: Seq<char>, i: int) -> Result<(Seq<char>, int), ()>
    decreases s.len() - i,
{
    if i < 0 || i >= s.len() {
        Err(())
    } else if s[i] == '"' {
        Ok((Seq::empty(), i + 1))
    } else if s[i] == '\\' {
        if i + 1 >= s.len() {
            Err(())
        } else {
            let e = s[i + 1];
            if e == 'u' {
                if hex4_ok(s, i + 2) {
                    let u = hex4_val(s, i + 2);
                    if 0xD800 <= u < 0xDC00 {
                        if i + 12 <= s.len() && s[i + 6] == '\\' && s[i + 7] == 'u' && hex4_ok(
                            s,
                            i + 8,
                        ) {
                            let u2 = hex4_val(s, i + 8);
                            if 0xDC00 <= u2 < 0xE000 {
                                let cp = 0x10000 + (u - 0xD800) * 0x400 + (u2 - 0xDC00);
                                match parse_string_at(s, i + 12) {
                                    Ok((rest, j)) => Ok((seq![char_from_code(cp)] + rest, j)),
                                    Err(()) => Err(()),
                                }
                            } else {
                                Err(())
                            }
                        } else {
                            Err(())
                        }
                    } else if 0xDC00 <= u < 0xE000 {
                        Err(())
                    } else {
                        match parse_string_at(s, i + 6) {
                            Ok((rest, j)) => Ok((seq![char_from_code(u)] + rest, j)),
                            Err(()) => Err(()),
                        }
                    }
                } else {
                    Err(())
                }
            } else {
                let c: char = if e == '"' {
                    '"'
                } else if e == '\\' {
                    '\\'
                } else if e == '/' {
                    '/'
                } else if e == 'b' {
                    '\u{8}'
                } else if e == 'f' {
                    '\u{c}'
                } else if e == 'n' {
                    '\n'
                } else if e == 'r' {
                    '\r'
                } else if e == 't' {
                    '\t'
                } else {
                    ' '
                };
                if e == '"' || e == '\\' || e == '/' || e == 'b' || e == 'f' || e == 'n' || e == 'r'
                    || e == 't' {
                    match parse_string_at(s, i + 2) {
                        Ok((rest, j)) => Ok((seq![c] + rest, j)),
                        Err(()) => Err(()),
                    }
                } else {
                    Err(())
                }
            }
        }
    } else if (s[i] as u32) < 0x20 {
        Err(())
    } else {
        match parse_string_at(s, i + 1) {
            Ok((rest, j)) => Ok((seq![s[i]] + rest, j)),
            Err(()) => Err(()),
        }
    }
}

/// Whether a character is a decimal digit.
pub open spec fn is_digit(c: char) -> bool {
    48 <= c as u32 <= 57
}

/// The index of the first non-digit character at or after `i`.
pub open spec fn digits_end(s: Seq<char>, i: int) -> int
    decreases s.len() - i,
{
    if 0 <= i < s.len() && is_digit(s[i]) {
        digits_end(s, i + 1)
    } else {
        i
    }
}

proof fn lemma_digits_end_bounds(s: Seq<char>, i: int)
    requires
        0 <= i <= s.len(),
    ensures
        i <= digits_end(s, i) <= s.len(),
        forall|k: int| i <= k < digits_end(s, i) ==> is_digit(s[k]),
        digits_end(s, i) < s.len() ==> !is_digit(s[digits_end(s, i)]),
    decreases s.len() - i,
{
    if i < s.len() && is_digit(s[i]) {
        lemma_digits_end_bounds(s, i + 1);
    }
}

/// The value of the digits in `s[i..j)`, most significant first.
pub open spec fn digits_val(s: Seq<char>, i: int, j: int) -> int
    decreases j - i,
{
    if i < j {
        digits_val(s, i, j - 1) * 10 + (s[j - 1] as u32 as int - 48)
    } else {
        0
    }
}

/// Powers of ten.
pub open spec fn pow10(k: nat) -> int
    decreases k,
{
    if k == 0 {
        1
    } else {
        10 * pow10((k - 1) as nat)
    }
}

proof fn lemma_digits_val_bound(s: Seq<char>, i: int, j: int)
    requires
        i <= j,
        forall|k: int| i <= k < j ==> is_digit(s[k]),
    ensures
        0 <= digits_val(s, i, j) < pow10((j - i) as nat),
    decreases j - i,
{
    if i < j {
        lemma_digits_val_bound(s, i, j - 1);
        assert(digits_val(s, i, j - 1) * 10 <= (pow10((j - i - 1) as nat) - 1) * 10) by (
        nonlinear_arith)
            requires
                digits_val(s, i, j - 1) <= pow10((j - i - 1) as nat) - 1,
        ;
        assert(pow10((j - i) as nat) == 10 * pow10((j - i - 1) as nat));
        assert(is_digit(s[j - 1]));
        assert(digits_val(s, i, j - 1) * 10 >= 0) by (nonlinear_arith)
            requires
                digits_val(s, i, j - 1) >= 0,
        ;
    }
}

/// A JSON number at `i`: an optional minus sign and plain decimal
/// digits. The digits must not start with a superfluous zero; a
/// fraction, an exponent, more than nineteen digits, or a value outside
/// the signed 64-bit range is not representable here and is an error.
pub open spec fn parse_number_at(s: Seq<char>, i: int) -> Result<(int, int), ()> {
    if i < 0 || i >= s.len() {
        Err(())
    } else {
        let neg = s[i] == '-';
        let i1 = if neg {
            i + 1
        } else {
            i
        };
        if i1 >= s.len() || !is_digit(s[i1]) {
            Err(())
        } else {
            let j = digits_end(s, i1);
            if s[i1] == '0' && j > i1 + 1 {
                Err(())
            } else if j < s.len() && (s[j] == '.' || s[j] == 'e' || s[j] == 'E') {
                Err(())
            } else if j - i1 > 19 {
                Err(())
            } else {
                let m = digits_val(s, i1, j);
                let n: int = if neg {
                    -m
                } else {
                    m
                };
                if i64::MIN <= n <= i64::MAX {
                    Ok((n, j))
                } else {
                    Err(())
                }
            }
        }
    }
}

/// Whether the literal text stands at `i`.
pub open spec fn lit_at(s: Seq<char>, i: int, lit: Seq<char>) -> bool {
    i >= 0 && i + lit.len() <= s.len() && s.subrange(i, i + lit.len()) == lit
}

/// A JSON value at `i` (no leading whitespace): a string, a map, a list,
/// a literal or a number, with the index after it. The fuel bounds the
/// descent; the top-level entry point supplies more of it than any text
/// of that length can use.
pub open spec fn parse_value_at(s: Seq<char>, i: int, fuel: nat) -> Result<(SpecValue, int), ()>
    decreases fuel,
{
    if fuel == 0 {
        Err(())
    } else if i < 0 || i >= s.len() {
        Err(())
    } else if s[i] == '"' {
        match parse_string_at(s, i + 1) {
            Ok((t, j)) => Ok((SpecValue::Str(t), j)),
            Err(()) => Err(()),
        }
    } else if s[i] == '[' {
        let i1 = skip_ws_at(s, i + 1);
        if i1 < s.len() && s[i1] == ']' {
            Ok((SpecValue::Arr(Seq::empty()), i1 + 1))
        } else {
            match parse_items_at(s, i1, (fuel - 1) as nat) {
                Ok((items, j)) => Ok((SpecValue::Arr(items), j)),
                Err(()) => Err(()),
            }
        }
    } else if s[i] == '{' {
        let i1 = skip_ws_at(s, i + 1);
        if i1 < s.len() && s[i1] == '}' {
            Ok((SpecValue::Obj(Seq::empty()), i1 + 1))
        } else {
            match parse_entries_at(s, i1, (fuel - 1) as nat, Seq::empty()) {
                Ok((entries, j)) => Ok((SpecValue::Obj(entries), j)),
                Err(()) => Err(()),
            }
        }
    } else if lit_at(s, i, "true"@) {
        Ok((SpecValue::Bool(true), i + 4))
    } else if lit_at(s, i, "false"@) {
        Ok((SpecValue::Bool(false), i + 5))
    } else if lit_at(s, i, "null"@) {
        Ok((SpecValue::Null, i + 4))
    } else {
        match parse_number_at(s, i) {
            Ok((n, j)) => Ok((SpecValue::Num(n), j)),
            Err(()) => Err(()),
        }
    }
}

/// The items of a non-empty list from the first item at `i` on.
pub open spec fn parse_items_at(s: Seq<char>, i: int, fuel: nat) -> Result<
    (Seq<SpecValue>, int),
    (),
>
    decreases fuel,
{
    if fuel == 0 {
        Err(())
    } else {
        match parse_value_at(s, i, (fuel - 1) as nat) {
            Err(()) => Err(()),
            Ok((v, j)) => {
                let k = skip_ws_at(s, j);
                if k < s.len() && s[k] == ',' {
                    match parse_items_at(s, skip_ws_at(s, k + 1), (fuel - 1) as nat) {
                        Ok((rest, m)) => Ok((seq![v] + rest, m)),
                        Err(()) => Err(()),
                    }
                } else if k < s.len() && s[k] == ']' {
                    Ok((seq![v], k + 1))
                } else {
                    Err(())
                }
            },
        }
    }
}

/// The entries of a non-empty map from the first key at `i` on; a
/// repeated key replaces the earlier value in place.
pub open spec fn parse_entries_at(
    s: Seq<char>,
    i: int,
    fuel: nat,
    acc: Seq<(Seq<char>, SpecValue)>,
) -> Result<(Seq<(Seq<char>, SpecValue)>, int), ()>
    decreases fuel,
{
    if fuel == 0 {
        Err(())
    } else if i < 0 || i >= s.len() || s[i] != '"' {
        Err(())
    } else {
        match parse_string_at(s, i + 1) {
            Err(()) => Err(()),
            Ok((key, j)) => {
                let k = skip_ws_at(s, j);
                if !(k < s.len() && s[k] == ':') {
                    Err(())
                } else {
                    match parse_value_at(s, skip_ws_at(s, k + 1), (fuel - 1) as nat) {
                        Err(()) => Err(()),
                        Ok((v, m)) => {
                            let acc2 = obj_set(acc, key, v);
                            let t = skip_ws_at(s, m);
                            if t < s.len() && s[t] == ',' {
                                parse_entries_at(s, skip_ws_at(s, t + 1), (fuel - 1) as nat, acc2)
                            } else if t < s.len() && s[t] == '}' {
                                Ok((acc2, t + 1))
                            } else {
                                Err(())
                            }
                        },
                    }
                }
            },
        }
    }
}

/// What a whole JSON text parses to: one value, surrounded only by
/// whitespace.
pub open spec fn parse_json(s: Seq<char>) -> Result<SpecValue, ()> {
    let i = skip_ws_at(s, 0);
    match parse_value_at(s, i, (2 * s.len() + 4) as nat) {
        Err(()) => Err(()),
        Ok((v, j)) => if skip_ws_at(s, j) == s.len() {
            Ok(v)
        } else {
            Err(())
        },
    }
}

// The index of the first non-whitespace character at or after `i`.
fn skip_ws_exec(v: &[char], i: usize) -> (r: usize)
    requires
        i <= v@.len(),
    ensures
        r == skip_ws_at(v@, i as int),
        i <= r <= v@.len(),
{
    let mut cur = i;
    while cur < v.len() && is_json_ws_exec(v[cur])
        invariant
            i <= cur <= v@.len(),
            skip_ws_at(v@, i as int) == skip_ws_at(v@, cur as int),
        decreases v@.len() - cur,
    {
        cur = cur + 1;
    }
    proof {
        lemma_skip_ws_bounds(v@, cur as int);
    }
    cur
}

// Whether a character is JSON whitespace.
fn is_json_ws_exec(c: char) -> (r: bool)
    ensures
        r == is_json_ws(c),
{
    c == ' ' || c == '\t' || c == '\n' || c == '\r'
}

// One hexadecimal digit's value, negative for anything else.
fn hex_val_exec(c: char) -> (r: i32)
    ensures
        r as int == hex_val(c),
{
    let u = c as u32;
    if 48 <= u && u <= 57 {
        (u - 48) as i32
    } else if 97 <= u && u <= 102 {
        (u - 87) as i32
    } else if 65 <= u && u <= 70 {
        (u - 55) as i32
    } else {
        -1
    }
}

// Reads four hexadecimal digits at `i`, if they stand there.
fn hex4_exec(v: &[char], i: usize) -> (r: Option<u32>)
    requires
        i <= v@.len(),
    ensures
        match r {
            Some(u) => hex4_ok(v@, i as int) && u as int == hex4_val(v@, i as int) && u < 0x10000,
            None => !hex4_ok(v@, i as int),
        },
{
    if v.len() < 4 || i > v.len() - 4 {
        return None;
    }
    let a = hex_val_exec(v[i]);
    let b = hex_val_exec(v[i + 1]);
    let c = hex_val_exec(v[i + 2]);
    let d = hex_val_exec(v[i + 3]);
    if a < 0 || b < 0 || c < 0 || d < 0 {
        return None;
    }
    Some((a as u32) * 4096 + (b as u32) * 256 + (c as u32) * 16 + (d as u32))
}

// The body of a JSON string literal from `i`, after the opening quote.
fn parse_string_exec(v: &[char], i: usize) -> (r: Result<(Vec<char>, usize), ()>)
    requires
        i <= v@.len(),
    ensures
        match parse_string_at(v@, i as int) {
            Ok(tj) => r is Ok && r->Ok_0.0@ == tj.0 && r->Ok_0.1 == tj.1 && r->Ok_0.1 <= v@.len(),
            Err(()) => r is Err,
        },
{
    let mut acc: Vec<char> = Vec::new();
    let mut cur = i;
    loop
        invariant
            i <= cur <= v@.len(),
            parse_string_at(v@, i as int) == (match parse_string_at(v@, cur as int) {
                Ok(tj) => Ok::<(Seq<char>, int), ()>((acc@ + tj.0, tj.1)),
                Err(()) => Err::<(Seq<char>, int), ()>(()),
            }),
        decreases v@.len() - cur,
    {
        if cur >= v.len() {
            return Err(());
        }
        let c = v[cur];
        if c == '"' {
            proof {
                assert(acc@ + Seq::<char>::empty() =~= acc@);
            }
            return Ok((acc, cur + 1));
        } else if c == '\\' {
            if cur + 1 >= v.len() {
                return Err(());
            }
            let e = v[cur + 1];
            if e == 'u' {
                match hex4_exec(v, cur + 2) {
                    None => {
                        return Err(());
                    },
                    Some(u) => {
                        if 0xD800 <= u && u < 0xDC00 {
                            if v.len() >= 12 && cur <= v.len() - 12 && v[cur + 6] == '\\'
                                && v[cur + 7] == 'u' {
                                match hex4_exec(v, cur + 8) {
                                    None => {
                                        return Err(());
                                    },
                                    Some(u2) => {
                                        if 0xDC00 <= u2 && u2 < 0xE000 {
                                            let cp: u32 = 0x10000 + (u - 0xD800) * 0x400 + (u2
                                                - 0xDC00);
                                            let ghost acc0 = acc@;
                                            match char::from_u32(cp) {
                                                Some(ch) => {
                                                    acc.push(ch);
                                                    proof {
                                                        assert(ch == char_from_code(cp as int));
                                                        assert(acc@ =~= acc0 + seq![
                                                            char_from_code(cp as int),
                                                        ]);
                                                        match parse_string_at(v@, cur + 12) {
                                                            Ok(tj) => {
                                                                assert((acc0 + seq![
                                                                    char_from_code(cp as int),
                                                                ]) + tj.0 =~= acc0 + (seq![
                                                                    char_from_code(cp as int),
                                                                ] + tj.0));
                                                            },
                                                            Err(()) => {},
                                                        }
                                                    }
                                                    cur = cur + 12;
                                                },
                                                None => {
                                                    proof {
                                                        assert(false);
                                                    }
                                                },
                                            }
                                        } else {
                                            return Err(());
                                        }
                                    },
                                }
                            } else {
                                return Err(());
                            }
                        } else if 0xDC00 <= u && u < 0xE000 {
                            return Err(());
                        } else {
                            let ghost acc0 = acc@;
                            match char::from_u32(u) {
                                Some(ch) => {
                                    acc.push(ch);
                                    proof {
                                        assert(ch == char_from_code(u as int));
                                        assert(acc@ =~= acc0 + seq![char_from_code(u as int)]);
                                        match parse_string_at(v@, cur + 6) {
                                            Ok(tj) => {
                                                assert((acc0 + seq![char_from_code(u as int)])
                                                    + tj.0 =~= acc0 + (seq![
                                                    char_from_code(u as int),
                                                ] + tj.0));
                                            },
                                            Err(()) => {},
                                        }
                                    }
                                    cur = cur + 6;
                                },
                                None => {
                                    proof {
                                        assert(false);
                                    }
                                },
                            }
                        }
                    },
                }
            } else if e == '"' || e == '\\' || e == '/' || e == 'b' || e == 'f' || e == 'n' || e
                == 'r' || e == 't' {
                let ghost acc0 = acc@;
                let dc: char = if e == '"' {
                    '"'
                } else if e == '\\' {
                    '\\'
                } else if e == '/' {
                    '/'
                } else if e == 'b' {
                    '\u{8}'
                } else if e == 'f' {
                    '\u{c}'
                } else if e == 'n' {
                    '\n'
                } else if e == 'r' {
                    '\r'
                } else {
                    '\t'
                };
                acc.push(dc);
                proof {
                    assert(acc@ =~= acc0 + seq![dc]);
                    match parse_string_at(v@, cur + 2) {
                        Ok(tj) => {
                            assert((acc0 + seq![dc]) + tj.0 =~= acc0 + (seq![dc] + tj.0));
                        },
                        Err(()) => {},
                    }
                }
                cur = cur + 2;
            } else {
                return Err(());
            }
        } else if (c as u32) < 0x20 {
            return Err(());
        } else {
            let ghost acc0 = acc@;
            acc.push(c);
            proof {
                assert(acc@ =~= acc0 + seq![c]);
                match parse_string_at(v@, cur + 1) {
                    Ok(tj) => {
                        assert((acc0 + seq![c]) + tj.0 =~= acc0 + (seq![c] + tj.0));
                    },
                    Err(()) => {},
                }
            }
            cur = cur + 1;
        }
    }
}

// Whether a character is a decimal digit.
fn is_digit_exec(c: char) -> (r: bool)
    ensures
        r == is_digit(c),
{
    let u = c as u32;
    48 <= u && u <= 57
}

// The index of the first non-digit character at or after `i`.
fn digits_end_exec(v: &[char], i: usize) -> (r: usize)
    requires
        i <= v@.len(),
    ensures
        r == digits_end(v@, i as int),
        i <= r <= v@.len(),
{
    let mut cur = i;
    while cur < v.len() && is_digit_exec(v[cur])
        invariant
            i <= cur <= v@.len(),
            digits_end(v@, i as int) == digits_end(v@, cur as int),
        decreases v@.len() - cur,
    {
        cur = cur + 1;
    }
    proof {
        lemma_digits_end_bounds(v@, cur as int);
    }
    cur
}

// A JSON number at `i`: sign and digits, within the signed 64-bit range.
fn parse_number_exec(v: &[char], i: usize) -> (r: Result<(i64, usize), ()>)
    requires
        i <= v@.len(),
    ensures
        match parse_number_at(v@, i as int) {
            Ok(nj) => r is Ok && r->Ok_0.0 as int == nj.0 && r->Ok_0.1 == nj.1 && r->Ok_0.1
                <= v@.len(),
            Err(()) => r is Err,
        },
{
    if i >= v.len() {
        return Err(());
    }
    let neg = v[i] == '-';
    let i1 = if neg {
        i + 1
    } else {
        i
    };
    if i1 >= v.len() {
        return Err(());
    }
    let u0 = v[i1] as u32;
    if !(48 <= u0 && u0 <= 57) {
        return Err(());
    }
    let j = digits_end_exec(v, i1);
    proof {
        lemma_digits_end_bounds(v@, i1 as int);
    }
    if v[i1] == '0' && j > i1 + 1 {
        return Err(());
    }
    if j < v.len() && (v[j] == '.' || v[j] == 'e' || v[j] == 'E') {
        return Err(());
    }
    if j - i1 > 19 {
        return Err(());
    }
    proof {
        reveal_with_fuel(pow10, 21);
        assert(pow10(19) == 10000000000000000000);
    }
    let mut mag: u64 = 0;
    let mut k = i1;
    while k < j
        invariant
            i1 <= k <= j <= v@.len(),
            forall|t: int| i1 <= t < j ==> is_digit(v@[t]),
            mag as int == digits_val(v@, i1 as int, k as int),
            j - i1 <= 19,
            (mag as int) < pow10((k - i1) as nat),
            pow10(19) == 10000000000000000000,
        decreases j - k,
    {
        proof {
            lemma_digits_val_bound(v@, i1 as int, k as int);
            assert(pow10((k - i1) as nat) <= pow10(18)) by {
                lemma_pow10_mono((k - i1) as nat, 18nat);
            }
            reveal_with_fuel(pow10, 21);
            assert((mag as int) * 10 < pow10(19)) by (nonlinear_arith)
                requires
                    (mag as int) < pow10(18),
                    pow10(19) == 10 * pow10(18),
            ;
        }
        let d = (v[k] as u32 - 48) as u64;
        mag = mag * 10 + d;
        proof {
            lemma_pow10_mono(((k + 1) - i1) as nat, 19nat);
            lemma_digits_val_bound(v@, i1 as int, k + 1);
        }
        k = k + 1;
    }
    if neg {
        if mag <= 9223372036854775807u64 {
            Ok(((-(mag as i64)), j))
        } else if mag == 9223372036854775808u64 {
            Ok((i64::MIN, j))
        } else {
            Err(())
        }
    } else {
        if mag <= 9223372036854775807u64 {
            Ok((mag as i64, j))
        } else {
            Err(())
        }
    }
}

proof fn lemma_pow10_mono(a: nat, b: nat)
    requires
        a <= b,
    ensures
        pow10(a) <= pow10(b),
        pow10(a) >= 1,
    decreases b,
{
    if a < b {
        lemma_pow10_mono(a, (b - 1) as nat);
        assert(pow10(b) == 10 * pow10((b - 1) as nat));
    } else if b > 0 {
        lemma_pow10_mono((a - 1) as nat, (b - 1) as nat);
    }
}

// Whether the literal's characters stand at `i`.
fn lit_at_exec(v: &[char], i: usize, lit: &[char]) -> (r: bool)
    requires
        i <= v@.len(),
    ensures
        r == lit_at(v@, i as int, lit@),
{
    let n = v.len();
    let m = lit.len();
    if m > n || i > n - m {
        proof {
            assert(!lit_at(v@, i as int, lit@));
        }
        return false;
    }
    let mut k: usize = 0;
    while k < m
        invariant
            0 <= k <= m == lit@.len(),
            n == v@.len(),
            i + m <= n,
            forall|t: int| 0 <= t < k ==> v@[i + t] == lit@[t],
        decreases lit@.len() - k,
    {
        if v[i + k] != lit[k] {
            proof {
                assert(v@.subrange(i as int, i + lit@.len())[k as int] == v@[i + k]);
            }
            return false;
        }
        k = k + 1;
    }
    proof {
        assert(v@.subrange(i as int, i + lit@.len()) =~= lit@);
    }
    true
}

// A JSON value at `i`, mirroring the descent of `parse_value_at`.
fn parse_value_exec(v: &[char], i: usize, fuel: u128) -> (r: Result<(JsonValue, usize), ()>)
    requires
        i <= v@.len(),
    ensures
        match parse_value_at(v@, i as int, fuel as nat) {
            Ok(vj) => r is Ok && r->Ok_0.0@ == vj.0 && r->Ok_0.1 == vj.1 && r->Ok_0.1 <= v@.len(),
            Err(()) => r is Err,
        },
    decreases fuel,
{
    if fuel == 0 {
        return Err(());
    }
    if i >= v.len() {
        return Err(());
    }
    let c = v[i];
    if c == '"' {
        match parse_string_exec(v, i + 1) {
            Ok((t, j)) => Ok((JsonValue::Str(crate::text::string_from_chars(t.as_slice())), j)),
            Err(()) => Err(()),
        }
    } else if c == '[' {
        let i1 = skip_ws_exec(v, i + 1);
        if i1 < v.len() && v[i1] == ']' {
            let items: Vec<JsonValue> = Vec::new();
            proof {
                crate::value::lemma_arr_view(items);
                assert(crate::value::arr_view(items@) =~= Seq::<SpecValue>::empty());
            }
            Ok((JsonValue::Arr(items), i1 + 1))
        } else {
            match parse_items_exec(v, i1, fuel - 1) {
                Ok((items, j)) => {
                    proof {
                        crate::value::lemma_arr_view(items);
                    }
                    Ok((JsonValue::Arr(items), j))
                },
                Err(()) => Err(()),
            }
        }
    } else if c == '{' {
        let i1 = skip_ws_exec(v, i + 1);
        if i1 < v.len() && v[i1] == '}' {
            let entries: Vec<(String, JsonValue)> = Vec::new();
            proof {
                crate::value::lemma_obj_view(entries);
                assert(crate::value::entries_view(entries@) =~= Seq::<
                    (Seq<char>, SpecValue),
                >::empty());
            }
            Ok((JsonValue::Obj(entries), i1 + 1))
        } else {
            let acc: Vec<(String, JsonValue)> = Vec::new();
            proof {
                assert(crate::value::entries_view(acc@) =~= Seq::<(Seq<char>, SpecValue)>::empty());
            }
            match parse_entries_exec(v, i1, fuel - 1, acc) {
                Ok((entries, j)) => {
                    proof {
                        crate::value::lemma_obj_view(entries);
                    }
                    Ok((JsonValue::Obj(entries), j))
                },
                Err(()) => Err(()),
            }
        }
    } else {
        let lit_true: [char; 4] = ['t', 'r', 'u', 'e'];
        let lit_false: [char; 5] = ['f', 'a', 'l', 's', 'e'];
        let lit_null: [char; 4] = ['n', 'u', 'l', 'l'];
        proof {
            reveal_strlit("true");
            reveal_strlit("false");
            reveal_strlit("null");
            assert(lit_true@ =~= "true"@);
            assert(lit_false@ =~= "false"@);
            assert(lit_null@ =~= "null"@);
        }
        if lit_at_exec(v, i, lit_true.as_slice()) {
            Ok((JsonValue::Bool(true), i + 4))
        } else if lit_at_exec(v, i, lit_false.as_slice()) {
            Ok((JsonValue::Bool(false), i + 5))
        } else if lit_at_exec(v, i, lit_null.as_slice()) {
            Ok((JsonValue::Null, i + 4))
        } else {
            match parse_number_exec(v, i) {
                Ok((n, j)) => Ok((JsonValue::Num(n), j)),
                Err(()) => Err(()),
            }
        }
    }
}

// The items of a non-empty list, mirroring `parse_items_at`.
fn parse_items_exec(v: &[char], i: usize, fuel: u128) -> (r: Result<(Vec<JsonValue>, usize), ()>)
    requires
        i <= v@.len(),
    ensures
        match parse_items_at(v@, i as int, fuel as nat) {
            Ok(vj) => r is Ok && crate::value::arr_view(r->Ok_0.0@) == vj.0 && r->Ok_0.1 == vj.1
                && r->Ok_0.1 <= v@.len(),
            Err(()) => r is Err,
        },
    decreases fuel,
{
    if fuel == 0 {
        return Err(());
    }
    let first = match parse_value_exec(v, i, fuel - 1) {
        Ok(p) => p,
        Err(()) => {
            return Err(());
        },
    };
    let k = skip_ws_exec(v, first.1);
    if k < v.len() && v[k] == ',' {
        let next = skip_ws_exec(v, k + 1);
        match parse_items_exec(v, next, fuel - 1) {
            Ok((rest, m)) => {
                let mut items: Vec<JsonValue> = Vec::new();
                items.push(first.0);
                let mut rest2 = rest;
                let ghost rest_view = crate::value::arr_view(rest2@);
                let ghost head_view = items@[0]@;
                items.append(&mut rest2);
                proof {
                    assert(crate::value::arr_view(items@) =~= seq![head_view] + rest_view);
                }
                Ok((items, m))
            },
            Err(()) => Err(()),
        }
    } else if k < v.len() && v[k] == ']' {
        let mut items: Vec<JsonValue> = Vec::new();
        let ghost head_view = first.0@;
        items.push(first.0);
        proof {
            assert(crate::value::arr_view(items@) =~= seq![head_view]);
        }
        Ok((items, k + 1))
    } else {
        Err(())
    }
}

// The entries of a non-empty map, mirroring `parse_entries_at`.
fn parse_entries_exec(v: &[char], i: usize, fuel: u128, acc: Vec<(String, JsonValue)>) -> (r:
    Result<(Vec<(String, JsonValue)>, usize), ()>)
    requires
        i <= v@.len(),
    ensures
        match parse_entries_at(v@, i as int, fuel as nat, crate::value::entries_view(acc@)) {
            Ok(ej) => r is Ok && crate::value::entries_view(r->Ok_0.0@) == ej.0 && r->Ok_0.1 == ej.1
                && r->Ok_0.1 <= v@.len(),
            Err(()) => r is Err,
        },
    decreases fuel,
{
    if fuel == 0 {
        return Err(());
    }
    if i >= v.len() || v[i] != '"' {
        if i < v.len() {
            proof {
                assert(v@[i as int] != '"');
            }
        }
        return Err(());
    }
    let key = match parse_string_exec(v, i + 1) {
        Ok(p) => p,
        Err(()) => {
            return Err(());
        },
    };
    let k = skip_ws_exec(v, key.1);
    if !(k < v.len() && v[k] == ':') {
        return Err(());
    }
    let vstart = skip_ws_exec(v, k + 1);
    let val = match parse_value_exec(v, vstart, fuel - 1) {
        Ok(p) => p,
        Err(()) => {
            return Err(());
        },
    };
    let mut acc2 = acc;
    let key_str = crate::text::string_from_chars(key.0.as_slice());
    crate::value::obj_set_exec(&mut acc2, key_str.as_str(), val.0);
    let t = skip_ws_exec(v, val.1);
    if t < v.len() && v[t] == ',' {
        let next = skip_ws_exec(v, t + 1);
        parse_entries_exec(v, next, fuel - 1, acc2)
    } else if t < v.len() && v[t] == '}' {
        Ok((acc2, t + 1))
    } else {
        Err(())
    }
}

/// Parses a whole JSON text into a structured value: one value
/// surrounded only by whitespace.
pub(crate) fn parse_json_exec(s: &str) -> (r: Result<JsonValue, ()>)
    ensures
        match parse_json(s@) {
            Ok(sv) => r is Ok && r->Ok_0@ == sv,
            Err(()) => r is Err,
        },
{
    let v = crate::text::chars_vec(s);
    let start = skip_ws_exec(v.as_slice(), 0);
    let fuel: u128 = 2u128 * (v.len() as u128) + 4;
    proof {
        assert(fuel as nat == (2 * s@.len() + 4) as nat);
    }
    match parse_value_exec(v.as_slice(), start, fuel) {
        Err(()) => Err(()),
        Ok((val, j)) => {
            let t = skip_ws_exec(v.as_slice(), j);
            if t == v.len() {
                Ok(val)
            } else {
                Err(())
            }
        },
    }
}

} // verus!
