//! Character-level text policies shared by both transcoders: whitespace
//! classification, trimming, collapsing of whitespace runs, and XML text
//! escaping.

use vstd::prelude::*;

verus! {

use vstd::std_specs::iter::IteratorSpec;

broadcast use vstd::string::group_string_axioms;

/// Relies on `String::push`: appends one character to the string.
pub assume_specification[ String::push ](s: &mut String, ch: char)
    ensures
        final(s)@ == old(s)@.push(ch),
;

/// The name of `str::to_lowercase`'s result: it depends on the characters
/// alone.
pub uninterp spec fn lower_of(s: Seq<char>) -> Seq<char>;

/// Relies on `str::to_lowercase`, used to fold tag names on decode.
#[verifier::external_body]
pub(crate) fn to_lowercase(s: &str) -> (r: String)
    ensures
        r@ == lower_of(s@),
{
    s.to_lowercase()
}

/// The Unicode `White_Space` characters: the class that `str::trim` and
/// the text policies here treat as whitespace.
pub open spec fn is_ws_char(c: char) -> bool {
    ||| c == ' '
    ||| c == '\t'
    ||| c == '\n'
    ||| c == '\r'
    ||| c as u32 == 0xb
    ||| c as u32 == 0xc
    ||| c as u32 == 0x85
    ||| c as u32 == 0xa0
    ||| c as u32 == 0x1680
    ||| (0x2000 <= c as u32 && c as u32 <= 0x200a)
    ||| c as u32 == 0x2028
    ||| c as u32 == 0x2029
    ||| c as u32 == 0x202f
    ||| c as u32 == 0x205f
    ||| c as u32 == 0x3000
}

/// True when the text consists of whitespace characters only.
pub open spec fn is_ws(s: Seq<char>) -> bool {
    forall|i: int| 0 <= i < s.len() ==> is_ws_char(s[i])
}

/// The text with its leading whitespace removed.
pub open spec fn trim_start_spec(s: Seq<char>) -> Seq<char>
    decreases s.len(),
{
    if s.len() > 0 && is_ws_char(s[0]) {
        trim_start_spec(s.drop_first())
    } else {
        s
    }
}

/// The text with its trailing whitespace removed.
pub open spec fn trim_end_spec(s: Seq<char>) -> Seq<char>
    decreases s.len(),
{
    if s.len() > 0 && is_ws_char(s.last()) {
        trim_end_spec(s.drop_last())
    } else {
        s
    }
}

/// The text with whitespace removed at both ends.
pub open spec fn trim_spec(s: Seq<char>) -> Seq<char> {
    trim_end_spec(trim_start_spec(s))
}

/// Each run of two or more whitespace characters replaced by a single
/// space; lone whitespace characters are kept as they are.
pub open spec fn collapse_ws(s: Seq<char>) -> Seq<char>
    decreases s.len(), 0int,
{
    if s.len() == 0 {
        Seq::empty()
    } else if s.len() >= 2 && is_ws_char(s[0]) && is_ws_char(s[1]) {
        ws_run(s.drop_first())
    } else {
        seq![s[0]] + collapse_ws(s.drop_first())
    }
}

/// Consumes the rest of a whitespace run, emits the single space that
/// stands for it, and goes on collapsing.
pub open spec fn ws_run(s: Seq<char>) -> Seq<char>
    decreases s.len(), 1int,
{
    if s.len() > 0 && is_ws_char(s[0]) {
        ws_run(s.drop_first())
    } else {
        seq![' '] + collapse_ws(s)
    }
}

/// The expansion of one character in XML text: the five reserved
/// characters become entity references.
pub open spec fn escape_char(c: char) -> Seq<char> {
    if c == '<' {
        seq!['&', 'l', 't', ';']
    } else if c == '>' {
        seq!['&', 'g', 't', ';']
    } else if c == '&' {
        seq!['&', 'a', 'm', 'p', ';']
    } else if c == '"' {
        seq!['&', 'q', 'u', 'o', 't', ';']
    } else if c == '\'' {
        seq!['&', 'a', 'p', 'o', 's', ';']
    } else {
        seq![c]
    }
}

/// XML text escaping: every character replaced by its expansion.
pub open spec fn escape_text(s: Seq<char>) -> Seq<char>
    decreases s.len(),
{
    if s.len() == 0 {
        Seq::empty()
    } else {
        escape_char(s[0]) + escape_text(s.drop_first())
    }
}

/// The characters of a string slice, in order.
pub(crate) fn chars_vec(s: &str) -> (v: Vec<char>)
    ensures
        v@ == s@,
{
    let mut v: Vec<char> = Vec::new();
    for c in it: s.chars()
        invariant
            v@ == it.history(),
    {
        v.push(c);
    }
    proof {
        assert(v@ =~= s@);
    }
    v
}

/// A string holding exactly the given characters.
pub(crate) fn string_from_chars(v: &[char]) -> (s: String)
    ensures
        s@ == v@,
{
    let mut s = String::new();
    let mut i: usize = 0;
    while i < v.len()
        invariant
            0 <= i <= v@.len(),
            s@ == v@.take(i as int),
        decreases v@.len() - i,
    {
        s.push(v[i]);
        proof {
            assert(v@.take(i + 1) =~= v@.take(i as int).push(v@[i as int]));
        }
        i = i + 1;
    }
    proof {
        assert(v@.take(v@.len() as int) =~= v@);
    }
    s
}

/// Whether one character is whitespace.
pub(crate) fn is_ws_char_exec(c: char) -> (r: bool)
    ensures
        r == is_ws_char(c),
{
    let u = c as u32;
    u == 0x20 || u == 0x9 || u == 0xa || u == 0xd || u == 0xb || u == 0xc || u == 0x85 || u
        == 0xa0 || u == 0x1680 || (0x2000 <= u && u <= 0x200a) || u == 0x2028 || u == 0x2029 || u
        == 0x202f || u == 0x205f || u == 0x3000
}

/// Whether the whole string is whitespace.
pub(crate) fn is_ws_chars(v: &[char]) -> (r: bool)
    ensures
        r == is_ws(v@),
{
    let mut i: usize = 0;
    while i < v.len()
        invariant
            0 <= i <= v@.len(),
            forall|j: int| 0 <= j < i ==> is_ws_char(v@[j]),
        decreases v@.len() - i,
    {
        if !is_ws_char_exec(v[i]) {
            return false;
        }
        i = i + 1;
    }
    true
}

proof fn lemma_trim_start_index(s: Seq<char>, i: int)
    requires
        0 <= i <= s.len(),
        forall|j: int| 0 <= j < i ==> is_ws_char(s[j]),
        i == s.len() || !is_ws_char(s[i]),
    ensures
        trim_start_spec(s) == s.skip(i),
    decreases i,
{
    if i == 0 {
        assert(s.skip(0) =~= s);
    } else {
        let rest = s.drop_first();
        assert(forall|j: int| 0 <= j < i - 1 ==> rest[j] == s[j + 1]);
        lemma_trim_start_index(rest, i - 1);
        assert(rest.skip(i - 1) =~= s.skip(i));
    }
}

proof fn lemma_trim_end_index(s: Seq<char>, j: int)
    requires
        0 <= j <= s.len(),
        forall|k: int| j <= k < s.len() ==> is_ws_char(s[k]),
        j == 0 || !is_ws_char(s[j - 1]),
    ensures
        trim_end_spec(s) == s.take(j),
    decreases s.len(),
{
    if j == s.len() {
        if s.len() > 0 && is_ws_char(s.last()) {
            assert(!is_ws_char(s[j - 1]));
            assert(false);
        }
        assert(s.take(j) =~= s);
    } else {
        let rest = s.drop_last();
        assert(is_ws_char(s.last()));
        lemma_trim_end_index(rest, j);
        assert(rest.take(j) =~= s.take(j));
    }
}

/// The text with whitespace removed at both ends.
pub(crate) fn trim_chars(v: &[char]) -> (r: Vec<char>)
    ensures
        r@ == trim_spec(v@),
{
    let n = v.len();
    let mut start: usize = 0;
    while start < n && is_ws_char_exec(v[start])
        invariant
            0 <= start <= n == v@.len(),
            forall|j: int| 0 <= j < start ==> is_ws_char(v@[j]),
        decreases n - start,
    {
        start = start + 1;
    }
    proof {
        lemma_trim_start_index(v@, start as int);
    }
    let mut end: usize = n;
    while end > start && is_ws_char_exec(v[end - 1])
        invariant
            start <= end <= n == v@.len(),
            forall|k: int| end <= k < n ==> is_ws_char(v@[k]),
        decreases end,
    {
        end = end - 1;
    }
    let ghost mid = v@.skip(start as int);
    proof {
        assert(forall|k: int|
            end - start <= k < mid.len() ==> mid[k] == v@[k + start] && is_ws_char(
                v@[k + start],
            ));
        if end > start {
            assert(mid[end - start - 1] == v@[end - 1]);
        }
        lemma_trim_end_index(mid, end - start);
    }
    let mut r: Vec<char> = Vec::new();
    let mut i: usize = start;
    while i < end
        invariant
            start <= i <= end <= v@.len(),
            r@ == v@.subrange(start as int, i as int),
        decreases end - i,
    {
        r.push(v[i]);
        proof {
            assert(v@.subrange(start as int, i + 1) =~= v@.subrange(start as int, i as int).push(
                v@[i as int],
            ));
        }
        i = i + 1;
    }
    proof {
        assert(r@ =~= mid.take(end - start));
    }
    r
}

proof fn lemma_ws_run_skip(s: Seq<char>, k: int)
    requires
        0 <= k <= s.len(),
        forall|j: int| 0 <= j < k ==> is_ws_char(s[j]),
        k == s.len() || !is_ws_char(s[k]),
    ensures
        ws_run(s) == seq![' '] + collapse_ws(s.skip(k)),
    decreases k,
{
    if k == 0 {
        assert(s.skip(0) =~= s);
    } else {
        let rest = s.drop_first();
        assert(forall|j: int| 0 <= j < k - 1 ==> rest[j] == s[j + 1]);
        lemma_ws_run_skip(rest, k - 1);
        assert(rest.skip(k - 1) =~= s.skip(k));
    }
}

/// Whitespace runs of length two or more collapsed to a single space.
pub(crate) fn collapse_chars(v: &[char]) -> (r: Vec<char>)
    ensures
        r@ == collapse_ws(v@),
{
    let n = v.len();
    let mut r: Vec<char> = Vec::new();
    let mut i: usize = 0;
    proof {
        assert(v@.skip(0) =~= v@);
        assert(r@ + collapse_ws(v@) =~= collapse_ws(v@));
    }
    while i < n
        invariant
            0 <= i <= n == v@.len(),
            r@ + collapse_ws(v@.skip(i as int)) == collapse_ws(v@),
        decreases n - i,
    {
        let ghost tail = v@.skip(i as int);
        if i + 1 < n && is_ws_char_exec(v[i]) && is_ws_char_exec(v[i + 1]) {
            r.push(' ');
            let mut k: usize = i + 1;
            while k < n && is_ws_char_exec(v[k])
                invariant
                    i + 1 <= k <= n == v@.len(),
                    forall|j: int| i < j < k ==> is_ws_char(v@[j]),
                decreases n - k,
            {
                k = k + 1;
            }
            proof {
                let run = tail.drop_first();
                assert(tail[0] == v@[i as int] && tail[1] == v@[i + 1]);
                assert(collapse_ws(tail) == ws_run(run));
                assert(forall|j: int| 0 <= j < k - i - 1 ==> run[j] == v@[j + i + 1]);
                if k < n {
                    assert(run[k - i - 1] == v@[k as int]);
                }
                lemma_ws_run_skip(run, k - i - 1);
                assert(run.skip(k - i - 1) =~= v@.skip(k as int));
                assert(seq![' '] + collapse_ws(v@.skip(k as int)) == collapse_ws(tail));
            }
            i = k;
        } else {
            r.push(v[i]);
            proof {
                assert(tail[0] == v@[i as int]);
                assert(tail.drop_first() =~= v@.skip(i + 1));
                assert(collapse_ws(tail) == seq![v@[i as int]] + collapse_ws(v@.skip(i + 1)));
            }
            i = i + 1;
        }
        proof {
            assert(r@ + collapse_ws(v@.skip(i as int)) =~= collapse_ws(v@));
        }
    }
    proof {
        assert(v@.skip(n as int) =~= Seq::<char>::empty());
        assert(r@ =~= collapse_ws(v@));
    }
    r
}

/// Appends the escaped form of the text to the output.
pub(crate) fn escape_into(out: &mut Vec<char>, v: &[char])
    ensures
        final (out)@ == old(out)@ + escape_text(v@),
{
    let n = v.len();
    let mut i: usize = 0;
    proof {
        assert(v@.skip(0) =~= v@);
        assert(out@ + escape_text(v@) =~= old(out)@ + escape_text(v@));
    }
    while i < n
        invariant
            0 <= i <= n == v@.len(),
            out@ + escape_text(v@.skip(i as int)) == old(out)@ + escape_text(v@),
        decreases n - i,
    {
        let ghost tail = v@.skip(i as int);
        let ghost out0 = out@;
        let c = v[i];
        if c == '<' {
            out.push('&');
            out.push('l');
            out.push('t');
            out.push(';');
        } else if c == '>' {
            out.push('&');
            out.push('g');
            out.push('t');
            out.push(';');
        } else if c == '&' {
            out.push('&');
            out.push('a');
            out.push('m');
            out.push('p');
            out.push(';');
        } else if c == '"' {
            out.push('&');
            out.push('q');
            out.push('u');
            out.push('o');
            out.push('t');
            out.push(';');
        } else if c == '\'' {
            out.push('&');
            out.push('a');
            out.push('p');
            out.push('o');
            out.push('s');
            out.push(';');
        } else {
            out.push(c);
        }
        proof {
            assert(tail[0] == v@[i as int]);
            assert(tail.drop_first() =~= v@.skip(i + 1));
            assert(escape_text(tail) == escape_char(v@[i as int]) + escape_text(v@.skip(i + 1)));
            assert(out@ =~= out0 + escape_char(v@[i as int]));
            assert(out@ + escape_text(v@.skip(i + 1)) =~= out0 + escape_text(tail));
        }
        i = i + 1;
    }
    proof {
        assert(v@.skip(n as int) =~= Seq::<char>::empty());
        assert(out@ =~= old(out)@ + escape_text(v@));
    }
}

} // verus!
