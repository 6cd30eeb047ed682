//! Small verified string helpers shared by the parser, the emitter and the
//! relation renderers.
use vstd::prelude::*;
use vstd::string::*;

use crate::lexer::{chars_of, string_of};

verus! {

/// `parts` joined with `sep` between consecutive parts.
pub open spec fn join_spec(parts: Seq<Seq<char>>, sep: Seq<char>) -> Seq<char>
    decreases parts.len(),
{
    if parts.len() == 0 {
        Seq::empty()
    } else if parts.len() == 1 {
        parts[0]
    } else {
        join_spec(parts.drop_last(), sep) + sep + parts.last()
    }
}

/// The views of a vector of strings.
pub open spec fn views(v: Seq<String>) -> Seq<Seq<char>> {
    v.map_values(|s: String| s@)
}

/// Joins `parts` with `sep`.
pub fn join(parts: &Vec<String>, sep: &str) -> (r: String)
    ensures
        r@ == join_spec(views(parts@), sep@),
{
    let mut r = String::new();
    let ghost vs = views(parts@);
    let mut k: usize = 0;
    while k < parts.len()
        invariant
            vs == views(parts@),
            k <= parts.len(),
            r@ == join_spec(vs.take(k as int), sep@),
        decreases parts.len() - k,
    {
        if k != 0 {
            r.append(sep);
        }
        r.append(parts[k].as_str());
        proof {
            assert(vs.take(k + 1).drop_last() =~= vs.take(k as int));
            if k == 0 {
                assert(r@ =~= vs.take(1)[0]);
            }
        }
        k = k + 1;
    }
    assert(vs.take(parts.len() as int) =~= vs);
    r
}

/// Whether `s` spells exactly `lit`.
pub fn string_is(s: &str, lit: Vec<char>) -> (b: bool)
    ensures
        b == (s@ == lit@),
{
    let cs = chars_of(s);
    if cs.len() != lit.len() {
        return false;
    }
    let mut k: usize = 0;
    while k < cs.len()
        invariant
            cs@ == s@,
            cs.len() == lit.len(),
            k <= cs.len(),
            forall|j: int| 0 <= j < k ==> cs@[j] == lit@[j],
        decreases cs.len() - k,
    {
        if cs[k] != lit[k] {
            return false;
        }
        k = k + 1;
    }
    assert(cs@ =~= lit@);
    true
}

/// Whether `a` and `b` spell the same text.
pub fn str_eq(a: &str, b: &str) -> (r: bool)
    ensures
        r == (a@ == b@),
{
    string_is(a, chars_of(b))
}

/// Whether `s` ends with `suffix`.
pub fn ends_with(s: &str, suffix: &str) -> (r: bool)
    ensures
        r == (s@.len() >= suffix@.len() && s@.subrange(s@.len() - suffix@.len(), s@.len() as int)
            == suffix@),
{
    let a = chars_of(s);
    let b = chars_of(suffix);
    if a.len() < b.len() {
        return false;
    }
    let off = a.len() - b.len();
    let mut j: usize = off;
    while j < a.len()
        invariant
            a@ == s@,
            b@ == suffix@,
            off == a@.len() - b@.len(),
            off <= j <= a@.len(),
            forall|q: int| off <= q < j ==> a@[q] == b@[q - off],
        decreases a.len() - j,
    {
        if a[j] != b[j - off] {
            assert(s@.subrange(s@.len() - suffix@.len(), s@.len() as int)[j - off] != suffix@[j - off]);
            return false;
        }
        j = j + 1;
    }
    assert(s@.subrange(s@.len() - suffix@.len(), s@.len() as int) =~= suffix@);
    true
}

/// Lexicographic order on character sequences (by code point).
pub open spec fn seq_lt(a: Seq<char>, b: Seq<char>) -> bool
    decreases a.len(),
{
    if a.len() == 0 {
        b.len() > 0
    } else if b.len() == 0 {
        false
    } else if a[0] != b[0] {
        (a[0] as u32) < (b[0] as u32)
    } else {
        seq_lt(a.drop_first(), b.drop_first())
    }
}

/// Whether `a` orders before `b` (lexicographically by code point).
pub fn str_lt(a: &str, b: &str) -> (r: bool)
    ensures
        r == seq_lt(a@, b@),
{
    let x = chars_of(a);
    let y = chars_of(b);
    let mut k: usize = 0;
    assert(a@.skip(0) =~= a@);
    assert(b@.skip(0) =~= b@);
    while k < x.len() && k < y.len() && x[k] == y[k]
        invariant
            x@ == a@,
            y@ == b@,
            k <= x.len(),
            k <= y.len(),
            seq_lt(a@, b@) == seq_lt(a@.skip(k as int), b@.skip(k as int)),
        decreases x.len() - k,
    {
        proof {
            assert(a@.skip(k as int).drop_first() =~= a@.skip(k + 1));
            assert(b@.skip(k as int).drop_first() =~= b@.skip(k + 1));
        }
        k = k + 1;
    }
    assert(a@.skip(k as int).len() == x.len() - k);
    assert(b@.skip(k as int).len() == y.len() - k);
    if k < x.len() && k < y.len() {
        assert(a@.skip(k as int)[0] == x@[k as int]);
        assert(b@.skip(k as int)[0] == y@[k as int]);
    }
    if k == x.len() {
        k < y.len()
    } else if k == y.len() {
        false
    } else {
        (x[k] as u32) < (y[k] as u32)
    }
}

/// The string made of `a` followed by `b`.
pub fn concat(a: &str, b: &str) -> (r: String)
    ensures
        r@ == a@ + b@,
{
    let mut r = a.to_string();
    r.append(b);
    r
}

/// The decimal text of an unsigned number.
pub open spec fn decimal_spec(n: nat) -> Seq<char>
    decreases n,
{
    if n < 10 {
        seq![digit_char(n)]
    } else {
        decimal_spec(n / 10) + seq![digit_char(n % 10)]
    }
}

pub open spec fn digit_char(d: nat) -> char {
    if d == 0 {
        '0'
    } else if d == 1 {
        '1'
    } else if d == 2 {
        '2'
    } else if d == 3 {
        '3'
    } else if d == 4 {
        '4'
    } else if d == 5 {
        '5'
    } else if d == 6 {
        '6'
    } else if d == 7 {
        '7'
    } else if d == 8 {
        '8'
    } else {
        '9'
    }
}

fn digit_char_exec(d: u64) -> (c: char)
    requires
        d < 10,
    ensures
        c == digit_char(d as nat),
{
    if d == 0 {
        '0'
    } else if d == 1 {
        '1'
    } else if d == 2 {
        '2'
    } else if d == 3 {
        '3'
    } else if d == 4 {
        '4'
    } else if d == 5 {
        '5'
    } else if d == 6 {
        '6'
    } else if d == 7 {
        '7'
    } else if d == 8 {
        '8'
    } else {
        '9'
    }
}

/// The decimal text of `n`.
pub fn u64_text(n: u64) -> (r: String)
    ensures
        r@ == decimal_spec(n as nat),
    decreases n,
{
    if n < 10 {
        string_of(vec![digit_char_exec(n)])
    } else {
        let mut r = u64_text(n / 10);
        let last = string_of(vec![digit_char_exec(n % 10)]);
        r.append(last.as_str());
        r
    }
}

/// The decimal text of a signed number: a minus sign, then the digits.
pub open spec fn signed_decimal_spec(v: int) -> Seq<char> {
    if v < 0 {
        seq!['-'] + decimal_spec((-v) as nat)
    } else {
        decimal_spec(v as nat)
    }
}

/// The decimal text of `v`.
pub fn i64_text(v: i64) -> (r: String)
    ensures
        r@ == signed_decimal_spec(v as int),
{
    if v < 0 {
        let mag: u64 = if v == i64::MIN {
            0x8000_0000_0000_0000
        } else {
            (-v) as u64
        };
        let digits = u64_text(mag);
        let mut r = string_of(vec!['-']);
        r.append(digits.as_str());
        r
    } else {
        u64_text(v as u64)
    }
}

} // verus!
