//! Window machinery shared by the OLAP natives: sort directions, cell and
//! row ordering, partitions, stable sorting and frames.
use vstd::prelude::*;

use crate::lexer::chars_of;
use crate::parser::lemma_seq_lt_facts;
use crate::text::{seq_lt, str_lt};
use crate::tds::{
    cell_eq, copy_cell, exponent_field, fraction_field, is_nan, key_eq, key_equal, sign_set, Cell,
    Tds,
};

verus! {

// ───────────────────────────── orderings ─────────────────────────────

/// The outcome of a three-way comparison.
#[derive(Debug, Clone, Copy, PartialEq, Eq, Structural)]
pub enum Order {
    Less,
    Equal,
    Greater,
}

impl Order {
    /// The opposite outcome.
    pub open spec fn flip(self) -> Order {
        match self {
            Order::Less => Order::Greater,
            Order::Equal => Order::Equal,
            Order::Greater => Order::Less,
        }
    }

    /// `flip`, computed.
    pub fn reverse(self) -> (r: Order)
        ensures
            r == self.flip(),
    {
        match self {
            Order::Less => Order::Greater,
            Order::Equal => Order::Equal,
            Order::Greater => Order::Less,
        }
    }
}

/// The order of two integers.
pub open spec fn int_order(a: int, b: int) -> Order {
    if a < b {
        Order::Less
    } else if a == b {
        Order::Equal
    } else {
        Order::Greater
    }
}

/// `2^k`.
pub open spec fn two_to(k: nat) -> nat
    decreases k,
{
    if k == 0 {
        1
    } else {
        2 * two_to((k - 1) as nat)
    }
}

proof fn lemma_two_to_grows(a: nat, b: nat)
    requires
        a <= b,
    ensures
        two_to(a) <= two_to(b),
        two_to(a) >= 1,
    decreases b,
{
    if a < b {
        lemma_two_to_grows(a, (b - 1) as nat);
    } else if a > 0 {
        lemma_two_to_grows((a - 1) as nat, (a - 1) as nat);
    }
}

proof fn lemma_two_to_values()
    ensures
        two_to(1) == 2,
        two_to(53) == 0x20_0000_0000_0000,
        two_to(63) == 0x8000_0000_0000_0000,
        two_to(64) == 0x1_0000_0000_0000_0000,
{
    reveal_with_fuel(two_to, 65);
}

/// `2^k`, computed.
fn power_of_two(k: u32) -> (p: u128)
    requires
        k < 64,
    ensures
        p == two_to(k as nat),
        p <= 0x8000_0000_0000_0000,
{
    proof {
        lemma_two_to_values();
    }
    let mut p: u128 = 1;
    let mut i: u32 = 0;
    while i < k
        invariant
            i <= k,
            k < 64,
            p == two_to(i as nat),
            two_to(63) == 0x8000_0000_0000_0000,
        decreases k - i,
    {
        proof {
            lemma_two_to_grows((i + 1) as nat, 63);
        }
        p = p * 2;
        i = i + 1;
    }
    proof {
        lemma_two_to_grows(k as nat, 63);
    }
    p
}

/// The significand of a finite double.
pub open spec fn significand(bits: u64) -> int {
    if exponent_field(bits) == 0 {
        fraction_field(bits)
    } else {
        fraction_field(bits) + 0x10_0000_0000_0000
    }
}

/// The binary exponent of a finite double: its value is
/// `±significand · 2^exponent`.
pub open spec fn binary_exponent(bits: u64) -> int {
    if exponent_field(bits) == 0 {
        -1074
    } else {
        exponent_field(bits) - 1075
    }
}

/// The order of the magnitude `u` and `m · 2^e`.
pub open spec fn magnitude_order(u: int, m: int, e: int) -> Order {
    if e >= 0 {
        int_order(u, m * two_to(e as nat))
    } else {
        int_order(u * two_to((-e) as nat), m)
    }
}

/// The order of an integer and the exact value of a double; a NaN is
/// equal to everything.
pub open spec fn int_double_order(x: int, bits: u64) -> Order {
    if is_nan(bits) {
        Order::Equal
    } else if exponent_field(bits) == 2047 {
        if sign_set(bits) {
            Order::Greater
        } else {
            Order::Less
        }
    } else if significand(bits) == 0 {
        int_order(x, 0)
    } else if !sign_set(bits) {
        if x <= 0 {
            Order::Less
        } else {
            magnitude_order(x, significand(bits), binary_exponent(bits))
        }
    } else {
        if x >= 0 {
            Order::Greater
        } else {
            magnitude_order(-x, significand(bits), binary_exponent(bits)).flip()
        }
    }
}

/// `magnitude_order` for `e >= 0`.
fn compare_scaled_up(u: u128, m: u128, e: i32) -> (r: Order)
    requires
        u <= 0x8000_0000_0000_0000,
        m < 0x20_0000_0000_0000,
        0 <= e <= 971,
    ensures
        r == magnitude_order(u as int, m as int, e as int),
{
    proof {
        lemma_two_to_values();
    }
    if e >= 64 {
        proof {
            lemma_two_to_grows(64, e as nat);
            let t = two_to(e as nat);
            if m > 0 {
                assert(m * t >= t) by (nonlinear_arith)
                    requires
                        m >= 1,
                        t >= 0,
                ;
            } else {
                assert(m * t == 0) by (nonlinear_arith)
                    requires
                        m == 0,
                ;
            }
        }
        if m == 0 {
            if u == 0 {
                Order::Equal
            } else {
                Order::Greater
            }
        } else {
            Order::Less
        }
    } else {
        let p = power_of_two(e as u32);
        proof {
            assert(m * p <= 0x20_0000_0000_0000 * 0x8000_0000_0000_0000) by (nonlinear_arith)
                requires
                    m < 0x20_0000_0000_0000,
                    p <= 0x8000_0000_0000_0000,
            ;
        }
        let v = m * p;
        if u < v {
            Order::Less
        } else if u == v {
            Order::Equal
        } else {
            Order::Greater
        }
    }
}

proof fn lemma_split_compare(u: int, m: int, p: int, q: int, r: int)
    requires
        p > 0,
        u >= 0,
        m == q * p + r,
        0 <= r < p,
    ensures
        u > q ==> u * p > m,
        u < q ==> u * p + p <= m,
        u == q ==> u * p + r == m,
{
    if u > q {
        assert(u * p >= (q + 1) * p) by (nonlinear_arith)
            requires
                u >= q + 1,
                p > 0,
        ;
        assert((q + 1) * p == q * p + p) by (nonlinear_arith);
    } else if u < q {
        assert(q * p >= (u + 1) * p) by (nonlinear_arith)
            requires
                q >= u + 1,
                p > 0,
        ;
        assert((u + 1) * p == u * p + p) by (nonlinear_arith);
    }
}

/// `magnitude_order` for `e < 0`.
fn compare_scaled_down(u: u128, m: u128, e: i32) -> (r: Order)
    requires
        u <= 0x8000_0000_0000_0000,
        m < 0x20_0000_0000_0000,
        -1074 <= e < 0,
    ensures
        r == magnitude_order(u as int, m as int, e as int),
{
    proof {
        lemma_two_to_values();
    }
    let k: i32 = -e;
    if k >= 64 {
        proof {
            lemma_two_to_grows(64, k as nat);
            let t = two_to(k as nat);
            if u >= 1 {
                assert(u * t >= t) by (nonlinear_arith)
                    requires
                        u >= 1,
                        t >= 0,
                ;
            } else {
                assert(u * t == 0) by (nonlinear_arith)
                    requires
                        u == 0,
                ;
            }
        }
        if u == 0 {
            if m == 0 {
                Order::Equal
            } else {
                Order::Less
            }
        } else {
            Order::Greater
        }
    } else {
        let p = power_of_two(k as u32);
        proof {
            lemma_two_to_grows(1, k as nat);
        }
        let q = m / p;
        let r = m % p;
        proof {
            assert(m == q * p + r && 0 <= r < p) by (nonlinear_arith)
                requires
                    p > 0,
                    q == m / p,
                    r == m % p,
            ;
            lemma_split_compare(u as int, m as int, p as int, q as int, r as int);
        }
        if u > q {
            Order::Greater
        } else if u < q {
            Order::Less
        } else if r == 0 {
            Order::Equal
        } else {
            Order::Less
        }
    }
}

/// `magnitude_order`, computed.
fn compare_magnitude(u: u128, m: u128, e: i32) -> (r: Order)
    requires
        u <= 0x8000_0000_0000_0000,
        m < 0x20_0000_0000_0000,
        -1074 <= e <= 971,
    ensures
        r == magnitude_order(u as int, m as int, e as int),
{
    if e >= 0 {
        compare_scaled_up(u, m, e)
    } else {
        compare_scaled_down(u, m, e)
    }
}

/// `int_double_order`, computed.
pub fn compare_int_double(x: i64, bits: u64) -> (r: Order)
    ensures
        r == int_double_order(x as int, bits),
{
    let e = (bits / 0x10_0000_0000_0000) % 2048;
    let f = bits % 0x10_0000_0000_0000;
    let neg = bits >= 0x8000_0000_0000_0000;
    if e == 2047 {
        if f != 0 {
            return Order::Equal;
        }
        return if neg {
            Order::Greater
        } else {
            Order::Less
        };
    }
    let m: u64 = if e == 0 {
        f
    } else {
        f + 0x10_0000_0000_0000
    };
    let ex: i32 = if e == 0 {
        -1074
    } else {
        e as i32 - 1075
    };
    if m == 0 {
        return if x < 0 {
            Order::Less
        } else if x == 0 {
            Order::Equal
        } else {
            Order::Greater
        };
    }
    if !neg {
        if x <= 0 {
            Order::Less
        } else {
            compare_magnitude(x as u128, m as u128, ex)
        }
    } else {
        if x >= 0 {
            Order::Greater
        } else {
            let u: u128 = if x == i64::MIN {
                0x8000_0000_0000_0000
            } else {
                (-x) as u128
            };
            compare_magnitude(u, m as u128, ex).reverse()
        }
    }
}

/// The position of a double on the number line, for doubles that are
/// not NaN: the magnitude bits, negated when the sign bit is set (both
/// zeros sit at 0).
pub open spec fn float_key(bits: u64) -> int {
    if sign_set(bits) {
        -(bits as int % 0x8000_0000_0000_0000)
    } else {
        bits as int
    }
}

/// The order of two doubles; a NaN is equal to everything.
pub open spec fn double_order(a: u64, b: u64) -> Order {
    if is_nan(a) || is_nan(b) {
        Order::Equal
    } else {
        int_order(float_key(a), float_key(b))
    }
}

/// `double_order`, computed.
pub fn compare_doubles(a: u64, b: u64) -> (r: Order)
    ensures
        r == double_order(a, b),
{
    if crate::tds::float_is_nan(a) || crate::tds::float_is_nan(b) {
        return Order::Equal;
    }
    let ka: i128 = if a >= 0x8000_0000_0000_0000 {
        -((a % 0x8000_0000_0000_0000) as i128)
    } else {
        a as i128
    };
    let kb: i128 = if b >= 0x8000_0000_0000_0000 {
        -((b % 0x8000_0000_0000_0000) as i128)
    } else {
        b as i128
    };
    if ka < kb {
        Order::Less
    } else if ka == kb {
        Order::Equal
    } else {
        Order::Greater
    }
}


/// The order of two texts, by code point.
pub open spec fn text_order(a: Seq<char>, b: Seq<char>) -> Order {
    if seq_lt(a, b) {
        Order::Less
    } else if a == b {
        Order::Equal
    } else {
        Order::Greater
    }
}

/// The order of two booleans (`false` first).
pub open spec fn bool_order(a: bool, b: bool) -> Order {
    int_order(if a { 1 } else { 0 }, if b { 1 } else { 0 })
}

/// The order of two cells: numbers by value, booleans and texts as
/// such, cells of unrelated kinds by kind.
pub open spec fn cell_order(a: Cell, b: Cell) -> Order {
    match (a, b) {
        (Cell::Integer(x), Cell::Integer(y)) => int_order(x as int, y as int),
        (Cell::Float(x), Cell::Float(y)) => double_order(x.bits, y.bits),
        (Cell::Integer(x), Cell::Float(y)) => int_double_order(x as int, y.bits),
        (Cell::Float(x), Cell::Integer(y)) => int_double_order(y as int, x.bits).flip(),
        (Cell::Boolean(x), Cell::Boolean(y)) => bool_order(x, y),
        (Cell::Decimal(x), Cell::Decimal(y)) => text_order(x@, y@),
        (Cell::String(x), Cell::String(y)) => text_order(x@, y@),
        (Cell::StrictDate(x), Cell::StrictDate(y)) => text_order(x@, y@),
        (Cell::DateTime(x), Cell::DateTime(y)) => text_order(x@, y@),
        _ => int_order(crate::tds::type_code(a), crate::tds::type_code(b)),
    }
}

/// The order of two optional cells: empty cells sort last.
pub open spec fn opt_cell_order(a: Option<Cell>, b: Option<Cell>) -> Order {
    match (a, b) {
        (None, None) => Order::Equal,
        (None, Some(_)) => Order::Greater,
        (Some(_), None) => Order::Less,
        (Some(x), Some(y)) => cell_order(x, y),
    }
}

/// `text_order`, computed.
fn compare_text(a: &String, b: &String) -> (r: Order)
    ensures
        r == text_order(a@, b@),
{
    if str_lt(a.as_str(), b.as_str()) {
        Order::Less
    } else if a.eq(b) {
        Order::Equal
    } else {
        Order::Greater
    }
}

/// `opt_cell_order`, computed.
pub fn compare_cells(a: &Option<Cell>, b: &Option<Cell>) -> (r: Order)
    ensures
        r == opt_cell_order(*a, *b),
{
    match (a, b) {
        (None, None) => Order::Equal,
        (None, Some(_)) => Order::Greater,
        (Some(_), None) => Order::Less,
        (Some(x), Some(y)) => match (x, y) {
            (Cell::Integer(p), Cell::Integer(q)) => if *p < *q {
                Order::Less
            } else if *p == *q {
                Order::Equal
            } else {
                Order::Greater
            },
            (Cell::Float(p), Cell::Float(q)) => compare_doubles(p.bits, q.bits),
            (Cell::Integer(p), Cell::Float(q)) => compare_int_double(*p, q.bits),
            (Cell::Float(p), Cell::Integer(q)) => compare_int_double(*q, p.bits).reverse(),
            (Cell::Boolean(p), Cell::Boolean(q)) => if *p == *q {
                Order::Equal
            } else if !*p {
                Order::Less
            } else {
                Order::Greater
            },
            (Cell::Decimal(p), Cell::Decimal(q)) => compare_text(p, q),
            (Cell::String(p), Cell::String(q)) => compare_text(p, q),
            (Cell::StrictDate(p), Cell::StrictDate(q)) => compare_text(p, q),
            (Cell::DateTime(p), Cell::DateTime(q)) => compare_text(p, q),
            _ => {
                let cp = kind_rank(x);
                let cq = kind_rank(y);
                if cp < cq {
                    Order::Less
                } else if cp == cq {
                    Order::Equal
                } else {
                    Order::Greater
                }
            },
        },
    }
}

fn kind_rank(c: &Cell) -> (r: u8)
    ensures
        r == crate::tds::type_code(*c),
{
    match c {
        Cell::Integer(_) => 0,
        Cell::Float(_) => 1,
        Cell::Decimal(_) => 2,
        Cell::Boolean(_) => 3,
        Cell::String(_) => 4,
        Cell::StrictDate(_) => 5,
        Cell::DateTime(_) => 6,
    }
}

/// Swapping the operands flips the outcome.
pub proof fn lemma_cell_order_flip(a: Option<Cell>, b: Option<Cell>)
    ensures
        opt_cell_order(a, b) == opt_cell_order(b, a).flip(),
{
    lemma_seq_lt_facts();
    match (a, b) {
        (Some(x), Some(y)) => {
            match (x, y) {
                (Cell::Decimal(p), Cell::Decimal(q)) => {},
                (Cell::String(p), Cell::String(q)) => {},
                (Cell::StrictDate(p), Cell::StrictDate(q)) => {},
                (Cell::DateTime(p), Cell::DateTime(q)) => {},
                _ => {},
            }
        },
        _ => {},
    }
}

// ───────────────────────────── sort keys ─────────────────────────────

/// A sort direction.
#[derive(Debug, Clone, Copy, PartialEq, Eq, Structural)]
pub enum SortDir {
    Asc,
    Desc,
}

/// A sort key: a column name and a direction.
#[derive(Debug, Clone)]
pub struct SortKey {
    pub column: String,
    pub direction: SortDir,
}

/// `o` read in direction `d`.
pub open spec fn oriented(o: Order, d: SortDir) -> Order {
    match d {
        SortDir::Asc => o,
        SortDir::Desc => o.flip(),
    }
}

/// The order of two rows by the sort keys `(column index, direction)`:
/// the first key on which they differ decides.
pub open spec fn rows_order(l: Seq<Option<Cell>>, r: Seq<Option<Cell>>, keys: Seq<(usize, SortDir)>) -> Order
    decreases keys.len(),
{
    if keys.len() == 0 {
        Order::Equal
    } else {
        let o = oriented(opt_cell_order(l[keys[0].0 as int], r[keys[0].0 as int]), keys[0].1);
        if o != Order::Equal {
            o
        } else {
            rows_order(l, r, keys.drop_first())
        }
    }
}

/// Swapping the rows flips the outcome.
pub proof fn lemma_rows_order_flip(l: Seq<Option<Cell>>, r: Seq<Option<Cell>>, keys: Seq<(usize, SortDir)>)
    ensures
        rows_order(l, r, keys) == rows_order(r, l, keys).flip(),
    decreases keys.len(),
{
    if keys.len() > 0 {
        lemma_cell_order_flip(l[keys[0].0 as int], r[keys[0].0 as int]);
        lemma_rows_order_flip(l, r, keys.drop_first());
    }
}

/// Whether every key column exists in a row of `width` cells.
pub open spec fn keys_fit(keys: Seq<(usize, SortDir)>, width: int) -> bool {
    forall|k: int| 0 <= k < keys.len() ==> (#[trigger] keys[k]).0 < width
}

/// `rows_order`, computed.
pub fn compare_rows_by_keys(
    lhs: &Vec<Option<Cell>>,
    rhs: &Vec<Option<Cell>>,
    keys: &Vec<(usize, SortDir)>,
) -> (r: Order)
    requires
        keys_fit(keys@, lhs@.len() as int),
        keys_fit(keys@, rhs@.len() as int),
    ensures
        r == rows_order(lhs@, rhs@, keys@),
{
    let mut i: usize = 0;
    assert(keys@.skip(0) =~= keys@);
    while i < keys.len()
        invariant
            i <= keys@.len(),
            keys_fit(keys@, lhs@.len() as int),
            keys_fit(keys@, rhs@.len() as int),
            rows_order(lhs@, rhs@, keys@) == rows_order(lhs@, rhs@, keys@.skip(i as int)),
        decreases keys.len() - i,
    {
        let (idx, dir) = keys[i];
        assert(keys@[i as int].0 == idx);
        let raw = compare_cells(&lhs[idx], &rhs[idx]);
        let o = match dir {
            SortDir::Asc => raw,
            SortDir::Desc => raw.reverse(),
        };
        proof {
            assert(keys@.skip(i as int)[0] == keys@[i as int]);
            assert(keys@.skip(i as int).drop_first() =~= keys@.skip(i + 1));
        }
        if o != Order::Equal {
            return o;
        }
        i = i + 1;
    }
    Order::Equal
}

/// The code point of `c` with ASCII upper case mapped to lower case.
pub open spec fn ascii_lower(c: char) -> u32 {
    if 'A' <= c && c <= 'Z' {
        (c as u32 + 32) as u32
    } else {
        c as u32
    }
}

/// Whether `s` and `t` are equal ignoring ASCII case.
pub open spec fn same_ignoring_case(s: Seq<char>, t: Seq<char>) -> bool {
    s.len() == t.len() && forall|i: int| 0 <= i < s.len() ==> ascii_lower(#[trigger] s[i]) == ascii_lower(t[i])
}

fn lower_char(c: char) -> (r: u32)
    ensures
        r == ascii_lower(c),
{
    if 'A' <= c && c <= 'Z' {
        (c as u32) + 32
    } else {
        c as u32
    }
}

/// Whether a sort-direction name matches `target`, ignoring ASCII case.
pub fn matches_dir(s: &str, target: &str) -> (b: bool)
    ensures
        b == same_ignoring_case(s@, target@),
{
    let a = chars_of(s);
    let t = chars_of(target);
    if a.len() != t.len() {
        return false;
    }
    let mut i: usize = 0;
    while i < a.len()
        invariant
            a@ == s@,
            t@ == target@,
            a@.len() == t@.len(),
            i <= a@.len(),
            forall|j: int| 0 <= j < i ==> ascii_lower(#[trigger] a@[j]) == ascii_lower(t@[j]),
        decreases a.len() - i,
    {
        if lower_char(a[i]) != lower_char(t[i]) {
            return false;
        }
        i = i + 1;
    }
    true
}

/// The direction a `SortType` member name stands for: `DESC` or `ASC`,
/// in any case.
pub open spec fn dir_named(s: Seq<char>) -> Option<SortDir> {
    if same_ignoring_case(s, "DESC"@) {
        Some(SortDir::Desc)
    } else if same_ignoring_case(s, "ASC"@) {
        Some(SortDir::Asc)
    } else {
        None
    }
}

/// `dir_named`, computed.
pub fn sort_dir_of(s: &str) -> (r: Option<SortDir>)
    ensures
        r == dir_named(s@),
{
    if matches_dir(s, "DESC") {
        Some(SortDir::Desc)
    } else if matches_dir(s, "ASC") {
        Some(SortDir::Asc)
    } else {
        None
    }
}


// ───────────────────────────── columns by name ─────────────────────────────

/// Whether no column among the first `upto` is named `name`.
pub open spec fn unnamed_before(cols: Seq<crate::tds::TdsColumn>, name: Seq<char>, upto: int) -> bool {
    forall|j: int| 0 <= j < upto ==> (#[trigger] cols[j]).name@ != name
}

/// The index of the first column named `name`.
pub fn column_index(cols: &Vec<crate::tds::TdsColumn>, name: &str) -> (r: Option<usize>)
    ensures
        r is Some ==> r->0 < cols@.len() && cols@[r->0 as int].name@ == name@ && unnamed_before(
            cols@,
            name@,
            r->0 as int,
        ),
        r is None ==> unnamed_before(cols@, name@, cols@.len() as int),
{
    let mut i: usize = 0;
    while i < cols.len()
        invariant
            i <= cols@.len(),
            unnamed_before(cols@, name@, i as int),
        decreases cols.len() - i,
    {
        if crate::text::str_eq(cols[i].name.as_str(), name) {
            return Some(i);
        }
        i = i + 1;
    }
    None
}

/// Resolves each name to the index of the first column so named, or
/// reports the first name that no column has.
pub fn resolve_indices(names: &Vec<String>, cols: &Vec<crate::tds::TdsColumn>) -> (r: Result<Vec<usize>, String>)
    ensures
        r is Ok ==> r->Ok_0@.len() == names@.len() && forall|k: int|
            0 <= k < names@.len() ==> {
                let c = #[trigger] r->Ok_0@[k];
                &&& c < cols@.len()
                &&& cols@[c as int].name@ == names@[k]@
                &&& unnamed_before(cols@, names@[k]@, c as int)
            },
        r is Err ==> exists|k: int|
            0 <= k < names@.len() && r->Err_0@ == names@[k]@ && unnamed_before(
                cols@,
                names@[k]@,
                cols@.len() as int,
            ),
{
    let mut out: Vec<usize> = Vec::new();
    let mut k: usize = 0;
    while k < names.len()
        invariant
            k <= names@.len(),
            out@.len() == k,
            forall|q: int|
                0 <= q < k ==> {
                    let c = #[trigger] out@[q];
                    &&& c < cols@.len()
                    &&& cols@[c as int].name@ == names@[q]@
                    &&& unnamed_before(cols@, names@[q]@, c as int)
                },
        decreases names.len() - k,
    {
        match column_index(cols, names[k].as_str()) {
            Some(c) => {
                out.push(c);
            },
            None => {
                return Err(names[k].clone());
            },
        }
        k = k + 1;
    }
    Ok(out)
}

// ───────────────────────────── partitions ─────────────────────────────

/// The cells of `row` at the key columns `idx`.
pub open spec fn key_of(row: Seq<Option<Cell>>, idx: Seq<usize>) -> Seq<Option<Cell>> {
    Seq::new(idx.len(), |j: int| row[idx[j] as int])
}

/// Whether every key column exists in every row of `t`.
pub open spec fn indices_fit(t: Tds, idx: Seq<usize>) -> bool {
    forall|j: int| 0 <= j < idx.len() ==> (#[trigger] idx[j]) < t.columns@.len()
}

/// `key_of`, computed.
pub fn row_key(row: &Vec<Option<Cell>>, idx: &Vec<usize>) -> (r: Vec<Option<Cell>>)
    requires
        forall|j: int| 0 <= j < idx@.len() ==> (#[trigger] idx@[j]) < row@.len(),
    ensures
        r@ == key_of(row@, idx@),
{
    let mut out: Vec<Option<Cell>> = Vec::new();
    let mut j: usize = 0;
    while j < idx.len()
        invariant
            j <= idx@.len(),
            forall|q: int| 0 <= q < idx@.len() ==> (#[trigger] idx@[q]) < row@.len(),
            out@ =~= key_of(row@, idx@).take(j as int),
        decreases idx.len() - j,
    {
        let c = idx[j];
        out.push(copy_cell(&row[c]));
        j = j + 1;
    }
    assert(key_of(row@, idx@).take(idx@.len() as int) =~= key_of(row@, idx@));
    out
}

/// A group of rows sharing a key, with the key.
#[derive(Debug, Clone)]
pub struct Group {
    pub key: Vec<Option<Cell>>,
    pub rows: Vec<usize>,
}

/// Strictly increasing.
pub open spec fn increasing(s: Seq<usize>) -> bool {
    forall|a: int, b: int| 0 <= a < b < s.len() ==> s[a] < s[b]
}

/// The grouping of the rows of `t` by the key columns `idx`: each row
/// joins the first earlier group whose key equals its own, else opens a
/// new group, so groups come in order of first occurrence.
pub open spec fn is_grouping(t: Tds, idx: Seq<usize>, gs: Seq<Group>, n: int) -> bool {
    &&& forall|g: int| 0 <= g < gs.len() ==> (#[trigger] gs[g]).rows@.len() > 0
    &&& forall|g: int| 0 <= g < gs.len() ==> increasing((#[trigger] gs[g]).rows@)
    &&& forall|g: int, j: int|
        0 <= g < gs.len() && 0 <= j < gs[g].rows@.len() ==> (#[trigger] gs[g].rows@[j]) < n
    &&& forall|g: int|
        0 <= g < gs.len() ==> (#[trigger] gs[g]).key@ == key_of(t.rows@[gs[g].rows@[0] as int]@, idx)
    &&& forall|g: int, j: int|
        0 <= g < gs.len() && 1 <= j < gs[g].rows@.len() ==> key_eq(
            gs[g].key@,
            key_of(t.rows@[#[trigger] gs[g].rows@[j] as int]@, idx),
        )
    &&& forall|g: int, j: int, h: int|
        0 <= h < g < gs.len() && 0 <= j < gs[g].rows@.len() ==> !key_eq(
            #[trigger] gs[h].key@,
            key_of(t.rows@[#[trigger] gs[g].rows@[j] as int]@, idx),
        )
    &&& forall|g: int, h: int|
        0 <= g < h < gs.len() ==> (#[trigger] gs[g]).rows@[0] < (#[trigger] gs[h]).rows@[0]
    &&& forall|r: int| 0 <= r < n ==> #[trigger] covered(gs, r)
    &&& forall|g: int, h: int, j: int, k: int|
        0 <= g < h < gs.len() && 0 <= j < gs[g].rows@.len() && 0 <= k < gs[h].rows@.len() ==> #[trigger] gs[g].rows@[j]
            != #[trigger] gs[h].rows@[k]
}

/// Whether row `r` belongs to some group.
pub open spec fn covered(gs: Seq<Group>, r: int) -> bool {
    exists|g: int, j: int| 0 <= g < gs.len() && 0 <= j < gs[g].rows@.len() && #[trigger] gs[g].rows@[j] == r
}

/// Groups the rows of `t` by the cells at `idx`, in order of first
/// occurrence; rows keep their order inside a group.
pub fn partition_row_indices(t: &Tds, idx: &Vec<usize>) -> (r: Vec<Group>)
    requires
        t.wf(),
        indices_fit(*t, idx@),
    ensures
        is_grouping(*t, idx@, r@, t.rows@.len() as int),
{
    let mut out: Vec<Group> = Vec::new();
    let mut i: usize = 0;
    while i < t.rows.len()
        invariant
            t.wf(),
            indices_fit(*t, idx@),
            i <= t.rows@.len(),
            is_grouping(*t, idx@, out@, i as int),
        decreases t.rows.len() - i,
    {
        proof {
            assert(t.rows@[i as int]@.len() == t.columns@.len());
        }
        let key = row_key(&t.rows[i], idx);
        let mut k: usize = 0;
        let mut found = false;
        while k < out.len()
            invariant_except_break
                !found,
            invariant
                k <= out@.len(),
                forall|h: int| 0 <= h < k ==> !key_eq(#[trigger] out@[h].key@, key@),
            ensures
                found ==> k < out@.len() && key_eq(out@[k as int].key@, key@),
                !found ==> k == out@.len(),
            decreases out.len() - k,
        {
            if key_equal(&out[k].key, &key) {
                found = true;
                break;
            }
            k = k + 1;
        }
        let ghost before = out@;
        if found {
            let mut g = out.remove(k);
            g.rows.push(i);
            out.insert(k, g);
            proof {
                assert(out@ =~= before.update(k as int, out@[k as int]));
                assert(out@[k as int].rows@ =~= before[k as int].rows@.push(i));
                assert forall|g2: int, j: int|
                    0 <= g2 < out@.len() && 0 <= j < out@[g2].rows@.len() implies (#[trigger] out@[g2].rows@[j]) < i + 1 by {
                    if g2 != k {
                        assert(out@[g2] == before[g2]);
                    } else if j < before[k as int].rows@.len() {
                        assert(out@[g2].rows@[j] == before[k as int].rows@[j]);
                    }
                }
                assert forall|r: int| 0 <= r < i + 1 implies #[trigger] covered(out@, r) by {
                    if r == i {
                        assert(out@[k as int].rows@[before[k as int].rows@.len() as int] == r);
                    } else {
                        assert(covered(before, r));
                        let (g2, j) = choose|g2: int, j: int|
                            0 <= g2 < before.len() && 0 <= j < before[g2].rows@.len() && #[trigger] before[g2].rows@[j] == r;
                        if g2 == k {
                            assert(out@[k as int].rows@[j] == r);
                        } else {
                            assert(out@[g2].rows@[j] == r);
                        }
                    }
                }
                assert forall|g2: int| 0 <= g2 < out@.len() implies increasing((#[trigger] out@[g2]).rows@) by {
                    if g2 == k {
                        assert forall|a: int, b: int| 0 <= a < b < out@[g2].rows@.len() implies out@[g2].rows@[a] < out@[g2].rows@[b] by {
                            assert(before[k as int].rows@[a] < i);
                        }
                    } else {
                        assert(out@[g2] == before[g2]);
                    }
                }
                assert forall|g2: int, j: int|
                    0 <= g2 < out@.len() && 1 <= j < out@[g2].rows@.len() implies key_eq(
                    out@[g2].key@,
                    key_of(t.rows@[#[trigger] out@[g2].rows@[j] as int]@, idx@),
                ) by {
                    if g2 != k {
                        assert(out@[g2] == before[g2]);
                    } else if j < before[k as int].rows@.len() {
                        assert(out@[g2].rows@[j] == before[k as int].rows@[j]);
                    }
                }
                assert forall|g2: int, j: int, h: int|
                    0 <= h < g2 < out@.len() && 0 <= j < out@[g2].rows@.len() implies !key_eq(
                    #[trigger] out@[h].key@,
                    key_of(t.rows@[#[trigger] out@[g2].rows@[j] as int]@, idx@),
                ) by {
                    if g2 != k {
                        assert(out@[g2] == before[g2]);
                        assert(out@[h].key == before[h].key);
                    } else if j < before[k as int].rows@.len() {
                        assert(out@[g2].rows@[j] == before[k as int].rows@[j]);
                        assert(out@[h] == before[h]);
                    } else {
                        assert(out@[h] == before[h]);
                    }
                }
                assert forall|g2: int, h: int|
                    0 <= g2 < h < out@.len() implies (#[trigger] out@[g2]).rows@[0] < (#[trigger] out@[h]).rows@[0] by {
                    assert(out@[g2].rows@[0] == before[g2].rows@[0]);
                    assert(out@[h].rows@[0] == before[h].rows@[0]);
                }
                assert forall|g2: int| 0 <= g2 < out@.len() implies (#[trigger] out@[g2]).key@ == key_of(
                    t.rows@[out@[g2].rows@[0] as int]@,
                    idx@,
                ) by {
                    assert(out@[g2].rows@[0] == before[g2].rows@[0]);
                    assert(out@[g2].key == before[g2].key);
                }
                assert forall|g1: int, h: int, j: int, q: int|
                    0 <= g1 < h < out@.len() && 0 <= j < out@[g1].rows@.len() && 0 <= q < out@[h].rows@.len() implies #[trigger] out@[g1].rows@[j]
                        != #[trigger] out@[h].rows@[q] by {
                    if g1 == k && j == before[k as int].rows@.len() {
                        assert(out@[h] == before[h]);
                        assert(before[h].rows@[q] < i);
                    } else if h == k && q == before[k as int].rows@.len() {
                        assert(out@[g1] == before[g1]);
                        assert(before[g1].rows@[j] < i);
                    } else {
                        if g1 == k {
                            assert(out@[g1].rows@[j] == before[g1].rows@[j]);
                        } else {
                            assert(out@[g1] == before[g1]);
                        }
                        if h == k {
                            assert(out@[h].rows@[q] == before[h].rows@[q]);
                        } else {
                            assert(out@[h] == before[h]);
                        }
                    }
                }
            }
        } else {
            let mut rows: Vec<usize> = Vec::new();
            rows.push(i);
            out.push(Group { key, rows });
            proof {
                let n = before.len() as int;
                assert forall|g2: int, j: int|
                    0 <= g2 < out@.len() && 0 <= j < out@[g2].rows@.len() implies (#[trigger] out@[g2].rows@[j]) < i + 1 by {
                    if g2 < n {
                        assert(out@[g2] == before[g2]);
                    }
                }
                assert forall|r: int| 0 <= r < i + 1 implies #[trigger] covered(out@, r) by {
                    if r == i {
                        assert(out@[n].rows@[0] == r);
                    } else {
                        assert(covered(before, r));
                        let (g2, j) = choose|g2: int, j: int|
                            0 <= g2 < before.len() && 0 <= j < before[g2].rows@.len() && #[trigger] before[g2].rows@[j] == r;
                        assert(out@[g2] == before[g2]);
                        assert(out@[g2].rows@[j] == r);
                    }
                }
                assert forall|g2: int| 0 <= g2 < out@.len() implies increasing((#[trigger] out@[g2]).rows@) by {
                    if g2 < n {
                        assert(out@[g2] == before[g2]);
                    }
                }
                assert forall|g2: int, j: int|
                    0 <= g2 < out@.len() && 1 <= j < out@[g2].rows@.len() implies key_eq(
                    out@[g2].key@,
                    key_of(t.rows@[#[trigger] out@[g2].rows@[j] as int]@, idx@),
                ) by {
                    assert(out@[g2] == before[g2]);
                }
                assert forall|g2: int, j: int, h: int|
                    0 <= h < g2 < out@.len() && 0 <= j < out@[g2].rows@.len() implies !key_eq(
                    #[trigger] out@[h].key@,
                    key_of(t.rows@[#[trigger] out@[g2].rows@[j] as int]@, idx@),
                ) by {
                    assert(out@[h] == before[h]);
                    if g2 < n {
                        assert(out@[g2] == before[g2]);
                    } else {
                        assert(out@[g2].rows@[j] == i);
                    }
                }
                assert forall|g2: int, h: int|
                    0 <= g2 < h < out@.len() implies (#[trigger] out@[g2]).rows@[0] < (#[trigger] out@[h]).rows@[0] by {
                    assert(out@[g2] == before[g2]);
                    if h < n {
                        assert(out@[h] == before[h]);
                    }
                }
                assert forall|g2: int| 0 <= g2 < out@.len() implies (#[trigger] out@[g2]).key@ == key_of(
                    t.rows@[out@[g2].rows@[0] as int]@,
                    idx@,
                ) by {
                    if g2 < n {
                        assert(out@[g2] == before[g2]);
                    }
                }
                assert forall|g1: int, h: int, j: int, q: int|
                    0 <= g1 < h < out@.len() && 0 <= j < out@[g1].rows@.len() && 0 <= q < out@[h].rows@.len() implies #[trigger] out@[g1].rows@[j]
                        != #[trigger] out@[h].rows@[q] by {
                    assert(out@[g1] == before[g1]);
                    if h == n {
                        assert(out@[h].rows@[q] == i);
                        assert(before[g1].rows@[j] < i);
                    } else {
                        assert(out@[h] == before[h]);
                    }
                }
            }
        }
        i = i + 1;
    }
    out
}


// ───────────────────────────── stable sort ─────────────────────────────

/// The order of rows `a` and `b` of `t` by `keys`.
#[verifier::opaque]
pub open spec fn row_order(t: Tds, a: usize, b: usize, keys: Seq<(usize, SortDir)>) -> Order {
    rows_order(t.rows@[a as int]@, t.rows@[b as int]@, keys)
}

/// `s` is in key order, and rows that tie keep their relative order.
pub open spec fn sorted_stably(t: Tds, s: Seq<usize>, keys: Seq<(usize, SortDir)>) -> bool {
    &&& forall|j: int| 0 <= j < s.len() - 1 ==> #[trigger] row_order(t, s[j], s[j + 1], keys) != Order::Greater
    &&& forall|j: int|
        0 <= j < s.len() - 1 && #[trigger] row_order(t, s[j], s[j + 1], keys) == Order::Equal ==> s[j]
            < s[j + 1]
}

proof fn lemma_insert_sorted(t: Tds, before: Seq<usize>, p: int, x: usize, keys: Seq<(usize, SortDir)>)
    requires
        0 <= p <= before.len(),
        sorted_stably(t, before, keys),
        forall|j: int| 0 <= j < before.len() ==> (#[trigger] before[j]) < x,
        x < t.rows@.len(),
        forall|j: int| 0 <= j < before.len() ==> (#[trigger] before[j]) < t.rows@.len(),
        p > 0 ==> row_order(t, before[p - 1], x, keys) != Order::Greater,
        p < before.len() ==> row_order(t, before[p], x, keys) == Order::Greater,
    ensures
        sorted_stably(t, before.insert(p, x), keys),
        forall|j: int| 0 <= j < before.len() + 1 ==> (#[trigger] before.insert(p, x)[j]) < t.rows@.len(),
{
    let s = before.insert(p, x);
    if p < before.len() {
        assert(row_order(t, x, before[p], keys) == Order::Less) by {
            reveal(row_order);
            lemma_rows_order_flip(t.rows@[x as int]@, t.rows@[before[p] as int]@, keys);
        }
    }
    assert forall|j: int| 0 <= j < s.len() - 1 implies #[trigger] row_order(t, s[j], s[j + 1], keys)
        != Order::Greater && (row_order(t, s[j], s[j + 1], keys) == Order::Equal ==> s[j] < s[j + 1]) by {
        if j < p - 1 {
            assert(s[j] == before[j] && s[j + 1] == before[j + 1]);
            assert(row_order(t, before[j], before[j + 1], keys) != Order::Greater);
        } else if j == p - 1 {
            assert(s[j] == before[j] && s[j + 1] == x);
        } else if j == p {
            assert(s[j] == x && s[j + 1] == before[j]);
        } else {
            let k = j - 1;
            assert(s[j] == before[k] && s[j + 1] == before[k + 1]);
            assert(row_order(t, before[k], before[k + 1], keys) != Order::Greater);
        }
    }
    assert forall|j: int| 0 <= j < s.len() implies (#[trigger] s[j]) < t.rows@.len() by {
        if j < p {
            assert(s[j] == before[j]);
        } else if j > p {
            assert(s[j] == before[j - 1]);
        }
    }
}

/// Sorts row indices of `t` by `keys`, keeping the input order of rows
/// that tie (the input is in increasing order).
pub fn sort_row_indices(indices: Vec<usize>, t: &Tds, keys: &Vec<(usize, SortDir)>) -> (r: Vec<usize>)
    requires
        t.wf(),
        keys_fit(keys@, t.columns@.len() as int),
        increasing(indices@),
        forall|j: int| 0 <= j < indices@.len() ==> (#[trigger] indices@[j]) < t.rows@.len(),
    ensures
        r@.to_multiset() == indices@.to_multiset(),
        r@.len() == indices@.len(),
        forall|j: int| 0 <= j < r@.len() ==> (#[trigger] r@[j]) < t.rows@.len(),
        sorted_stably(*t, r@, keys@),
{
    broadcast use vstd::seq_lib::group_to_multiset_ensures;

    let mut out: Vec<usize> = Vec::new();
    let mut i: usize = 0;
    while i < indices.len()
        invariant
            t.wf(),
            keys_fit(keys@, t.columns@.len() as int),
            increasing(indices@),
            forall|j: int| 0 <= j < indices@.len() ==> (#[trigger] indices@[j]) < t.rows@.len(),
            i <= indices@.len(),
            out@.to_multiset() == indices@.take(i as int).to_multiset(),
            out@.len() == i,
            forall|j: int| 0 <= j < out@.len() ==> (#[trigger] out@[j]) < t.rows@.len(),
            i < indices@.len() ==> forall|j: int| 0 <= j < out@.len() ==> (#[trigger] out@[j]) < indices@[i as int],
            sorted_stably(*t, out@, keys@),
        decreases indices.len() - i,
    {
        let x = indices[i];
        proof {
            assert(t.rows@[x as int]@.len() == t.columns@.len());
        }
        let mut p = out.len();
        while p > 0
            invariant
                t.wf(),
                keys_fit(keys@, t.columns@.len() as int),
                x < t.rows@.len(),
                p <= out@.len(),
                forall|j: int| 0 <= j < out@.len() ==> (#[trigger] out@[j]) < t.rows@.len(),
                p < out@.len() ==> row_order(*t, out@[p as int], x, keys@) == Order::Greater,
            ensures
                p <= out@.len(),
                p < out@.len() ==> row_order(*t, out@[p as int], x, keys@) == Order::Greater,
                p > 0 ==> row_order(*t, out@[p - 1], x, keys@) != Order::Greater,
            decreases p,
        {
            let y = out[p - 1];
            proof {
                assert(t.rows@[y as int]@.len() == t.columns@.len());
            }
            let o = compare_rows_by_keys(&t.rows[y], &t.rows[x], keys);
            proof {
                reveal(row_order);
            }
            if o != Order::Greater {
                break;
            }
            p = p - 1;
        }
        let ghost before = out@;
        out.insert(p, x);
        proof {
            assert(indices@.take(i + 1) =~= indices@.take(i as int).push(x));
            vstd::seq_lib::to_multiset_insert(before, p as int, x);
            vstd::seq_lib::to_multiset_build(indices@.take(i as int), x);
            lemma_insert_sorted(*t, before, p as int, x, keys@);
            if i + 1 < indices@.len() {
                let s = out@;
                assert(x < indices@[i + 1]);
                assert forall|j: int| 0 <= j < s.len() implies (#[trigger] s[j]) < indices@[i + 1] by {
                    if j < p {
                        assert(s[j] == before[j]);
                    } else if j > p {
                        assert(s[j] == before[j - 1]);
                    }
                }
            }
        }
        i = i + 1;
    }
    assert(indices@.take(indices@.len() as int) =~= indices@);
    out
}

// ───────────────────────────── frames ─────────────────────────────

/// What a frame's offsets count.
#[derive(Debug, Clone, Copy, PartialEq, Eq, Structural)]
pub enum FrameKind {
    /// Physical row offsets from the current row.
    Rows,
    /// A range over the sort value.
    Range,
    /// A range with a duration unit.
    RangeInterval,
}

/// One end of a frame.
#[derive(Debug, Clone)]
pub enum FrameOffset {
    Unbounded,
    /// Rows before (negative), at (zero) or after (positive) the current row.
    Int(i64),
    /// A numeric distance over the sort value.
    Numeric(crate::tds::FloatCell),
}

/// A window frame.
#[derive(Debug, Clone)]
pub struct Frame {
    pub kind: FrameKind,
    pub from: FrameOffset,
    pub to: FrameOffset,
}

/// The running frame: from the partition's start to the current row.
pub open spec fn running_frame(f: Frame) -> bool {
    f.kind == FrameKind::Rows && f.from is Unbounded && f.to == FrameOffset::Int(0)
}

/// The frame a window uses: its own, or with a sort order and no frame
/// the running frame; with neither, the whole partition (`None`).
pub fn effective_frame(frame: Option<Frame>, has_sort: bool) -> (r: Option<Frame>)
    ensures
        frame is Some ==> r == frame,
        frame is None && has_sort ==> r is Some && running_frame(r->0),
        frame is None && !has_sort ==> r is None,
{
    match frame {
        Some(f) => Some(f),
        None => if has_sort {
            Some(Frame { kind: FrameKind::Rows, from: FrameOffset::Unbounded, to: FrameOffset::Int(0) })
        } else {
            None
        },
    }
}

/// The frame kind a frame's classifier path names.
pub open spec fn kind_named(classifier: Seq<char>) -> Option<FrameKind> {
    if classifier.len() >= 6 && classifier.subrange(classifier.len() - 6, classifier.len() as int) == "::Rows"@ {
        Some(FrameKind::Rows)
    } else if classifier.len() >= 8 && classifier.subrange(classifier.len() - 8, classifier.len() as int)
        == "::_Range"@ {
        Some(FrameKind::Range)
    } else if classifier.len() >= 16 && classifier.subrange(classifier.len() - 16, classifier.len() as int)
        == "::_RangeInterval"@ {
        Some(FrameKind::RangeInterval)
    } else {
        None
    }
}

/// `kind_named`, computed.
pub fn frame_kind_of(classifier: &str) -> (r: Option<FrameKind>)
    ensures
        r == kind_named(classifier@),
{
    proof {
        reveal_strlit("::Rows");
        reveal_strlit("::_Range");
        reveal_strlit("::_RangeInterval");
    }
    if crate::text::ends_with(classifier, "::Rows") {
        Some(FrameKind::Rows)
    } else if crate::text::ends_with(classifier, "::_Range") {
        Some(FrameKind::Range)
    } else if crate::text::ends_with(classifier, "::_RangeInterval") {
        Some(FrameKind::RangeInterval)
    } else {
        None
    }
}

/// Where one end of a frame falls in a partition of `n` rows for the row
/// at `position`: an index, or nowhere (the frame is empty).
pub open spec fn offset_at(o: FrameOffset, position: int, n: int, from_side: bool) -> Option<int> {
    match o {
        FrameOffset::Unbounded => if from_side {
            Some(0)
        } else {
            Some(if n > 0 { n - 1 } else { 0 })
        },
        FrameOffset::Int(d) => {
            let v = position + d;
            if v < 0 {
                if from_side {
                    Some(0)
                } else {
                    None
                }
            } else if v >= n {
                if from_side {
                    None
                } else {
                    Some(if n > 0 { n - 1 } else { 0 })
                }
            } else {
                Some(v)
            }
        },
        FrameOffset::Numeric(_) => Some(position),
    }
}

/// Whether `position + d` fits an `i64` for an integer offset.
pub open spec fn offset_fits(o: FrameOffset, position: int) -> bool {
    match o {
        FrameOffset::Int(d) => i64::MIN <= position + d <= i64::MAX,
        _ => true,
    }
}

/// `offset_at`, computed.
fn resolve_offset(o: &FrameOffset, position: usize, n: usize, from_side: bool) -> (r: Option<usize>)
    requires
        position <= i64::MAX,
        offset_fits(*o, position as int),
    ensures
        r == match offset_at(*o, position as int, n as int, from_side) {
            Some(v) => Some(v as usize),
            None => None::<usize>,
        },
        r is Some ==> r->0 == offset_at(*o, position as int, n as int, from_side)->0,
{
    let last = if n > 0 {
        n - 1
    } else {
        0
    };
    match o {
        FrameOffset::Unbounded => if from_side {
            Some(0)
        } else {
            Some(last)
        },
        FrameOffset::Int(d) => {
            let v: i64 = position as i64 + *d;
            if v < 0 {
                if from_side {
                    Some(0)
                } else {
                    None
                }
            } else if v as u64 >= n as u64 {
                if from_side {
                    None
                } else {
                    Some(last)
                }
            } else {
                Some(v as usize)
            }
        },
        FrameOffset::Numeric(_) => Some(position),
    }
}

/// The rows of a sorted partition inside the frame of the row at
/// `position`: the whole partition without a frame or for a frame that
/// is not of `Rows` kind, else the rows between the frame's two ends.
pub open spec fn frame_rows(part: Seq<usize>, position: int, frame: Option<Frame>) -> Seq<usize> {
    match frame {
        None => part,
        Some(f) => if f.kind != FrameKind::Rows {
            part
        } else {
            let n = part.len() as int;
            match (offset_at(f.from, position, n, true), offset_at(f.to, position, n, false)) {
                (Some(lo), Some(hi)) => if lo > hi {
                    Seq::empty()
                } else {
                    part.subrange(lo, hi + 1)
                },
                _ => Seq::empty(),
            }
        },
    }
}

/// Whether the frame's integer offsets, added to `position`, fit an `i64`.
pub open spec fn frame_fits(frame: Option<Frame>, position: int) -> bool {
    match frame {
        None => true,
        Some(f) => offset_fits(f.from, position) && offset_fits(f.to, position),
    }
}

/// `frame_rows`, computed.
pub fn frame_row_indices(part: &Vec<usize>, position: usize, frame: &Option<Frame>) -> (r: Vec<usize>)
    requires
        position < part@.len(),
        position <= i64::MAX,
        frame_fits(*frame, position as int),
    ensures
        r@ == frame_rows(part@, position as int, *frame),
{
    let n = part.len();
    match frame {
        None => copy_indices(part, 0, n),
        Some(f) => {
            if f.kind != FrameKind::Rows {
                return copy_indices(part, 0, n);
            }
            let lo = match resolve_offset(&f.from, position, n, true) {
                Some(p) => p,
                None => {
                    return Vec::new();
                },
            };
            let hi = match resolve_offset(&f.to, position, n, false) {
                Some(p) => p,
                None => {
                    return Vec::new();
                },
            };
            if lo > hi {
                return Vec::new();
            }
            copy_indices(part, lo, hi + 1)
        },
    }
}

/// The indices `v[a..b]`.
pub fn copy_indices(v: &Vec<usize>, a: usize, b: usize) -> (r: Vec<usize>)
    requires
        a <= b <= v@.len(),
    ensures
        r@ == v@.subrange(a as int, b as int),
{
    let mut out: Vec<usize> = Vec::new();
    let mut i = a;
    while i < b
        invariant
            a <= i <= b,
            b <= v@.len(),
            out@ == v@.subrange(a as int, i as int),
        decreases b - i,
    {
        out.push(v[i]);
        assert(v@.subrange(a as int, i + 1) =~= v@.subrange(a as int, i as int).push(v@[i as int]));
        i = i + 1;
    }
    out
}

/// The low end of the frame for the row at `position` (used by `first`
/// and `nth`): the partition's start without a frame or for an unbounded
/// start, `max(0, position + d)` for a row offset, the row itself for a
/// numeric offset.
pub open spec fn low_of(frame: Option<Frame>, position: int) -> int {
    match frame {
        None => 0,
        Some(f) => match f.from {
            FrameOffset::Unbounded => 0,
            FrameOffset::Int(d) => if position + d > 0 {
                position + d
            } else {
                0
            },
            FrameOffset::Numeric(_) => position,
        },
    }
}

/// The high end of the frame for the row at `position` in a partition
/// of `n` rows (used by `last` and `nth`): the last row without a frame
/// or for an unbounded end, `position + d` clamped to the partition for a
/// row offset, the row itself for a numeric offset.
pub open spec fn high_of(frame: Option<Frame>, position: int, n: int) -> int {
    let last = if n > 0 {
        n - 1
    } else {
        0
    };
    match frame {
        None => last,
        Some(f) => match f.to {
            FrameOffset::Unbounded => last,
            FrameOffset::Int(d) => {
                let v = position + d;
                if v < 0 {
                    0
                } else if v > last {
                    last
                } else {
                    v
                }
            },
            FrameOffset::Numeric(_) => position,
        },
    }
}

/// `low_of`, computed.
pub fn frame_low(frame: &Option<Frame>, position: usize) -> (r: usize)
    requires
        position <= i64::MAX,
        frame_fits(*frame, position as int),
        low_of(*frame, position as int) <= usize::MAX,
    ensures
        r == low_of(*frame, position as int),
{
    match frame {
        None => 0,
        Some(f) => match &f.from {
            FrameOffset::Unbounded => 0,
            FrameOffset::Int(d) => {
                let v: i64 = position as i64 + *d;
                if v > 0 {
                    v as usize
                } else {
                    0
                }
            },
            FrameOffset::Numeric(_) => position,
        },
    }
}

/// `high_of`, computed.
pub fn frame_high(frame: &Option<Frame>, position: usize, n: usize) -> (r: usize)
    requires
        position <= i64::MAX,
        n <= i64::MAX,
        frame_fits(*frame, position as int),
    ensures
        r == high_of(*frame, position as int, n as int),
{
    let last = if n > 0 {
        n - 1
    } else {
        0
    };
    match frame {
        None => last,
        Some(f) => match &f.to {
            FrameOffset::Unbounded => last,
            FrameOffset::Int(d) => {
                let v: i64 = position as i64 + *d;
                if v < 0 {
                    0
                } else if v > last as i64 {
                    last
                } else {
                    v as usize
                }
            },
            FrameOffset::Numeric(_) => position,
        },
    }
}


// ───────────────────────────── windows ─────────────────────────────

/// A window: partition columns, sort keys and an optional frame.
#[derive(Debug, Clone)]
pub struct Window {
    pub partition: Vec<String>,
    pub sort: Vec<SortKey>,
    pub frame: Option<Frame>,
}

/// The names of the sort columns of a window.
pub open spec fn sort_names(w: Window) -> Seq<Seq<char>> {
    Seq::new(w.sort@.len(), |k: int| w.sort@[k].column@)
}

/// The sort keys of `w` resolved against `cols`: each column index with
/// its direction, or the first sort column that `cols` lacks.
pub fn resolve_sort_indices(w: &Window, cols: &Vec<crate::tds::TdsColumn>) -> (r: Result<Vec<(usize, SortDir)>, String>)
    ensures
        r is Ok ==> r->Ok_0@.len() == w.sort@.len() && forall|k: int|
            0 <= k < w.sort@.len() ==> {
                let c = #[trigger] r->Ok_0@[k];
                &&& c.0 < cols@.len()
                &&& cols@[c.0 as int].name@ == w.sort@[k].column@
                &&& unnamed_before(cols@, w.sort@[k].column@, c.0 as int)
                &&& c.1 == w.sort@[k].direction
            },
        r is Err ==> exists|k: int|
            0 <= k < w.sort@.len() && r->Err_0@ == w.sort@[k].column@ && unnamed_before(
                cols@,
                w.sort@[k].column@,
                cols@.len() as int,
            ),
{
    let mut out: Vec<(usize, SortDir)> = Vec::new();
    let mut k: usize = 0;
    while k < w.sort.len()
        invariant
            k <= w.sort@.len(),
            out@.len() == k,
            forall|q: int|
                0 <= q < k ==> {
                    let c = #[trigger] out@[q];
                    &&& c.0 < cols@.len()
                    &&& cols@[c.0 as int].name@ == w.sort@[q].column@
                    &&& unnamed_before(cols@, w.sort@[q].column@, c.0 as int)
                    &&& c.1 == w.sort@[q].direction
                },
        decreases w.sort.len() - k,
    {
        match column_index(cols, w.sort[k].column.as_str()) {
            Some(c) => {
                out.push((c, w.sort[k].direction));
            },
            None => {
                return Err(w.sort[k].column.clone());
            },
        }
        k = k + 1;
    }
    Ok(out)
}

/// The column indices of resolved sort keys.
pub fn key_columns(keys: &Vec<(usize, SortDir)>) -> (r: Vec<usize>)
    ensures
        r@.len() == keys@.len(),
        forall|k: int| 0 <= k < keys@.len() ==> #[trigger] r@[k] == keys@[k].0,
{
    let mut out: Vec<usize> = Vec::new();
    let mut k: usize = 0;
    while k < keys.len()
        invariant
            k <= keys@.len(),
            out@.len() == k,
            forall|q: int| 0 <= q < k ==> #[trigger] out@[q] == keys@[q].0,
        decreases keys.len() - k,
    {
        out.push(keys[k].0);
        k = k + 1;
    }
    out
}

// ───────────────────────────── key runs ─────────────────────────────

/// The key of row `r` of `t` at the columns `cols`.
pub open spec fn key_at(t: Tds, cols: Seq<usize>, r: int) -> Seq<Option<Cell>> {
    key_of(t.rows@[r]@, cols)
}

/// Scanning back from row `m`, the first row of the run of rows whose
/// key equals that of row `row`.
pub open spec fn scan_back(t: Tds, cols: Seq<usize>, row: int, m: int) -> int
    decreases m + 1,
{
    if m < 0 {
        0
    } else if !key_eq(key_at(t, cols, m), key_at(t, cols, row)) {
        m + 1
    } else {
        scan_back(t, cols, row, m - 1)
    }
}

/// The index of the first row of the run of equal keys that ends at
/// `row`.
pub open spec fn run_start(t: Tds, cols: Seq<usize>, row: int) -> int {
    scan_back(t, cols, row, row - 1)
}

/// `run_start`, computed.
pub fn start_of_run(t: &Tds, cols: &Vec<usize>, row: usize) -> (r: usize)
    requires
        t.wf(),
        indices_fit(*t, cols@),
        row < t.rows@.len(),
    ensures
        r == run_start(*t, cols@, row as int),
        r <= row,
{
    proof {
        assert(t.rows@[row as int]@.len() == t.columns@.len());
    }
    let base = row_key(&t.rows[row], cols);
    let mut m = row;
    while m > 0
        invariant
            t.wf(),
            indices_fit(*t, cols@),
            row < t.rows@.len(),
            m <= row,
            base@ == key_at(*t, cols@, row as int),
            run_start(*t, cols@, row as int) == scan_back(*t, cols@, row as int, m - 1),
        decreases m,
    {
        proof {
            assert(t.rows@[m - 1]@.len() == t.columns@.len());
        }
        let k = row_key(&t.rows[m - 1], cols);
        if !key_equal(&k, &base) {
            return m;
        }
        m = m - 1;
    }
    0
}

/// The number of rows among `1..=upto` whose key differs from the
/// previous row's.
pub open spec fn key_changes(t: Tds, cols: Seq<usize>, upto: int) -> int
    decreases upto,
{
    if upto <= 0 {
        0
    } else {
        key_changes(t, cols, upto - 1) + if key_eq(key_at(t, cols, upto), key_at(t, cols, upto - 1)) {
            0int
        } else {
            1int
        }
    }
}

/// `1 + key_changes`: the dense rank of row `position`.
pub fn dense_rank_at(t: &Tds, cols: &Vec<usize>, position: usize) -> (r: i64)
    requires
        t.wf(),
        indices_fit(*t, cols@),
        position < t.rows@.len(),
        position < i64::MAX,
    ensures
        r == 1 + key_changes(*t, cols@, position as int),
{
    let mut rank: i64 = 1;
    let mut i: usize = 1;
    proof {
        assert(t.rows@[0]@.len() == t.columns@.len());
    }
    let mut prev = row_key(&t.rows[0], cols);
    let n = t.rows.len();
    while i <= position
        invariant
            n == t.rows@.len(),
            t.wf(),
            indices_fit(*t, cols@),
            position < t.rows@.len(),
            position < i64::MAX,
            1 <= i <= position + 1,
            prev@ == key_at(*t, cols@, i - 1),
            rank == 1 + key_changes(*t, cols@, i - 1),
            1 + key_changes(*t, cols@, i - 1) <= i,
        decreases position + 1 - i,
    {
        proof {
            assert(t.rows@[i as int]@.len() == t.columns@.len());
        }
        let cur = row_key(&t.rows[i], cols);
        if !key_equal(&cur, &prev) {
            rank = rank + 1;
        }
        prev = cur;
        i = i + 1;
    }
    rank
}

/// A ratio of two counts, for the natives whose result is a float.
#[derive(Debug, Clone, Copy, PartialEq, Eq, Structural)]
pub struct Ratio {
    pub numerator: u64,
    pub denominator: u64,
}

/// Division truncating toward zero, as `i64` division does.
pub open spec fn trunc_div(a: int, b: int) -> int {
    if a >= 0 {
        a / b
    } else {
        -((-a) / b)
    }
}


// ───────────────────────────── window plans ─────────────────────────────

/// The rows of a relation split by a window: the groups of its partition
/// columns, each group's rows in sort order, and for every row the group
/// it is in and its position there.
#[derive(Debug)]
pub struct WindowPlan {
    pub groups: Vec<Group>,
    pub sorted: Vec<Vec<usize>>,
    pub place: Vec<(usize, usize)>,
}

/// The groups of `part` in `t`, each sorted stably by `keys`.
pub open spec fn sorted_groups(
    t: Tds,
    part: Seq<usize>,
    keys: Seq<(usize, SortDir)>,
    groups: Seq<Group>,
    sorted: Seq<Vec<usize>>,
) -> bool {
    &&& is_grouping(t, part, groups, t.rows@.len() as int)
    &&& sorted.len() == groups.len()
    &&& forall|g: int|
        0 <= g < sorted.len() ==> (#[trigger] sorted[g])@.to_multiset() == groups[g].rows@.to_multiset()
    &&& forall|g: int| 0 <= g < sorted.len() ==> sorted_stably(t, (#[trigger] sorted[g])@, keys)
    &&& forall|g: int, j: int|
        0 <= g < sorted.len() && 0 <= j < sorted[g]@.len() ==> (#[trigger] sorted[g]@[j]) < t.rows@.len()
}

/// What `plan_window` promises of a plan for `t`.
pub open spec fn plan_of(t: Tds, part: Seq<usize>, keys: Seq<(usize, SortDir)>, p: WindowPlan) -> bool {
    &&& sorted_groups(t, part, keys, p.groups@, p.sorted@)
    &&& p.place@.len() == t.rows@.len()
    &&& forall|r: int|
        0 <= r < t.rows@.len() ==> {
            let pl = #[trigger] p.place@[r];
            &&& pl.0 < p.sorted@.len()
            &&& pl.1 < p.sorted@[pl.0 as int]@.len()
            &&& p.sorted@[pl.0 as int]@[pl.1 as int] == r
        }
}

/// Splits the rows of `t` by the partition columns `part`, sorts each
/// part stably by `keys`, and places every row.
pub fn plan_window(t: &Tds, part: &Vec<usize>, keys: &Vec<(usize, SortDir)>) -> (r: WindowPlan)
    requires
        t.wf(),
        indices_fit(*t, part@),
        keys_fit(keys@, t.columns@.len() as int),
    ensures
        plan_of(*t, part@, keys@, r),
{
    broadcast use vstd::seq_lib::group_to_multiset_ensures;

    let groups = partition_row_indices(t, part);
    let mut sorted: Vec<Vec<usize>> = Vec::new();
    let mut g: usize = 0;
    while g < groups.len()
        invariant
            t.wf(),
            keys_fit(keys@, t.columns@.len() as int),
            is_grouping(*t, part@, groups@, t.rows@.len() as int),
            g <= groups@.len(),
            sorted@.len() == g,
            forall|h: int| 0 <= h < g ==> (#[trigger] sorted@[h])@.to_multiset() == groups@[h].rows@.to_multiset(),
            forall|h: int| 0 <= h < g ==> sorted_stably(*t, (#[trigger] sorted@[h])@, keys@),
            forall|h: int, j: int|
                0 <= h < g && 0 <= j < sorted@[h]@.len() ==> (#[trigger] sorted@[h]@[j]) < t.rows@.len(),
        decreases groups.len() - g,
    {
        let rows = crate::window::copy_indices(&groups[g].rows, 0, groups[g].rows.len());
        proof {
            assert(groups[g as int].rows@.subrange(0, groups[g as int].rows@.len() as int) =~= groups[g as int].rows@);
            assert(increasing(groups@[g as int].rows@));
        }
        let s = sort_row_indices(rows, t, keys);
        sorted.push(s);
        g = g + 1;
    }
    assert(sorted_groups(*t, part@, keys@, groups@, sorted@));
    let n = t.rows.len();
    let mut place: Vec<(usize, usize)> = Vec::new();
    let mut k: usize = 0;
    while k < n
        invariant
            sorted_groups(*t, part@, keys@, groups@, sorted@),
            k <= n,
            place@.len() == k,
        decreases n - k,
    {
        place.push((0, 0));
        k = k + 1;
    }
    let mut g: usize = 0;
    while g < sorted.len()
        invariant
            sorted_groups(*t, part@, keys@, groups@, sorted@),
            n == t.rows@.len(),
            place@.len() == n,
            g <= sorted@.len(),
            forall|h: int, j: int|
                0 <= h < sorted@.len() && 0 <= j < sorted@[h]@.len() ==> (#[trigger] sorted@[h]@[j]) < n,
            forall|r: int|
                0 <= r < n && #[trigger] placed(place@, sorted@, r) ==> {
                    let pl = place@[r];
                    &&& pl.0 < sorted@.len()
                    &&& pl.1 < sorted@[pl.0 as int]@.len()
                    &&& sorted@[pl.0 as int]@[pl.1 as int] == r
                },
            forall|h: int, j: int|
                0 <= h < g && 0 <= j < sorted@[h]@.len() ==> #[trigger] placed(place@, sorted@, sorted@[h]@[j] as int),
        decreases sorted.len() - g,
    {
        let mut j: usize = 0;
        while j < sorted[g].len()
            invariant
                sorted_groups(*t, part@, keys@, groups@, sorted@),
                n == t.rows@.len(),
                place@.len() == n,
                g < sorted@.len(),
                j <= sorted@[g as int]@.len(),
                forall|h: int, q: int|
                    0 <= h < sorted@.len() && 0 <= q < sorted@[h]@.len() ==> (#[trigger] sorted@[h]@[q]) < n,
                forall|r: int|
                    0 <= r < n && #[trigger] placed(place@, sorted@, r) ==> {
                        let pl = place@[r];
                        &&& pl.0 < sorted@.len()
                        &&& pl.1 < sorted@[pl.0 as int]@.len()
                        &&& sorted@[pl.0 as int]@[pl.1 as int] == r
                    },
                forall|h: int, q: int|
                    (0 <= h < g && 0 <= q < sorted@[h]@.len()) || (h == g && 0 <= q < j) ==> #[trigger] placed(
                        place@,
                        sorted@,
                        sorted@[h]@[q] as int,
                    ),
            decreases sorted[g as int]@.len() - j,
        {
            let r = sorted[g][j];
            assert(r < n);
            let ghost before = place@;
            place.set(r, (g, j));
            proof {
                assert forall|x: int| 0 <= x < n && placed(before, sorted@, x) implies #[trigger] placed(place@, sorted@, x) by {
                    if x != r {
                        assert(place@[x] == before[x]);
                    }
                }
                assert(placed(place@, sorted@, r as int));
            }
            j = j + 1;
        }
        g = g + 1;
    }
    proof {
        assert forall|r: int| 0 <= r < n implies #[trigger] placed(place@, sorted@, r) by {
            assert(covered(groups@, r));
            let (h, q) = choose|h: int, q: int|
                0 <= h < groups@.len() && 0 <= q < groups@[h].rows@.len() && #[trigger] groups@[h].rows@[q] == r;
            assert(groups@[h].rows@.contains(r as usize));
            assert(sorted@[h]@.to_multiset().count(r as usize) > 0);
            assert(sorted@[h]@.contains(r as usize));
            let q2 = choose|q2: int| 0 <= q2 < sorted@[h]@.len() && sorted@[h]@[q2] == r as usize;
            assert(placed(place@, sorted@, sorted@[h]@[q2] as int));
        }
        assert forall|r: int| 0 <= r < n implies {
            let pl = #[trigger] place@[r];
            &&& pl.0 < sorted@.len()
            &&& pl.1 < sorted@[pl.0 as int]@.len()
            &&& sorted@[pl.0 as int]@[pl.1 as int] == r
        } by {
            assert(placed(place@, sorted@, r));
        }
    }
    WindowPlan { groups, sorted, place }
}

/// Whether row `r` has been given a valid place.
pub open spec fn placed(place: Seq<(usize, usize)>, sorted: Seq<Vec<usize>>, r: int) -> bool {
    let pl = place[r];
    pl.0 < sorted.len() && pl.1 < sorted[pl.0 as int]@.len() && sorted[pl.0 as int]@[pl.1 as int] == r
}


// ───────────────────────────── resolved names ─────────────────────────────

/// The index of the first column named `name`, if any.
pub open spec fn column_of(cols: Seq<crate::tds::TdsColumn>, name: Seq<char>) -> Option<int> {
    if exists|i: int| 0 <= i < cols.len() && #[trigger] cols[i].name@ == name {
        Some(choose|i: int| 0 <= i < cols.len() && #[trigger] cols[i].name@ == name && unnamed_before(cols, name, i))
    } else {
        None
    }
}

/// Every name is the name of a column.
pub open spec fn all_named(cols: Seq<crate::tds::TdsColumn>, names: Seq<Seq<char>>) -> bool {
    forall|k: int| 0 <= k < names.len() ==> #[trigger] column_of(cols, names[k]) is Some
}

/// The indices of the first columns with the given names.
pub open spec fn columns_of(cols: Seq<crate::tds::TdsColumn>, names: Seq<Seq<char>>) -> Seq<usize> {
    Seq::new(names.len(), |k: int| column_of(cols, names[k])->0 as usize)
}

/// Whether `missing` is one of `names` that no column has.
pub open spec fn is_missing(cols: Seq<crate::tds::TdsColumn>, names: Seq<Seq<char>>, missing: Seq<char>) -> bool {
    exists|k: int| 0 <= k < names.len() && names[k] == missing && #[trigger] column_of(cols, names[k]) is None
}

/// The first column with a name is the one `column_index` finds.
pub proof fn lemma_column_of(cols: Seq<crate::tds::TdsColumn>, name: Seq<char>, i: int)
    requires
        0 <= i < cols.len(),
        cols[i].name@ == name,
        unnamed_before(cols, name, i),
    ensures
        column_of(cols, name) == Some(i),
{
    assert(exists|i: int| 0 <= i < cols.len() && #[trigger] cols[i].name@ == name);
    let j = choose|j: int| 0 <= j < cols.len() && #[trigger] cols[j].name@ == name && unnamed_before(cols, name, j);
    if j < i {
        assert(cols[j].name@ != name);
    }
    if j > i {
        assert(cols[i].name@ != name);
    }
}

proof fn lemma_first_named_exists(cols: Seq<crate::tds::TdsColumn>, name: Seq<char>, i: int)
    requires
        0 <= i < cols.len(),
        cols[i].name@ == name,
    ensures
        exists|j: int| 0 <= j < cols.len() && #[trigger] cols[j].name@ == name && unnamed_before(cols, name, j),
    decreases i,
{
    if !unnamed_before(cols, name, i) {
        let j = choose|j: int| 0 <= j < i && (#[trigger] cols[j]).name@ == name;
        lemma_first_named_exists(cols, name, j);
    } else {
        assert(cols[i].name@ == name && unnamed_before(cols, name, i));
    }
}

/// A resolved name is the name of a column, and of no column before it.
pub proof fn lemma_column_of_valid(cols: Seq<crate::tds::TdsColumn>, name: Seq<char>)
    requires
        column_of(cols, name) is Some,
    ensures
        0 <= column_of(cols, name)->0 < cols.len(),
        cols[column_of(cols, name)->0].name@ == name,
        unnamed_before(cols, name, column_of(cols, name)->0),
{
    let i = choose|i: int| 0 <= i < cols.len() && #[trigger] cols[i].name@ == name;
    lemma_first_named_exists(cols, name, i);
}

/// A name no column has resolves to nothing.
pub proof fn lemma_column_of_none(cols: Seq<crate::tds::TdsColumn>, name: Seq<char>)
    requires
        unnamed_before(cols, name, cols.len() as int),
    ensures
        column_of(cols, name) is None,
{
}

/// The names of a list of strings.
pub open spec fn names_of(v: Seq<String>) -> Seq<Seq<char>> {
    Seq::new(v.len(), |k: int| v[k]@)
}

/// Resolves names to column indices, or reports a name no column has.
pub fn resolve_names(names: &Vec<String>, cols: &Vec<crate::tds::TdsColumn>) -> (r: Result<Vec<usize>, String>)
    ensures
        r is Ok <==> all_named(cols@, names_of(names@)),
        r is Ok ==> r->Ok_0@ == columns_of(cols@, names_of(names@)),
        r is Err ==> is_missing(cols@, names_of(names@), r->Err_0@),
{
    let r = resolve_indices(names, cols);
    proof {
        let ns = names_of(names@);
        let gr = r;
        match gr {
            Ok(v) => {
                assert forall|k: int| 0 <= k < ns.len() implies #[trigger] column_of(cols@, ns[k]) is Some && column_of(cols@, ns[k])->0 == v@[k] by {
                    lemma_column_of(cols@, ns[k], v@[k] as int);
                }
                assert(v@ =~= columns_of(cols@, ns));
            },
            Err(n) => {
                let k = choose|k: int|
                    0 <= k < names@.len() && n@ == names@[k]@ && unnamed_before(cols@, names@[k]@, cols@.len() as int);
                lemma_column_of_none(cols@, ns[k]);
                assert(ns[k] == n@);
                if all_named(cols@, ns) {
                    assert(column_of(cols@, ns[k]) is Some);
                }
            },
        }
    }
    r
}

/// The resolved sort keys of a window: sort column indices with their
/// directions.
pub open spec fn sort_keys_of(cols: Seq<crate::tds::TdsColumn>, w: Window) -> Seq<(usize, SortDir)> {
    Seq::new(w.sort@.len(), |k: int| (columns_of(cols, sort_names(w))[k], w.sort@[k].direction))
}

/// `resolve_sort_indices`, stated by name resolution.
pub fn resolve_window_sort(w: &Window, cols: &Vec<crate::tds::TdsColumn>) -> (r: Result<Vec<(usize, SortDir)>, String>)
    ensures
        r is Ok <==> all_named(cols@, sort_names(*w)),
        r is Ok ==> r->Ok_0@ == sort_keys_of(cols@, *w),
        r is Err ==> is_missing(cols@, sort_names(*w), r->Err_0@),
{
    let r = resolve_sort_indices(w, cols);
    proof {
        let ns = sort_names(*w);
        let gr = r;
        match gr {
            Ok(v) => {
                assert forall|k: int| 0 <= k < ns.len() implies #[trigger] column_of(cols@, ns[k]) is Some && column_of(cols@, ns[k])->0 == v@[k].0 by {
                    lemma_column_of(cols@, ns[k], v@[k].0 as int);
                }
                assert(v@ =~= sort_keys_of(cols@, *w));
            },
            Err(n) => {
                let k = choose|k: int|
                    0 <= k < w.sort@.len() && n@ == w.sort@[k].column@ && unnamed_before(cols@, w.sort@[k].column@, cols@.len() as int);
                lemma_column_of_none(cols@, ns[k]);
                if all_named(cols@, ns) {
                    assert(column_of(cols@, ns[k]) is Some);
                }
            },
        }
    }
    r
}

/// The window position a row tuple carries: the first of its values
/// that is a non-negative integer.
pub open spec fn first_position(values: Seq<Option<i64>>) -> Option<int>
    decreases values.len(),
{
    if values.len() == 0 {
        None
    } else if values[0] is Some && values[0]->0 >= 0 {
        Some(values[0]->0 as int)
    } else {
        first_position(values.drop_first())
    }
}

/// Reads a row's window position from its position slot's values (each
/// an integer or not).
pub fn read_row_index(values: &Vec<Option<i64>>) -> (r: Option<usize>)
    ensures
        match first_position(values@) {
            Some(p) => r == Some(p as usize),
            None => r is None,
        },
{
    let mut i: usize = 0;
    assert(values@.skip(0) =~= values@);
    while i < values.len()
        invariant
            i <= values@.len(),
            first_position(values@) == first_position(values@.skip(i as int)),
        decreases values.len() - i,
    {
        assert(values@.skip(i as int).drop_first() =~= values@.skip(i + 1));
        assert(values@.skip(i as int)[0] == values@[i as int]);
        match values[i] {
            Some(v) => {
                if v >= 0 {
                    return Some(v as usize);
                }
            },
            None => {},
        }
        i = i + 1;
    }
    None
}


// ───────────────────────────── row tuples ─────────────────────────────

/// Whether a row tuple's slot value equals a cell: numbers and booleans
/// by value, texts (strings, decimals, dates) as strings.
pub open spec fn slot_matches(cell: Cell, slot: Cell) -> bool {
    match cell {
        Cell::Integer(x) => slot matches Cell::Integer(y) && x == y,
        Cell::Float(x) => slot matches Cell::Float(y) && crate::tds::float_eq(x.bits, y.bits),
        Cell::Boolean(x) => slot matches Cell::Boolean(y) && x == y,
        Cell::String(x) => slot matches Cell::String(y) && x@ == y@,
        Cell::Decimal(x) => slot matches Cell::String(y) && x@ == y@,
        Cell::StrictDate(x) => slot matches Cell::String(y) && x@ == y@,
        Cell::DateTime(x) => slot matches Cell::String(y) && x@ == y@,
    }
}

/// Whether a row tuple's slots (one per column, empty where the tuple
/// has no value) match a row, cell by cell.
pub open spec fn row_matches(row: Seq<Option<Cell>>, slots: Seq<Option<Cell>>) -> bool {
    forall|i: int|
        0 <= i < row.len() && i < slots.len() ==> match (#[trigger] row[i], slots[i]) {
            (None, None) => true,
            (Some(c), Some(v)) => slot_matches(c, v),
            _ => false,
        }
}

fn slot_match(cell: &Option<Cell>, slot: &Option<Cell>) -> (b: bool)
    ensures
        b == match (*cell, *slot) {
            (None, None) => true,
            (Some(c), Some(v)) => slot_matches(c, v),
            _ => false,
        },
{
    match (cell, slot) {
        (None, None) => true,
        (Some(c), Some(v)) => match (c, v) {
            (Cell::Integer(x), Cell::Integer(y)) => *x == *y,
            (Cell::Float(x), Cell::Float(y)) => crate::tds::float_equal(x.bits, y.bits),
            (Cell::Boolean(x), Cell::Boolean(y)) => *x == *y,
            (Cell::String(x), Cell::String(y)) => x.eq(y),
            (Cell::Decimal(x), Cell::String(y)) => x.eq(y),
            (Cell::StrictDate(x), Cell::String(y)) => x.eq(y),
            (Cell::DateTime(x), Cell::String(y)) => x.eq(y),
            _ => false,
        },
        _ => false,
    }
}

/// The index of the first row of `rows` that the slots match.
pub open spec fn first_match(rows: Seq<Seq<Option<Cell>>>, slots: Seq<Option<Cell>>, from: int) -> Option<int>
    decreases rows.len() - from,
{
    if from < 0 || from >= rows.len() {
        None
    } else if row_matches(rows[from], slots) {
        Some(from)
    } else {
        first_match(rows, slots, from + 1)
    }
}

/// A match lies among the rows searched.
pub proof fn lemma_first_match_range(rows: Seq<Seq<Option<Cell>>>, slots: Seq<Option<Cell>>, from: int)
    requires
        from >= 0,
    ensures
        first_match(rows, slots, from) is Some ==> from <= first_match(rows, slots, from)->0 < rows.len(),
    decreases rows.len() - from,
{
    if from < rows.len() && !row_matches(rows[from], slots) {
        lemma_first_match_range(rows, slots, from + 1);
    }
}

/// `first_match` from the first row: the source row a row tuple stands
/// for.
pub fn row_tuple_to_source_index(t: &Tds, slots: &Vec<Option<Cell>>) -> (r: Option<usize>)
    ensures
        r is Some <==> first_match(t.body(), slots@, 0) is Some,
        r is Some ==> r->0 == first_match(t.body(), slots@, 0)->0,
{
    proof {
        lemma_first_match_range(t.body(), slots@, 0);
    }
    let mut i: usize = 0;
    while i < t.rows.len()
        invariant
            i <= t.rows@.len(),
            first_match(t.body(), slots@, 0) == first_match(t.body(), slots@, i as int),
        decreases t.rows.len() - i,
    {
        let row = &t.rows[i];
        let mut j: usize = 0;
        let mut ok = true;
        while j < row.len() && j < slots.len()
            invariant
                j <= row@.len(),
                j <= slots@.len(),
                ok == forall|q: int|
                    0 <= q < j ==> match (#[trigger] row@[q], slots@[q]) {
                        (None, None) => true,
                        (Some(c), Some(v)) => slot_matches(c, v),
                        _ => false,
                    },
            decreases row.len() - j,
        {
            if !slot_match(&row[j], &slots[j]) {
                ok = false;
            }
            j = j + 1;
        }
        proof {
            assert(t.body()[i as int] == row@);
            if ok {
                assert(row_matches(row@, slots@));
            } else {
                let q = choose|q: int|
                    0 <= q < j && !match (#[trigger] row@[q], slots@[q]) {
                        (None, None) => true,
                        (Some(c), Some(v)) => slot_matches(c, v),
                        _ => false,
                    };
                assert(!row_matches(row@, slots@));
            }
        }
        if ok {
            return Some(i);
        }
        i = i + 1;
    }
    None
}

} // verus!
