//! Tabular data sets (TDS): typed columns, rows of optional cells, and
//! the column-level rules the relation natives share.
//!
//! A float cell carries the IEEE-754 bit pattern of its value (what
//! comparisons and equality read) together with its rendered text (what
//! `toString` prints); the library never computes with floating point.
use vstd::prelude::*;

use crate::lexer::{chars_of, string_of};
use crate::text::{concat, i64_text, join, join_spec, signed_decimal_spec, u64_text, decimal_spec, views};

verus! {

/// The declared type of a column.
#[derive(Debug, Clone)]
pub enum ColumnType {
    Integer,
    Float,
    Decimal,
    Boolean,
    String,
    StrictDate,
    DateTime,
    /// Any other type, by optional package and name.
    Other { package: Option<String>, name: String },
}

/// The declared multiplicity of a column.
#[derive(Debug, Clone)]
pub enum ColumnMultiplicity {
    PureOne,
    ZeroOrOne,
    OneOrMany,
    ZeroOrMany,
    Range { lower: u64, upper: Option<u64> },
    Variable(String),
}

/// A column: its name, type and multiplicity.
#[derive(Debug, Clone)]
pub struct TdsColumn {
    pub name: String,
    pub type_tag: ColumnType,
    pub multiplicity: ColumnMultiplicity,
}

/// A float value: its IEEE-754 bits and its rendered text.
#[derive(Debug, Clone)]
pub struct FloatCell {
    pub bits: u64,
    pub text: String,
}

/// One non-empty cell.
#[derive(Debug, Clone)]
pub enum Cell {
    Integer(i64),
    Float(FloatCell),
    Decimal(String),
    Boolean(bool),
    String(String),
    StrictDate(String),
    DateTime(String),
}

/// A parsed TDS: columns and rows, one optional cell per column.
#[derive(Debug, Clone)]
pub struct Tds {
    pub columns: Vec<TdsColumn>,
    pub rows: Vec<Vec<Option<Cell>>>,
}

/// A value of multiplicity `[*]` as the runtime hands it over: nothing,
/// one value, or a collection.
#[derive(Debug, Clone)]
pub enum Multi<T> {
    Unit,
    Single(T),
    Collection(Vec<T>),
}

impl<T> Multi<T> {
    /// The values it holds, in order.
    pub open spec fn items(self) -> Seq<T> {
        match self {
            Multi::Unit => Seq::empty(),
            Multi::Single(x) => seq![x],
            Multi::Collection(v) => v@,
        }
    }
}

/// Hands a sequence of values back in the runtime's shape: `Unit` when
/// empty, the value itself when there is one, else a collection.
pub fn pack<T>(items: Vec<T>) -> (r: Multi<T>)
    ensures
        r.items() == items@,
        items@.len() == 0 ==> r is Unit,
        items@.len() == 1 ==> r == Multi::Single(items@[0]),
        items@.len() > 1 ==> r is Collection,
{
    let mut items = items;
    if items.len() == 0 {
        Multi::Unit
    } else if items.len() == 1 {
        let x = items.pop().unwrap();
        Multi::Single(x)
    } else {
        Multi::Collection(items)
    }
}

/// Appends the values of `v` to `out`, flattening one collection layer
/// and dropping `Unit`.
pub fn push_flat<T>(out: &mut Vec<T>, v: Multi<T>)
    ensures
        final(out)@ == old(out)@ + v.items(),
{
    match v {
        Multi::Unit => {
            assert(old(out)@ + Seq::<T>::empty() =~= old(out)@);
        },
        Multi::Single(x) => {
            out.push(x);
            assert(final(out)@ =~= old(out)@ + seq![x]);
        },
        Multi::Collection(items) => {
            let mut items = items;
            out.append(&mut items);
        },
    }
}

// ───────────────────────────── cell equality ─────────────────────────────

/// 2^52: the weight of the lowest exponent bit of a double.
pub open spec fn mantissa_span() -> int {
    0x10_0000_0000_0000
}

/// The biased exponent field of a double.
pub open spec fn exponent_field(bits: u64) -> int {
    (bits as int / mantissa_span()) % 2048
}

/// The fraction field of a double.
pub open spec fn fraction_field(bits: u64) -> int {
    bits as int % mantissa_span()
}

/// Whether the sign bit is set.
pub open spec fn sign_set(bits: u64) -> bool {
    bits as int >= 0x8000_0000_0000_0000
}

/// Whether the bits encode a NaN.
pub open spec fn is_nan(bits: u64) -> bool {
    exponent_field(bits) == 2047 && fraction_field(bits) != 0
}

/// Whether the bits encode zero (of either sign).
pub open spec fn is_zero(bits: u64) -> bool {
    bits as int % 0x8000_0000_0000_0000 == 0
}

/// Float equality: NaN equals nothing, the two zeros are equal, other
/// values are equal when their bits are.
pub open spec fn float_eq(a: u64, b: u64) -> bool {
    !is_nan(a) && !is_nan(b) && (a == b || (is_zero(a) && is_zero(b)))
}

/// Equality of two cells: same kind and same value.
pub open spec fn cell_eq(a: Cell, b: Cell) -> bool {
    match (a, b) {
        (Cell::Integer(x), Cell::Integer(y)) => x == y,
        (Cell::Float(x), Cell::Float(y)) => float_eq(x.bits, y.bits),
        (Cell::Decimal(x), Cell::Decimal(y)) => x@ == y@,
        (Cell::Boolean(x), Cell::Boolean(y)) => x == y,
        (Cell::String(x), Cell::String(y)) => x@ == y@,
        (Cell::StrictDate(x), Cell::StrictDate(y)) => x@ == y@,
        (Cell::DateTime(x), Cell::DateTime(y)) => x@ == y@,
        _ => false,
    }
}

/// Equality of two optional cells: both empty, or both filled and equal.
pub open spec fn opt_cell_eq(a: Option<Cell>, b: Option<Cell>) -> bool {
    match (a, b) {
        (None, None) => true,
        (Some(x), Some(y)) => cell_eq(x, y),
        _ => false,
    }
}

/// Equality of two key tuples, cell by cell.
pub open spec fn key_eq(a: Seq<Option<Cell>>, b: Seq<Option<Cell>>) -> bool {
    a.len() == b.len() && forall|i: int| 0 <= i < a.len() ==> #[trigger] opt_cell_eq(a[i], b[i])
}

/// Whether the bits encode a NaN.
pub fn float_is_nan(bits: u64) -> (b: bool)
    ensures
        b == is_nan(bits),
{
    let e = (bits / 0x10_0000_0000_0000) % 2048;
    let f = bits % 0x10_0000_0000_0000;
    e == 2047 && f != 0
}

/// `float_eq`, computed.
pub fn float_equal(a: u64, b: u64) -> (r: bool)
    ensures
        r == float_eq(a, b),
{
    !float_is_nan(a) && !float_is_nan(b) && (a == b || (a % 0x8000_0000_0000_0000 == 0 && b
        % 0x8000_0000_0000_0000 == 0))
}

/// `cell_eq`, computed.
pub fn cell_equal(a: &Cell, b: &Cell) -> (r: bool)
    ensures
        r == cell_eq(*a, *b),
{
    match (a, b) {
        (Cell::Integer(x), Cell::Integer(y)) => *x == *y,
        (Cell::Float(x), Cell::Float(y)) => float_equal(x.bits, y.bits),
        (Cell::Decimal(x), Cell::Decimal(y)) => x.eq(y),
        (Cell::Boolean(x), Cell::Boolean(y)) => *x == *y,
        (Cell::String(x), Cell::String(y)) => x.eq(y),
        (Cell::StrictDate(x), Cell::StrictDate(y)) => x.eq(y),
        (Cell::DateTime(x), Cell::DateTime(y)) => x.eq(y),
        _ => false,
    }
}

/// `opt_cell_eq`, computed.
pub fn opt_cell_equal(a: &Option<Cell>, b: &Option<Cell>) -> (r: bool)
    ensures
        r == opt_cell_eq(*a, *b),
{
    match (a, b) {
        (None, None) => true,
        (Some(x), Some(y)) => cell_equal(x, y),
        _ => false,
    }
}

/// `key_eq`, computed.
pub fn key_equal(a: &Vec<Option<Cell>>, b: &Vec<Option<Cell>>) -> (r: bool)
    ensures
        r == key_eq(a@, b@),
{
    if a.len() != b.len() {
        return false;
    }
    let mut i: usize = 0;
    while i < a.len()
        invariant
            a@.len() == b@.len(),
            i <= a@.len(),
            forall|j: int| 0 <= j < i ==> #[trigger] opt_cell_eq(a@[j], b@[j]),
        decreases a.len() - i,
    {
        if !opt_cell_equal(&a[i], &b[i]) {
            return false;
        }
        i = i + 1;
    }
    true
}

/// A copy of a cell.
pub fn copy_cell(c: &Option<Cell>) -> (r: Option<Cell>)
    ensures
        r == *c,
{
    match c {
        None => None,
        Some(Cell::Integer(x)) => Some(Cell::Integer(*x)),
        Some(Cell::Float(x)) => Some(Cell::Float(FloatCell { bits: x.bits, text: x.text.clone() })),
        Some(Cell::Decimal(x)) => Some(Cell::Decimal(x.clone())),
        Some(Cell::Boolean(x)) => Some(Cell::Boolean(*x)),
        Some(Cell::String(x)) => Some(Cell::String(x.clone())),
        Some(Cell::StrictDate(x)) => Some(Cell::StrictDate(x.clone())),
        Some(Cell::DateTime(x)) => Some(Cell::DateTime(x.clone())),
    }
}

/// A copy of a row.
pub fn copy_row(row: &Vec<Option<Cell>>) -> (r: Vec<Option<Cell>>)
    ensures
        r@ == row@,
{
    let mut out: Vec<Option<Cell>> = Vec::new();
    let mut i: usize = 0;
    while i < row.len()
        invariant
            i <= row@.len(),
            out@ == row@.take(i as int),
        decreases row.len() - i,
    {
        out.push(copy_cell(&row[i]));
        proof {
            assert(row@.take(i + 1) =~= row@.take(i as int).push(row@[i as int]));
        }
        i = i + 1;
    }
    assert(row@.take(row@.len() as int) =~= row@);
    out
}


// ───────────────────────────── tables ─────────────────────────────

impl Tds {
    /// Every row has one cell per column.
    pub open spec fn wf(&self) -> bool {
        forall|i: int| 0 <= i < self.rows@.len() ==> #[trigger] self.rows@[i]@.len()
            == self.columns@.len()
    }

    /// The rows, each as a sequence of cells.
    pub open spec fn body(&self) -> Seq<Seq<Option<Cell>>> {
        self.rows@.map_values(|r: Vec<Option<Cell>>| r@)
    }
}

/// A copy of a column type.
pub fn copy_type(t: &ColumnType) -> (r: ColumnType)
    ensures
        r == *t,
{
    match t {
        ColumnType::Integer => ColumnType::Integer,
        ColumnType::Float => ColumnType::Float,
        ColumnType::Decimal => ColumnType::Decimal,
        ColumnType::Boolean => ColumnType::Boolean,
        ColumnType::String => ColumnType::String,
        ColumnType::StrictDate => ColumnType::StrictDate,
        ColumnType::DateTime => ColumnType::DateTime,
        ColumnType::Other { package, name } => {
            let p = match package {
                Some(x) => Some(x.clone()),
                None => None,
            };
            ColumnType::Other { package: p, name: name.clone() }
        },
    }
}

/// A copy of a column multiplicity.
pub fn copy_multiplicity(m: &ColumnMultiplicity) -> (r: ColumnMultiplicity)
    ensures
        r == *m,
{
    match m {
        ColumnMultiplicity::PureOne => ColumnMultiplicity::PureOne,
        ColumnMultiplicity::ZeroOrOne => ColumnMultiplicity::ZeroOrOne,
        ColumnMultiplicity::OneOrMany => ColumnMultiplicity::OneOrMany,
        ColumnMultiplicity::ZeroOrMany => ColumnMultiplicity::ZeroOrMany,
        ColumnMultiplicity::Range { lower, upper } => ColumnMultiplicity::Range {
            lower: *lower,
            upper: *upper,
        },
        ColumnMultiplicity::Variable(v) => ColumnMultiplicity::Variable(v.clone()),
    }
}

/// A copy of a column.
pub fn copy_column(c: &TdsColumn) -> (r: TdsColumn)
    ensures
        r == *c,
{
    TdsColumn {
        name: c.name.clone(),
        type_tag: copy_type(&c.type_tag),
        multiplicity: copy_multiplicity(&c.multiplicity),
    }
}

/// A copy of a list of columns.
pub fn copy_columns(cs: &Vec<TdsColumn>) -> (r: Vec<TdsColumn>)
    ensures
        r@ == cs@,
{
    let mut out: Vec<TdsColumn> = Vec::new();
    let mut i: usize = 0;
    while i < cs.len()
        invariant
            i <= cs@.len(),
            out@ == cs@.take(i as int),
        decreases cs.len() - i,
    {
        out.push(copy_column(&cs[i]));
        proof {
            assert(cs@.take(i + 1) =~= cs@.take(i as int).push(cs@[i as int]));
        }
        i = i + 1;
    }
    assert(cs@.take(cs@.len() as int) =~= cs@);
    out
}

// ───────────────────────────── inferred columns ─────────────────────────────

/// The column type a cell's value has, by code: 0 Integer, 1 Float,
/// 2 Decimal, 3 Boolean, 4 String, 5 StrictDate, 6 DateTime.
pub open spec fn type_code(c: Cell) -> int {
    match c {
        Cell::Integer(_) => 0,
        Cell::Float(_) => 1,
        Cell::Decimal(_) => 2,
        Cell::Boolean(_) => 3,
        Cell::String(_) => 4,
        Cell::StrictDate(_) => 5,
        Cell::DateTime(_) => 6,
    }
}

/// The column type of a code.
pub open spec fn code_type(code: int) -> ColumnType {
    if code == 0 {
        ColumnType::Integer
    } else if code == 1 {
        ColumnType::Float
    } else if code == 2 {
        ColumnType::Decimal
    } else if code == 3 {
        ColumnType::Boolean
    } else if code == 5 {
        ColumnType::StrictDate
    } else if code == 6 {
        ColumnType::DateTime
    } else {
        ColumnType::String
    }
}

/// Whether some cell is filled.
pub open spec fn any_filled(cells: Seq<Option<Cell>>) -> bool {
    exists|i: int| 0 <= i < cells.len() && #[trigger] cells[i] is Some
}

/// Whether some cell is empty.
pub open spec fn any_empty(cells: Seq<Option<Cell>>) -> bool {
    exists|i: int| 0 <= i < cells.len() && #[trigger] cells[i] is None
}

/// Whether every filled cell has type code `code`.
pub open spec fn uniform_code(cells: Seq<Option<Cell>>, code: int) -> bool {
    forall|i: int| 0 <= i < cells.len() && #[trigger] cells[i] is Some ==> type_code(cells[i]->0) == code
}

/// The type a column of these cells is given: the common type of its
/// filled cells, or `String` when they differ or none is filled.
pub open spec fn inferred_type(cells: Seq<Option<Cell>>) -> ColumnType {
    if any_filled(cells) && exists|c: int| #[trigger] uniform_code(cells, c) {
        code_type(choose|c: int| #[trigger] uniform_code(cells, c))
    } else {
        ColumnType::String
    }
}

/// The multiplicity a column of these cells is given: `[0..1]` when a
/// cell is empty, else `[1]`.
pub open spec fn inferred_multiplicity(cells: Seq<Option<Cell>>) -> ColumnMultiplicity {
    if any_empty(cells) {
        ColumnMultiplicity::ZeroOrOne
    } else {
        ColumnMultiplicity::PureOne
    }
}

fn cell_code(c: &Cell) -> (r: u8)
    ensures
        r == type_code(*c),
{
    match c {
        Cell::Integer(_) => 0,
        Cell::Float(_) => 1,
        Cell::Decimal(_) => 2,
        Cell::Boolean(_) => 3,
        Cell::String(_) => 4,
        Cell::StrictDate(_) => 5,
        Cell::DateTime(_) => 6,
    }
}

fn type_of_code(code: u8) -> (r: ColumnType)
    ensures
        r == code_type(code as int),
{
    if code == 0 {
        ColumnType::Integer
    } else if code == 1 {
        ColumnType::Float
    } else if code == 2 {
        ColumnType::Decimal
    } else if code == 3 {
        ColumnType::Boolean
    } else if code == 5 {
        ColumnType::StrictDate
    } else if code == 6 {
        ColumnType::DateTime
    } else {
        ColumnType::String
    }
}

/// The type and multiplicity of a new column holding `cells`.
pub fn infer_column_type_and_mult(cells: &Vec<Option<Cell>>) -> (r: (ColumnType, ColumnMultiplicity))
    ensures
        r.0 == inferred_type(cells@),
        r.1 == inferred_multiplicity(cells@),
{
    let mut tag: Option<u8> = None;
    let mut empty = false;
    let mut i: usize = 0;
    while i < cells.len()
        invariant
            i <= cells@.len(),
            empty == any_empty(cells@.take(i as int)),
            tag is None <==> !any_filled(cells@.take(i as int)),
            tag is Some && tag->0 != 4 ==> uniform_code(cells@.take(i as int), tag->0 as int),
            tag is Some ==> tag->0 <= 6,
            tag is Some && tag->0 == 4 ==> forall|c: int|
                c != 4 ==> !#[trigger] uniform_code(cells@.take(i as int), c),
        decreases cells.len() - i,
    {
        let ghost pre = cells@.take(i as int);
        let ghost post = cells@.take(i + 1);
        proof {
            assert(post =~= pre.push(cells@[i as int]));
            assert forall|j: int| 0 <= j < pre.len() implies #[trigger] post[j] == pre[j] by {}
        }
        match &cells[i] {
            None => {
                empty = true;
                proof {
                    assert(post[i as int] is None);
                    if tag is Some && tag->0 != 4 {
                        assert(uniform_code(post, tag->0 as int));
                    }
                    if tag is Some && tag->0 == 4 {
                        assert forall|c: int| c != 4 implies !#[trigger] uniform_code(post, c) by {
                            assert(!uniform_code(pre, c));
                            let j = choose|j: int| 0 <= j < pre.len() && pre[j] is Some && type_code(pre[j]->0) != c;
                            assert(post[j] == pre[j]);
                        }
                    }
                    if tag is None {
                        assert forall|j: int| 0 <= j < post.len() implies !(#[trigger] post[j] is Some) by {
                            if j < pre.len() {
                                assert(!(pre[j] is Some));
                            }
                        }
                    }
                }
            },
            Some(c) => {
                let k = cell_code(c);
                proof {
                    assert(post[i as int] == Some(*c));
                }
                match tag {
                    None => {
                        tag = Some(k);
                        proof {
                            if k != 4 {
                                assert forall|j: int| 0 <= j < post.len() && #[trigger] post[j] is Some implies type_code(post[j]->0) == k by {
                                    if j < pre.len() {
                                        assert(pre[j] is Some);
                                    }
                                }
                            } else {
                                assert forall|c2: int| c2 != 4 implies !#[trigger] uniform_code(post, c2) by {
                                    assert(post[i as int] is Some);
                                }
                            }
                        }
                    },
                    Some(p) => {
                        if p != k {
                            proof {
                                let j = choose|j: int| 0 <= j < pre.len() && #[trigger] pre[j] is Some;
                                assert(post[j] == pre[j]);
                                if p != 4 {
                                    assert(type_code(pre[j]->0) == p);
                                }
                                assert forall|c2: int| c2 != 4 implies !#[trigger] uniform_code(post, c2) by {
                                    if p == 4 {
                                        assert(!uniform_code(pre, c2));
                                        let j2 = choose|j2: int| 0 <= j2 < pre.len() && pre[j2] is Some && type_code(pre[j2]->0) != c2;
                                        assert(post[j2] == pre[j2]);
                                    } else {
                                        assert(post[i as int] is Some);
                                    }
                                }
                            }
                            tag = Some(4);
                        } else {
                            proof {
                                if p != 4 {
                                    assert(uniform_code(post, p as int));
                                } else {
                                    assert forall|c2: int| c2 != 4 implies !#[trigger] uniform_code(post, c2) by {
                                        assert(post[i as int] is Some);
                                    }
                                }
                            }
                        }
                    },
                }
            },
        }
        i = i + 1;
    }
    proof {
        assert(cells@.take(cells@.len() as int) =~= cells@);
        if tag is Some && tag->0 != 4 {
            let c = choose|c: int| #[trigger] uniform_code(cells@, c);
            let j = choose|j: int| 0 <= j < cells@.len() && #[trigger] cells@[j] is Some;
            assert(type_code(cells@[j]->0) == c);
            assert(type_code(cells@[j]->0) == tag->0);
        }
        if tag is Some && tag->0 == 4 {
            if exists|c: int| #[trigger] uniform_code(cells@, c) {
                let c = choose|c: int| #[trigger] uniform_code(cells@, c);
                assert(c == 4);
            }
        }
    }
    let t = match tag {
        None => ColumnType::String,
        Some(k) => type_of_code(k),
    };
    let m = if empty {
        ColumnMultiplicity::ZeroOrOne
    } else {
        ColumnMultiplicity::PureOne
    };
    (t, m)
}


// ───────────────────────────── rendering ─────────────────────────────

/// `[a-zA-Z0-9]`.
pub open spec fn is_ascii_alnum(c: char) -> bool {
    ('a' <= c && c <= 'z') || ('A' <= c && c <= 'Z') || ('0' <= c && c <= '9')
}

/// A non-empty name of ASCII letters, digits and underscores.
pub open spec fn is_simple_name(n: Seq<char>) -> bool {
    n.len() > 0 && forall|i: int| 0 <= i < n.len() ==> is_ascii_alnum(#[trigger] n[i]) || n[i] == '_'
}

/// Whether `name` can stand unquoted in a TDS header.
pub fn is_simple_identifier(name: &str) -> (b: bool)
    ensures
        b == is_simple_name(name@),
{
    let cs = chars_of(name);
    if cs.len() == 0 {
        return false;
    }
    let mut i: usize = 0;
    while i < cs.len()
        invariant
            cs@ == name@,
            i <= cs@.len(),
            forall|j: int| 0 <= j < i ==> is_ascii_alnum(#[trigger] cs@[j]) || cs@[j] == '_',
        decreases cs.len() - i,
    {
        let c = cs[i];
        if !(('a' <= c && c <= 'z') || ('A' <= c && c <= 'Z') || ('0' <= c && c <= '9') || c == '_') {
            return false;
        }
        i = i + 1;
    }
    true
}

/// A header name: as is when simple, else in single quotes.
pub open spec fn quoted_name(n: Seq<char>) -> Seq<char> {
    if is_simple_name(n) {
        n
    } else {
        seq!['\''] + n + seq!['\'']
    }
}

/// The Pure path of a column type.
pub open spec fn type_path(t: ColumnType) -> Seq<char> {
    match t {
        ColumnType::Integer => "Integer"@,
        ColumnType::Float => "Float"@,
        ColumnType::Decimal => "Decimal"@,
        ColumnType::Boolean => "Boolean"@,
        ColumnType::String => "String"@,
        ColumnType::StrictDate => "StrictDate"@,
        ColumnType::DateTime => "DateTime"@,
        ColumnType::Other { package, name } => match package {
            Some(p) => p@ + "::"@ + name@,
            None => name@,
        },
    }
}

/// The text of a multiplicity, without brackets.
pub open spec fn multiplicity_text(m: ColumnMultiplicity) -> Seq<char> {
    match m {
        ColumnMultiplicity::PureOne => "1"@,
        ColumnMultiplicity::ZeroOrOne => "0..1"@,
        ColumnMultiplicity::OneOrMany => "1..*"@,
        ColumnMultiplicity::ZeroOrMany => "*"@,
        ColumnMultiplicity::Range { lower, upper } => match upper {
            Some(u) => decimal_spec(lower as nat) + ".."@ + decimal_spec(u as nat),
            None => decimal_spec(lower as nat) + "..*"@,
        },
        ColumnMultiplicity::Variable(v) => v@,
    }
}

/// A header cell: the (quoted) name, and with `typed` its type and
/// multiplicity as `name:Type[mult]`.
pub open spec fn header_text(c: TdsColumn, typed: bool) -> Seq<char> {
    if typed {
        quoted_name(c.name@) + ":"@ + type_path(c.type_tag) + "["@ + multiplicity_text(
            c.multiplicity,
        ) + "]"@
    } else {
        quoted_name(c.name@)
    }
}

/// `s` with every `"` doubled.
pub open spec fn doubled_quotes(s: Seq<char>) -> Seq<char>
    decreases s.len(),
{
    if s.len() == 0 {
        Seq::empty()
    } else {
        doubled_quotes(s.drop_last()) + if s.last() == '"' {
            seq!['"', '"']
        } else {
            seq![s.last()]
        }
    }
}

/// `s` in double quotes, inner `"` doubled.
pub open spec fn csv_quoted(s: Seq<char>) -> Seq<char> {
    seq!['"'] + doubled_quotes(s) + seq!['"']
}

/// Whether a column is of the `Variant` type.
pub open spec fn is_variant_type(t: ColumnType) -> bool {
    t matches ColumnType::Other { name, .. } && name@ == "Variant"@
}

/// The text of a cell in a column of type `t`.
pub open spec fn cell_text(c: Option<Cell>, t: ColumnType) -> Seq<char> {
    match c {
        None => if is_variant_type(t) {
            "\"null\""@
        } else {
            "null"@
        },
        Some(Cell::Integer(i)) => signed_decimal_spec(i as int),
        Some(Cell::Float(f)) => f.text@,
        Some(Cell::Decimal(s)) => s@,
        Some(Cell::Boolean(b)) => if b {
            "true"@
        } else {
            "false"@
        },
        Some(Cell::String(s)) => if is_variant_type(t) || s@.contains('{') || s@.contains('[') {
            csv_quoted(s@)
        } else {
            s@
        },
        Some(Cell::StrictDate(s)) => s@,
        Some(Cell::DateTime(s)) => s@,
    }
}

/// The texts of a row's cells, paired with the columns.
pub open spec fn row_texts(row: Seq<Option<Cell>>, cols: Seq<TdsColumn>) -> Seq<Seq<char>> {
    let n = if row.len() < cols.len() {
        row.len()
    } else {
        cols.len()
    };
    Seq::new(n, |i: int| cell_text(row[i], cols[i].type_tag))
}

/// The body lines of a rendered TDS: each row on a new line, indented by
/// three spaces, cells separated by commas.
pub open spec fn rows_text(rows: Seq<Seq<Option<Cell>>>, cols: Seq<TdsColumn>) -> Seq<char>
    decreases rows.len(),
{
    if rows.len() == 0 {
        Seq::empty()
    } else {
        rows_text(rows.drop_last(), cols) + "\n   "@ + join_spec(row_texts(rows.last(), cols), ","@)
    }
}

/// The headers of a TDS.
pub open spec fn header_texts(cols: Seq<TdsColumn>, typed: bool) -> Seq<Seq<char>> {
    Seq::new(cols.len(), |i: int| header_text(cols[i], typed))
}

/// A rendered TDS: `#TDS`, the header line, the rows, then `#`.
pub open spec fn tds_text(t: Tds, typed: bool) -> Seq<char> {
    "#TDS\n   "@ + join_spec(header_texts(t.columns@, typed), ","@) + rows_text(t.body(), t.columns@)
        + "\n#"@
}

/// `quoted_name`, computed.
fn quote_name(name: &String) -> (r: String)
    ensures
        r@ == quoted_name(name@),
{
    if is_simple_identifier(name.as_str()) {
        name.clone()
    } else {
        let mut r = string_of(vec!['\'']);
        r.append(name.as_str());
        let q = string_of(vec!['\'']);
        r.append(q.as_str());
        r
    }
}

/// The Pure path of a column type.
pub fn pure_type_path(t: &ColumnType) -> (r: String)
    ensures
        r@ == type_path(*t),
{
    match t {
        ColumnType::Integer => "Integer".to_string(),
        ColumnType::Float => "Float".to_string(),
        ColumnType::Decimal => "Decimal".to_string(),
        ColumnType::Boolean => "Boolean".to_string(),
        ColumnType::String => "String".to_string(),
        ColumnType::StrictDate => "StrictDate".to_string(),
        ColumnType::DateTime => "DateTime".to_string(),
        ColumnType::Other { package, name } => match package {
            Some(p) => {
                let mut r = concat(p.as_str(), "::");
                r.append(name.as_str());
                r
            },
            None => name.clone(),
        },
    }
}

/// The text of a multiplicity, without brackets.
pub fn render_multiplicity(m: &ColumnMultiplicity) -> (r: String)
    ensures
        r@ == multiplicity_text(*m),
{
    match m {
        ColumnMultiplicity::PureOne => "1".to_string(),
        ColumnMultiplicity::ZeroOrOne => "0..1".to_string(),
        ColumnMultiplicity::OneOrMany => "1..*".to_string(),
        ColumnMultiplicity::ZeroOrMany => "*".to_string(),
        ColumnMultiplicity::Range { lower, upper } => {
            let mut r = u64_text(*lower);
            match upper {
                Some(u) => {
                    r.append("..");
                    let t = u64_text(*u);
                    r.append(t.as_str());
                },
                None => {
                    r.append("..*");
                },
            }
            r
        },
        ColumnMultiplicity::Variable(v) => v.clone(),
    }
}

/// A header cell.
pub fn render_header_cell(c: &TdsColumn, typed: bool) -> (r: String)
    ensures
        r@ == header_text(*c, typed),
{
    let mut r = quote_name(&c.name);
    if typed {
        r.append(":");
        let t = pure_type_path(&c.type_tag);
        r.append(t.as_str());
        r.append("[");
        let m = render_multiplicity(&c.multiplicity);
        r.append(m.as_str());
        r.append("]");
    }
    r
}

/// `csv_quoted`, computed.
fn quote_doubling(s: &str) -> (r: String)
    ensures
        r@ == csv_quoted(s@),
{
    let cs = chars_of(s);
    let mut out: Vec<char> = vec!['"'];
    let mut i: usize = 0;
    while i < cs.len()
        invariant
            cs@ == s@,
            i <= cs@.len(),
            out@ == seq!['"'] + doubled_quotes(cs@.take(i as int)),
        decreases cs.len() - i,
    {
        proof {
            assert(cs@.take(i + 1).drop_last() =~= cs@.take(i as int));
        }
        if cs[i] == '"' {
            out.push('"');
            out.push('"');
        } else {
            out.push(cs[i]);
        }
        proof {
            assert(out@ =~= seq!['"'] + doubled_quotes(cs@.take(i + 1)));
        }
        i = i + 1;
    }
    out.push('"');
    assert(cs@.take(cs@.len() as int) =~= cs@);
    string_of(out)
}

/// Whether `s` contains `c`.
fn has_char(s: &str, c: char) -> (b: bool)
    ensures
        b == s@.contains(c),
{
    let cs = chars_of(s);
    let mut i: usize = 0;
    while i < cs.len()
        invariant
            cs@ == s@,
            i <= cs@.len(),
            forall|j: int| 0 <= j < i ==> cs@[j] != c,
        decreases cs.len() - i,
    {
        if cs[i] == c {
            assert(s@[i as int] == c);
            return true;
        }
        i = i + 1;
    }
    false
}

/// Whether a column is of the `Variant` type.
fn is_variant_column(t: &ColumnType) -> (b: bool)
    ensures
        b == is_variant_type(*t),
{
    match t {
        ColumnType::Other { name, .. } => {
            let lit = vec!['V', 'a', 'r', 'i', 'a', 'n', 't'];
            proof {
                reveal_strlit("Variant");
                assert(lit@ =~= "Variant"@);
            }
            crate::text::string_is(name.as_str(), lit)
        },
        _ => false,
    }
}

/// The text of a cell in a column of type `t`.
pub fn render_cell(c: &Option<Cell>, t: &ColumnType) -> (r: String)
    ensures
        r@ == cell_text(*c, *t),
{
    let variant = is_variant_column(t);
    match c {
        None => if variant {
            "\"null\"".to_string()
        } else {
            "null".to_string()
        },
        Some(Cell::Integer(i)) => i64_text(*i),
        Some(Cell::Float(f)) => f.text.clone(),
        Some(Cell::Decimal(s)) => s.clone(),
        Some(Cell::Boolean(b)) => if *b {
            "true".to_string()
        } else {
            "false".to_string()
        },
        Some(Cell::String(s)) => {
            if variant || has_char(s.as_str(), '{') || has_char(s.as_str(), '[') {
                quote_doubling(s.as_str())
            } else {
                s.clone()
            }
        },
        Some(Cell::StrictDate(s)) => s.clone(),
        Some(Cell::DateTime(s)) => s.clone(),
    }
}

/// Renders a TDS as `#TDS`, an indented header line, one indented line
/// per row and a closing `#`; with `typed` the headers carry
/// `:Type[mult]`.
pub fn render_tds(t: &Tds, typed: bool) -> (r: String)
    ensures
        r@ == tds_text(*t, typed),
{
    let mut headers: Vec<String> = Vec::new();
    let mut k: usize = 0;
    while k < t.columns.len()
        invariant
            k <= t.columns@.len(),
            headers@.len() == k,
            forall|j: int| 0 <= j < k ==> #[trigger] headers@[j]@ == header_text(t.columns@[j], typed),
        decreases t.columns.len() - k,
    {
        headers.push(render_header_cell(&t.columns[k], typed));
        k = k + 1;
    }
    assert(views(headers@) =~= header_texts(t.columns@, typed));
    let mut out = "#TDS\n   ".to_string();
    let h = join(&headers, ",");
    out.append(h.as_str());
    let ghost head = out@;
    let ghost body = t.body();
    let mut i: usize = 0;
    while i < t.rows.len()
        invariant
            i <= t.rows@.len(),
            body == t.body(),
            body.len() == t.rows@.len(),
            out@ == head + rows_text(body.take(i as int), t.columns@),
        decreases t.rows.len() - i,
    {
        let row = &t.rows[i];
        let n = if row.len() < t.columns.len() {
            row.len()
        } else {
            t.columns.len()
        };
        let mut cells: Vec<String> = Vec::new();
        let mut j: usize = 0;
        while j < n
            invariant
                j <= n,
                n <= row@.len(),
                n <= t.columns@.len(),
                cells@.len() == j,
                forall|q: int| 0 <= q < j ==> #[trigger] cells@[q]@ == cell_text(row@[q], t.columns@[q].type_tag),
            decreases n - j,
        {
            cells.push(render_cell(&row[j], &t.columns[j].type_tag));
            j = j + 1;
        }
        proof {
            assert(body[i as int] == row@);
            assert(views(cells@) =~= row_texts(row@, t.columns@));
            assert(body.take(i + 1).drop_last() =~= body.take(i as int));
        }
        out.append("\n   ");
        let line = join(&cells, ",");
        out.append(line.as_str());
        proof {
            assert(out@ =~= head + rows_text(body.take(i + 1), t.columns@));
        }
        i = i + 1;
    }
    out.append("\n#");
    assert(body.take(t.rows@.len() as int) =~= body);
    out
}


// ───────────────────────────── row lists ─────────────────────────────

/// The cells of each row, for a list of rows.
pub open spec fn rows_view(rows: Seq<Vec<Option<Cell>>>) -> Seq<Seq<Option<Cell>>> {
    rows.map_values(|r: Vec<Option<Cell>>| r@)
}

/// Copies of the rows `rows[a..b]`.
pub fn copy_rows(rows: &Vec<Vec<Option<Cell>>>, a: usize, b: usize) -> (r: Vec<Vec<Option<Cell>>>)
    requires
        a <= b <= rows@.len(),
    ensures
        rows_view(r@) == rows_view(rows@).subrange(a as int, b as int),
{
    let mut out: Vec<Vec<Option<Cell>>> = Vec::new();
    let mut i = a;
    while i < b
        invariant
            a <= i <= b,
            b <= rows@.len(),
            rows_view(out@) =~= rows_view(rows@).subrange(a as int, i as int),
        decreases b - i,
    {
        let ghost before = out@;
        out.push(copy_row(&rows[i]));
        proof {
            assert(out@ == before.push(out@.last()));
            assert(rows_view(out@) =~= rows_view(before).push(rows@[i as int]@));
            assert(rows_view(rows@).subrange(a as int, i + 1) =~= rows_view(rows@).subrange(a as int, i as int).push(rows@[i as int]@));
        }
        i = i + 1;
    }
    out
}

/// A table whose rows all have as many cells as it has columns is well
/// formed.
pub proof fn lemma_wf_of_body(t: Tds)
    requires
        forall|i: int| 0 <= i < t.body().len() ==> (#[trigger] t.body()[i]).len() == t.columns@.len(),
    ensures
        t.wf(),
{
    assert forall|i: int| 0 <= i < t.rows@.len() implies #[trigger] t.rows@[i]@.len() == t.columns@.len() by {
        assert(t.body()[i] == t.rows@[i]@);
    }
}

/// The rows of a well-formed table have as many cells as it has columns.
pub proof fn lemma_body_of_wf(t: Tds)
    requires
        t.wf(),
    ensures
        forall|i: int| 0 <= i < t.body().len() ==> (#[trigger] t.body()[i]).len() == t.columns@.len(),
{
    assert forall|i: int| 0 <= i < t.body().len() implies (#[trigger] t.body()[i]).len() == t.columns@.len() by {
        assert(t.rows@[i]@.len() == t.columns@.len());
    }
}

} // verus!
