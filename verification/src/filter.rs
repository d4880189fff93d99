//! Filter predicates over the attribute row stored beside a node.
//!
//! A row is a short list of [`AttrValue`]s and a [`Predicate`] is a conjunction
//! of equality and range terms over its columns. Values order the way
//! PostgreSQL orders them, because this order decides which rows an index
//! returns and an index has to answer what a sequential scan would.

use crate::floats::{f64_is_nan, f64_nan, f64_signed_magnitude, f64_value, lemma_f64_value_order};
use vstd::prelude::*;

verus! {

/// A single filterable attribute value stored beside a node.
///
/// `Float` holds the bits of an `f64`. Its order is PostgreSQL's total order: a
/// NaN equals itself and sorts above every other value, and the two zeros are
/// equal. `Null` orders with nothing, so it satisfies no term.
#[derive(Debug, Clone, Copy)]
pub enum AttrValue {
    /// Signed integer: ids, counts, booleans (`0`/`1`), dictionary codes.
    Int(i64),
    /// Floating-point scalar, as its bits.
    Float(u64),
    /// SQL `NULL` or an absent value.
    Null,
}

/// Equality as IEEE 754 has it: a NaN differs from everything, itself included,
/// and the two zeros are equal.
pub open spec fn ieee_equal(a: u64, b: u64) -> bool {
    !f64_is_nan(a) && !f64_is_nan(b) && f64_value(a) == f64_value(b)
}

impl PartialEq for AttrValue {
    fn eq(&self, other: &AttrValue) -> (r: bool) {
        match (self, other) {
            (AttrValue::Int(a), AttrValue::Int(b)) => *a == *b,
            (AttrValue::Float(a), AttrValue::Float(b)) => {
                proof {
                    lemma_f64_value_order(*a, *b);
                }
                !f64_nan(*a) && !f64_nan(*b) && f64_signed_magnitude(*a) == f64_signed_magnitude(
                    *b,
                )
            },
            (AttrValue::Null, AttrValue::Null) => true,
            _ => false,
        }
    }
}

impl vstd::std_specs::cmp::PartialEqSpecImpl for AttrValue {
    open spec fn obeys_eq_spec() -> bool {
        true
    }

    open spec fn eq_spec(&self, other: &AttrValue) -> bool {
        match (*self, *other) {
            (AttrValue::Int(a), AttrValue::Int(b)) => a == b,
            (AttrValue::Float(a), AttrValue::Float(b)) => ieee_equal(a, b),
            (AttrValue::Null, AttrValue::Null) => true,
            _ => false,
        }
    }
}

/// How one value stands to another.
#[derive(Debug, Clone, Copy, PartialEq, Eq, Structural)]
pub enum Order {
    Less,
    Equal,
    Greater,
}

/// How `a` stands to `b`, for integers.
pub open spec fn int_order(a: int, b: int) -> Order {
    if a < b {
        Order::Less
    } else if a == b {
        Order::Equal
    } else {
        Order::Greater
    }
}

/// PostgreSQL's order on floats: the numeric order, with NaN equal to itself and
/// above everything else.
pub open spec fn pg_float_order(a: u64, b: u64) -> Order {
    if f64_is_nan(a) && f64_is_nan(b) {
        Order::Equal
    } else if f64_is_nan(a) {
        Order::Greater
    } else if f64_is_nan(b) {
        Order::Less
    } else {
        int_order(f64_value(a), f64_value(b))
    }
}

/// How two values of one numeric type stand to each other; `None` when they are
/// of different types or either is `Null`.
pub open spec fn value_order(a: AttrValue, b: AttrValue) -> Option<Order> {
    match (a, b) {
        (AttrValue::Int(x), AttrValue::Int(y)) => Some(int_order(x as int, y as int)),
        (AttrValue::Float(x), AttrValue::Float(y)) => Some(pg_float_order(x, y)),
        _ => None,
    }
}

/// Order two floats the way PostgreSQL does.
fn pg_float_compare(a: u64, b: u64) -> (r: Order)
    ensures
        r == pg_float_order(a, b),
{
    proof {
        lemma_f64_value_order(a, b);
    }
    let na = f64_nan(a);
    let nb = f64_nan(b);
    if na && nb {
        Order::Equal
    } else if na {
        Order::Greater
    } else if nb {
        Order::Less
    } else {
        let x: i128 = f64_signed_magnitude(a);
        let y: i128 = f64_signed_magnitude(b);
        if x < y {
            Order::Less
        } else if x == y {
            Order::Equal
        } else {
            Order::Greater
        }
    }
}

impl AttrValue {
    /// Order two values of the same numeric type.
    pub fn order(&self, other: &AttrValue) -> (r: Option<Order>)
        ensures
            r == value_order(*self, *other),
    {
        match (self, other) {
            (AttrValue::Int(a), AttrValue::Int(b)) => {
                if *a < *b {
                    Some(Order::Less)
                } else if *a == *b {
                    Some(Order::Equal)
                } else {
                    Some(Order::Greater)
                }
            },
            (AttrValue::Float(a), AttrValue::Float(b)) => Some(pg_float_compare(*a, *b)),
            _ => None,
        }
    }

    /// Whether this value can take part in an ordered comparison. Only `Null`
    /// cannot.
    pub fn is_orderable(&self) -> (r: bool)
        ensures
            r == (*self !is Null),
    {
        match self {
            AttrValue::Null => false,
            _ => true,
        }
    }
}

/// One end of a range.
#[derive(Debug, Clone, Copy, PartialEq)]
pub enum Bound {
    /// The end belongs to the range.
    Included(AttrValue),
    /// The end does not belong to the range.
    Excluded(AttrValue),
    /// No end on this side.
    Unbounded,
}

/// `value` is not below the range's lower end.
pub open spec fn lower_holds(value: AttrValue, lo: Bound) -> bool {
    match lo {
        Bound::Unbounded => true,
        Bound::Included(b) => value_order(value, b) == Some(Order::Greater) || value_order(value, b)
            == Some(Order::Equal),
        Bound::Excluded(b) => value_order(value, b) == Some(Order::Greater),
    }
}

/// `value` is not above the range's upper end.
pub open spec fn upper_holds(value: AttrValue, hi: Bound) -> bool {
    match hi {
        Bound::Unbounded => true,
        Bound::Included(b) => value_order(value, b) == Some(Order::Less) || value_order(value, b)
            == Some(Order::Equal),
        Bound::Excluded(b) => value_order(value, b) == Some(Order::Less),
    }
}

/// Type-strict equality: distinct types never match, `Null` never matches, and
/// floats match by PostgreSQL's order.
fn eq_matches(value: &AttrValue, target: &AttrValue) -> (r: bool)
    ensures
        r == (value_order(*value, *target) == Some(Order::Equal)),
{
    match (value, target) {
        (AttrValue::Int(a), AttrValue::Int(b)) => *a == *b,
        (AttrValue::Float(a), AttrValue::Float(b)) => pg_float_compare(*a, *b) == Order::Equal,
        _ => false,
    }
}

fn lower_matches(value: &AttrValue, lo: &Bound) -> (r: bool)
    ensures
        r == lower_holds(*value, *lo),
{
    match lo {
        Bound::Unbounded => true,
        Bound::Included(b) => matches!(value.order(b), Some(Order::Greater | Order::Equal)),
        Bound::Excluded(b) => matches!(value.order(b), Some(Order::Greater)),
    }
}

fn upper_matches(value: &AttrValue, hi: &Bound) -> (r: bool)
    ensures
        r == upper_holds(*value, *hi),
{
    match hi {
        Bound::Unbounded => true,
        Bound::Included(b) => matches!(value.order(b), Some(Order::Less | Order::Equal)),
        Bound::Excluded(b) => matches!(value.order(b), Some(Order::Less)),
    }
}

/// One predicate term. Columns are positions in a node's attribute row.
#[derive(Debug, Clone, Copy, PartialEq)]
pub enum Atom {
    /// `row[col] = value`, type-strict.
    Eq { col: usize, value: AttrValue },
    /// `row[col]` lies between `lo` and `hi`.
    Range { col: usize, lo: Bound, hi: Bound },
}

impl Atom {
    /// The column the term reads.
    pub open spec fn spec_col(self) -> usize {
        match self {
            Atom::Eq { col, .. } => col,
            Atom::Range { col, .. } => col,
        }
    }

    /// The term holds of a row: its column is there, is not `Null`, and
    /// satisfies the comparison.
    pub open spec fn holds(self, row: Seq<AttrValue>) -> bool {
        &&& self.spec_col() < row.len()
        &&& match self {
            Atom::Eq { col, value } => value_order(row[col as int], value) == Some(Order::Equal),
            Atom::Range { col, lo, hi } => row[col as int] !is Null && lower_holds(
                row[col as int],
                lo,
            ) && upper_holds(row[col as int], hi),
        }
    }

    /// The column the term reads.
    pub fn col(&self) -> (c: usize)
        ensures
            c == self.spec_col(),
    {
        match self {
            Atom::Eq { col, .. } => *col,
            Atom::Range { col, .. } => *col,
        }
    }

    /// Evaluate against a node's attribute row. A missing or `Null` column fails
    /// the term.
    pub fn matches(&self, row: &[AttrValue]) -> (r: bool)
        ensures
            r == self.holds(row@),
    {
        let col: usize = self.col();
        if col >= row.len() {
            return false;
        }
        let value = &row[col];
        match self {
            Atom::Eq { value: target, .. } => eq_matches(value, target),
            Atom::Range { lo, hi, .. } => value.is_orderable() && lower_matches(value, lo)
                && upper_matches(value, hi),
        }
    }
}

/// A predicate: match everything, or a conjunction of terms.
#[derive(Debug, Clone, PartialEq)]
pub enum Predicate {
    /// Matches every node: the no-filter case.
    All,
    /// Matches a node when every term does. An empty conjunction matches all.
    And(Vec<Atom>),
}

/// Every term holds of the row.
pub open spec fn all_hold(atoms: Seq<Atom>, row: Seq<AttrValue>) -> bool {
    forall|i: int| 0 <= i < atoms.len() ==> (#[trigger] atoms[i]).holds(row)
}

impl Predicate {
    /// The predicate holds of a row.
    pub open spec fn holds(self, row: Seq<AttrValue>) -> bool {
        match self {
            Predicate::All => true,
            Predicate::And(atoms) => all_hold(atoms@, row),
        }
    }

    /// Evaluate against a node's attribute row.
    pub fn matches(&self, row: &[AttrValue]) -> (r: bool)
        ensures
            r == self.holds(row@),
    {
        match self {
            Predicate::All => true,
            Predicate::And(atoms) => {
                let mut i: usize = 0;
                while i < atoms.len()
                    invariant
                        i <= atoms@.len(),
                        *self == Predicate::And(*atoms),
                        forall|j: int| 0 <= j < i ==> (#[trigger] atoms@[j]).holds(row@),
                    decreases atoms@.len() - i,
                {
                    if !atoms[i].matches(row) {
                        assert(!atoms@[i as int].holds(row@));
                        return false;
                    }
                    i += 1;
                }
                true
            },
        }
    }
}

/// `Null` satisfies no term, and neither does a column the row does not have.
pub proof fn null_or_missing_satisfies_no_term(atom: Atom, row: Seq<AttrValue>)
    requires
        atom.spec_col() >= row.len() || row[atom.spec_col() as int] is Null,
    ensures
        !atom.holds(row),
{
}

/// No term compares across types: a value that satisfies a bounded or equality
/// term has the type of what it is compared with.
pub proof fn terms_are_type_strict(atom: Atom, row: Seq<AttrValue>)
    requires
        atom.holds(row),
    ensures
        match atom {
            Atom::Eq { col, value } => (row[col as int] is Int <==> value is Int) && (
            row[col as int] is Float <==> value is Float) && value !is Null,
            Atom::Range { col, lo, hi } => forall|b: AttrValue|
                lo == Bound::Included(b) || lo == Bound::Excluded(b) || hi == Bound::Included(b)
                    || hi == Bound::Excluded(b) ==> #[trigger] value_order(row[col as int], b)
                    is Some,
        },
{
}

/// The order of non-`Null` values of one type is total: each value equals
/// itself, swapping the sides swaps the answer, and "not above" chains.
pub proof fn value_order_is_total(a: AttrValue, b: AttrValue, c: AttrValue)
    requires
        value_order(a, b) is Some,
        value_order(b, c) is Some,
    ensures
        value_order(a, a) == Some(Order::Equal),
        value_order(a, b) == Some(Order::Less) <==> value_order(b, a) == Some(Order::Greater),
        value_order(a, b) == Some(Order::Equal) <==> value_order(b, a) == Some(Order::Equal),
        value_order(a, b) != Some(Order::Greater) && value_order(b, c) != Some(Order::Greater)
            ==> value_order(a, c) is Some && value_order(a, c) != Some(Order::Greater),
{
}

/// A NaN equals a NaN and sorts above every other float.
pub proof fn nan_sorts_last(nan: u64, x: u64)
    requires
        f64_is_nan(nan),
    ensures
        pg_float_order(nan, x) == (if f64_is_nan(x) {
            Order::Equal
        } else {
            Order::Greater
        }),
{
}

/// An empty conjunction matches every row, as the match-all predicate does.
pub proof fn empty_conjunction_matches_all(atoms: Vec<Atom>, row: Seq<AttrValue>)
    requires
        atoms@.len() == 0,
    ensures
        Predicate::And(atoms).holds(row),
        Predicate::All.holds(row),
{
}

/// Dropping terms from a conjunction only widens it.
pub proof fn fewer_terms_match_more(some: Vec<Atom>, all: Vec<Atom>, row: Seq<AttrValue>)
    requires
        forall|i: int| 0 <= i < some@.len() ==> all@.contains(#[trigger] some@[i]),
        Predicate::And(all).holds(row),
    ensures
        Predicate::And(some).holds(row),
{
    assert forall|i: int| 0 <= i < some@.len() implies (#[trigger] some@[i]).holds(row) by {
        let j = choose|j: int| 0 <= j < all@.len() && all@[j] == some@[i];
        assert(all@[j].holds(row));
    }
}

/// An integer column satisfies an equality term when it is that integer, and a
/// range term when it lies within the ends that are there: at or beyond an end
/// that belongs to the range, beyond one that does not.
pub proof fn integer_terms_compare_integers(
    row: Seq<AttrValue>,
    col: usize,
    x: i64,
    a: i64,
)
    requires
        col < row.len(),
        row[col as int] == AttrValue::Int(x),
    ensures
        (Atom::Eq { col, value: AttrValue::Int(a) }).holds(row) <==> x == a,
        (Atom::Range { col, lo: Bound::Unbounded, hi: Bound::Unbounded }).holds(row),
        (Atom::Range {
            col,
            lo: Bound::Included(AttrValue::Int(a)),
            hi: Bound::Unbounded,
        }).holds(row) <==> x >= a,
        (Atom::Range {
            col,
            lo: Bound::Excluded(AttrValue::Int(a)),
            hi: Bound::Unbounded,
        }).holds(row) <==> x > a,
        (Atom::Range {
            col,
            lo: Bound::Unbounded,
            hi: Bound::Included(AttrValue::Int(a)),
        }).holds(row) <==> x <= a,
        (Atom::Range {
            col,
            lo: Bound::Unbounded,
            hi: Bound::Excluded(AttrValue::Int(a)),
        }).holds(row) <==> x < a,
{
}

/// A float column satisfies an equality term when it is that number, the two
/// zeros being one number and all NaNs one, and a range term when it lies within
/// the ends that are there, a NaN being above every number.
pub proof fn float_terms_compare_numbers(row: Seq<AttrValue>, col: usize, x: u64, a: u64)
    requires
        col < row.len(),
        row[col as int] == AttrValue::Float(x),
    ensures
        ({
            let same = (f64_is_nan(x) && f64_is_nan(a)) || (!f64_is_nan(x) && !f64_is_nan(a)
                && f64_value(x) == f64_value(a));
            let above = !f64_is_nan(a) && (f64_is_nan(x) || f64_value(x) > f64_value(a));
            let end = AttrValue::Float(a);
            let none = Bound::Unbounded;
            &&& (Atom::Eq { col, value: end }).holds(row) <==> same
            &&& (Atom::Range { col, lo: none, hi: none }).holds(row)
            &&& (Atom::Range { col, lo: Bound::Included(end), hi: none }).holds(row) <==> above
                || same
            &&& (Atom::Range { col, lo: Bound::Excluded(end), hi: none }).holds(row) <==> above
            &&& (Atom::Range { col, lo: none, hi: Bound::Included(end) }).holds(row) <==> !above
            &&& (Atom::Range { col, lo: none, hi: Bound::Excluded(end) }).holds(row) <==> !above
                && !same
        }),
{
}

/// A range is what lies above its lower end and below its upper one.
pub proof fn ranges_are_both_their_halves(row: Seq<AttrValue>, col: usize, lo: Bound, hi: Bound)
    ensures
        (Atom::Range { col, lo, hi }).holds(row) <==> (Atom::Range {
            col,
            lo,
            hi: Bound::Unbounded,
        }).holds(row) && (Atom::Range { col, lo: Bound::Unbounded, hi }).holds(row),
{
}

/// A term reads its own column only: rows that agree there agree on the term,
/// whatever else they hold.
pub proof fn terms_read_their_column_only(atom: Atom, a: Seq<AttrValue>, b: Seq<AttrValue>)
    requires
        ({
            let col = match atom {
                Atom::Eq { col, .. } => col,
                Atom::Range { col, .. } => col,
            };
            col < a.len() && col < b.len() && a[col as int] == b[col as int]
        }),
    ensures
        atom.holds(a) <==> atom.holds(b),
{
}

/// A conjunction holds of a row when each of its terms does, however many there
/// are: adding a term asks for that term and changes nothing else.
pub proof fn conjunctions_ask_for_every_term(
    some: Vec<Atom>,
    more: Vec<Atom>,
    atom: Atom,
    row: Seq<AttrValue>,
)
    requires
        more@ == some@.push(atom),
    ensures
        Predicate::And(more).holds(row) <==> Predicate::And(some).holds(row) && atom.holds(row),
        Predicate::And(some).holds(row) <==> forall|i: int|
            0 <= i < some@.len() ==> (#[trigger] some@[i]).holds(row),
{
    if Predicate::And(more).holds(row) {
        assert(more@[some@.len() as int].holds(row));
        assert forall|i: int| 0 <= i < some@.len() implies (#[trigger] some@[i]).holds(row) by {
            assert(more@[i].holds(row));
        }
    }
    if Predicate::And(some).holds(row) && atom.holds(row) {
        assert forall|i: int| 0 <= i < more@.len() implies (#[trigger] more@[i]).holds(row) by {
            if i < some@.len() {
                assert(some@[i].holds(row));
            }
        }
    }
}

} // verus!
