//! Filterable attribute columns: from a `WHERE` clause to a predicate.
//!
//! The vector is key column 1; every key column after it is a filterable
//! attribute, stored beside the vector. Values arrive as the machine words the
//! executor passes by value, with the number of their type.

use crate::filter::{all_hold, Atom, AttrValue, Bound, Predicate};
use crate::floats::{f64_is_nan, f64_value, same_number, widen};
use vstd::prelude::*;

verus! {

/// Strategy numbers, following the btree convention.
pub const STRATEGY_LT: u16 = 1;

pub const STRATEGY_LE: u16 = 2;

pub const STRATEGY_EQ: u16 = 3;

pub const STRATEGY_GE: u16 = 4;

pub const STRATEGY_GT: u16 = 5;

/// The highest strategy number any operator class uses.
pub const MAX_STRATEGY: u16 = 5;

/// Type numbers.
pub const BOOLOID: u32 = 16;

pub const INT8OID: u32 = 20;

pub const INT2OID: u32 = 21;

pub const INT4OID: u32 = 23;

pub const FLOAT4OID: u32 = 700;

pub const FLOAT8OID: u32 = 701;

/// The number that means no type.
pub const INVALID_OID: u32 = 0;

/// The signed number in the low `modulus` values of a word.
pub open spec fn low_signed(word: u64, modulus: int) -> int {
    let low = word as int % modulus;
    if low >= modulus / 2 {
        low - modulus
    } else {
        low
    }
}

/// Whether a type holds integers, booleans among them.
pub open spec fn integral(oid: u32) -> bool {
    oid == BOOLOID || oid == INT2OID || oid == INT4OID || oid == INT8OID
}

/// Whether a type holds floats.
pub open spec fn floating(oid: u32) -> bool {
    oid == FLOAT4OID || oid == FLOAT8OID
}

/// `value` is what a word of a type stands for. `None` where the index cannot
/// filter on the type.
pub open spec fn reads_as(oid: u32, word: u64, is_null: bool, value: Option<AttrValue>) -> bool {
    if is_null {
        value == Some(AttrValue::Null)
    } else if oid == BOOLOID {
        value == Some(AttrValue::Int(if word != 0 { 1 } else { 0 }))
    } else if oid == INT2OID {
        value == Some(AttrValue::Int(low_signed(word, 0x1_0000) as i64))
    } else if oid == INT4OID {
        value == Some(AttrValue::Int(low_signed(word, 0x1_0000_0000) as i64))
    } else if oid == INT8OID {
        value == Some(AttrValue::Int(low_signed(word, 0x1_0000_0000_0000_0000) as i64))
    } else if oid == FLOAT4OID {
        value matches Some(AttrValue::Float(bits)) && same_number(
            (word as int % 0x1_0000_0000) as u32,
            bits,
        )
    } else if oid == FLOAT8OID {
        value == Some(AttrValue::Float(word))
    } else {
        value is None
    }
}

/// The signed number in the low 16 or 32 bits of a word.
fn sign_extend(word: u64, modulus: i128) -> (r: i64)
    requires
        modulus == 0x1_0000 || modulus == 0x1_0000_0000 || modulus == 0x1_0000_0000_0000_0000,
    ensures
        r == low_signed(word, modulus as int),
{
    let low: i128 = word as i128 % modulus;
    if low >= modulus / 2 {
        (low - modulus) as i64
    } else {
        low as i64
    }
}

/// How many key columns follow the vector, of so many in all.
pub fn count(key_columns: usize) -> (r: usize)
    ensures
        r == (if key_columns == 0 {
            0
        } else {
            key_columns - 1
        }),
{
    if key_columns == 0 {
        0
    } else {
        key_columns - 1
    }
}

/// Convert one attribute value. A `NULL` is stored, not skipped: the row still
/// occupies a node, and every term fails for it. `None` means the type is not
/// one this index can filter on.
pub fn value_from_datum(oid: u32, word: u64, is_null: bool) -> (r: Option<AttrValue>)
    ensures
        reads_as(oid, word, is_null, r),
{
    if is_null {
        Some(AttrValue::Null)
    } else if oid == BOOLOID {
        Some(AttrValue::Int(if word != 0 { 1 } else { 0 }))
    } else if oid == INT2OID {
        Some(AttrValue::Int(sign_extend(word, 0x1_0000)))
    } else if oid == INT4OID {
        Some(AttrValue::Int(sign_extend(word, 0x1_0000_0000)))
    } else if oid == INT8OID {
        Some(AttrValue::Int(sign_extend(word, 0x1_0000_0000_0000_0000)))
    } else if oid == FLOAT4OID {
        Some(AttrValue::Float(widen((word % 0x1_0000_0000) as u32)))
    } else if oid == FLOAT8OID {
        Some(AttrValue::Float(word))
    } else {
        None
    }
}

/// Whether two types compare within one kind of value.
pub fn same_family(a: u32, b: u32) -> (r: bool)
    ensures
        r == ((integral(a) && integral(b)) || (floating(a) && floating(b))),
{
    let ia = a == BOOLOID || a == INT2OID || a == INT4OID || a == INT8OID;
    let ib = b == BOOLOID || b == INT2OID || b == INT4OID || b == INT8OID;
    let fa = a == FLOAT4OID || a == FLOAT8OID;
    let fb = b == FLOAT4OID || b == FLOAT8OID;
    (ia && ib) || (fa && fb)
}

/// A column whose type cannot be filtered on, by its index column number.
#[derive(Debug, Clone, Copy, PartialEq, Eq, Structural)]
pub struct UnfilterableColumn {
    pub column: usize,
    pub oid: u32,
}

impl UnfilterableColumn {
    /// The text a user sees.
    pub open spec fn text(self) -> Seq<char> {
        "column "@ + crate::text::decimal(self.column as nat) + " of the index has type "@
            + crate::text::decimal(self.oid as nat) + ", which cannot be filtered on"@
    }

    /// The text a user sees.
    pub fn message(&self) -> (s: String)
        ensures
            s@ == self.text(),
    {
        let mut s = String::new();
        s.append("column ");
        crate::text::push_decimal(&mut s, self.column as u64);
        s.append(" of the index has type ");
        crate::text::push_decimal(&mut s, self.oid as u64);
        s.append(", which cannot be filtered on");
        assert(s@ =~= self.text());
        s
    }
}

/// One value as the executor passes it.
#[derive(Debug, Clone, Copy)]
pub struct Word {
    pub word: u64,
    pub is_null: bool,
}

/// A column's type can be filtered on, or its value is `NULL`.
pub open spec fn readable(oid: u32, value: Word) -> bool {
    value.is_null || integral(oid) || floating(oid)
}

/// Read the attribute row of one tuple, in key-column order. `types` and
/// `values` are those of the attribute columns, which start at index column 2.
pub fn row_from_datums(types: &[u32], values: &[Word]) -> (r: Result<
    Vec<AttrValue>,
    UnfilterableColumn,
>)
    requires
        types@.len() <= values@.len(),
        types@.len() < usize::MAX - 2,
    ensures
        match r {
            Ok(row) => {
                &&& row@.len() == types@.len()
                &&& forall|i: int|
                    0 <= i < row@.len() ==> reads_as(
                        types@[i],
                        values@[i].word,
                        values@[i].is_null,
                        Some(#[trigger] row@[i]),
                    )
            },
            Err(e) => {
                &&& 2 <= e.column < types@.len() + 2
                &&& e.oid == types@[e.column - 2]
                &&& !readable(e.oid, values@[e.column - 2])
                &&& forall|i: int|
                    0 <= i < e.column - 2 ==> readable(#[trigger] types@[i], values@[i])
            },
        },
{
    let mut row: Vec<AttrValue> = Vec::new();
    let mut col: usize = 0;
    while col < types.len()
        invariant
            col <= types@.len() <= values@.len(),
            types@.len() < usize::MAX - 2,
            row@.len() == col,
            forall|i: int| 0 <= i < col ==> readable(#[trigger] types@[i], values@[i]),
            forall|i: int|
                0 <= i < col ==> reads_as(
                    types@[i],
                    values@[i].word,
                    values@[i].is_null,
                    Some(#[trigger] row@[i]),
                ),
        decreases types@.len() - col,
    {
        let value = values[col];
        match value_from_datum(types[col], value.word, value.is_null) {
            Some(v) => {
                row.push(v);
            },
            None => {
                return Err(UnfilterableColumn { column: col + 2, oid: types[col] });
            },
        }
        col += 1;
    }
    Ok(row)
}

/// Scan-key flags that keep a key from being a plain comparison.
pub const SK_ISNULL: u32 = 1;

pub const SK_ROW_HEADER: u32 = 4;

pub const SK_SEARCHARRAY: u32 = 32;

/// Whether a flag, a power of two, is set.
pub open spec fn flagged(flags: u32, flag: u32) -> bool {
    flags / flag % 2 == 1
}

/// A scan key: a comparison of an index column with an argument.
#[derive(Debug, Clone, Copy)]
pub struct ScanKey {
    pub flags: u32,
    /// Index column, starting at 1.
    pub attno: u16,
    pub strategy: u16,
    /// Type of the argument; none means the column's.
    pub subtype: u32,
    pub argument: u64,
}

impl ScanKey {
    /// The key is a plain comparison on an attribute column, with an argument of
    /// a type that compares with the column's.
    pub open spec fn plain(self, types: Seq<u32>) -> bool {
        &&& !flagged(self.flags, SK_ISNULL)
        &&& !flagged(self.flags, SK_ROW_HEADER)
        &&& !flagged(self.flags, SK_SEARCHARRAY)
        &&& 2 <= self.attno < types.len() + 2
        &&& STRATEGY_LT <= self.strategy <= STRATEGY_GT
        &&& {
            let column = types[self.attno - 2];
            let arg = self.argument_type(types);
            (integral(column) && integral(arg)) || (floating(column) && floating(arg))
        }
    }

    /// The argument's own type.
    pub open spec fn argument_type(self, types: Seq<u32>) -> u32 {
        if self.subtype == INVALID_OID {
            types[self.attno - 2]
        } else {
            self.subtype
        }
    }

    /// `atom` is the comparison this key makes with `value`.
    pub open spec fn compares(self, value: AttrValue, atom: Atom) -> bool {
        let col = (self.attno - 2) as usize;
        atom == (if self.strategy == STRATEGY_EQ {
            Atom::Eq { col, value }
        } else if self.strategy == STRATEGY_LT {
            Atom::Range { col, lo: Bound::Unbounded, hi: Bound::Excluded(value) }
        } else if self.strategy == STRATEGY_LE {
            Atom::Range { col, lo: Bound::Unbounded, hi: Bound::Included(value) }
        } else if self.strategy == STRATEGY_GT {
            Atom::Range { col, lo: Bound::Excluded(value), hi: Bound::Unbounded }
        } else {
            Atom::Range { col, lo: Bound::Included(value), hi: Bound::Unbounded }
        })
    }

    /// `atom` is what this key pushes down.
    pub open spec fn pushes(self, types: Seq<u32>, atom: Atom) -> bool {
        exists|value: AttrValue| #[trigger]
            reads_as(self.argument_type(types), self.argument, false, Some(value))
                && self.compares(value, atom)
    }
}

/// Whether a flag is set.
fn has_flag(flags: u32, flag: u32) -> (r: bool)
    requires
        flag > 0,
    ensures
        r == flagged(flags, flag),
{
    flags / flag % 2 == 1
}

/// Translate one scan key into a term over the attribute row. `None` means it
/// cannot be expressed, which the caller turns into a recheck.
pub fn atom_from_key(types: &[u32], key: &ScanKey) -> (r: Option<Atom>)
    ensures
        r is Some <==> key.plain(types@),
        r matches Some(atom) ==> key.pushes(types@, atom),
{
    if has_flag(key.flags, SK_ISNULL) || has_flag(key.flags, SK_ROW_HEADER) || has_flag(
        key.flags,
        SK_SEARCHARRAY,
    ) {
        return None;
    }
    // Column 1 is the vector; a key on it is an ordering key.
    if key.attno < 2 {
        return None;
    }
    let col: usize = key.attno as usize - 2;
    if col >= types.len() {
        return None;
    }
    // The argument is read as its own type: reading a four-byte argument as the
    // eight-byte column's would reinterpret it.
    let arg_type: u32 = if key.subtype == INVALID_OID { types[col] } else { key.subtype };
    let value = match value_from_datum(arg_type, key.argument, false) {
        Some(value) => value,
        None => {
            return None;
        },
    };
    if !same_family(types[col], arg_type) {
        return None;
    }
    let atom = match key.strategy {
        STRATEGY_EQ => Atom::Eq { col, value },
        STRATEGY_LT => Atom::Range { col, lo: Bound::Unbounded, hi: Bound::Excluded(value) },
        STRATEGY_LE => Atom::Range { col, lo: Bound::Unbounded, hi: Bound::Included(value) },
        STRATEGY_GT => Atom::Range { col, lo: Bound::Excluded(value), hi: Bound::Unbounded },
        STRATEGY_GE => Atom::Range { col, lo: Bound::Included(value), hi: Bound::Unbounded },
        _ => {
            return None;
        },
    };
    assert(key.compares(value, atom));
    Some(atom)
}

/// What a scan's keys became, and whether the executor still has to check them.
pub struct PushedPredicate {
    /// The terms the search can test for itself.
    pub predicate: Predicate,
    /// Whether some key could not be expressed, so that the scan returns a
    /// superset of the rows the query wants.
    pub recheck: bool,
}

/// The keys that can be pushed down, in order.
pub open spec fn plain_keys(types: Seq<u32>, keys: Seq<ScanKey>) -> Seq<ScanKey>
    decreases keys.len(),
{
    if keys.len() == 0 {
        keys
    } else if keys.last().plain(types) {
        plain_keys(types, keys.drop_last()).push(keys.last())
    } else {
        plain_keys(types, keys.drop_last())
    }
}

/// The terms of a predicate.
pub open spec fn terms(p: Predicate) -> Seq<Atom> {
    match p {
        Predicate::All => Seq::empty(),
        Predicate::And(atoms) => atoms@,
    }
}

/// `atoms` are what `keys` push down, one for one.
pub open spec fn pushed(types: Seq<u32>, keys: Seq<ScanKey>, atoms: Seq<Atom>) -> bool {
    &&& atoms.len() == keys.len()
    &&& forall|i: int| 0 <= i < keys.len() ==> keys[i].pushes(types, #[trigger] atoms[i])
}

/// Assemble the predicate a scan's keys describe. Dropping a key that cannot be
/// expressed only widens the conjunction, and a recheck makes up for it.
pub fn predicate_from_keys(types: &[u32], keys: &[ScanKey]) -> (r: PushedPredicate)
    ensures
        pushed(types@, plain_keys(types@, keys@), terms(r.predicate)),
        r.predicate is All <==> plain_keys(types@, keys@).len() == 0,
        r.recheck <==> exists|i: int| 0 <= i < keys@.len() && !(#[trigger] keys@[i]).plain(types@),
{
    let mut atoms: Vec<Atom> = Vec::new();
    let mut recheck = false;
    let mut i: usize = 0;
    assert(keys@.take(0) =~= Seq::<ScanKey>::empty());
    while i < keys.len()
        invariant
            i <= keys@.len(),
            pushed(types@, plain_keys(types@, keys@.take(i as int)), atoms@),
            recheck <==> exists|k: int| 0 <= k < i && !(#[trigger] keys@[k]).plain(types@),
        decreases keys@.len() - i,
    {
        let ghost head = keys@.take(i as int);
        let ghost before = atoms@;
        proof {
            assert(keys@.take(i + 1).drop_last() =~= head);
            assert(keys@.take(i + 1).last() == keys@[i as int]);
        }
        match atom_from_key(types, &keys[i]) {
            Some(atom) => {
                atoms.push(atom);
                proof {
                    let now = plain_keys(types@, keys@.take(i + 1));
                    assert forall|k: int| 0 <= k < now.len() implies now[k].pushes(
                        types@,
                        #[trigger] atoms@[k],
                    ) by {
                        if k < before.len() {
                            assert(atoms@[k] == before[k]);
                        }
                    }
                }
            },
            None => {
                recheck = true;
                assert(!keys@[i as int].plain(types@));
            },
        }
        i += 1;
    }
    assert(keys@.take(keys@.len() as int) =~= keys@);
    let predicate = if atoms.len() == 0 { Predicate::All } else { Predicate::And(atoms) };
    PushedPredicate { predicate, recheck }
}

/// A row for which every key holds satisfies the pushed predicate: the index
/// never loses a row the query wants. Whether a key holds is said of the terms
/// the keys push down.
pub proof fn pushdown_never_loses_rows(
    types: Seq<u32>,
    keys: Seq<ScanKey>,
    p: Predicate,
    row: Seq<AttrValue>,
)
    requires
        pushed(types, plain_keys(types, keys), terms(p)),
        forall|k: int, atom: Atom|
            0 <= k < keys.len() && keys[k].plain(types) && #[trigger] keys[k].pushes(types, atom)
                ==> atom.holds(row),
    ensures
        p.holds(row),
{
    let plain = plain_keys(types, keys);
    assert(all_hold(terms(p), row)) by {
        assert forall|i: int| 0 <= i < terms(p).len() implies (#[trigger] terms(p)[i]).holds(
            row,
        ) by {
            assert(plain[i].pushes(types, terms(p)[i]));
            let k = lemma_plain_member(types, keys, i);
            assert(keys[k].pushes(types, terms(p)[i]));
        }
    }
}

/// `key` is one of `keys`, and plain.
spec fn is_plain_member(types: Seq<u32>, keys: Seq<ScanKey>, key: ScanKey, k: int) -> bool {
    0 <= k < keys.len() && keys[k] == key && key.plain(types)
}

proof fn lemma_plain_member(types: Seq<u32>, keys: Seq<ScanKey>, i: int) -> (k: int)
    requires
        0 <= i < plain_keys(types, keys).len(),
    ensures
        is_plain_member(types, keys, plain_keys(types, keys)[i], k),
    decreases keys.len(),
{
    let before = plain_keys(types, keys.drop_last());
    if i < before.len() {
        lemma_plain_member(types, keys.drop_last(), i)
    } else {
        keys.len() - 1
    }
}

/// What a word stands for: nothing for a `NULL`; one or zero for a boolean; for
/// an integer of two, four or eight bytes the number of that size which the word
/// ends in; and for a float of eight bytes the word itself. Only a word of another
/// type stands for nothing that can be filtered on.
pub proof fn words_stand_for_their_values(oid: u32, word: u64, value: Option<AttrValue>, x: i64)
    requires
        reads_as(oid, word, false, value),
    ensures
        reads_as(oid, word, true, Some(AttrValue::Null)),
        oid == 16 ==> value == Some(AttrValue::Int(if word == 0 { 0 } else { 1 })),
        oid == 21 && value == Some(AttrValue::Int(x)) ==> -0x8000 <= x < 0x8000 && (word - x)
            % 0x1_0000 == 0,
        oid == 23 && value == Some(AttrValue::Int(x)) ==> -0x8000_0000 <= x < 0x8000_0000 && (word
            - x) % 0x1_0000_0000 == 0,
        oid == 20 && value == Some(AttrValue::Int(x)) ==> x == word || x == word
            - 0x1_0000_0000_0000_0000,
        oid == 16 || oid == 20 || oid == 21 || oid == 23 ==> value is Some && value->0 is Int,
        oid == 701 ==> value == Some(AttrValue::Float(word)),
        oid == 700 ==> (value matches Some(AttrValue::Float(bits)) && same_number(
            (word % 0x1_0000_0000) as u32,
            bits,
        )),
        value is None <==> !(oid == 16 || oid == 20 || oid == 21 || oid == 23 || oid == 700 || oid
            == 701),
{
}

/// Which keys are pushed down: those whose flags have none of the bits 1, 4 and
/// 32, on a column after the first that there is, with a strategy from 1 to 5, and
/// an argument whose type, the column's unless it is given, is of the column's
/// kind.
pub proof fn plain_comparisons_are_pushed_down(types: Seq<u32>, key: ScanKey)
    ensures
        key.plain(types) <==> {
            let column = types[key.attno - 2];
            let argument = if key.subtype == 0 {
                column
            } else {
                key.subtype
            };
            &&& key.flags % 2 == 0 && key.flags / 4 % 2 == 0 && key.flags / 32 % 2 == 0
            &&& 2 <= key.attno && key.attno - 2 < types.len()
            &&& 1 <= key.strategy <= 5
            &&& {
                ||| (column == 16 || column == 20 || column == 21 || column == 23) && (argument
                    == 16 || argument == 20 || argument == 21 || argument == 23)
                ||| (column == 700 || column == 701) && (argument == 700 || argument == 701)
            }
        },
{
}

/// A key pushed down on integers compares integers: strategies 1 to 5 are less,
/// less or equal, equal, greater or equal, and greater, of the column with the
/// argument.
pub proof fn pushed_keys_compare_integers(
    types: Seq<u32>,
    key: ScanKey,
    atom: Atom,
    row: Seq<AttrValue>,
    x: i64,
    a: i64,
)
    requires
        key.plain(types),
        key.pushes(types, atom),
        key.attno - 2 < row.len(),
        row[key.attno - 2] == AttrValue::Int(x),
        reads_as(
            if key.subtype == 0 {
                types[key.attno - 2]
            } else {
                key.subtype
            },
            key.argument,
            false,
            Some(AttrValue::Int(a)),
        ),
    ensures
        key.strategy == 1 ==> (atom.holds(row) <==> x < a),
        key.strategy == 2 ==> (atom.holds(row) <==> x <= a),
        key.strategy == 3 ==> (atom.holds(row) <==> x == a),
        key.strategy == 4 ==> (atom.holds(row) <==> x >= a),
        key.strategy == 5 ==> (atom.holds(row) <==> x > a),
{
    let value = choose|value: AttrValue| #[trigger]
        reads_as(key.argument_type(types), key.argument, false, Some(value)) && key.compares(
            value,
            atom,
        );
    assert(value == AttrValue::Int(a));
}

/// The same on floats of eight bytes, a NaN being equal to itself and above every
/// number.
pub proof fn pushed_keys_compare_floats(
    types: Seq<u32>,
    key: ScanKey,
    atom: Atom,
    row: Seq<AttrValue>,
    x: u64,
)
    requires
        key.plain(types),
        key.pushes(types, atom),
        key.subtype == 701 || (key.subtype == 0 && types[key.attno - 2] == 701),
        key.attno - 2 < row.len(),
        row[key.attno - 2] == AttrValue::Float(x),
    ensures
        ({
            let a = key.argument;
            let same = (f64_is_nan(x) && f64_is_nan(a)) || (!f64_is_nan(x) && !f64_is_nan(a)
                && f64_value(x) == f64_value(a));
            let above = !f64_is_nan(a) && (f64_is_nan(x) || f64_value(x) > f64_value(a));
            &&& key.strategy == 1 ==> (atom.holds(row) <==> !above && !same)
            &&& key.strategy == 2 ==> (atom.holds(row) <==> !above)
            &&& key.strategy == 3 ==> (atom.holds(row) <==> same)
            &&& key.strategy == 4 ==> (atom.holds(row) <==> above || same)
            &&& key.strategy == 5 ==> (atom.holds(row) <==> above)
        }),
{
    let value = choose|value: AttrValue| #[trigger]
        reads_as(key.argument_type(types), key.argument, false, Some(value)) && key.compares(
            value,
            atom,
        );
    assert(value == AttrValue::Float(key.argument));
}

/// Every plain key takes part in the pushed predicate: a row that satisfies the
/// predicate satisfies, for each of them, what it pushes down. So without a key
/// that needs a recheck, what the index returns is what the query wants.
pub proof fn pushdown_keeps_to_every_plain_key(
    types: Seq<u32>,
    keys: Seq<ScanKey>,
    p: Predicate,
    row: Seq<AttrValue>,
    k: int,
)
    requires
        pushed(types, plain_keys(types, keys), terms(p)),
        p.holds(row),
        0 <= k < keys.len(),
        keys[k].plain(types),
    ensures
        exists|atom: Atom| #[trigger] keys[k].pushes(types, atom) && atom.holds(row),
{
    let plain = plain_keys(types, keys);
    let i = lemma_member_is_plain(types, keys, k);
    assert(plain[i].pushes(types, terms(p)[i]));
    assert(terms(p)[i].holds(row)) by {
        match p {
            Predicate::All => {},
            Predicate::And(atoms) => {
                assert(atoms@[i].holds(row));
            },
        }
    }
}

proof fn lemma_member_is_plain(types: Seq<u32>, keys: Seq<ScanKey>, k: int) -> (i: int)
    requires
        0 <= k < keys.len(),
        keys[k].plain(types),
    ensures
        0 <= i < plain_keys(types, keys).len(),
        plain_keys(types, keys)[i] == keys[k],
    decreases keys.len(),
{
    let head = keys.drop_last();
    if k < head.len() {
        lemma_member_is_plain(types, head, k)
    } else {
        plain_keys(types, head).len() as int
    }
}

/// Attribute columns are all key columns but the first. Columns of boolean and
/// integer types compare with each other, and those of the two float types do; no
/// other types compare.
pub proof fn attribute_columns_and_families(
    key_columns: usize,
    attributes: usize,
    a: u32,
    b: u32,
    same: bool,
)
    requires
        call_ensures(count, (key_columns,), attributes),
        call_ensures(same_family, (a, b), same),
    ensures
        key_columns > 0 ==> attributes + 1 == key_columns,
        key_columns == 0 ==> attributes == 0,
        same <==> {
            ||| (a == 16 || a == 20 || a == 21 || a == 23) && (b == 16 || b == 20 || b == 21 || b
                == 23)
            ||| (a == 700 || a == 701) && (b == 700 || b == 701)
        },
{
}

} // verus!
