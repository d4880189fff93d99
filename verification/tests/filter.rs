use brindle::filter::{Atom, AttrValue, Bound, Order, Predicate};

fn float(x: f64) -> AttrValue {
    AttrValue::Float(x.to_bits())
}

fn eq(col: usize, value: AttrValue) -> Atom {
    Atom::Eq { col, value }
}

fn range(col: usize, lo: Bound, hi: Bound) -> Atom {
    Atom::Range { col, lo, hi }
}

#[test]
fn eq_int_match_and_mismatch() {
    let row = [AttrValue::Int(42), AttrValue::Int(7)];
    assert!(eq(0, AttrValue::Int(42)).matches(&row));
    assert!(!eq(0, AttrValue::Int(43)).matches(&row));
    assert!(eq(1, AttrValue::Int(7)).matches(&row));
}

#[test]
fn eq_is_type_strict() {
    let row = [AttrValue::Int(42)];
    assert!(!eq(0, float(42.0)).matches(&row));
    let row = [float(1.5)];
    assert!(eq(0, float(1.5)).matches(&row));
    assert!(!eq(0, AttrValue::Int(1)).matches(&row));
}

#[test]
fn null_never_matches_equality() {
    let row = [AttrValue::Null];
    assert!(!eq(0, AttrValue::Null).matches(&row));
    assert!(!eq(0, AttrValue::Int(0)).matches(&row));
}

#[test]
fn nan_follows_postgres_ordering() {
    let nan = [float(f64::NAN)];

    assert!(eq(0, float(f64::NAN)).matches(&nan));
    assert!(!eq(0, float(1.0)).matches(&nan));

    assert!(range(0, Bound::Included(float(1.0)), Bound::Unbounded).matches(&nan));
    assert!(!range(
        0,
        Bound::Unbounded,
        Bound::Included(float(1e308))
    )
    .matches(&nan));
    assert!(range(0, Bound::Unbounded, Bound::Unbounded).matches(&nan));

    let one = [float(1.0)];
    assert!(range(
        0,
        Bound::Unbounded,
        Bound::Excluded(float(f64::NAN))
    )
    .matches(&one));
    assert!(!range(
        0,
        Bound::Included(float(f64::NAN)),
        Bound::Unbounded
    )
    .matches(&one));

    let neg_zero = [float(-0.0)];
    assert!(eq(0, float(0.0)).matches(&neg_zero));
    assert!(
        range(0, Bound::Included(float(0.0)), Bound::Unbounded).matches(&neg_zero)
    );
}

#[test]
fn range_inclusive_and_exclusive_bounds() {
    let row = [AttrValue::Int(50)];
    assert!(!range(0, Bound::Unbounded, Bound::Excluded(AttrValue::Int(50))).matches(&row));
    assert!(range(0, Bound::Unbounded, Bound::Included(AttrValue::Int(50))).matches(&row));
    assert!(range(
        0,
        Bound::Included(AttrValue::Int(10)),
        Bound::Excluded(AttrValue::Int(100))
    )
    .matches(&row));
    assert!(!range(0, Bound::Excluded(AttrValue::Int(50)), Bound::Unbounded).matches(&row));
}

#[test]
fn range_on_floats() {
    let row = [float(19.99)];
    assert!(range(0, Bound::Unbounded, Bound::Excluded(float(20.0))).matches(&row));
    assert!(!range(0, Bound::Included(float(20.0)), Bound::Unbounded).matches(&row));
}

#[test]
fn range_type_mismatch_and_null_fail() {
    let row = [AttrValue::Int(5)];
    assert!(!range(
        0,
        Bound::Included(float(0.0)),
        Bound::Included(float(10.0))
    )
    .matches(&row));
    let row = [AttrValue::Null];
    assert!(!range(0, Bound::Unbounded, Bound::Unbounded).matches(&row));
}

#[test]
fn unbounded_range_is_present_and_numeric() {
    assert!(range(0, Bound::Unbounded, Bound::Unbounded).matches(&[AttrValue::Int(0)]));
    assert!(range(0, Bound::Unbounded, Bound::Unbounded).matches(&[float(-1.0)]));
    assert!(!range(0, Bound::Unbounded, Bound::Unbounded).matches(&[AttrValue::Null]));
}

#[test]
fn missing_column_fails() {
    let row = [AttrValue::Int(1)];
    assert!(!eq(5, AttrValue::Int(1)).matches(&row));
    assert!(!range(5, Bound::Unbounded, Bound::Unbounded).matches(&row));
    assert!(!eq(0, AttrValue::Int(1)).matches(&[]));
}

#[test]
fn conjunction_requires_all_atoms() {
    let pred = Predicate::And(vec![
        eq(0, AttrValue::Int(42)),
        range(1, Bound::Unbounded, Bound::Excluded(AttrValue::Int(50))),
    ]);
    assert!(pred.matches(&[AttrValue::Int(42), AttrValue::Int(30)]));
    assert!(!pred.matches(&[AttrValue::Int(42), AttrValue::Int(50)]));
    assert!(!pred.matches(&[AttrValue::Int(1), AttrValue::Int(30)]));
    assert!(!pred.matches(&[AttrValue::Int(1), AttrValue::Int(99)]));
}

#[test]
fn all_and_empty_and_match_everything() {
    assert!(Predicate::All.matches(&[]));
    assert!(Predicate::All.matches(&[AttrValue::Null, AttrValue::Int(3)]));
    assert!(Predicate::And(vec![]).matches(&[AttrValue::Null]));
}

#[test]
fn values_order_within_their_type_only() {
    assert_eq!(
        AttrValue::Int(-3).order(&AttrValue::Int(2)),
        Some(Order::Less)
    );
    assert_eq!(float(2.5).order(&float(-1e300)), Some(Order::Greater));
    assert_eq!(float(-0.0).order(&float(0.0)), Some(Order::Equal));
    assert_eq!(float(f64::NAN).order(&float(-f64::NAN)), Some(Order::Equal));
    assert_eq!(float(1.0).order(&AttrValue::Int(1)), None);
    assert_eq!(AttrValue::Null.order(&AttrValue::Null), None);
    assert!(float(f64::NAN).is_orderable());
    assert!(!AttrValue::Null.is_orderable());
}

#[test]
fn equality_of_values_is_numeric() {
    assert!(float(0.0) == float(-0.0));
    assert!(float(f64::NAN) != float(f64::NAN));
    assert!(AttrValue::Null == AttrValue::Null);
    assert!(AttrValue::Int(1) != float(1.0));
}

#[test]
fn dropping_a_term_only_widens() {
    let terms = vec![
        eq(0, AttrValue::Int(1)),
        range(1, Bound::Included(float(0.5)), Bound::Unbounded),
    ];
    let rows = [
        [AttrValue::Int(1), float(0.75)],
        [AttrValue::Int(1), float(0.25)],
        [AttrValue::Int(2), float(0.75)],
        [AttrValue::Null, AttrValue::Null],
    ];
    let full = Predicate::And(terms.clone());
    for row in &rows {
        for keep in 0..terms.len() {
            if full.matches(row) {
                assert!(Predicate::And(vec![terms[keep]]).matches(row));
            }
        }
    }
    assert_eq!(rows.iter().filter(|r| full.matches(&r[..])).count(), 1);
}

#[test]
fn terms_name_their_column() {
    assert_eq!(eq(3, AttrValue::Null).col(), 3);
    assert_eq!(range(7, Bound::Unbounded, Bound::Unbounded).col(), 7);
}
