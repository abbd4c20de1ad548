use mordant::stored_projection::{bijective, Val};

fn lit(s: &str) -> Val {
    Val::Lit(s.to_string())
}

#[test]
fn one_for_one_is_bijective() {
    let (a, b) = (vec![lit("x"), lit("y")], vec![lit("1"), lit("2")]);
    let (ar, br): (Vec<&Val>, Vec<&Val>) = (a.iter().collect(), b.iter().collect());
    assert!(bijective(&ar, &br));
}

/// The same left value beside two different right values is the whole point:
/// the pairing is not a function and the field is not a projection.
#[test]
fn a_repeated_left_with_two_rights_is_not() {
    let (a, b) = (vec![lit("x"), lit("x")], vec![lit("1"), lit("2")]);
    let (ar, br): (Vec<&Val>, Vec<&Val>) = (a.iter().collect(), b.iter().collect());
    assert!(!bijective(&ar, &br));
}

/// And the reverse direction, which a one-way functional check would pass.
#[test]
fn two_lefts_sharing_one_right_is_not() {
    let (a, b) = (vec![lit("x"), lit("y")], vec![lit("1"), lit("1")]);
    let (ar, br): (Vec<&Val>, Vec<&Val>) = (a.iter().collect(), b.iter().collect());
    assert!(!bijective(&ar, &br));
}

/// A bare literal decides nothing: a column of them is in bijection with its
/// neighbour whenever a short table's rows differ.
#[test]
fn bare_literals_decide_nothing() {
    assert!(!lit("1").decides());
}

/// Nor does a constant this crate named.
#[test]
fn a_named_constant_decides_nothing() {
    let c = Val::NamedConst { at: (0, 7), local: true };
    assert!(!c.decides());
}

/// A foreign variant is `Some`/`None`, which is another lint's shape.
#[test]
fn a_foreign_variant_decides_nothing() {
    let v = Val::Variant { at: (2, 7), local: false };
    assert!(!v.decides());
}

#[test]
fn a_local_enum_variant_decides() {
    let v = Val::Variant { at: (0, 7), local: true };
    assert!(v.decides());
}

#[test]
fn agreement_goes_both_ways() {
    let (a, b) = (vec![lit("x"), lit("y"), lit("x")], vec![lit("1"), lit("2"), lit("1")]);
    let (ar, br): (Vec<&Val>, Vec<&Val>) = (a.iter().collect(), b.iter().collect());
    assert!(bijective(&ar, &br));
    assert!(bijective(&br, &ar));
}
