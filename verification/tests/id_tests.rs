//! Tests for align point identities and the alignment element.

use align_engine::{AlignPointElem, AlignPointId, UniqueIdSource};
use align_engine::id::id_eq;

#[test]
fn named_ids_compare_by_name() {
    let a = AlignPointId::Named(String::from("decimal"));
    let b = AlignPointId::Named(String::from("decimal"));
    let c = AlignPointId::Named(String::from("equals"));
    assert!(id_eq(&a, &b));
    assert!(!id_eq(&a, &c));
}

#[test]
fn unique_ids_compare_by_token() {
    let mut source = UniqueIdSource::new();
    let a = source.fresh();
    let b = source.fresh();
    assert!(!id_eq(&a, &b));
    assert!(id_eq(&a, &a.clone()));
}

#[test]
fn named_and_unique_ids_never_match() {
    let mut source = UniqueIdSource::new();
    let u = source.fresh();
    let n = AlignPointId::Named(String::from("0"));
    assert!(!id_eq(&u, &n));
}

#[test]
fn elem_aligns_on_both_axes_by_default() {
    let elem = AlignPointElem::new(String::from("baseline"));
    assert!(elem.horizontal);
    assert!(elem.vertical);
    assert!(id_eq(&elem.id(), &AlignPointId::Named(String::from("baseline"))));
}
