use std::borrow::Cow;

use serde_fast_flatten::test_structs::fast_flatten::{
    test_value, AFields, ASlot, BFields, BSlot, CFields, CSlot, DFields, DSlot, A, B, C, D,
};
use serde_fast_flatten::test_structs::serde_flatten;
use serde_fast_flatten::FieldId;

fn name(s: &str) -> FieldId<'_> {
    FieldId::String(Cow::Borrowed(s))
}

fn left_over(r: Result<ASlot, FieldId>) -> Option<u64> {
    match r {
        Err(FieldId::U64(n)) => Some(n),
        _ => None,
    }
}

#[test]
fn num_fields() {
    assert_eq!(C::NUM_FIELDS, 2);
    assert_eq!(D::NUM_FIELDS, 2);
    assert_eq!(B::NUM_FIELDS, 3);
    assert_eq!(A::NUM_FIELDS, 6);
}

#[test]
fn serialize_fields_writes_leaves_in_order() {
    let mut out = Vec::new();
    test_value().serialize_fields(&mut out);
    assert_eq!(
        out,
        vec![("num1", 1), ("num2", 2), ("num3", 3), ("num4", 4), ("num5", 5), ("num6", 6)]
    );
    let mut out = vec![("x", 0)];
    C { num3: 7, num4: 8 }.serialize_fields(&mut out);
    assert_eq!(out, vec![("x", 0), ("num3", 7), ("num4", 8)]);
}

#[test]
fn route_by_name() {
    assert_eq!(AFields::route(name("num1")).ok(), Some(ASlot::Num1));
    assert_eq!(AFields::route(name("num2")).ok(), Some(ASlot::B(BSlot::Num2)));
    assert_eq!(AFields::route(name("num3")).ok(), Some(ASlot::B(BSlot::C(CSlot::Num3))));
    assert_eq!(AFields::route(name("num4")).ok(), Some(ASlot::B(BSlot::C(CSlot::Num4))));
    assert_eq!(AFields::route(name("num5")).ok(), Some(ASlot::D(DSlot::Num5)));
    assert_eq!(AFields::route(name("num6")).ok(), Some(ASlot::D(DSlot::Num6)));
    match AFields::route(name("num7")) {
        Err(FieldId::String(s)) => assert_eq!(s, "num7"),
        other => panic!("unexpected {:?}", other),
    }
}

#[test]
fn route_by_bytes() {
    let slot = AFields::route(FieldId::Bytes(Cow::Borrowed(b"num5"))).ok();
    assert_eq!(slot, Some(ASlot::D(DSlot::Num5)));
    assert!(AFields::route(FieldId::Bytes(Cow::Borrowed(b"b"))).is_err());
}

#[test]
fn route_by_position() {
    let expected = [
        ASlot::Num1,
        ASlot::B(BSlot::Num2),
        ASlot::B(BSlot::C(CSlot::Num3)),
        ASlot::B(BSlot::C(CSlot::Num4)),
        ASlot::D(DSlot::Num5),
        ASlot::D(DSlot::Num6),
    ];
    for (i, slot) in expected.iter().enumerate() {
        assert_eq!(AFields::route(FieldId::U64(i as u64)).ok(), Some(*slot));
    }
    assert_eq!(left_over(AFields::route(FieldId::U64(6))), Some(0));
    assert_eq!(left_over(AFields::route(FieldId::U64(10))), Some(4));
    assert_eq!(BFields::route(FieldId::U64(2)).ok(), Some(BSlot::C(CSlot::Num4)));
    assert_eq!(CFields::route(FieldId::U64(1)).ok(), Some(CSlot::Num4));
    assert_eq!(DFields::route(FieldId::U64(0)).ok(), Some(DSlot::Num5));
    match CFields::route(FieldId::U64(5)) {
        Err(FieldId::U64(n)) => assert_eq!(n, 3),
        other => panic!("unexpected {:?}", other),
    }
}

#[test]
fn store_then_finish() {
    let mut fields = AFields::default();
    for (i, v) in [10u64, 20, 30, 40, 50, 60].iter().enumerate() {
        let slot = AFields::route(FieldId::U64(i as u64)).ok().unwrap();
        fields.store(slot, *v);
    }
    let a = fields.finish().unwrap();
    let mut out = Vec::new();
    a.serialize_fields(&mut out);
    let values: Vec<u64> = out.iter().map(|e| e.1).collect();
    assert_eq!(values, vec![10, 20, 30, 40, 50, 60]);
}

#[test]
fn store_replaces_value() {
    let mut fields = CFields::new();
    fields.store(CSlot::Num3, 1);
    fields.store(CSlot::Num3, 2);
    fields.store(CSlot::Num4, 3);
    assert_eq!(fields.finish(), Ok(C { num3: 2, num4: 3 }));
}

#[test]
fn finish_reports_first_missing_field() {
    assert_eq!(AFields::new().finish(), Err("missing field `num1`".to_string()));
    let mut fields = AFields::new();
    fields.store(ASlot::Num1, 1);
    fields.store(ASlot::D(DSlot::Num5), 5);
    assert_eq!(fields.finish(), Err("missing field `num2`".to_string()));
    let mut fields = AFields::new();
    for slot in [ASlot::Num1, ASlot::B(BSlot::Num2), ASlot::B(BSlot::C(CSlot::Num3))] {
        fields.store(slot, 0);
    }
    assert_eq!(fields.finish(), Err("missing field `num4`".to_string()));
    let mut fields = DFields::new();
    fields.store(DSlot::Num5, 0);
    assert_eq!(fields.finish(), Err("missing field `num6`".to_string()));
    let mut fields = BFields::new();
    fields.store(BSlot::C(CSlot::Num3), 0);
    fields.store(BSlot::C(CSlot::Num4), 0);
    assert_eq!(fields.finish(), Err("missing field `num2`".to_string()));
}

#[test]
fn from_elements_in_order() {
    let c = C::from_elements(Some(3), Some(4)).unwrap();
    let b = B::from_elements(Some(2), Some(c)).unwrap();
    let d = D::from_elements(Some(5), Some(6)).unwrap();
    assert_eq!(A::from_elements(Some(1), Some(b), Some(d)), Ok(test_value()));
}

#[test]
fn from_elements_reports_missing() {
    assert_eq!(C::from_elements(None, Some(4)), Err("missing field `num3`".to_string()));
    assert_eq!(C::from_elements(Some(3), None), Err("missing field `num4`".to_string()));
    assert_eq!(D::from_elements(Some(5), None), Err("missing field `num6`".to_string()));
    assert_eq!(B::from_elements(Some(2), None), Err("missing field `c`".to_string()));
    assert_eq!(B::from_elements(None, None), Err("missing field `num2`".to_string()));
    assert_eq!(A::from_elements(Some(1), None, None), Err("missing field `b`".to_string()));
    let b = B::from_elements(Some(2), C::from_elements(Some(3), Some(4)).ok()).unwrap();
    assert_eq!(A::from_elements(Some(1), Some(b), None), Err("missing field `d`".to_string()));
    assert_eq!(A::from_elements(None, None, None), Err("missing field `num1`".to_string()));
}

#[test]
fn test_values() {
    let a = test_value();
    assert_eq!(a.num1, 1);
    assert_eq!(a.b, B { num2: 2, c: C { num3: 3, num4: 4 } });
    assert_eq!(a.d, D { num5: 5, num6: 6 });
    let s = serde_flatten::test_value();
    assert_eq!(s.num1, 1);
    assert_eq!(s.b.num2, 2);
    assert_eq!((s.b.c.num3, s.b.c.num4), (3, 4));
    assert_eq!((s.d.num5, s.d.num6), (5, 6));
}
