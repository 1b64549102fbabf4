// Round trips of the example hierarchy through real serde formats. The serde
// impls below drive the library's field collectors the way a generated
// `Deserialize` does: `route` each key, read the value only for a known
// field, skip the value of an unknown one, then `finish`.

use std::borrow::Cow;
use std::fmt;

use serde::de::{self, Deserializer, IgnoredAny, MapAccess, SeqAccess, Visitor};
use serde::ser::{SerializeStruct, Serializer};
use bincode::Options;
use serde::{Deserialize, Serialize};

use serde_fast_flatten::test_structs::fast_flatten::{
    test_value, AFields, BFields, CFields, DFields, A, B, C, D,
};
use serde_fast_flatten::FieldId;

/// A field identifier read from a deserializer.
struct Key<'de>(FieldId<'de>);

struct KeyVisitor;

impl<'de> Visitor<'de> for KeyVisitor {
    type Value = Key<'de>;

    fn expecting(&self, formatter: &mut fmt::Formatter) -> fmt::Result {
        formatter.write_str("field identifier")
    }

    fn visit_borrowed_str<E: de::Error>(self, v: &'de str) -> Result<Self::Value, E> {
        Ok(Key(FieldId::String(Cow::Borrowed(v))))
    }

    fn visit_string<E: de::Error>(self, v: String) -> Result<Self::Value, E> {
        Ok(Key(FieldId::String(Cow::Owned(v))))
    }

    fn visit_str<E: de::Error>(self, v: &str) -> Result<Self::Value, E> {
        Ok(Key(FieldId::String(Cow::Owned(v.to_string()))))
    }

    fn visit_borrowed_bytes<E: de::Error>(self, v: &'de [u8]) -> Result<Self::Value, E> {
        Ok(Key(FieldId::Bytes(Cow::Borrowed(v))))
    }

    fn visit_byte_buf<E: de::Error>(self, v: Vec<u8>) -> Result<Self::Value, E> {
        Ok(Key(FieldId::Bytes(Cow::Owned(v))))
    }

    fn visit_bytes<E: de::Error>(self, v: &[u8]) -> Result<Self::Value, E> {
        Ok(Key(FieldId::Bytes(Cow::Owned(v.to_vec()))))
    }

    fn visit_u64<E: de::Error>(self, v: u64) -> Result<Self::Value, E> {
        Ok(Key(FieldId::U64(v)))
    }
}

impl<'de> Deserialize<'de> for Key<'de> {
    fn deserialize<De: Deserializer<'de>>(deserializer: De) -> Result<Self, De::Error> {
        deserializer.deserialize_identifier(KeyVisitor)
    }
}

/// Wraps a value of the example hierarchy for serde.
#[derive(Debug, PartialEq)]
struct Wire<T>(T);

fn write_struct<S: Serializer>(
    serializer: S,
    name: &'static str,
    len: usize,
    fields: Vec<(&'static str, u64)>,
) -> Result<S::Ok, S::Error> {
    let mut s = serializer.serialize_struct(name, len)?;
    for (key, value) in fields {
        s.serialize_field(key, &value)?;
    }
    s.end()
}

impl Serialize for Wire<A> {
    fn serialize<S: Serializer>(&self, serializer: S) -> Result<S::Ok, S::Error> {
        let mut fields = Vec::new();
        self.0.serialize_fields(&mut fields);
        write_struct(serializer, "A", A::NUM_FIELDS, fields)
    }
}

impl Serialize for Wire<B> {
    fn serialize<S: Serializer>(&self, serializer: S) -> Result<S::Ok, S::Error> {
        let mut fields = Vec::new();
        self.0.serialize_fields(&mut fields);
        write_struct(serializer, "B", B::NUM_FIELDS, fields)
    }
}

impl Serialize for Wire<C> {
    fn serialize<S: Serializer>(&self, serializer: S) -> Result<S::Ok, S::Error> {
        let mut fields = Vec::new();
        self.0.serialize_fields(&mut fields);
        write_struct(serializer, "C", C::NUM_FIELDS, fields)
    }
}

impl Serialize for Wire<D> {
    fn serialize<S: Serializer>(&self, serializer: S) -> Result<S::Ok, S::Error> {
        let mut fields = Vec::new();
        self.0.serialize_fields(&mut fields);
        write_struct(serializer, "D", D::NUM_FIELDS, fields)
    }
}

struct AVisitor;

impl<'de> Visitor<'de> for AVisitor {
    type Value = Wire<A>;

    fn expecting(&self, formatter: &mut fmt::Formatter) -> fmt::Result {
        formatter.write_str("struct A")
    }

    fn visit_map<M: MapAccess<'de>>(self, mut map: M) -> Result<Self::Value, M::Error> {
        let mut fields = AFields::new();
        while let Some(Key(field)) = map.next_key::<Key<'de>>()? {
            match AFields::route(field) {
                Ok(slot) => fields.store(slot, map.next_value()?),
                Err(_field) => {
                    map.next_value::<IgnoredAny>()?;
                }
            }
        }
        fields.finish().map(Wire).map_err(de::Error::custom)
    }

    fn visit_seq<S: SeqAccess<'de>>(self, mut seq: S) -> Result<Self::Value, S::Error> {
        let num1 = seq.next_element()?;
        let b = if num1.is_some() {
            seq.next_element::<Wire<B>>()?.map(|w| w.0)
        } else {
            None
        };
        let d = if b.is_some() {
            seq.next_element::<Wire<D>>()?.map(|w| w.0)
        } else {
            None
        };
        A::from_elements(num1, b, d).map(Wire).map_err(de::Error::custom)
    }
}

impl<'de> Deserialize<'de> for Wire<A> {
    fn deserialize<De: Deserializer<'de>>(deserializer: De) -> Result<Self, De::Error> {
        deserializer.deserialize_struct("A", &["num1", "b", "d"], AVisitor)
    }
}

struct BVisitor;

impl<'de> Visitor<'de> for BVisitor {
    type Value = Wire<B>;

    fn expecting(&self, formatter: &mut fmt::Formatter) -> fmt::Result {
        formatter.write_str("struct B")
    }

    fn visit_map<M: MapAccess<'de>>(self, mut map: M) -> Result<Self::Value, M::Error> {
        let mut fields = BFields::new();
        while let Some(Key(field)) = map.next_key::<Key<'de>>()? {
            match BFields::route(field) {
                Ok(slot) => fields.store(slot, map.next_value()?),
                Err(_field) => {
                    map.next_value::<IgnoredAny>()?;
                }
            }
        }
        fields.finish().map(Wire).map_err(de::Error::custom)
    }

    fn visit_seq<S: SeqAccess<'de>>(self, mut seq: S) -> Result<Self::Value, S::Error> {
        let num2 = seq.next_element()?;
        let c = if num2.is_some() {
            seq.next_element::<Wire<C>>()?.map(|w| w.0)
        } else {
            None
        };
        B::from_elements(num2, c).map(Wire).map_err(de::Error::custom)
    }
}

impl<'de> Deserialize<'de> for Wire<B> {
    fn deserialize<De: Deserializer<'de>>(deserializer: De) -> Result<Self, De::Error> {
        deserializer.deserialize_struct("B", &["num2", "c"], BVisitor)
    }
}

struct CVisitor;

impl<'de> Visitor<'de> for CVisitor {
    type Value = Wire<C>;

    fn expecting(&self, formatter: &mut fmt::Formatter) -> fmt::Result {
        formatter.write_str("struct C")
    }

    fn visit_map<M: MapAccess<'de>>(self, mut map: M) -> Result<Self::Value, M::Error> {
        let mut fields = CFields::new();
        while let Some(Key(field)) = map.next_key::<Key<'de>>()? {
            match CFields::route(field) {
                Ok(slot) => fields.store(slot, map.next_value()?),
                Err(_field) => {
                    map.next_value::<IgnoredAny>()?;
                }
            }
        }
        fields.finish().map(Wire).map_err(de::Error::custom)
    }

    fn visit_seq<S: SeqAccess<'de>>(self, mut seq: S) -> Result<Self::Value, S::Error> {
        let num3 = seq.next_element()?;
        let num4 = if num3.is_some() {
            seq.next_element()?
        } else {
            None
        };
        C::from_elements(num3, num4).map(Wire).map_err(de::Error::custom)
    }
}

impl<'de> Deserialize<'de> for Wire<C> {
    fn deserialize<De: Deserializer<'de>>(deserializer: De) -> Result<Self, De::Error> {
        deserializer.deserialize_struct("C", &["num3", "num4"], CVisitor)
    }
}

struct DVisitor;

impl<'de> Visitor<'de> for DVisitor {
    type Value = Wire<D>;

    fn expecting(&self, formatter: &mut fmt::Formatter) -> fmt::Result {
        formatter.write_str("struct C")
    }

    fn visit_map<M: MapAccess<'de>>(self, mut map: M) -> Result<Self::Value, M::Error> {
        let mut fields = DFields::new();
        while let Some(Key(field)) = map.next_key::<Key<'de>>()? {
            match DFields::route(field) {
                Ok(slot) => fields.store(slot, map.next_value()?),
                Err(_field) => {
                    map.next_value::<IgnoredAny>()?;
                }
            }
        }
        fields.finish().map(Wire).map_err(de::Error::custom)
    }

    fn visit_seq<S: SeqAccess<'de>>(self, mut seq: S) -> Result<Self::Value, S::Error> {
        let num5 = seq.next_element()?;
        let num6 = if num5.is_some() {
            seq.next_element()?
        } else {
            None
        };
        D::from_elements(num5, num6).map(Wire).map_err(de::Error::custom)
    }
}

impl<'de> Deserialize<'de> for Wire<D> {
    fn deserialize<De: Deserializer<'de>>(deserializer: De) -> Result<Self, De::Error> {
        deserializer.deserialize_struct("D", &["num5", "num6"], DVisitor)
    }
}

/// What serde's own `#[serde(flatten)]` writes as JSON for the example value.
const SERDE_FLATTEN_JSON: &str = r#"{"num1":1,"num2":2,"num3":3,"num4":4,"num5":5,"num6":6}"#;

/// What serde's own `#[serde(flatten)]` writes as YAML for the example value.
const SERDE_FLATTEN_YAML: &str = "num1: 1\nnum2: 2\nnum3: 3\nnum4: 4\nnum5: 5\nnum6: 6\n";

#[test]
fn compat_json() {
    let fast_flatten = Wire(test_value());
    let fast_flatten = serde_json::to_string(&fast_flatten).unwrap();
    assert_eq!(fast_flatten, SERDE_FLATTEN_JSON)
}

#[test]
fn compat_yaml() {
    let fast_flatten = Wire(test_value());
    let fast_flatten = serde_yaml::to_string(&fast_flatten).unwrap();
    assert_eq!(fast_flatten, SERDE_FLATTEN_YAML)
}

#[test]
fn test_roundtrip_json() {
    let x = Wire(test_value());
    let s = serde_json::to_string(&x).unwrap();
    let y: Wire<A> = serde_json::from_str(&s).unwrap();
    assert_eq!(x, y);
    assert_eq!(s, SERDE_FLATTEN_JSON);
}

#[test]
fn test_roundtrip_yaml() {
    let x = Wire(test_value());
    let s = serde_yaml::to_string(&x).unwrap();
    let y: Wire<A> = serde_yaml::from_str(&s).unwrap();
    assert_eq!(x, y);
    assert_eq!(s, SERDE_FLATTEN_YAML);
}

#[test]
fn test_roundtrip_cbor() {
    let x = Wire(test_value());
    let s = serde_cbor::to_vec(&x).unwrap();
    let y: Wire<A> = serde_cbor::from_slice(&s).unwrap();
    assert_eq!(x, y);
    let mut expected = vec![0xa6];
    for i in 1..=6u8 {
        expected.extend_from_slice(&[0x64, b'n', b'u', b'm', b'0' + i, i]);
    }
    assert_eq!(s, expected);
}

#[test]
fn test_roundtrip_cbor_packed() {
    let x = Wire(test_value());
    let s = serde_cbor::ser::to_vec_packed(&x).unwrap();
    let y: Wire<A> = serde_cbor::from_slice(&s).unwrap();
    assert_eq!(x, y);
    assert_eq!(s, vec![0xa6, 0, 1, 1, 2, 2, 3, 3, 4, 4, 5, 5, 6]);
}

#[test]
fn test_roundtrip_bincode() {
    let x = Wire(test_value());
    let s = bincode::serialize(&x).unwrap();
    let y: Wire<A> = bincode::deserialize(&s).unwrap();
    assert_eq!(x, y);
    let mut expected = Vec::new();
    for i in 1..=6u64 {
        expected.extend_from_slice(&i.to_le_bytes());
    }
    assert_eq!(s, expected);
}

#[test]
fn test_roundtrip_bincode_compact() {
    let opts = bincode::DefaultOptions::new();
    let x = Wire(test_value());
    let s = opts.serialize(&x).unwrap();
    let y: Wire<A> = opts.deserialize(&s).unwrap();
    assert_eq!(x, y);
    assert_eq!(s, vec![1, 2, 3, 4, 5, 6]);
}

#[test]
fn test_roundtrip_bitcode() {
    let x = Wire(test_value());
    let s = bitcode::serialize(&x).unwrap();
    let y: Wire<A> = bitcode::deserialize(&s).unwrap();
    assert_eq!(x, y);
    assert_eq!(bitcode::serialize(&y).unwrap(), s);
}

#[test]
fn json_fields_in_any_order_and_unknown_fields() {
    let s = r#"{"num6":6,"extra":[1,2],"num4":4,"num1":1,"num3":3,"num5":5,"num2":2}"#;
    let y: Wire<A> = serde_json::from_str(s).unwrap();
    assert_eq!(y, Wire(test_value()));
}

#[test]
fn json_later_value_replaces_earlier() {
    let s = r#"{"num1":9,"num2":2,"num3":3,"num4":4,"num5":5,"num6":6,"num1":1}"#;
    let y: Wire<A> = serde_json::from_str(s).unwrap();
    assert_eq!(y, Wire(test_value()));
}

#[test]
fn json_missing_field_is_reported() {
    let s = r#"{"num1":1,"num2":2,"num4":4,"num5":5}"#;
    let err = serde_json::from_str::<Wire<A>>(s).unwrap_err();
    assert!(err.to_string().starts_with("missing field `num3`"), "{}", err);
}

#[test]
fn cbor_by_position_in_any_order() {
    // A map {5: 6, 0: 1, 4: 5, 1: 2, 3: 4, 2: 3}.
    let s = vec![0xa6, 5, 6, 0, 1, 4, 5, 1, 2, 3, 4, 2, 3];
    let y: Wire<A> = serde_cbor::from_slice(&s).unwrap();
    assert_eq!(y, Wire(test_value()));
}

#[test]
fn cbor_by_name_bytes() {
    // A map whose keys are the names as byte strings.
    let mut s = vec![0xa6];
    for i in 1..=6u8 {
        s.extend_from_slice(&[0x44, b'n', b'u', b'm', b'0' + i, i]);
    }
    let y: Wire<A> = serde_cbor::from_slice(&s).unwrap();
    assert_eq!(y, Wire(test_value()));
}

#[test]
fn bincode_short_input_reports_error() {
    let s = vec![1u8, 2, 3];
    assert!(bincode::DefaultOptions::new()
        .deserialize::<Wire<A>>(&s)
        .is_err());
}
