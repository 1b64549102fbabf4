//! A hierarchy `A { num1, b: B { num2, c: C { num3, num4 } }, d: D { num5, num6 } }`
//! in which `b`, `c` and `d` are flattened into their parents: on the wire `A`
//! is a struct of the six fields `num1` to `num6`.
//!
//! Each struct has a field collector (`AFields`, ...) that a deserializer
//! drives: `route` says which leaf slot a field identifier picks (or hands
//! back the identifier, shifted past this struct, when it picks none),
//! `store` puts a value in a slot, and `finish` builds the struct or names
//! the first field that received no value.
use vstd::prelude::*;

use vstd::utf8::encode_utf8;

use crate::identifier::{FieldId, FieldKey};
use crate::layout::{
    byte_named_pairs, distinct_names, empty_slots, entries, entry_view, feed, filled,
    first_match, first_missing, indexed_pairs, lemma_byte_named_roundtrip,
    lemma_feed_order_irrelevant, lemma_first_match_concat, lemma_first_match_is_first,
    lemma_first_missing_concat, lemma_first_missing_is_first, lemma_indexed_roundtrip,
    lemma_named_roundtrip, missing_field, named_pairs, unwrap_all,
};
use crate::plan::{missing_field_message, wire_before};

verus! {

// ---------------------------------------------------------------- C

#[derive(PartialEq, Eq, Debug, Structural)]
pub struct C {
    pub num3: u64,
    pub num4: u64,
}

/// A leaf field of `C`.
#[derive(Clone, Copy, PartialEq, Eq, Debug, Structural)]
pub enum CSlot {
    Num3,
    Num4,
}

/// The values collected so far for the fields of `C`.
#[derive(Debug)]
pub struct CFields {
    pub num3: Option<u64>,
    pub num4: Option<u64>,
}

impl View for C {
    type V = Seq<u64>;

    /// The leaf values, in serialization order.
    open spec fn view(&self) -> Seq<u64> {
        seq![self.num3, self.num4]
    }
}

impl View for CFields {
    type V = Seq<Option<u64>>;

    open spec fn view(&self) -> Seq<Option<u64>> {
        seq![self.num3, self.num4]
    }
}

impl CSlot {
    /// The slot's position among the leaf fields of `C`.
    pub open spec fn index(self) -> int {
        match self {
            CSlot::Num3 => 0,
            CSlot::Num4 => 1,
        }
    }
}

impl C {
    /// The number of fields `C` puts on the wire.
    pub const NUM_FIELDS: usize = 2;

    /// The names of the leaf fields of `C`, in serialization order.
    pub open spec fn names() -> Seq<Seq<char>> {
        seq!["num3"@, "num4"@]
    }

    /// Appends the `(name, value)` pairs of the fields of `C` to `out`.
    pub fn serialize_fields(&self, out: &mut Vec<(&'static str, u64)>)
        ensures
            final(out)@.map_values(|e: (&str, u64)| entry_view(e)) == old(out)@.map_values(
                |e: (&str, u64)| entry_view(e),
            ) + entries(C::names(), self@),
    {
        out.push(("num3", self.num3));
        out.push(("num4", self.num4));
        proof {
            assert(final(out)@.map_values(|e: (&str, u64)| entry_view(e)) =~= old(out)@.map_values(
                |e: (&str, u64)| entry_view(e),
            ) + entries(C::names(), self@));
        }
    }

    /// Builds a `C` from its fields read in order from a sequence.
    pub fn from_elements(num3: Option<u64>, num4: Option<u64>) -> (res: Result<C, String>)
        ensures
            match (num3, num4) {
                (Some(v3), Some(v4)) => res == Ok::<C, String>(C { num3: v3, num4: v4 }),
                (None, _) => res matches Err(m) && m@ == missing_field("num3"@),
                (Some(_), None) => res matches Err(m) && m@ == missing_field("num4"@),
            },
    {
        let num3 = match num3 {
            Some(v) => v,
            None => return Err(missing_field_message("num3")),
        };
        let num4 = match num4 {
            Some(v) => v,
            None => return Err(missing_field_message("num4")),
        };
        Ok(C { num3, num4 })
    }
}

impl CFields {
    /// A collector that holds no value yet.
    pub fn new() -> (res: CFields)
        ensures
            res@ == empty_slots(2),
    {
        let res = CFields { num3: None, num4: None };
        assert(res@ =~= empty_slots(2));
        res
    }

    /// The slot that `field` picks among the fields of `C`, or, if it picks
    /// none, the identifier shifted past the two fields of `C`.
    pub fn route<'de>(field: FieldId<'de>) -> (res: Result<CSlot, FieldId<'de>>)
        ensures
            match res {
                Ok(s) => first_match(field@, C::names()) == Some(s.index()),
                Err(f) => {
                    &&& first_match(field@, C::names()) is None
                    &&& f@ == field@.offset(2)
                    &&& !(field is U64) ==> f == field
                },
            },
    {
        proof {
            reveal_with_fuel(first_match, 3);
            assert(C::names().drop_first().drop_first() =~= Seq::<Seq<char>>::empty());
        }
        if field.borrow().designates("num3", 0) {
            return Ok(CSlot::Num3);
        }
        if field.borrow().designates("num4", 1) {
            return Ok(CSlot::Num4);
        }
        proof {
            crate::identifier::lemma_offset_offset(field@, 1, 1);
        }
        Err(field.offset(2))
    }

    /// Puts `value` in `slot`, replacing what it held.
    pub fn store(&mut self, slot: CSlot, value: u64)
        ensures
            final(self)@ == old(self)@.update(slot.index(), Some(value)),
    {
        match slot {
            CSlot::Num3 => self.num3 = Some(value),
            CSlot::Num4 => self.num4 = Some(value),
        }
        proof {
            assert(final(self)@ =~= old(self)@.update(slot.index(), Some(value)));
        }
    }

    /// Builds the `C` from the collected values, or reports the first field
    /// that received none.
    pub fn finish(self) -> (res: Result<C, String>)
        ensures
            match (res, first_missing(self@)) {
                (Ok(c), None) => c@ == unwrap_all(self@),
                (Err(m), Some(j)) => m@ == missing_field(C::names()[j]),
                _ => false,
            },
    {
        let res = C::from_elements(self.num3, self.num4);
        proof {
            reveal_with_fuel(first_missing, 3);
            assert(self@.drop_first().drop_first() =~= Seq::<Option<u64>>::empty());
            if res is Ok {
                assert(res->Ok_0@ =~= unwrap_all(self@));
            }
        }
        res
    }
}

impl Default for CFields {
    fn default() -> (res: CFields)
        ensures
            res@ == empty_slots(2),
    {
        CFields::new()
    }
}

// ---------------------------------------------------------------- D

#[derive(PartialEq, Eq, Debug, Structural)]
pub struct D {
    pub num5: u64,
    pub num6: u64,
}

/// A leaf field of `D`.
#[derive(Clone, Copy, PartialEq, Eq, Debug, Structural)]
pub enum DSlot {
    Num5,
    Num6,
}

/// The values collected so far for the fields of `D`.
#[derive(Debug)]
pub struct DFields {
    pub num5: Option<u64>,
    pub num6: Option<u64>,
}

impl View for D {
    type V = Seq<u64>;

    /// The leaf values, in serialization order.
    open spec fn view(&self) -> Seq<u64> {
        seq![self.num5, self.num6]
    }
}

impl View for DFields {
    type V = Seq<Option<u64>>;

    open spec fn view(&self) -> Seq<Option<u64>> {
        seq![self.num5, self.num6]
    }
}

impl DSlot {
    /// The slot's position among the leaf fields of `D`.
    pub open spec fn index(self) -> int {
        match self {
            DSlot::Num5 => 0,
            DSlot::Num6 => 1,
        }
    }
}

impl D {
    /// The number of fields `D` puts on the wire.
    pub const NUM_FIELDS: usize = 2;

    /// The names of the leaf fields of `D`, in serialization order.
    pub open spec fn names() -> Seq<Seq<char>> {
        seq!["num5"@, "num6"@]
    }

    /// Appends the `(name, value)` pairs of the fields of `D` to `out`.
    pub fn serialize_fields(&self, out: &mut Vec<(&'static str, u64)>)
        ensures
            final(out)@.map_values(|e: (&str, u64)| entry_view(e)) == old(out)@.map_values(
                |e: (&str, u64)| entry_view(e),
            ) + entries(D::names(), self@),
    {
        out.push(("num5", self.num5));
        out.push(("num6", self.num6));
        proof {
            assert(final(out)@.map_values(|e: (&str, u64)| entry_view(e)) =~= old(out)@.map_values(
                |e: (&str, u64)| entry_view(e),
            ) + entries(D::names(), self@));
        }
    }

    /// Builds a `D` from its fields read in order from a sequence.
    pub fn from_elements(num5: Option<u64>, num6: Option<u64>) -> (res: Result<D, String>)
        ensures
            match (num5, num6) {
                (Some(v5), Some(v6)) => res == Ok::<D, String>(D { num5: v5, num6: v6 }),
                (None, _) => res matches Err(m) && m@ == missing_field("num5"@),
                (Some(_), None) => res matches Err(m) && m@ == missing_field("num6"@),
            },
    {
        let num5 = match num5 {
            Some(v) => v,
            None => return Err(missing_field_message("num5")),
        };
        let num6 = match num6 {
            Some(v) => v,
            None => return Err(missing_field_message("num6")),
        };
        Ok(D { num5, num6 })
    }
}

impl DFields {
    /// A collector that holds no value yet.
    pub fn new() -> (res: DFields)
        ensures
            res@ == empty_slots(2),
    {
        let res = DFields { num5: None, num6: None };
        assert(res@ =~= empty_slots(2));
        res
    }

    /// The slot that `field` picks among the fields of `D`, or, if it picks
    /// none, the identifier shifted past the two fields of `D`.
    pub fn route<'de>(field: FieldId<'de>) -> (res: Result<DSlot, FieldId<'de>>)
        ensures
            match res {
                Ok(s) => first_match(field@, D::names()) == Some(s.index()),
                Err(f) => {
                    &&& first_match(field@, D::names()) is None
                    &&& f@ == field@.offset(2)
                    &&& !(field is U64) ==> f == field
                },
            },
    {
        proof {
            reveal_with_fuel(first_match, 3);
            assert(D::names().drop_first().drop_first() =~= Seq::<Seq<char>>::empty());
        }
        if field.borrow().designates("num5", 0) {
            return Ok(DSlot::Num5);
        }
        if field.borrow().designates("num6", 1) {
            return Ok(DSlot::Num6);
        }
        proof {
            crate::identifier::lemma_offset_offset(field@, 1, 1);
        }
        Err(field.offset(2))
    }

    /// Puts `value` in `slot`, replacing what it held.
    pub fn store(&mut self, slot: DSlot, value: u64)
        ensures
            final(self)@ == old(self)@.update(slot.index(), Some(value)),
    {
        match slot {
            DSlot::Num5 => self.num5 = Some(value),
            DSlot::Num6 => self.num6 = Some(value),
        }
        proof {
            assert(final(self)@ =~= old(self)@.update(slot.index(), Some(value)));
        }
    }

    /// Builds the `D` from the collected values, or reports the first field
    /// that received none.
    pub fn finish(self) -> (res: Result<D, String>)
        ensures
            match (res, first_missing(self@)) {
                (Ok(c), None) => c@ == unwrap_all(self@),
                (Err(m), Some(j)) => m@ == missing_field(D::names()[j]),
                _ => false,
            },
    {
        let res = D::from_elements(self.num5, self.num6);
        proof {
            reveal_with_fuel(first_missing, 3);
            assert(self@.drop_first().drop_first() =~= Seq::<Option<u64>>::empty());
            if res is Ok {
                assert(res->Ok_0@ =~= unwrap_all(self@));
            }
        }
        res
    }
}

impl Default for DFields {
    fn default() -> (res: DFields)
        ensures
            res@ == empty_slots(2),
    {
        DFields::new()
    }
}


// ---------------------------------------------------------------- B

#[derive(PartialEq, Eq, Debug, Structural)]
pub struct B {
    pub num2: u64,
    /// Flattened into `B`.
    pub c: C,
}

/// A leaf field of `B`.
#[derive(Clone, Copy, PartialEq, Eq, Debug, Structural)]
pub enum BSlot {
    Num2,
    C(CSlot),
}

/// The values collected so far for the fields of `B`.
#[derive(Debug)]
pub struct BFields {
    pub num2: Option<u64>,
    pub c: CFields,
}

impl View for B {
    type V = Seq<u64>;

    open spec fn view(&self) -> Seq<u64> {
        seq![self.num2] + self.c@
    }
}

impl View for BFields {
    type V = Seq<Option<u64>>;

    open spec fn view(&self) -> Seq<Option<u64>> {
        seq![self.num2] + self.c@
    }
}

impl BSlot {
    /// The slot's position among the leaf fields of `B`.
    pub open spec fn index(self) -> int {
        match self {
            BSlot::Num2 => 0,
            BSlot::C(s) => 1 + s.index(),
        }
    }
}

impl B {
    /// The number of fields `B` puts on the wire.
    pub const NUM_FIELDS: usize = 1 + C::NUM_FIELDS;

    /// The names of the leaf fields of `B`, in serialization order.
    pub open spec fn names() -> Seq<Seq<char>> {
        seq!["num2"@] + C::names()
    }

    /// Appends the `(name, value)` pairs of the fields of `B` to `out`.
    pub fn serialize_fields(&self, out: &mut Vec<(&'static str, u64)>)
        ensures
            final(out)@.map_values(|e: (&str, u64)| entry_view(e)) == old(out)@.map_values(
                |e: (&str, u64)| entry_view(e),
            ) + entries(B::names(), self@),
    {
        out.push(("num2", self.num2));
        self.c.serialize_fields(out);
        proof {
            assert(final(out)@.map_values(|e: (&str, u64)| entry_view(e)) =~= old(out)@.map_values(
                |e: (&str, u64)| entry_view(e),
            ) + entries(B::names(), self@));
        }
    }

    /// Builds a `B` from its fields read in order from a sequence.
    pub fn from_elements(num2: Option<u64>, c: Option<C>) -> (res: Result<B, String>)
        ensures
            match (num2, c) {
                (Some(v2), Some(c)) => res == Ok::<B, String>(B { num2: v2, c }),
                (None, _) => res matches Err(m) && m@ == missing_field("num2"@),
                (Some(_), None) => res matches Err(m) && m@ == missing_field("c"@),
            },
    {
        let num2 = match num2 {
            Some(v) => v,
            None => return Err(missing_field_message("num2")),
        };
        let c = match c {
            Some(c) => c,
            None => return Err(missing_field_message("c")),
        };
        Ok(B { num2, c })
    }
}

impl BFields {
    /// A collector that holds no value yet.
    pub fn new() -> (res: BFields)
        ensures
            res@ == empty_slots(3),
    {
        let res = BFields { num2: None, c: CFields::new() };
        assert(res@ =~= empty_slots(3));
        res
    }

    /// The slot that `field` picks among the fields of `B` (its own `num2`
    /// first, then those of the flattened `c`), or, if it picks none, the
    /// identifier shifted past the three fields of `B`.
    pub fn route<'de>(field: FieldId<'de>) -> (res: Result<BSlot, FieldId<'de>>)
        ensures
            match res {
                Ok(s) => first_match(field@, B::names()) == Some(s.index()),
                Err(f) => {
                    &&& first_match(field@, B::names()) is None
                    &&& f@ == field@.offset(3)
                    &&& !(field is U64) ==> f == field
                },
            },
    {
        let ghost k = field@;
        proof {
            reveal_with_fuel(first_match, 2);
            lemma_first_match_concat(k, seq!["num2"@], C::names());
            crate::identifier::lemma_offset_offset(k, 1, 2);
        }
        if field.borrow().designates("num2", 0) {
            return Ok(BSlot::Num2);
        }
        match CFields::route(field.offset(1)) {
            Ok(s) => Ok(BSlot::C(s)),
            Err(f) => Err(f),
        }
    }

    /// Puts `value` in `slot`, replacing what it held.
    pub fn store(&mut self, slot: BSlot, value: u64)
        ensures
            final(self)@ == old(self)@.update(slot.index(), Some(value)),
    {
        match slot {
            BSlot::Num2 => self.num2 = Some(value),
            BSlot::C(s) => self.c.store(s, value),
        }
        proof {
            assert(final(self)@ =~= old(self)@.update(slot.index(), Some(value)));
        }
    }

    /// Builds the `B` from the collected values, or reports the first field
    /// that received none.
    pub fn finish(self) -> (res: Result<B, String>)
        ensures
            match (res, first_missing(self@)) {
                (Ok(b), None) => b@ == unwrap_all(self@),
                (Err(m), Some(j)) => m@ == missing_field(B::names()[j]),
                _ => false,
            },
    {
        proof {
            reveal_with_fuel(first_missing, 2);
            lemma_first_missing_concat(seq![self.num2], self.c@);
            lemma_first_missing_is_first(self.c@);
        }
        let num2 = match self.num2 {
            Some(v) => v,
            None => return Err(missing_field_message("num2")),
        };
        let c = match self.c.finish() {
            Ok(c) => c,
            Err(e) => return Err(e),
        };
        let res = B { num2, c };
        assert(res@ =~= unwrap_all(self@));
        Ok(res)
    }
}

impl Default for BFields {
    fn default() -> (res: BFields)
        ensures
            res@ == empty_slots(3),
    {
        BFields::new()
    }
}

// ---------------------------------------------------------------- A

#[derive(PartialEq, Eq, Debug, Structural)]
pub struct A {
    pub num1: u64,
    /// Flattened into `A`.
    pub b: B,
    /// Flattened into `A`.
    pub d: D,
}

/// A leaf field of `A`.
#[derive(Clone, Copy, PartialEq, Eq, Debug, Structural)]
pub enum ASlot {
    Num1,
    B(BSlot),
    D(DSlot),
}

/// The values collected so far for the fields of `A`.
#[derive(Debug)]
pub struct AFields {
    pub num1: Option<u64>,
    pub b: BFields,
    pub d: DFields,
}

impl View for A {
    type V = Seq<u64>;

    open spec fn view(&self) -> Seq<u64> {
        seq![self.num1] + self.b@ + self.d@
    }
}

impl View for AFields {
    type V = Seq<Option<u64>>;

    open spec fn view(&self) -> Seq<Option<u64>> {
        seq![self.num1] + self.b@ + self.d@
    }
}

impl ASlot {
    /// The slot's position among the leaf fields of `A`.
    pub open spec fn index(self) -> int {
        match self {
            ASlot::Num1 => 0,
            ASlot::B(s) => 1 + s.index(),
            ASlot::D(s) => 4 + s.index(),
        }
    }
}

impl A {
    /// The number of fields `A` puts on the wire.
    pub const NUM_FIELDS: usize = 1 + B::NUM_FIELDS + D::NUM_FIELDS;

    /// The names of the leaf fields of `A`, in serialization order.
    pub open spec fn names() -> Seq<Seq<char>> {
        seq!["num1"@] + B::names() + D::names()
    }

    /// Appends the `(name, value)` pairs of the fields of `A` to `out`.
    pub fn serialize_fields(&self, out: &mut Vec<(&'static str, u64)>)
        ensures
            final(out)@.map_values(|e: (&str, u64)| entry_view(e)) == old(out)@.map_values(
                |e: (&str, u64)| entry_view(e),
            ) + entries(A::names(), self@),
    {
        out.push(("num1", self.num1));
        self.b.serialize_fields(out);
        self.d.serialize_fields(out);
        proof {
            assert(final(out)@.map_values(|e: (&str, u64)| entry_view(e)) =~= old(out)@.map_values(
                |e: (&str, u64)| entry_view(e),
            ) + entries(A::names(), self@));
        }
    }

    /// Builds an `A` from its fields read in order from a sequence.
    pub fn from_elements(num1: Option<u64>, b: Option<B>, d: Option<D>) -> (res: Result<
        A,
        String,
    >)
        ensures
            match (num1, b, d) {
                (Some(v1), Some(b), Some(d)) => res == Ok::<A, String>(A { num1: v1, b, d }),
                (None, _, _) => res matches Err(m) && m@ == missing_field("num1"@),
                (Some(_), None, _) => res matches Err(m) && m@ == missing_field("b"@),
                (Some(_), Some(_), None) => res matches Err(m) && m@ == missing_field("d"@),
            },
    {
        let num1 = match num1 {
            Some(v) => v,
            None => return Err(missing_field_message("num1")),
        };
        let b = match b {
            Some(b) => b,
            None => return Err(missing_field_message("b")),
        };
        let d = match d {
            Some(d) => d,
            None => return Err(missing_field_message("d")),
        };
        Ok(A { num1, b, d })
    }
}

impl AFields {
    /// A collector that holds no value yet.
    pub fn new() -> (res: AFields)
        ensures
            res@ == empty_slots(6),
    {
        let res = AFields { num1: None, b: BFields::new(), d: DFields::new() };
        assert(res@ =~= empty_slots(6));
        res
    }

    /// The slot that `field` picks among the fields of `A` (its own `num1`
    /// first, then those of the flattened `b`, then those of the flattened
    /// `d`), or, if it picks none, the identifier shifted past the six fields
    /// of `A`.
    pub fn route<'de>(field: FieldId<'de>) -> (res: Result<ASlot, FieldId<'de>>)
        ensures
            match res {
                Ok(s) => first_match(field@, A::names()) == Some(s.index()),
                Err(f) => {
                    &&& first_match(field@, A::names()) is None
                    &&& f@ == field@.offset(6)
                    &&& !(field is U64) ==> f == field
                },
            },
    {
        let ghost k = field@;
        proof {
            reveal_with_fuel(first_match, 2);
            lemma_first_match_concat(k, seq!["num1"@], B::names());
            lemma_first_match_concat(k, seq!["num1"@] + B::names(), D::names());
            crate::identifier::lemma_offset_offset(k, 1, 3);
            crate::identifier::lemma_offset_offset(k, 4, 2);
        }
        if field.borrow().designates("num1", 0) {
            return Ok(ASlot::Num1);
        }
        match BFields::route(field.offset(1)) {
            Ok(s) => Ok(ASlot::B(s)),
            Err(field) => match DFields::route(field) {
                Ok(s) => Ok(ASlot::D(s)),
                Err(field) => Err(field),
            },
        }
    }

    /// Puts `value` in `slot`, replacing what it held.
    pub fn store(&mut self, slot: ASlot, value: u64)
        ensures
            final(self)@ == old(self)@.update(slot.index(), Some(value)),
    {
        match slot {
            ASlot::Num1 => self.num1 = Some(value),
            ASlot::B(s) => self.b.store(s, value),
            ASlot::D(s) => self.d.store(s, value),
        }
        proof {
            assert(final(self)@ =~= old(self)@.update(slot.index(), Some(value)));
        }
    }

    /// Builds the `A` from the collected values, or reports the first field
    /// that received none.
    pub fn finish(self) -> (res: Result<A, String>)
        ensures
            match (res, first_missing(self@)) {
                (Ok(a), None) => a@ == unwrap_all(self@),
                (Err(m), Some(j)) => m@ == missing_field(A::names()[j]),
                _ => false,
            },
    {
        proof {
            reveal_with_fuel(first_missing, 2);
            lemma_first_missing_concat(seq![self.num1], self.b@);
            lemma_first_missing_concat(seq![self.num1] + self.b@, self.d@);
            lemma_first_missing_is_first(self.b@);
            lemma_first_missing_is_first(self.d@);
        }
        let num1 = match self.num1 {
            Some(v) => v,
            None => return Err(missing_field_message("num1")),
        };
        let b = match self.b.finish() {
            Ok(b) => b,
            Err(e) => return Err(e),
        };
        let d = match self.d.finish() {
            Ok(d) => d,
            Err(e) => return Err(e),
        };
        let res = A { num1, b, d };
        assert(res@ =~= unwrap_all(self@));
        Ok(res)
    }
}

impl Default for AFields {
    fn default() -> (res: AFields)
        ensures
            res@ == empty_slots(6),
    {
        AFields::new()
    }
}

/// The example value `A { num1: 1, b: { num2: 2, c: { num3: 3, num4: 4 } }, d: { num5: 5, num6: 6 } }`.
pub fn test_value() -> (res: A)
    ensures
        res == (A { num1: 1, b: B { num2: 2, c: C { num3: 3, num4: 4 } }, d: D { num5: 5, num6: 6 } }),
        res@ == seq![1u64, 2, 3, 4, 5, 6],
{
    let res = A { num1: 1, b: B { num2: 2, c: C { num3: 3, num4: 4 } }, d: D { num5: 5, num6: 6 } };
    assert(res@ =~= seq![1u64, 2, 3, 4, 5, 6]);
    res
}


// ---------------------------------------------------------------- laws

/// Each struct announces as many fields as it puts on the wire.
pub proof fn lemma_num_fields()
    ensures
        C::NUM_FIELDS == C::names().len(),
        D::NUM_FIELDS == D::names().len(),
        B::NUM_FIELDS == B::names().len(),
        A::NUM_FIELDS == A::names().len(),
{
}

/// No two leaf fields of `A` share a name.
pub proof fn lemma_names_distinct()
    ensures
        distinct_names(A::names()),
        A::names() == seq!["num1"@, "num2"@, "num3"@, "num4"@, "num5"@, "num6"@],
{
    reveal_strlit("num1");
    reveal_strlit("num2");
    reveal_strlit("num3");
    reveal_strlit("num4");
    reveal_strlit("num5");
    reveal_strlit("num6");
    let names = A::names();
    assert(names =~= seq!["num1"@, "num2"@, "num3"@, "num4"@, "num5"@, "num6"@]);
    // The names differ in their last character.
    assert forall|i: int| 0 <= i < 6 implies #[trigger] names[i].len() == 4 && names[i][3] == (
    '1' as int + i) as char by {}
    assert forall|i: int, j: int|
        0 <= i < names.len() && 0 <= j < names.len() && i != j implies names[i] != names[j] by {
        assert(names[i].len() == 4 && names[j].len() == 4);
        assert(names[i][3] != names[j][3]);
    }
}

/// An `A` is determined by its leaf values.
pub proof fn lemma_view_injective(x: A, y: A)
    requires
        x@ == y@,
    ensures
        x == y,
{
    assert(x@ =~= seq![x.num1, x.b.num2, x.b.c.num3, x.b.c.num4, x.d.num5, x.d.num6]);
    assert(y@ =~= seq![y.num1, y.b.num2, y.b.c.num3, y.b.c.num4, y.d.num5, y.d.num6]);
    assert(x@[0] == y@[0] && x@[1] == y@[1] && x@[2] == y@[2]);
    assert(x@[3] == y@[3] && x@[4] == y@[4] && x@[5] == y@[5]);
}

/// What `serialize_fields` writes for an `A` reads back as that `A`: a fresh
/// `AFields` that takes each written pair in order, its key given as the
/// name, as the UTF-8 bytes of the name, or as the position, ends with every
/// slot filled with the value written for it, so that `finish` succeeds and
/// gives back the leaf values of `a`.
pub proof fn lemma_roundtrip(a: A)
    ensures
        ({
            let written = entries(A::names(), a@);
            let by_name = written.map_values(|e: (Seq<char>, u64)| (FieldKey::Name(e.0), e.1));
            let by_bytes = written.map_values(
                |e: (Seq<char>, u64)| (FieldKey::Bytes(encode_utf8(e.0)), e.1),
            );
            let by_index = Seq::new(
                written.len(),
                |i: int| (FieldKey::Index(i as u64), written[i].1),
            );
            &&& feed(empty_slots(6), A::names(), by_name) == filled(a@)
            &&& feed(empty_slots(6), A::names(), by_bytes) == filled(a@)
            &&& feed(empty_slots(6), A::names(), by_index) == filled(a@)
        }),
        first_missing(filled(a@)) is None,
        unwrap_all(filled(a@)) == a@,
{
    lemma_names_distinct();
    let written = entries(A::names(), a@);
    assert(written.map_values(|e: (Seq<char>, u64)| (FieldKey::Name(e.0), e.1)) =~= named_pairs(
        A::names(),
        a@,
    ));
    assert(written.map_values(|e: (Seq<char>, u64)| (FieldKey::Bytes(encode_utf8(e.0)), e.1))
        =~= byte_named_pairs(A::names(), a@));
    assert(Seq::new(written.len(), |i: int| (FieldKey::Index(i as u64), written[i].1))
        =~= indexed_pairs(a@));
    lemma_named_roundtrip(A::names(), a@);
    lemma_byte_named_roundtrip(A::names(), a@);
    lemma_indexed_roundtrip(A::names(), a@);
}

/// The fields of an `A` may come in any order: taking its named pairs in any
/// rearrangement still fills every slot with the value written for it.
pub proof fn lemma_any_order(a: A, perm: Seq<int>)
    requires
        perm.len() == 6,
        forall|k: int| 0 <= k < 6 ==> 0 <= #[trigger] perm[k] < 6,
        forall|j: int| 0 <= j < 6 ==> #[trigger] perm.contains(j),
    ensures
        feed(
            empty_slots(6),
            A::names(),
            Seq::new(6, |k: int| named_pairs(A::names(), a@)[perm[k]]),
        ) == filled(a@),
{
    lemma_names_distinct();
    let p1 = named_pairs(A::names(), a@);
    let p2 = Seq::new(6, |k: int| p1[perm[k]]);
    assert forall|i: int| 0 <= i < 6 implies first_match(#[trigger] p1[i].0, A::names()) == Some(
        i,
    ) by {
        lemma_first_match_is_first(p1[i].0, A::names(), i);
    }
    lemma_feed_order_irrelevant(empty_slots(6), A::names(), p1, p2, perm);
    lemma_named_roundtrip(A::names(), a@);
}

/// The wire positions that the derive plans for the declaration
/// `A { num1, #[serde(flatten)] b: B, #[serde(flatten)] d: D }` are those of
/// the hand-written `A`: the fields start on the wire at positions 0, 1 and
/// 4, the whole struct has `A::NUM_FIELDS` wire fields, and the leaves of `b`
/// and `d` stand in `A`'s layout at exactly those positions.
pub proof fn lemma_plan_matches_a()
    ensures
        ({
            let flatten = seq![false, true, true];
            let num_fields = seq![1nat, B::NUM_FIELDS as nat, D::NUM_FIELDS as nat];
            &&& wire_before(flatten, num_fields, 0) == 0
            &&& wire_before(flatten, num_fields, 1) == 1
            &&& wire_before(flatten, num_fields, 2) == 4
            &&& wire_before(flatten, num_fields, 3) == A::NUM_FIELDS
        }),
        A::names().subrange(1, 4) == B::names(),
        A::names().subrange(4, 6) == D::names(),
{
    reveal_with_fuel(wire_before, 4);
    assert(A::names().subrange(1, 4) =~= B::names());
    assert(A::names().subrange(4, 6) =~= D::names());
}

} // verus!
