//! Field identifiers as they come out of a deserializer: a name, the UTF-8
//! bytes of a name, or the position of the field in its struct.
use std::borrow::Cow;

use vstd::prelude::*;
use vstd::utf8::*;

verus! {

broadcast use vstd::utf8::encode_utf8_decode_utf8;

/// The mathematical content of a field identifier.
pub enum FieldKey {
    /// The field's name.
    Name(Seq<char>),
    /// The UTF-8 bytes of the field's name.
    Bytes(Seq<u8>),
    /// The field's position among the fields of its struct.
    Index(u64),
}

/// Saturating subtraction on `u64`.
pub open spec fn sat_sub(a: u64, b: u64) -> u64 {
    if a >= b {
        (a - b) as u64
    } else {
        0
    }
}

/// Saturating addition on `u64`.
pub open spec fn sat_add(a: u64, b: u64) -> u64 {
    if a + b <= u64::MAX {
        (a + b) as u64
    } else {
        u64::MAX
    }
}

impl FieldKey {
    /// Shifts a positional key `n` places towards the front (saturating at 0);
    /// names and bytes stay as they are.
    pub open spec fn offset(self, n: u64) -> FieldKey {
        match self {
            FieldKey::Index(i) => FieldKey::Index(sat_sub(i, n)),
            other => other,
        }
    }

    /// Whether this key designates the field called `name` that stands at
    /// position `index`.
    pub open spec fn designates(self, name: Seq<char>, index: u64) -> bool {
        match self {
            FieldKey::Name(n) => n == name,
            FieldKey::Bytes(b) => b == encode_utf8(name),
            FieldKey::Index(i) => i == index,
        }
    }
}

/// An owned (or borrowed from the input) field identifier.
#[derive(Debug)]
pub enum FieldId<'a> {
    String(Cow<'a, str>),
    Bytes(Cow<'a, [u8]>),
    U64(u64),
}

/// A field identifier that borrows its name.
#[derive(Clone, Copy, Debug)]
pub enum BorrowedFieldId<'a> {
    String(&'a str),
    Bytes(&'a [u8]),
    U64(u64),
}

impl<'a> View for FieldId<'a> {
    type V = FieldKey;

    open spec fn view(&self) -> FieldKey {
        match self {
            FieldId::String(s) => FieldKey::Name(s@),
            FieldId::Bytes(b) => FieldKey::Bytes(b@),
            FieldId::U64(i) => FieldKey::Index(*i),
        }
    }
}

impl<'a> View for BorrowedFieldId<'a> {
    type V = FieldKey;

    open spec fn view(&self) -> FieldKey {
        match self {
            BorrowedFieldId::String(s) => FieldKey::Name(s@),
            BorrowedFieldId::Bytes(b) => FieldKey::Bytes(b@),
            BorrowedFieldId::U64(i) => FieldKey::Index(*i),
        }
    }
}

impl<'a> FieldId<'a> {
    /// Shifts a positional identifier `n` places towards the front, saturating
    /// at 0; a name or bytes identifier is returned unchanged.
    pub fn offset(self, n: u64) -> (res: Self)
        ensures
            res@ == self@.offset(n),
            !(self is U64) ==> res == self,
    {
        match self {
            FieldId::U64(id) => FieldId::U64(id.saturating_sub(n)),
            x => x,
        }
    }

    /// A view of this identifier that borrows its name.
    pub fn borrow(&self) -> (res: BorrowedFieldId<'_>)
        ensures
            res@ == self@,
    {
        match self {
            FieldId::String(cow) => BorrowedFieldId::String(
                match cow {
                    Cow::Borrowed(s) => *s,
                    Cow::Owned(s) => s.as_str(),
                },
            ),
            FieldId::Bytes(cow) => BorrowedFieldId::Bytes(
                match cow {
                    Cow::Borrowed(b) => *b,
                    Cow::Owned(b) => b.as_slice(),
                },
            ),
            FieldId::U64(id) => BorrowedFieldId::U64(*id),
        }
    }
}

/// Whether two byte slices hold the same bytes.
pub fn bytes_equal(a: &[u8], b: &[u8]) -> (res: bool)
    ensures
        res == (a@ == b@),
{
    if a.len() != b.len() {
        return false;
    }
    let mut i: usize = 0;
    while i < a.len()
        invariant
            a@.len() == b@.len(),
            i <= a@.len(),
            forall|j: int| 0 <= j < i ==> a@[j] == b@[j],
        decreases a@.len() - i,
    {
        if a[i] != b[i] {
            return false;
        }
        i = i + 1;
    }
    assert(a@ =~= b@);
    true
}

/// Whether two strings hold the same characters.
pub fn str_equal(a: &str, b: &str) -> (res: bool)
    ensures
        res == (a@ == b@),
{
    let r = bytes_equal(a.as_bytes(), b.as_bytes());
    proof {
        if r {
            assert(decode_utf8(encode_utf8(a@)) == a@);
            assert(decode_utf8(encode_utf8(b@)) == b@);
        }
    }
    r
}

impl<'a> BorrowedFieldId<'a> {
    /// Whether this identifier designates the field called `name` that stands
    /// at position `index`: by its name, by the UTF-8 bytes of its name, or by
    /// its position.
    pub fn designates(&self, name: &str, index: u64) -> (res: bool)
        ensures
            res == self@.designates(name@, index),
    {
        match self {
            BorrowedFieldId::String(s) => str_equal(s, name),
            BorrowedFieldId::Bytes(b) => bytes_equal(b, name.as_bytes()),
            BorrowedFieldId::U64(i) => *i == index,
        }
    }
}

/// Shifting by nothing leaves a key as it is.
pub proof fn lemma_offset_zero(k: FieldKey)
    ensures
        k.offset(0) == k,
{
}

/// Two shifts in a row are one shift by the (saturating) sum.
pub proof fn lemma_offset_offset(k: FieldKey, a: u64, b: u64)
    ensures
        k.offset(a).offset(b) == k.offset(sat_add(a, b)),
{
}

/// Shifting a key changes neither a name nor bytes, and keeps the kind of key.
pub proof fn lemma_offset_keeps_names(k: FieldKey, n: u64)
    ensures
        k is Name ==> k.offset(n) == k,
        k is Bytes ==> k.offset(n) == k,
        k is Index <==> k.offset(n) is Index,
{
}


/// A positional key designates a field at its own position and nowhere else,
/// whatever the field's name: two positions at which it designates fields are
/// the same position, and shifting it past `n` earlier fields makes it
/// designate the field `n` places further to the front.
pub proof fn lemma_index_designates_only_its_position(
    i: u64,
    name: Seq<char>,
    other: Seq<char>,
    index: u64,
    n: u64,
)
    ensures
        FieldKey::Index(i).designates(name, index) <==> i == index,
        FieldKey::Index(i).designates(name, i),
        FieldKey::Index(i).designates(name, index) == FieldKey::Index(i).designates(other, index),
        forall|a: u64, b: u64|
            #![trigger FieldKey::Index(i).designates(name, a), FieldKey::Index(i).designates(other, b)]
            FieldKey::Index(i).designates(name, a) && FieldKey::Index(i).designates(other, b)
                ==> a == b,
        n <= i ==> (FieldKey::Index(i).offset(n).designates(name, index) <==> i == index + n),
{
}

/// A name designates exactly the field of that name, at whatever position it
/// stands; the UTF-8 bytes of a name designate the same fields as the name.
pub proof fn lemma_name_designates_only_its_field(
    n: Seq<char>,
    name: Seq<char>,
    index: u64,
    other_index: u64,
)
    ensures
        FieldKey::Name(n).designates(name, index) <==> n == name,
        FieldKey::Name(n).designates(name, index) == FieldKey::Name(n).designates(
            name,
            other_index,
        ),
        FieldKey::Bytes(encode_utf8(n)).designates(name, index) <==> n == name,
        FieldKey::Bytes(encode_utf8(n)).designates(name, index) == FieldKey::Name(n).designates(
            name,
            index,
        ),
{
    if encode_utf8(n) == encode_utf8(name) {
        assert(decode_utf8(encode_utf8(n)) == n);
        assert(decode_utf8(encode_utf8(name)) == name);
    }
}

} // verus!
