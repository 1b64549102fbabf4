//! What the derives of `SerializeFields` and `DeserializeFields` compute from
//! the fields of a struct with named fields before they write any code: the
//! wire position at which each field starts, the number of fields the struct
//! puts on the wire, the order in which flattened fields are asked about an
//! identifier, and the message for a field that received no value.
//!
//! The number of wire fields of a flattened field is the `NUM_FIELDS` of its
//! type, which is known only when the generated code is compiled; a position
//! is therefore a count of plain fields plus the `NUM_FIELDS` of a list of
//! flattened fields.
use vstd::prelude::*;

use crate::layout::missing_field;

verus! {

/// A wire position as the derive writes it: `plain` plus the `NUM_FIELDS`
/// of each field listed in `flattened`.
#[derive(Debug)]
pub struct Position {
    /// The number of plain (not flattened) fields counted.
    pub plain: u64,
    /// The flattened fields whose `NUM_FIELDS` are added, in declaration order.
    pub flattened: Vec<usize>,
}

/// The number of plain fields among the first `i` fields.
pub open spec fn plain_before(flatten: Seq<bool>, i: int) -> nat
    decreases i,
{
    if i <= 0 {
        0
    } else {
        plain_before(flatten, i - 1) + if flatten[i - 1] {
            0nat
        } else {
            1nat
        }
    }
}

/// The flattened fields among the first `i` fields, in declaration order.
pub open spec fn flattened_before(flatten: Seq<bool>, i: int) -> Seq<usize>
    decreases i,
{
    if i <= 0 {
        Seq::empty()
    } else if flatten[i - 1] {
        flattened_before(flatten, i - 1).push((i - 1) as usize)
    } else {
        flattened_before(flatten, i - 1)
    }
}

/// The number of wire fields of field `j`: one for a plain field, the
/// `NUM_FIELDS` of its type for a flattened one.
pub open spec fn width(flatten: Seq<bool>, num_fields: Seq<nat>, j: int) -> nat {
    if flatten[j] {
        num_fields[j]
    } else {
        1
    }
}

/// The number of wire fields of the first `i` fields.
pub open spec fn wire_before(flatten: Seq<bool>, num_fields: Seq<nat>, i: int) -> nat
    decreases i,
{
    if i <= 0 {
        0
    } else {
        wire_before(flatten, num_fields, i - 1) + width(flatten, num_fields, i - 1)
    }
}

/// The sum of the `NUM_FIELDS` of the listed fields.
pub open spec fn sum_of(num_fields: Seq<nat>, listed: Seq<usize>) -> nat
    decreases listed.len(),
{
    if listed.len() == 0 {
        0
    } else {
        sum_of(num_fields, listed.drop_last()) + num_fields[listed.last() as int]
    }
}

impl Position {
    /// The value of the position once the `NUM_FIELDS` of the fields are known.
    pub open spec fn value(&self, num_fields: Seq<nat>) -> nat {
        self.plain as nat + sum_of(num_fields, self.flattened@)
    }

    /// The position holds the counts of the first `i` fields.
    pub open spec fn counts(&self, flatten: Seq<bool>, i: int) -> bool {
        &&& self.plain == plain_before(flatten, i)
        &&& self.flattened@ == flattened_before(flatten, i)
    }
}

/// For each field, in declaration order, the wire position at which it
/// starts: the plain fields and the flattened fields declared before it.
/// A plain field is known by this position as a positional identifier; a
/// flattened field is offered identifiers shifted by it (see
/// `flattened_shifts` and `lemma_key_reaches_its_field`).
pub fn field_positions(flatten: &Vec<bool>) -> (res: Vec<Position>)
    ensures
        res.len() == flatten.len(),
        forall|i: int| 0 <= i < flatten.len() ==> #[trigger] res[i].counts(flatten@, i),
{
    let mut res: Vec<Position> = Vec::new();
    let mut plain: u64 = 0;
    let mut flattened: Vec<usize> = Vec::new();
    let mut i: usize = 0;
    while i < flatten.len()
        invariant
            i <= flatten.len(),
            res.len() == i,
            plain == plain_before(flatten@, i as int),
            flattened@ == flattened_before(flatten@, i as int),
            plain <= i,
            forall|j: int| 0 <= j < i ==> #[trigger] res[j].counts(flatten@, j),
        decreases flatten.len() - i,
    {
        res.push(Position { plain, flattened: flattened.clone() });
        if flatten[i] {
            flattened.push(i);
        } else {
            plain = plain + 1;
        }
        i = i + 1;
    }
    res
}

/// The number of wire fields of the whole struct: all its plain fields plus
/// the `NUM_FIELDS` of all its flattened fields.
pub fn num_fields(flatten: &Vec<bool>) -> (res: Position)
    ensures
        res.counts(flatten@, flatten.len() as int),
{
    let mut plain: u64 = 0;
    let mut flattened: Vec<usize> = Vec::new();
    let mut i: usize = 0;
    while i < flatten.len()
        invariant
            i <= flatten.len(),
            plain == plain_before(flatten@, i as int),
            flattened@ == flattened_before(flatten@, i as int),
            plain <= i,
        decreases flatten.len() - i,
    {
        if flatten[i] {
            flattened.push(i);
        } else {
            plain = plain + 1;
        }
        i = i + 1;
    }
    Position { plain, flattened }
}

/// The flattened fields, in the order in which an identifier that names no
/// plain field is offered to them: declaration order.
pub fn flattened_fields(flatten: &Vec<bool>) -> (res: Vec<usize>)
    ensures
        res@ == flattened_before(flatten@, flatten.len() as int),
{
    num_fields(flatten).flattened
}

/// The message reported when the field called `name` received no value.
pub fn missing_field_message(name: &str) -> (res: String)
    ensures
        res@ == missing_field(name@),
{
    String::from_str("missing field `").concat(name).concat("`")
}

/// The position the derive writes for a field is where the field starts on
/// the wire: once the `NUM_FIELDS` of the flattened fields are known, its
/// value is the number of wire fields of the fields declared before it.
pub proof fn lemma_position_is_wire_start(flatten: Seq<bool>, num_fields: Seq<nat>, i: int)
    requires
        0 <= i <= flatten.len(),
        flatten.len() <= usize::MAX,
        num_fields.len() == flatten.len(),
    ensures
        plain_before(flatten, i) + sum_of(num_fields, flattened_before(flatten, i))
            == wire_before(flatten, num_fields, i),
    decreases i,
{
    if i > 0 {
        lemma_position_is_wire_start(flatten, num_fields, i - 1);
        if flatten[i - 1] {
            let prev = flattened_before(flatten, i - 1);
            assert(prev.push((i - 1) as usize).drop_last() =~= prev);
            assert(prev.push((i - 1) as usize).last() as int == i - 1);
        }
    }
}

/// The number of wire fields the derive announces for a struct is the number
/// of wire fields of all its fields.
pub proof fn lemma_num_fields_is_wire_count(
    flatten: Seq<bool>,
    num_fields: Seq<nat>,
    total: Position,
)
    requires
        num_fields.len() == flatten.len(),
        flatten.len() <= usize::MAX,
        total.counts(flatten, flatten.len() as int),
    ensures
        total.value(num_fields) == wire_before(flatten, num_fields, flatten.len() as int),
{
    lemma_position_is_wire_start(flatten, num_fields, flatten.len() as int);
}

/// Wire positions only grow along the fields.
proof fn lemma_wire_before_monotonic(flatten: Seq<bool>, num_fields: Seq<nat>, i: int, j: int)
    requires
        0 <= i <= j <= flatten.len(),
    ensures
        wire_before(flatten, num_fields, i) + if i < j {
            width(flatten, num_fields, i)
        } else {
            0
        } <= wire_before(flatten, num_fields, j),
    decreases j - i,
{
    if i < j {
        if i + 1 < j {
            lemma_wire_before_monotonic(flatten, num_fields, i + 1, j);
        }
    }
}

/// The wire fields of two different fields never overlap: field `i` covers
/// the positions from its start up to (not including) its start plus its
/// width, and these ranges are disjoint for `i != j`.
pub proof fn lemma_wire_ranges_disjoint(flatten: Seq<bool>, num_fields: Seq<nat>, i: int, j: int)
    requires
        0 <= i < j < flatten.len(),
        num_fields.len() == flatten.len(),
    ensures
        wire_before(flatten, num_fields, i) + width(flatten, num_fields, i) <= wire_before(
            flatten,
            num_fields,
            j,
        ),
{
    lemma_wire_before_monotonic(flatten, num_fields, i, j);
}

/// Where the `m`-th flattened field's stretch of plain fields begins: just
/// after the flattened field before it, or at the first field.
pub open spec fn segment_start(fl: Seq<usize>, m: int) -> int {
    if m <= 0 {
        0
    } else {
        fl[m - 1] + 1
    }
}

/// Where the plain fields after the last flattened field begin.
pub open spec fn tail_start(fl: Seq<usize>) -> int {
    if fl.len() == 0 {
        0
    } else {
        fl.last() + 1
    }
}

/// How the code the derive generates shifts a positional identifier that no
/// plain field of the struct took: before offering it to the `m`-th
/// flattened field it shifts it by `before[m]`, and after the last flattened
/// field handed it back it shifts it by `after`.
#[derive(Debug)]
pub struct Shifts {
    /// For each flattened field, the number of plain fields between it and
    /// the flattened field before it (or the first field).
    pub before: Vec<u64>,
    /// The number of plain fields after the last flattened field (all plain
    /// fields if none is flattened).
    pub after: u64,
}

impl Shifts {
    /// The shifts count the plain fields around the flattened fields.
    pub open spec fn counts(&self, flatten: Seq<bool>) -> bool {
        let fl = flattened_before(flatten, flatten.len() as int);
        &&& self.before@.len() == fl.len()
        &&& forall|m: int|
            0 <= m < fl.len() ==> #[trigger] self.before@[m] == fl[m] - segment_start(fl, m)
        &&& self.after == flatten.len() - tail_start(fl)
    }
}

/// The shifts that the generated `deserialize_field` applies to a
/// positional identifier as it passes the plain and flattened fields of a
/// struct in declaration order.
pub fn flattened_shifts(flatten: &Vec<bool>) -> (res: Shifts)
    ensures
        res.counts(flatten@),
{
    let mut before: Vec<u64> = Vec::new();
    let mut run: u64 = 0;
    let mut i: usize = 0;
    while i < flatten.len()
        invariant
            i <= flatten.len(),
            ({
                let fl = flattened_before(flatten@, i as int);
                &&& before@.len() == fl.len()
                &&& forall|m: int|
                    0 <= m < fl.len() ==> #[trigger] before@[m] == fl[m] - segment_start(fl, m)
                &&& run == i - tail_start(fl)
                &&& tail_start(fl) <= i
            }),
        decreases flatten.len() - i,
    {
        proof {
            lemma_flattened_before_structure(flatten@, i as int);
        }
        if flatten[i] {
            before.push(run);
            run = 0;
        } else {
            run = run + 1;
        }
        i = i + 1;
    }
    Shifts { before, after: run }
}

/// Every field from `a` up to (not including) `b` is plain.
#[verifier::opaque]
pub open spec fn all_plain(flatten: Seq<bool>, a: int, b: int) -> bool {
    forall|j: int| a <= j < b ==> !#[trigger] flatten[j]
}

/// The flattened fields among the first `n` fields are listed in increasing
/// order, each is flattened, and every field between two consecutive ones,
/// before the first or after the last, is plain.
pub proof fn lemma_flattened_before_structure(flatten: Seq<bool>, n: int)
    requires
        0 <= n <= flatten.len(),
        flatten.len() <= usize::MAX,
    ensures
        ({
            let fl = flattened_before(flatten, n);
            &&& forall|m: int|
                0 <= m < fl.len() ==> segment_start(fl, m) <= #[trigger] fl[m] < n
            &&& forall|m: int| 0 <= m < fl.len() ==> flatten[#[trigger] fl[m] as int]
            &&& forall|m: int|
                0 <= m < fl.len() ==> all_plain(flatten, segment_start(fl, m), #[trigger] fl[m] as int)
            &&& tail_start(fl) <= n
            &&& all_plain(flatten, tail_start(fl), n)
        }),
    decreases n,
{
    if n > 0 {
        lemma_flattened_before_structure(flatten, n - 1);
        let prev = flattened_before(flatten, n - 1);
        let fl = flattened_before(flatten, n);
        if flatten[n - 1] {
            assert(fl == prev.push((n - 1) as usize));
            assert forall|m: int| 0 <= m < fl.len() implies segment_start(fl, m) <= #[trigger] fl[m]
                < n && flatten[fl[m] as int] && all_plain(
                flatten,
                segment_start(fl, m),
                fl[m] as int,
            ) by {
                if m < prev.len() {
                    assert(fl[m] == prev[m]);
                    assert(segment_start(fl, m) == segment_start(prev, m));
                } else {
                    assert(fl[m] == n - 1);
                    assert(segment_start(fl, m) == tail_start(prev));
                    reveal(all_plain);
                }
            }
            assert(tail_start(fl) == n);
            assert(all_plain(flatten, tail_start(fl), n)) by {
                reveal(all_plain);
            }
        } else {
            assert(fl == prev);
            assert(all_plain(flatten, tail_start(fl), n)) by {
                reveal(all_plain);
            }
        }
    } else {
        assert(all_plain(flatten, 0, 0)) by {
            reveal(all_plain);
        }
    }
}

/// Over a stretch of plain fields, the wire position grows by one per field.
proof fn lemma_wire_before_plain_stretch(
    flatten: Seq<bool>,
    num_fields: Seq<nat>,
    a: int,
    b: int,
)
    requires
        0 <= a <= b <= flatten.len(),
        all_plain(flatten, a, b),
    ensures
        wire_before(flatten, num_fields, b) == wire_before(flatten, num_fields, a) + (b - a),
    decreases b - a,
{
    reveal(all_plain);
    if a < b {
        assert(all_plain(flatten, a, b - 1));
        assert(!flatten[b - 1]);
        lemma_wire_before_plain_stretch(flatten, num_fields, a, b - 1);
    }
}

/// Saturating subtraction on natural numbers.
pub open spec fn nat_sub(a: nat, b: nat) -> nat {
    if a >= b {
        (a - b) as nat
    } else {
        0
    }
}

/// The positional identifier that the code the derive generates offers the
/// `m`-th flattened field when the struct is offered `k` and no plain field
/// took it, each earlier flattened field having handed the identifier back
/// shifted past its own wire fields (as every collector of this crate does).
/// `fl` lists the flattened fields and `num_fields` their `NUM_FIELDS`.
pub open spec fn offered(
    k: nat,
    shifts: Seq<u64>,
    fl: Seq<usize>,
    num_fields: Seq<nat>,
    m: int,
) -> nat
    decreases m,
{
    if m <= 0 {
        nat_sub(k, shifts[0] as nat)
    } else {
        nat_sub(
            nat_sub(offered(k, shifts, fl, num_fields, m - 1), num_fields[fl[m - 1] as int]),
            shifts[m] as nat,
        )
    }
}

/// The positional identifier that the generated code hands back when no
/// field of the struct took `k`.
pub open spec fn handed_back(
    k: nat,
    shifts: Seq<u64>,
    after: u64,
    fl: Seq<usize>,
    num_fields: Seq<nat>,
) -> nat {
    if fl.len() == 0 {
        nat_sub(k, after as nat)
    } else {
        nat_sub(
            nat_sub(
                offered(k, shifts, fl, num_fields, fl.len() - 1),
                num_fields[fl.last() as int],
            ),
            after as nat,
        )
    }
}

/// A positional identifier at or past where the `m`-th flattened field
/// starts on the wire reaches that field shifted by exactly that start.
proof fn lemma_offered_from_start(
    flatten: Seq<bool>,
    num_fields: Seq<nat>,
    shifts: Shifts,
    k: nat,
    m: int,
)
    requires
        flatten.len() <= usize::MAX,
        num_fields.len() == flatten.len(),
        shifts.counts(flatten),
        0 <= m < flattened_before(flatten, flatten.len() as int).len(),
        k >= wire_before(
            flatten,
            num_fields,
            flattened_before(flatten, flatten.len() as int)[m] as int,
        ),
    ensures
        ({
            let fl = flattened_before(flatten, flatten.len() as int);
            offered(k, shifts.before@, fl, num_fields, m) == k - wire_before(
                flatten,
                num_fields,
                fl[m] as int,
            )
        }),
    decreases m,
{
    let fl = flattened_before(flatten, flatten.len() as int);
    lemma_flattened_before_structure(flatten, flatten.len() as int);
    let s = segment_start(fl, m);
    lemma_wire_before_plain_stretch(flatten, num_fields, s, fl[m] as int);
    if m > 0 {
        let p = fl[m - 1] as int;
        assert(segment_start(fl, m - 1) <= p);
        lemma_wire_before_monotonic(flatten, num_fields, p, fl[m] as int);
        assert(wire_before(flatten, num_fields, p + 1) == wire_before(flatten, num_fields, p)
            + num_fields[p]);
        lemma_offered_from_start(flatten, num_fields, shifts, k, m - 1);
    }
}

/// In the code the derive generates, the positional identifier of every
/// wire field reaches the field it belongs to: if `k` lies in the wire
/// fields of the flattened field `fl[m]`, every earlier flattened field is
/// offered an identifier past its own wire fields (so it hands it back), and
/// `fl[m]` is offered `k` minus its start, the position of the same leaf
/// among its own wire fields.
pub proof fn lemma_key_reaches_its_field(
    flatten: Seq<bool>,
    num_fields: Seq<nat>,
    shifts: Shifts,
    k: nat,
    m: int,
)
    requires
        flatten.len() <= usize::MAX,
        num_fields.len() == flatten.len(),
        shifts.counts(flatten),
        0 <= m < flattened_before(flatten, flatten.len() as int).len(),
        ({
            let fl = flattened_before(flatten, flatten.len() as int);
            let start = wire_before(flatten, num_fields, fl[m] as int);
            start <= k < start + num_fields[fl[m] as int]
        }),
    ensures
        ({
            let fl = flattened_before(flatten, flatten.len() as int);
            &&& offered(k, shifts.before@, fl, num_fields, m) == k - wire_before(
                flatten,
                num_fields,
                fl[m] as int,
            )
            &&& forall|e: int|
                0 <= e < m ==> #[trigger] offered(k, shifts.before@, fl, num_fields, e)
                    >= num_fields[fl[e] as int]
        }),
{
    let fl = flattened_before(flatten, flatten.len() as int);
    lemma_flattened_before_structure(flatten, flatten.len() as int);
    lemma_offered_from_start(flatten, num_fields, shifts, k, m);
    assert forall|i: int| 0 < i < fl.len() implies fl[i - 1] < #[trigger] fl[i] by {
        assert(segment_start(fl, i) <= fl[i]);
    }
    assert forall|e: int| 0 <= e < m implies #[trigger] offered(
        k,
        shifts.before@,
        fl,
        num_fields,
        e,
    ) >= num_fields[fl[e] as int] by {
        lemma_increasing(fl, e, m);
        lemma_wire_ranges_disjoint(flatten, num_fields, fl[e] as int, fl[m] as int);
        lemma_offered_from_start(flatten, num_fields, shifts, k, e);
    }
}

/// A list whose neighbours increase increases throughout.
proof fn lemma_increasing(fl: Seq<usize>, e: int, m: int)
    requires
        0 <= e < m < fl.len(),
        forall|i: int| 0 < i < fl.len() ==> fl[i - 1] < #[trigger] fl[i],
    ensures
        fl[e] < fl[m],
    decreases m - e,
{
    if e < m - 1 {
        lemma_increasing(fl, e, m - 1);
    }
}

/// A positional identifier past all wire fields of the struct is handed back
/// shifted past all of them, as a flattened struct must hand it back to the
/// struct it is flattened into.
pub proof fn lemma_key_past_struct(
    flatten: Seq<bool>,
    num_fields: Seq<nat>,
    shifts: Shifts,
    k: nat,
)
    requires
        flatten.len() <= usize::MAX,
        num_fields.len() == flatten.len(),
        shifts.counts(flatten),
        k >= wire_before(flatten, num_fields, flatten.len() as int),
    ensures
        handed_back(
            k,
            shifts.before@,
            shifts.after,
            flattened_before(flatten, flatten.len() as int),
            num_fields,
        ) == k - wire_before(flatten, num_fields, flatten.len() as int),
{
    let n = flatten.len() as int;
    let fl = flattened_before(flatten, n);
    lemma_flattened_before_structure(flatten, n);
    lemma_wire_before_plain_stretch(flatten, num_fields, tail_start(fl), n);
    if fl.len() > 0 {
        let last = fl.len() - 1;
        let p = fl[last] as int;
        lemma_wire_before_monotonic(flatten, num_fields, p, n);
        assert(wire_before(flatten, num_fields, p + 1) == wire_before(flatten, num_fields, p)
            + num_fields[p]);
        lemma_offered_from_start(flatten, num_fields, shifts, k, last);
    }
}

} // verus!
