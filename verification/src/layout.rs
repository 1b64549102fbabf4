//! The flat layout of a struct whose fields may be flattened into it: the
//! names of its leaf fields in serialization order, how a field identifier
//! picks one of them, how values are collected for them, and when a struct
//! can be built from what was collected.
use vstd::prelude::*;
use vstd::utf8::*;

use crate::identifier::{sat_add, FieldKey};

verus! {

broadcast use vstd::utf8::encode_utf8_decode_utf8;

/// The leaf position that a key picks among `names`: the first position `i`
/// such that the key designates the field called `names[i]` at position `i`.
/// A positional key is shifted by one for each field it passes over.
pub open spec fn first_match(k: FieldKey, names: Seq<Seq<char>>) -> Option<int>
    decreases names.len(),
{
    if names.len() == 0 {
        None
    } else if k.designates(names[0], 0) {
        Some(0)
    } else {
        match first_match(k.offset(1), names.drop_first()) {
            Some(j) => Some(j + 1),
            None => None,
        }
    }
}

/// The first position that holds no value yet.
pub open spec fn first_missing(slots: Seq<Option<u64>>) -> Option<int>
    decreases slots.len(),
{
    if slots.len() == 0 {
        None
    } else if slots[0] is None {
        Some(0)
    } else {
        match first_missing(slots.drop_first()) {
            Some(j) => Some(j + 1),
            None => None,
        }
    }
}

/// The values held by a sequence of filled slots.
pub open spec fn unwrap_all(slots: Seq<Option<u64>>) -> Seq<u64> {
    slots.map_values(|o: Option<u64>| o->0)
}

/// Slots that all hold the given values.
pub open spec fn filled(values: Seq<u64>) -> Seq<Option<u64>> {
    values.map_values(|v: u64| Some(v))
}

/// `n` slots that hold nothing.
pub open spec fn empty_slots(n: nat) -> Seq<Option<u64>> {
    Seq::new(n, |i: int| None::<u64>)
}

/// The message reported when the field called `name` received no value.
pub open spec fn missing_field(name: Seq<char>) -> Seq<char> {
    "missing field `"@ + name + "`"@
}

/// The `(name, value)` pairs of a struct's leaf fields, in order.
pub open spec fn entries(names: Seq<Seq<char>>, values: Seq<u64>) -> Seq<(Seq<char>, u64)> {
    Seq::new(names.len(), |i: int| (names[i], values[i]))
}

/// What a serialized `(name, value)` pair holds.
pub open spec fn entry_view(e: (&str, u64)) -> (Seq<char>, u64) {
    (e.0@, e.1)
}

/// The state of the slots after the `(key, value)` pairs of a map were taken
/// in order: a key that picks a leaf stores its value there (a later value for
/// the same leaf replaces an earlier one); a key that picks none is skipped.
pub open spec fn feed(
    slots: Seq<Option<u64>>,
    names: Seq<Seq<char>>,
    pairs: Seq<(FieldKey, u64)>,
) -> Seq<Option<u64>>
    decreases pairs.len(),
{
    if pairs.len() == 0 {
        slots
    } else {
        let prev = feed(slots, names, pairs.drop_last());
        match first_match(pairs.last().0, names) {
            Some(i) => prev.update(i, Some(pairs.last().1)),
            None => prev,
        }
    }
}

/// The pairs of a map that names each leaf field.
pub open spec fn named_pairs(names: Seq<Seq<char>>, values: Seq<u64>) -> Seq<(FieldKey, u64)> {
    Seq::new(names.len(), |i: int| (FieldKey::Name(names[i]), values[i]))
}

/// The pairs of a map that gives each leaf field by the UTF-8 bytes of its name.
pub open spec fn byte_named_pairs(names: Seq<Seq<char>>, values: Seq<u64>) -> Seq<
    (FieldKey, u64),
> {
    Seq::new(names.len(), |i: int| (FieldKey::Bytes(encode_utf8(names[i])), values[i]))
}

/// The pairs of a map that gives each leaf field by its position.
pub open spec fn indexed_pairs(values: Seq<u64>) -> Seq<(FieldKey, u64)> {
    Seq::new(values.len(), |i: int| (FieldKey::Index(i as u64), values[i]))
}

/// No two leaf fields share a name.
pub open spec fn distinct_names(names: Seq<Seq<char>>) -> bool {
    forall|i: int, j: int| 0 <= i < names.len() && 0 <= j < names.len() && i != j ==> names[i] != names[j]
}

/// A key picks position `i` exactly when it designates the field at `i` and
/// none before it.
pub proof fn lemma_first_match_is_first(k: FieldKey, names: Seq<Seq<char>>, i: int)
    requires
        names.len() <= u64::MAX,
    ensures
        first_match(k, names) == Some(i) <==> (0 <= i < names.len() && k.designates(
            names[i],
            i as u64,
        ) && forall|j: int| 0 <= j < i ==> !k.designates(names[j], j as u64)),
        first_match(k, names) is None <==> forall|j: int|
            0 <= j < names.len() ==> !k.designates(names[j], j as u64),
    decreases names.len(),
{
    if names.len() == 0 {
    } else if k.designates(names[0], 0) {
    } else {
        let rest = names.drop_first();
        let k1 = k.offset(1);
        lemma_first_match_is_first(k1, rest, i - 1);
        // Past position 0, the shifted key designates position j - 1 of the
        // rest exactly when the key designates position j.
        assert forall|j: int| 1 <= j < names.len() implies (k1.designates(
            rest[j - 1],
            (j - 1) as u64,
        ) <==> k.designates(names[j], j as u64)) by {}
        if first_match(k, names) == Some(i) {
            assert forall|j: int| 0 <= j < i implies !k.designates(names[j], j as u64) by {
                if j > 0 {
                    assert(!k1.designates(rest[j - 1], (j - 1) as u64));
                }
            }
        }
        if 0 <= i < names.len() && k.designates(names[i], i as u64) && forall|j: int|
            0 <= j < i ==> !k.designates(names[j], j as u64) {
            assert(i != 0);
            assert forall|j: int| 0 <= j < i - 1 implies !k1.designates(
                rest[j],
                j as u64,
            ) by {
                assert(!k.designates(names[j + 1], (j + 1) as u64));
            }
        }
        if forall|j: int| 0 <= j < names.len() ==> !k.designates(names[j], j as u64) {
            assert forall|j: int| 0 <= j < rest.len() implies !k1.designates(
                rest[j],
                j as u64,
            ) by {
                assert(!k.designates(names[j + 1], (j + 1) as u64));
            }
        }
        if first_match(k, names) is None {
            assert forall|j: int| 0 <= j < names.len() implies !k.designates(
                names[j],
                j as u64,
            ) by {
                if j > 0 {
                    assert(!k1.designates(rest[j - 1], (j - 1) as u64));
                }
            }
        }
    }
}

/// Looking up a key among the leaves of two parts laid end to end: the first
/// part is searched, and if it holds no match the key, shifted past the first
/// part, is looked up in the second.
pub proof fn lemma_first_match_concat(k: FieldKey, n1: Seq<Seq<char>>, n2: Seq<Seq<char>>)
    requires
        n1.len() < u64::MAX,
    ensures
        first_match(k, n1 + n2) == match first_match(k, n1) {
            Some(i) => Some(i),
            None => match first_match(k.offset(n1.len() as u64), n2) {
                Some(j) => Some(j + n1.len()),
                None => None,
            },
        },
    decreases n1.len(),
{
    if n1.len() == 0 {
        assert(n1 + n2 =~= n2);
    } else {
        assert((n1 + n2)[0] == n1[0]);
        assert((n1 + n2).drop_first() =~= n1.drop_first() + n2);
        if !k.designates(n1[0], 0) {
            lemma_first_match_concat(k.offset(1), n1.drop_first(), n2);
            assert(sat_add(1, (n1.len() - 1) as u64) == n1.len());
            crate::identifier::lemma_offset_offset(k, 1, (n1.len() - 1) as u64);
        }
    }
}

/// Looking for a missing value in two parts laid end to end.
pub proof fn lemma_first_missing_concat(s1: Seq<Option<u64>>, s2: Seq<Option<u64>>)
    ensures
        first_missing(s1 + s2) == match first_missing(s1) {
            Some(i) => Some(i),
            None => match first_missing(s2) {
                Some(j) => Some(j + s1.len()),
                None => None,
            },
        },
    decreases s1.len(),
{
    if s1.len() == 0 {
        assert(s1 + s2 =~= s2);
    } else {
        assert((s1 + s2)[0] == s1[0]);
        assert((s1 + s2).drop_first() =~= s1.drop_first() + s2);
        lemma_first_missing_concat(s1.drop_first(), s2);
    }
}

/// A value is missing at the first empty slot, and nowhere if all are filled.
pub proof fn lemma_first_missing_is_first(slots: Seq<Option<u64>>)
    ensures
        first_missing(slots) is None <==> forall|j: int| 0 <= j < slots.len() ==> slots[j] is Some,
        first_missing(slots) matches Some(i) ==> 0 <= i < slots.len() && slots[i] is None && forall|
            j: int,
        |
            0 <= j < i ==> slots[j] is Some,
    decreases slots.len(),
{
    if slots.len() > 0 {
        lemma_first_missing_is_first(slots.drop_first());
        if slots[0] is Some && first_missing(slots.drop_first()) is None {
            assert forall|j: int| 0 <= j < slots.len() implies slots[j] is Some by {
                if j > 0 {
                    assert(slots.drop_first()[j - 1] == slots[j]);
                }
            }
        }
        if let Some(i) = first_missing(slots) {
            if i > 0 {
                assert forall|j: int| 0 <= j < i implies slots[j] is Some by {
                    if j > 0 {
                        assert(slots.drop_first()[j - 1] == slots[j]);
                    }
                }
            }
        }
    }
}

/// Feeding pairs whose keys pick positions `0..m` in order fills those
/// positions with the pairs' values and leaves the rest as they were.
proof fn lemma_feed_in_order(names: Seq<Seq<char>>, pairs: Seq<(FieldKey, u64)>, m: int)
    requires
        0 <= m <= pairs.len(),
        pairs.len() == names.len(),
        forall|i: int| 0 <= i < pairs.len() ==> first_match(#[trigger] pairs[i].0, names) == Some(i),
    ensures
        feed(empty_slots(names.len()), names, pairs.take(m)) =~= Seq::new(
            names.len(),
            |i: int|
                if i < m {
                    Some(pairs[i].1)
                } else {
                    None
                },
        ),
    decreases m,
{
    if m > 0 {
        lemma_feed_in_order(names, pairs, m - 1);
        assert(pairs.take(m).drop_last() =~= pairs.take(m - 1));
        assert(pairs.take(m).last() == pairs[m - 1]);
    }
}

/// Taking, in order, a pair for each leaf field whose key picks that field
/// fills every slot with the pair's value.
pub proof fn lemma_feed_all(names: Seq<Seq<char>>, pairs: Seq<(FieldKey, u64)>, values: Seq<u64>)
    requires
        pairs.len() == names.len(),
        values.len() == names.len(),
        forall|i: int| 0 <= i < pairs.len() ==> first_match(#[trigger] pairs[i].0, names) == Some(i),
        forall|i: int| 0 <= i < pairs.len() ==> #[trigger] pairs[i].1 == values[i],
    ensures
        feed(empty_slots(names.len()), names, pairs) == filled(values),
        first_missing(filled(values)) is None,
        unwrap_all(filled(values)) == values,
{
    lemma_feed_in_order(names, pairs, pairs.len() as int);
    assert(pairs.take(pairs.len() as int) =~= pairs);
    assert(feed(empty_slots(names.len()), names, pairs) =~= filled(values));
    lemma_first_missing_is_first(filled(values));
    assert(unwrap_all(filled(values)) =~= values);
}

/// With distinct leaf names, a map that names every leaf field once, in
/// order, fills every slot with its value.
pub proof fn lemma_named_roundtrip(names: Seq<Seq<char>>, values: Seq<u64>)
    requires
        names.len() == values.len(),
        names.len() <= u64::MAX,
        distinct_names(names),
    ensures
        feed(empty_slots(names.len()), names, named_pairs(names, values)) == filled(values),
        first_missing(filled(values)) is None,
        unwrap_all(filled(values)) == values,
{
    let pairs = named_pairs(names, values);
    assert forall|i: int| 0 <= i < pairs.len() implies first_match(
        #[trigger] pairs[i].0,
        names,
    ) == Some(i) by {
        lemma_first_match_is_first(pairs[i].0, names, i);
    }
    lemma_feed_all(names, pairs, values);
}

/// With distinct leaf names, a map that gives every leaf field once, in
/// order, by the UTF-8 bytes of its name fills every slot with its value.
pub proof fn lemma_byte_named_roundtrip(names: Seq<Seq<char>>, values: Seq<u64>)
    requires
        names.len() == values.len(),
        names.len() <= u64::MAX,
        distinct_names(names),
    ensures
        feed(empty_slots(names.len()), names, byte_named_pairs(names, values)) == filled(values),
        first_missing(filled(values)) is None,
        unwrap_all(filled(values)) == values,
{
    let pairs = byte_named_pairs(names, values);
    assert forall|i: int| 0 <= i < pairs.len() implies first_match(
        #[trigger] pairs[i].0,
        names,
    ) == Some(i) by {
        assert forall|j: int| 0 <= j < i implies !pairs[i].0.designates(names[j], j as u64) by {
            if encode_utf8(names[i]) == encode_utf8(names[j]) {
                assert(decode_utf8(encode_utf8(names[i])) == names[i]);
                assert(decode_utf8(encode_utf8(names[j])) == names[j]);
            }
        }
        lemma_first_match_is_first(pairs[i].0, names, i);
    }
    lemma_feed_all(names, pairs, values);
}

/// A map that gives every leaf field once, in order, by its position fills
/// every slot with its value, whatever the names.
pub proof fn lemma_indexed_roundtrip(names: Seq<Seq<char>>, values: Seq<u64>)
    requires
        names.len() == values.len(),
        names.len() <= u64::MAX,
    ensures
        feed(empty_slots(names.len()), names, indexed_pairs(values)) == filled(values),
        first_missing(filled(values)) is None,
        unwrap_all(filled(values)) == values,
{
    let pairs = indexed_pairs(values);
    assert forall|i: int| 0 <= i < pairs.len() implies first_match(
        #[trigger] pairs[i].0,
        names,
    ) == Some(i) by {
        lemma_first_match_is_first(pairs[i].0, names, i);
    }
    lemma_feed_all(names, pairs, values);
}

/// A key that picks no leaf field leaves the collected values as they are.
pub proof fn lemma_unknown_key_skipped(
    slots: Seq<Option<u64>>,
    names: Seq<Seq<char>>,
    pairs: Seq<(FieldKey, u64)>,
    k: FieldKey,
    v: u64,
)
    requires
        first_match(k, names) is None,
    ensures
        feed(slots, names, pairs.push((k, v))) == feed(slots, names, pairs),
{
    assert(pairs.push((k, v)).drop_last() =~= pairs);
}


/// The last of the pairs whose key picks position `i`.
pub open spec fn last_pick(names: Seq<Seq<char>>, pairs: Seq<(FieldKey, u64)>, i: int) -> Option<
    int,
>
    decreases pairs.len(),
{
    if pairs.len() == 0 {
        None
    } else if first_match(pairs.last().0, names) == Some(i) {
        Some(pairs.len() - 1)
    } else {
        last_pick(names, pairs.drop_last(), i)
    }
}

/// `last_pick` finds the last pair that picks `i`, and none when no pair does.
proof fn lemma_last_pick_is_last(names: Seq<Seq<char>>, pairs: Seq<(FieldKey, u64)>, i: int)
    ensures
        last_pick(names, pairs, i) matches Some(j) ==> 0 <= j < pairs.len() && first_match(
            pairs[j].0,
            names,
        ) == Some(i) && forall|k: int|
            j < k < pairs.len() ==> first_match(#[trigger] pairs[k].0, names) != Some(i),
        last_pick(names, pairs, i) is None ==> forall|k: int|
            0 <= k < pairs.len() ==> first_match(#[trigger] pairs[k].0, names) != Some(i),
    decreases pairs.len(),
{
    if pairs.len() > 0 {
        let rest = pairs.drop_last();
        lemma_last_pick_is_last(names, rest, i);
        assert(pairs.last() == pairs[pairs.len() - 1]);
        if first_match(pairs.last().0, names) != Some(i) {
            assert forall|k: int| 0 <= k < pairs.len() - 1 implies #[trigger] pairs[k] == rest[k] by {}
            if let Some(j) = last_pick(names, rest, i) {
                assert(pairs[j] == rest[j]);
                assert forall|k: int| j < k < pairs.len() implies first_match(
                    #[trigger] pairs[k].0,
                    names,
                ) != Some(i) by {
                    if k < pairs.len() - 1 {
                        assert(pairs[k] == rest[k]);
                    }
                }
            } else {
                assert forall|k: int| 0 <= k < pairs.len() implies first_match(
                    #[trigger] pairs[k].0,
                    names,
                ) != Some(i) by {
                    if k < pairs.len() - 1 {
                        assert(pairs[k] == rest[k]);
                    }
                }
            }
        }
    }
}

/// After the pairs of a map were taken, each slot holds the value of the last
/// pair whose key picks it, or what it held before if no key picks it: a
/// later value for a field replaces an earlier one.
pub proof fn lemma_feed_last_wins(
    slots: Seq<Option<u64>>,
    names: Seq<Seq<char>>,
    pairs: Seq<(FieldKey, u64)>,
    i: int,
)
    requires
        slots.len() == names.len(),
        names.len() <= u64::MAX,
        0 <= i < slots.len(),
    ensures
        feed(slots, names, pairs).len() == slots.len(),
        feed(slots, names, pairs)[i] == match last_pick(names, pairs, i) {
            Some(j) => Some(pairs[j].1),
            None => slots[i],
        },
    decreases pairs.len(),
{
    if pairs.len() > 0 {
        let rest = pairs.drop_last();
        lemma_feed_last_wins(slots, names, rest, i);
        lemma_last_pick_is_last(names, rest, i);
        let k = pairs.last().0;
        if let Some(p) = first_match(k, names) {
            lemma_first_match_is_first(k, names, p);
        }
        if let Some(j) = last_pick(names, rest, i) {
            assert(rest[j] == pairs[j]);
        }
    }
}

/// When no two pairs of a map pick the same field, the order in which the
/// pairs come does not matter: any rearrangement of them leaves every slot
/// with the same value.
pub proof fn lemma_feed_order_irrelevant(
    slots: Seq<Option<u64>>,
    names: Seq<Seq<char>>,
    p1: Seq<(FieldKey, u64)>,
    p2: Seq<(FieldKey, u64)>,
    perm: Seq<int>,
)
    requires
        slots.len() == names.len(),
        names.len() <= u64::MAX,
        p1.len() == p2.len(),
        perm.len() == p2.len(),
        forall|k: int| 0 <= k < p2.len() ==> 0 <= #[trigger] perm[k] < p1.len() && p2[k] == p1[perm[k]],
        forall|j: int| 0 <= j < p1.len() ==> #[trigger] perm.contains(j),
        forall|a: int, b: int|
            0 <= a < p1.len() && 0 <= b < p1.len() && a != b && first_match(
                #[trigger] p1[a].0,
                names,
            ) is Some ==> first_match(p1[a].0, names) != first_match(#[trigger] p1[b].0, names),
    ensures
        feed(slots, names, p1) == feed(slots, names, p2),
{
    assert forall|i: int| 0 <= i < slots.len() implies feed(slots, names, p1)[i] == feed(
        slots,
        names,
        p2,
    )[i] by {
        lemma_feed_last_wins(slots, names, p1, i);
        lemma_feed_last_wins(slots, names, p2, i);
        lemma_last_pick_is_last(names, p1, i);
        lemma_last_pick_is_last(names, p2, i);
        match last_pick(names, p2, i) {
            Some(k) => {
                let j = perm[k];
                assert(first_match(p1[j].0, names) == Some(i));
                if let Some(j2) = last_pick(names, p1, i) {
                    assert(j2 == j);
                }
            },
            None => {
                if let Some(j) = last_pick(names, p1, i) {
                    assert(perm.contains(j));
                    let k = choose|k: int| 0 <= k < p2.len() && perm[k] == j;
                    assert(first_match(p2[k].0, names) == Some(i));
                }
            },
        }
    }
    lemma_feed_len(slots, names, p1);
    lemma_feed_len(slots, names, p2);
    assert(feed(slots, names, p1) =~= feed(slots, names, p2));
}

/// Taking pairs keeps the number of slots.
proof fn lemma_feed_len(slots: Seq<Option<u64>>, names: Seq<Seq<char>>, pairs: Seq<(FieldKey, u64)>)
    requires
        slots.len() == names.len(),
        names.len() <= u64::MAX,
    ensures
        feed(slots, names, pairs).len() == slots.len(),
    decreases pairs.len(),
{
    if pairs.len() > 0 {
        lemma_feed_len(slots, names, pairs.drop_last());
        let k = pairs.last().0;
        if let Some(p) = first_match(k, names) {
            lemma_first_match_is_first(k, names, p);
        }
    }
}

} // verus!
