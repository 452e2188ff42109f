//! What a registry of schemas promises.
use std::sync::Arc;

use arrow_schema::Schema;
use vstd::prelude::*;

use crate::batch::outside::{decoded_message, message_fields, schema_text};
use crate::batch::schema::{
    any_crowded, crowded, decoded, empty_registry, fnv, key_of, seeded, serializable, OutlineView,
    RegistryView,
};

verus! {

// ---- hashes ----

proof fn lemma_odd_factor(x: int, y: int)
    requires
        0 <= x < 0x1_0000_0000_0000_0000,
        0 <= y < 0x1_0000_0000_0000_0000,
        (x * 0x0100_0000_01b3) % 0x1_0000_0000_0000_0000 == (y * 0x0100_0000_01b3) % 0x1_0000_0000_0000_0000,
    ensures
        x == y,
{
    let a = (x * 1099511628211) / 18446744073709551616;
    let b = (y * 1099511628211) / 18446744073709551616;
    assert(x * 1099511628211 == 18446744073709551616 * a + (x * 1099511628211) % 18446744073709551616);
    assert(y * 1099511628211 == 18446744073709551616 * b + (y * 1099511628211) % 18446744073709551616);
    assert((x - y) * 1099511628211 == 18446744073709551616 * (a - b));
    // `1099511628211 * 14886173955864302971` is one more than `18446744073709551616 * 887285111055`
    let z = (a - b) * 14886173955864302971 - (x - y) * 887285111055;
    assert((x - y) * 16367521364044542611416814714881 == 274601441200549303209011169732786651136 * (a - b));
    assert(x - y == 18446744073709551616 * z);
    assert(z == 0);
}

/// Every byte of a serialized schema counts: two that differ in their last byte alone
/// have different hashes, and so have two that end with the same byte, unless what
/// stands before it has the same.
pub proof fn every_byte_of_a_schema_counts(a: Seq<u8>, b: Seq<u8>, x: u8, y: u8)
    ensures
        fnv(a.push(x)) == fnv(a.push(y)) ==> x == y,
        fnv(a.push(x)) == fnv(b.push(x)) ==> fnv(a) == fnv(b),
        fnv(Seq::empty()) == 0xcbf2_9ce4_8422_2325,
{
    assert(a.push(x).drop_last() =~= a);
    assert(a.push(y).drop_last() =~= a);
    assert(b.push(x).drop_last() =~= b);
    let (h, g) = (fnv(a), fnv(b));
    let (u, v) = (x as u64, y as u64);
    if fnv(a.push(x)) == fnv(a.push(y)) {
        lemma_odd_factor((h ^ u) as int, (h ^ v) as int);
        assert(h ^ u == h ^ v ==> u == v) by (bit_vector);
    }
    if fnv(a.push(x)) == fnv(b.push(x)) {
        lemma_odd_factor((h ^ u) as int, (g ^ u) as int);
        assert(h ^ u == g ^ u ==> h == g) by (bit_vector);
    }
}

// ---- crowded unions ----

/// Some field is crowded if one is, wherever it stands; and a field is, if it is a union
/// without type ids of more than a hundred and twenty-eight fields, or if one of the
/// fields inside is.
pub proof fn which_fields_are_crowded(s: Seq<OutlineView>, o: OutlineView, i: int)
    ensures
        any_crowded(s) <==> exists|k: int| 0 <= k < s.len() && crowded(#[trigger] s[k]),
        o.children.len() > 128 && o.bare == Some(true) ==> crowded(o),
        0 <= i < o.children.len() && crowded(o.children[i]) ==> crowded(o),
        crowded(o) ==> (o.children.len() > 128 && o.bare == Some(true)) || exists|k: int|
            0 <= k < o.children.len() && crowded(#[trigger] o.children[k]),
{
    lemma_any_crowded(s);
    lemma_any_crowded(o.children);
}

proof fn lemma_any_crowded(s: Seq<OutlineView>)
    ensures
        any_crowded(s) <==> exists|k: int| 0 <= k < s.len() && crowded(#[trigger] s[k]),
    decreases s.len(),
{
    if s.len() > 0 {
        let r = s.skip(1);
        lemma_any_crowded(r);
        if any_crowded(r) {
            let k = choose|k: int| 0 <= k < r.len() && crowded(#[trigger] r[k]);
            assert(s[k + 1] == r[k]);
        }
        if exists|k: int| 0 <= k < s.len() && crowded(#[trigger] s[k]) {
            let k = choose|k: int| 0 <= k < s.len() && crowded(#[trigger] s[k]);
            if k > 0 {
                assert(r[k - 1] == s[k]);
            }
        }
    }
}

/// Which schemas are taken: those whose text is at most sixty-four mebibytes long can be
/// serialized; and what is decoded is what Arrow decodes, unless a field is crowded.
pub proof fn which_schemas_are_taken(s: Schema, b: Seq<u8>)
    ensures
        serializable(s) <==> schema_text(s) <= 64 * 1024 * 1024,
        any_crowded(message_fields(b)) ==> decoded(b) is None,
        !any_crowded(message_fields(b)) ==> decoded(b) == decoded_message(b),
{
}

// ---- ids ----

/// Ids are given out in turn, from one on: schemas of different content that are
/// interned into a new registry one after the other have the ids one, two, three.
pub proof fn ids_are_given_in_turn(s: Seq<Arc<Schema>>, i: int)
    requires
        s.len() < u32::MAX,
        forall|a: int, b: int| 0 <= a < b < s.len() ==> key_of(*s[a]) != key_of(*s[b]),
        0 <= i < s.len(),
    ensures
        ({
            let r = seeded(s);
            &&& r.next_id == s.len() + 1
            &&& r.by_id.contains_key((i + 1) as u32) && r.by_id[(i + 1) as u32] == s[i]
            &&& r.id_of(*s[i]) == i + 1
            &&& r.by_id.dom() == Set::new(|id: u32| 1 <= id <= s.len())
        }),
{
    lemma_seeded(s);
}

spec fn newest_key(s: Seq<Arc<Schema>>) -> u64 {
    key_of(*s.last())
}

proof fn lemma_seeded(s: Seq<Arc<Schema>>)
    requires
        s.len() < u32::MAX,
        forall|a: int, b: int| 0 <= a < b < s.len() ==> key_of(*s[a]) != key_of(*s[b]),
    ensures
        ({
            let r = seeded(s);
            &&& r.next_id == s.len() + 1
            &&& forall|id: u32| #[trigger] r.by_id.contains_key(id) <==> 1 <= id <= s.len()
            &&& forall|id: u32| 1 <= id <= s.len() ==> #[trigger] r.by_id[id] == s[id - 1]
            &&& forall|k: u64| #[trigger]
                r.by_hash.contains_key(k) ==> exists|a: int|
                    0 <= a < s.len() && key_of(*#[trigger] s[a]) == k
            &&& forall|a: int|
                0 <= a < s.len() ==> r.by_hash.contains_key(key_of(*#[trigger] s[a])) && r.by_hash[key_of(*s[a])]
                    == a + 1
        }),
    decreases s.len(),
{
    if s.len() > 0 {
        let d = s.drop_last();
        assert forall|a: int, b: int| 0 <= a < b < d.len() implies key_of(*d[a]) != key_of(*d[b]) by {
            assert(key_of(*s[a]) != key_of(*s[b]));
        }
        lemma_seeded(d);
        let (p, r) = (seeded(d), seeded(s));
        let k = newest_key(s);
        if p.by_hash.contains_key(k) {
            let a = choose|a: int| 0 <= a < d.len() && key_of(*#[trigger] d[a]) == k;
            assert(key_of(*s[a]) != key_of(*s[s.len() - 1]));
        }
        assert forall|x: u64| #[trigger] r.by_hash.contains_key(x) implies exists|a: int|
            0 <= a < s.len() && key_of(*#[trigger] s[a]) == x by {
            if x == k {
                assert(key_of(*s[s.len() - 1]) == x);
            } else {
                assert(p.by_hash.contains_key(x));
                let a = choose|a: int| 0 <= a < d.len() && key_of(*#[trigger] d[a]) == x;
                assert(key_of(*s[a]) == x);
            }
        }
        assert forall|a: int| 0 <= a < s.len() implies r.by_hash.contains_key(key_of(*#[trigger] s[a]))
            && r.by_hash[key_of(*s[a])] == a + 1 by {
            if a < d.len() {
                assert(d[a] == s[a]);
                assert(key_of(*s[a]) != key_of(*s[s.len() - 1]));
            }
        }
    }
}

/// A schema that is interned again keeps its id, and the registry stays as it is.
pub proof fn interning_again_changes_nothing(r: RegistryView, s: Arc<Schema>)
    requires
        r.wf(),
        r.by_hash.contains_key(key_of(*s)),
    ensures
        r.interned(s) == r,
        r.by_id.contains_key(r.id_of(*s)),
{
}

/// What learning a mapping does. The raw id maps to nothing. Any other id is known
/// afterwards, by what it was known by before if it was; the schema has the id it had
/// before, if it had one, and else this one. An id that is minted later is later than
/// all that were learned. Nothing else changes.
pub proof fn what_learning_does(r: RegistryView, id: u32, s: Arc<Schema>, other: u32, key: u64)
    requires
        r.wf(),
        id < u32::MAX,
    ensures
        id == 0 ==> r.learned(id, s) == r,
        id > 0 ==> {
            let n = r.learned(id, s);
            &&& n.by_id.dom() == r.by_id.dom().insert(id)
            &&& n.by_hash.dom() == r.by_hash.dom().insert(key_of(*s))
            &&& n.by_id[id] == if r.by_id.contains_key(id) {
                r.by_id[id]
            } else {
                s
            }
            &&& r.by_id.contains_key(other) ==> n.by_id[other] == r.by_id[other]
            &&& n.by_hash[key_of(*s)] == if r.by_hash.contains_key(key_of(*s)) {
                r.by_hash[key_of(*s)]
            } else {
                id
            }
            &&& r.by_hash.contains_key(key) ==> n.by_hash[key] == r.by_hash[key]
            &&& n.next_id > id && n.next_id >= r.next_id
            &&& id < r.next_id ==> n.next_id == r.next_id
            &&& id >= r.next_id ==> n.next_id == id + 1
        },
{
    let n = r.learned(id, s);
    if id > 0 {
        assert(n.by_id.dom() =~= r.by_id.dom().insert(id));
        assert(n.by_hash.dom() =~= r.by_hash.dom().insert(key_of(*s)));
    }
}

/// A new registry knows nothing, and gives out the id one first.
pub proof fn a_new_registry_knows_nothing(id: u32, key: u64)
    ensures
        !empty_registry().by_id.contains_key(id),
        !empty_registry().by_hash.contains_key(key),
        empty_registry().next_id == 1,
{
}

} // verus!
