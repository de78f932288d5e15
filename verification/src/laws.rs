//! What holds of the identifier store and of the allocator across several
//! operations.

use crate::allocator::{
    fresh, lemma_after_restoring_step, rebuilt, records_fit, AllocState, LoadError, ObjAllocator,
};
use crate::id_map::{Id, IdMap};
use crate::index::{listing, FieldSpan};
use crate::obj::{Item, Obj};
use vstd::prelude::*;

verus! {

/// Every operation of the identifier store keeps the stored identifiers at
/// or below the counter, and none lowers the counter.
pub proof fn lemma_store_stays_valid<K: Id, V>(
    before: IdMap<K, V>,
    id: K,
    value: V,
    after: IdMap<K, V>,
)
    requires
        before.wf(),
        before.inserted(value, id, &after) || before.inserted_with_id(id, value, &after)
            || before.removed(id, &after) || before.cleared(&after),
    ensures
        after.wf(),
        after.counter() >= before.counter(),
{
    assert forall|k: u64| #[trigger] after.entries().contains_key(k) implies k
        <= after.counter() by {
        if k != id.raw() {
            assert(before.entries().contains_key(k));
        }
    }
}

/// The first identifier a new store issues is 1.
pub proof fn lemma_first_insert_issues_one<K: Id, V>(
    before: IdMap<K, V>,
    value: V,
    id: K,
    after: IdMap<K, V>,
)
    requires
        before.counter() == 0,
        before.inserted(value, id, &after),
    ensures
        id.raw() == 1,
{
}

/// Of two inserts in a row, the second issues the identifier that follows
/// the first.
pub proof fn lemma_inserts_issue_successive_ids<K: Id, V>(
    first: IdMap<K, V>,
    value1: V,
    id1: K,
    second: IdMap<K, V>,
    value2: V,
    id2: K,
    third: IdMap<K, V>,
)
    requires
        first.inserted(value1, id1, &second),
        second.inserted(value2, id2, &third),
    ensures
        id2.raw() == id1.raw() + 1,
{
}

/// After an identifier has been removed, the next insert issues another
/// one: an identifier is never issued twice.
pub proof fn lemma_removed_id_is_not_reissued<K: Id, V>(
    first: IdMap<K, V>,
    id: K,
    second: IdMap<K, V>,
    value: V,
    issued: K,
    third: IdMap<K, V>,
)
    requires
        first.wf(),
        first.entries().contains_key(id.raw()),
        first.removed(id, &second),
        second.inserted(value, issued, &third),
    ensures
        issued.raw() > id.raw(),
        issued != id,
{
}

/// After a clear, the next insert issues an identifier above every one the
/// store held, and above the counter as it was.
pub proof fn lemma_insert_after_clear_is_fresh<K: Id, V>(
    first: IdMap<K, V>,
    second: IdMap<K, V>,
    value: V,
    issued: K,
    third: IdMap<K, V>,
)
    requires
        first.wf(),
        first.cleared(&second),
        second.inserted(value, issued, &third),
    ensures
        issued.raw() > first.counter(),
        forall|k: u64| #[trigger] first.entries().contains_key(k) ==> issued.raw() > k,
{
}

/// An identifier supplied by the caller leaves the counter alone where it
/// is not above it; where it is above it, the next identifier issued is the
/// one that follows it.
pub proof fn lemma_supplied_id_moves_counter_upward<K: Id, V>(
    first: IdMap<K, V>,
    id: K,
    value: V,
    second: IdMap<K, V>,
    next_value: V,
    issued: K,
    third: IdMap<K, V>,
)
    requires
        first.inserted_with_id(id, value, &second),
        second.inserted(next_value, issued, &third),
    ensures
        id.raw() <= first.counter() ==> second.counter() == first.counter(),
        id.raw() > first.counter() ==> issued.raw() == id.raw() + 1,
{
}

/// An insert that the index refuses leaves both stores as they were; the
/// identifier it had reserved is used up.
pub proof fn lemma_rejected_insert_changes_no_store(s: AllocState, span: FieldSpan, item: Item)
    requires
        s.counter < u64::MAX,
        !s.accepts(span, item),
    ensures
        s.after_insert(span, item).ids == s.ids,
        s.after_insert(span, item).ids.len() == s.ids.len(),
        s.after_insert(span, item).records == s.records,
        s.after_insert(span, item).counter == s.counter + 1,
{
}

/// A change that can be placed puts the new object under the same
/// identifier: looking the identifier up gives the new object, its record
/// stands under the new key, and the old key, if it differs, is free.
pub proof fn lemma_change_moves_the_record(s: AllocState, span: FieldSpan, id: u64, item: Item)
    requires
        s.consistent(span),
        s.allows_change(span, id, item),
    ensures
        s.after_change(id, item).consistent(span),
        s.after_change(id, item).object_of(id) == Some(item),
        s.after_change(id, item).records[item.key].0 == id,
        item.key != s.ids[id] ==> !s.after_change(id, item).records.contains_key(s.ids[id]),
        s.after_change(id, item).ids.dom() =~= s.ids.dom(),
{
    let t = s.after_change(id, item);
    let old_key = s.ids[id];
    assert(s.ids.contains_key(id));
    assert forall|i: u64| #[trigger] t.ids.contains_key(i) implies i <= t.counter && span.holds(
        t.ids[i],
    ) && t.records.contains_key(t.ids[i]) && t.records[t.ids[i]].0 == i by {
        assert(s.ids.contains_key(i));
    }
    assert forall|k: u64| #[trigger] t.records.contains_key(k) implies t.ids.contains_key(
        t.records[k].0,
    ) && t.ids[t.records[k].0] == k by {
        if k != item.key {
            assert(s.records.contains_key(k));
        }
    }
}

/// Nothing is found under an identifier that has been removed, nor under
/// one that was never issued.
pub proof fn lemma_absent_ids_resolve_to_nothing(s: AllocState, span: FieldSpan, id: u64)
    requires
        s.consistent(span),
    ensures
        s.after_remove(id).object_of(id).is_none(),
        s.after_remove(id).consistent(span),
        id > s.counter ==> s.object_of(id).is_none(),
{
    let t = s.after_remove(id);
    if s.ids.contains_key(id) {
        assert forall|i: u64| #[trigger] t.ids.contains_key(i) implies i <= t.counter
            && span.holds(t.ids[i]) && t.records.contains_key(t.ids[i]) && t.records[t.ids[i]].0
            == i by {
            assert(s.ids.contains_key(i));
        }
        assert forall|k: u64| #[trigger] t.records.contains_key(k) implies t.ids.contains_key(
            t.records[k].0,
        ) && t.ids[t.records[k].0] == k by {
            assert(s.records.contains_key(k));
        }
    }
}

/// The records of `s` whose key lies below `bound`.
spec fn records_below(s: AllocState, bound: int) -> Map<u64, (u64, u64)> {
    Map::new(|k: u64| s.records.contains_key(k) && k < bound, |k: u64| s.records[k])
}

/// The identifiers of `s` whose key lies below `bound`, each with its key.
spec fn ids_below(s: AllocState, bound: int) -> Map<u64, u64> {
    Map::new(|i: u64| s.ids.contains_key(i) && s.ids[i] < bound, |i: u64| s.ids[i])
}

/// The key of the record at place `n` of `out`, or a bound above every key
/// where `out` has no such place.
spec fn key_bound<K: Id>(out: Seq<Obj<K, Item>>, n: int) -> int {
    if 0 <= n < out.len() {
        out[n].1.key as int
    } else {
        u64::MAX + 1
    }
}

/// In a listing, a key of the map stands at a place below `n` exactly when
/// it lies below the key at place `n`.
proof fn lemma_listing_place<K: Id>(
    out: Seq<Obj<K, Item>>,
    records: Map<u64, (u64, u64)>,
    n: int,
    k: u64,
)
    requires
        listing(out, records),
        0 <= n <= out.len(),
        records.contains_key(k),
    ensures
        exists|i: int| 0 <= i < out.len() && (#[trigger] out[i]).1.key == k && (i < n <==> k
            < key_bound(out, n)),
{
    let i = choose|i: int| 0 <= i < out.len() && (#[trigger] out[i]).1.key == k;
    if n < out.len() {
        if i < n {
            assert(out[i].1.key < out[n].1.key);
        } else if i > n {
            assert(out[n].1.key < out[i].1.key);
        }
    }
}

/// Restoring the first `n` records of a listing of `s` succeeds at every
/// step and rebuilds what `s` holds below the key at place `n`.
proof fn lemma_restored_prefix<K: Id>(
    s: AllocState,
    span: FieldSpan,
    out: Seq<Obj<K, Item>>,
    n: int,
)
    requires
        s.consistent(span),
        listing(out, s.records),
        0 <= n <= out.len(),
    ensures
        fresh().restores_first(span, out, n),
        fresh().after_restoring(out.take(n)).records =~= records_below(s, key_bound(out, n)),
        fresh().after_restoring(out.take(n)).ids =~= ids_below(s, key_bound(out, n)),
    decreases n,
{
    let t = fresh().after_restoring(out.take(n));
    let bound = key_bound(out, n);
    if n == 0 {
        assert(out.take(0).len() == 0);
        assert forall|k: u64| !(s.records.contains_key(k) && k < bound) by {
            if s.records.contains_key(k) {
                lemma_listing_place(out, s.records, 0, k);
            }
        }
        assert forall|i: u64| !(s.ids.contains_key(i) && s.ids[i] < bound) by {
            if s.ids.contains_key(i) {
                assert(s.records.contains_key(s.ids[i]));
                lemma_listing_place(out, s.records, 0, s.ids[i]);
            }
        }
    } else {
        let m = n - 1;
        let r = out[m];
        let before = fresh().after_restoring(out.take(m));
        lemma_restored_prefix(s, span, out, m);
        lemma_after_restoring_step(fresh(), out, m);
        assert(t == before.after_restore(r));
        assert(s.records.contains_key(r.1.key));
        assert(s.ids.contains_key(r.0.raw()) && s.ids[r.0.raw()] == r.1.key);
        assert(before.restores(span, r));
        assert forall|k: u64| t.records.contains_key(k) <==> s.records.contains_key(k) && k
            < bound by {
            if s.records.contains_key(k) {
                lemma_listing_place(out, s.records, n, k);
                lemma_listing_place(out, s.records, m, k);
                let i = choose|i: int| 0 <= i < out.len() && (#[trigger] out[i]).1.key == k && (i
                    < n <==> k < key_bound(out, n));
                let j = choose|j: int| 0 <= j < out.len() && (#[trigger] out[j]).1.key == k && (j
                    < m <==> k < key_bound(out, m));
                if i != j {
                    if i < j {
                        assert(out[i].1.key < out[j].1.key);
                    } else {
                        assert(out[j].1.key < out[i].1.key);
                    }
                }
                if i == m {
                    assert(k == r.1.key);
                }
            }
        }
        assert forall|i: u64| t.ids.contains_key(i) <==> s.ids.contains_key(i) && s.ids[i]
            < bound by {
            if s.ids.contains_key(i) {
                let k = s.ids[i];
                assert(s.records.contains_key(k) && s.records[k].0 == i);
                assert(t.records.contains_key(k) <==> s.records.contains_key(k) && k < bound);
                if k == r.1.key {
                    assert(i == r.0.raw());
                }
            } else if i == r.0.raw() {
                assert(false);
            }
        }
    }
}

/// Round trip: listing the records of a valid allocator and rebuilding an
/// allocator from that list, with the same span and unit, succeeds; the
/// new allocator has the same span and unit, holds the same key under each
/// identifier and the same records, and lists them in the same order.
pub proof fn lemma_records_round_trip<K: Id>(
    a: ObjAllocator<K>,
    out: Seq<Obj<K, Item>>,
    made: Result<ObjAllocator<K>, LoadError>,
    again: Seq<Obj<K, Item>>,
)
    requires
        a.wf(),
        listing(out, a.state().records),
        rebuilt(a.span(), a.unit(), out, made),
        made.is_ok() ==> listing(again, made.unwrap().state().records),
    ensures
        records_fit(out, a.span(), a.unit()),
        made.is_ok(),
        made.unwrap().wf(),
        made.unwrap().span() == a.span(),
        made.unwrap().unit() == a.unit(),
        made.unwrap().state().ids == a.state().ids,
        made.unwrap().state().records == a.state().records,
        again == out,
{
    let s = a.state();
    let n = out.len() as int;
    lemma_restored_prefix(s, a.span(), out, n);
    assert(out.take(n) =~= out);
    assert(records_below(s, key_bound(out, n)) =~= s.records);
    assert(ids_below(s, key_bound(out, n)) =~= s.ids);
    assert forall|i: int| 0 <= i < out.len() implies a.span().fits(
        a.unit(),
        (#[trigger] out[i]).1.key,
    ) by {
        assert(s.records.contains_key(out[i].1.key));
    }
    match made {
        Ok(b) => {
            lemma_listing_is_unique(again, out, s.records);
        },
        Err(LoadError::Rejected { at, error }) => {
            assert(fresh().after_restoring(out.take(at as int)).restores(a.span(), out[at as int]));
        },
        Err(_) => {},
    }
}

/// A map of records has one listing: two lists of the same records in
/// rising order of key are the same list.
pub proof fn lemma_listing_is_unique<K: Id>(
    first: Seq<Obj<K, Item>>,
    second: Seq<Obj<K, Item>>,
    records: Map<u64, (u64, u64)>,
)
    requires
        listing(first, records),
        listing(second, records),
    ensures
        first == second,
{
    lemma_listings_agree(first, second, records, first.len() as int);
    lemma_listings_agree(second, first, records, second.len() as int);
    assert(first =~= second);
}

/// The first `n` places of one listing are places of any other listing of
/// the same records, with the same record at each.
proof fn lemma_listings_agree<K: Id>(
    first: Seq<Obj<K, Item>>,
    second: Seq<Obj<K, Item>>,
    records: Map<u64, (u64, u64)>,
    n: int,
)
    requires
        listing(first, records),
        listing(second, records),
        0 <= n <= first.len(),
    ensures
        n <= second.len(),
        forall|i: int| 0 <= i < n ==> first[i] == second[i],
    decreases n,
{
    if n > 0 {
        let m = n - 1;
        lemma_listings_agree(first, second, records, m);
        let k = first[m].1.key;
        assert(records.contains_key(k));
        let j = choose|j: int| 0 <= j < second.len() && (#[trigger] second[j]).1.key == k;
        if j < m {
            assert(first[j] == second[j]);
            assert(first[j].1.key < first[m].1.key);
        }
        if j > m {
            let k2 = second[m].1.key;
            assert(records.contains_key(k2));
            let i = choose|i: int| 0 <= i < first.len() && (#[trigger] first[i]).1.key == k2;
            assert(second[m].1.key < second[j].1.key);
            if i < m {
                assert(first[i] == second[i]);
                assert(second[i].1.key < second[m].1.key);
            } else if i > m {
                assert(first[m].1.key < first[i].1.key);
            }
        }
        assert(j == m);
        K::raw_is_injective(first[m].0, second[m].0);
        assert(first[m] == second[m]);
    }
}

} // verus!
