use field_collex::Collexetable;
use obj_alloc::allocator::{
    BatchError, LoadError, ModifyError, ObjAllocator, RestoreError, WithElementsError,
};
use obj_alloc::id_map::{DefaultId, Id, IdMap};
use obj_alloc::index::{ConstructionError, FieldSpan, InsertError};
use obj_alloc::obj::{replace_object, Item, Obj};

fn item(key: u64, data: u64) -> Item {
    Item { key, data }
}

fn span_0_100() -> FieldSpan {
    FieldSpan::Finite { start: 0, end: 100 }
}

fn to_wire(records: &[Obj<DefaultId, Item>]) -> Vec<(u64, (u64, u64))> {
    records.iter().map(|r| (r.0.as_u64(), (r.1.key, r.1.data))).collect()
}

fn from_wire(wire: Vec<(u64, (u64, u64))>) -> Vec<Obj<DefaultId, Item>> {
    wire.into_iter().map(|(id, (key, data))| Obj(DefaultId::from_u64(id), item(key, data))).collect()
}

#[test]
fn test_obj_allocator_serde_consistency() {
    let span = FieldSpan::Finite { start: 0, end: 100 };
    let unit = 10u64;
    let elements = vec![
        Obj(DefaultId(1), item(10, 0)),
        Obj(DefaultId(2), item(20, 0)),
        Obj(DefaultId(3), item(30, 0)),
    ];
    let written = ObjAllocator::<DefaultId>::from_records(span, unit, elements.clone()).unwrap();

    let json = serde_json::to_string(&to_wire(&written.to_records())).unwrap();
    println!("{}", json);
    assert_eq!(json, "[[1,[10,0]],[2,[20,0]],[3,[30,0]]]");

    let wire: Vec<(u64, (u64, u64))> = serde_json::from_str(&json).unwrap();
    let deserialized =
        ObjAllocator::<DefaultId>::from_records(FieldSpan::Infinite { start: 0 }, 1, from_wire(wire)).unwrap();

    assert_eq!(deserialized.get_span(), FieldSpan::Infinite { start: 0 });
    assert_eq!(deserialized.get_unit(), 1);
    assert_eq!(deserialized.to_records(), elements);
    let (id_map, _collex) = deserialized.into_raw_parts();
    for obj in &elements {
        assert_eq!(id_map.get(obj.0), Some(&obj.1.value()));
    }
    assert_eq!(id_map.len(), elements.len());
    assert_eq!(id_map.max_id(), DefaultId(3));
}

#[test]
fn test_obj_allocator_serde_empty() {
    let span = FieldSpan::Finite { start: 0, end: 50 };
    let unit = 1032;
    let written = ObjAllocator::<DefaultId>::new(span, unit).unwrap();

    let json = serde_json::to_string(&to_wire(&written.to_records())).unwrap();
    assert_eq!(json, "[]");
    let wire: Vec<(u64, (u64, u64))> = serde_json::from_str(&json).unwrap();
    let deserialized =
        ObjAllocator::<DefaultId>::from_records(FieldSpan::Infinite { start: 0 }, 1, from_wire(wire)).unwrap();

    assert!(deserialized.to_records().is_empty());
    let (id_map, _collex) = deserialized.into_raw_parts();
    assert!(id_map.is_empty());
}

#[test]
fn round_trip_keeps_span_unit_order_and_pairs() {
    let mut a = ObjAllocator::<DefaultId>::new(span_0_100(), 10).unwrap();
    let id1 = a.insert(item(35, 7)).unwrap();
    let id2 = a.insert(item(5, 8)).unwrap();
    let id3 = a.insert(item(31, 9)).unwrap();
    a.remove(id2);
    let records = a.to_records();
    assert_eq!(records, vec![Obj(id3, item(31, 9)), Obj(id1, item(35, 7))]);

    let b = ObjAllocator::<DefaultId>::from_records(a.get_span(), a.get_unit(), records.clone()).unwrap();
    assert_eq!(b.get_span(), span_0_100());
    assert_eq!(b.get_unit(), 10);
    assert_eq!(b.to_records(), records);
    assert_eq!(b.get_with_id(id1), Some(&item(35, 7)));
    assert_eq!(b.get_with_id(id3), Some(&item(31, 9)));
    assert_eq!(b.get_with_id(id2), None);
    let (ids, _) = b.into_raw_parts();
    assert_eq!(ids.len(), 2);
    assert_eq!(ids.get(id1), Some(&35));
    assert_eq!(ids.get(id3), Some(&31));
    assert_eq!(ids.max_id(), DefaultId(3));
}

#[test]
fn from_records_reports_the_first_bad_record() {
    let span = span_0_100();
    let dup_id = vec![Obj(DefaultId(1), item(10, 0)), Obj(DefaultId(1), item(20, 0))];
    assert!(matches!(
        ObjAllocator::<DefaultId>::from_records(span, 10, dup_id),
        Err(LoadError::Rejected { at: 1, error: RestoreError::DuplicateId })
    ));
    let dup_key = vec![Obj(DefaultId(1), item(10, 0)), Obj(DefaultId(2), item(10, 5))];
    assert!(matches!(
        ObjAllocator::<DefaultId>::from_records(span, 10, dup_key),
        Err(LoadError::Rejected { at: 1, error: RestoreError::AlreadyExist })
    ));
    let outside = vec![Obj(DefaultId(4), item(100, 0))];
    assert!(matches!(
        ObjAllocator::<DefaultId>::from_records(span, 10, outside),
        Err(LoadError::Rejected { at: 0, error: RestoreError::OutOfSpan })
    ));
    assert!(matches!(
        ObjAllocator::<DefaultId>::from_records(span, 0, Vec::new()),
        Err(LoadError::NonPositiveUnit)
    ));
    assert!(matches!(
        ObjAllocator::<DefaultId>::from_records(FieldSpan::Finite { start: 5, end: 5 }, 1, Vec::new()),
        Err(LoadError::EmptySpan)
    ));
}

#[test]
fn from_records_raises_the_counter_past_restored_identifiers() {
    let records = vec![Obj(DefaultId(7), item(10, 0)), Obj(DefaultId(3), item(20, 0))];
    let mut a = ObjAllocator::<DefaultId>::from_records(span_0_100(), 10, records).unwrap();
    assert_eq!(a.insert(item(30, 0)), Ok(DefaultId(8)));
}

#[test]
fn insert_remove_reinsert_scenario() {
    let mut a = ObjAllocator::<DefaultId>::new(span_0_100(), 10).unwrap();
    assert_eq!(a.insert(item(10, 1)), Ok(DefaultId(1)));
    assert_eq!(a.insert(item(20, 2)), Ok(DefaultId(2)));
    assert_eq!(a.insert(item(30, 3)), Ok(DefaultId(3)));

    assert_eq!(a.remove(DefaultId(2)), Some(item(20, 2)));
    assert_eq!(a.get_with_id(DefaultId(2)), None);
    assert_eq!(a.get_with_id(DefaultId(1)), Some(&item(10, 1)));
    assert_eq!(a.get_with_id(DefaultId(3)), Some(&item(30, 3)));

    assert_eq!(a.insert(item(20, 4)), Ok(DefaultId(4)));
    assert_eq!(a.get_with_id(DefaultId(4)), Some(&item(20, 4)));
}

#[test]
fn rejected_insert_leaves_the_store_as_it_was() {
    let mut a = ObjAllocator::<DefaultId>::new(span_0_100(), 10).unwrap();
    assert_eq!(a.insert(item(10, 1)), Ok(DefaultId(1)));
    assert_eq!(a.insert(item(500, 2)), Err(InsertError::OutOfSpan(item(500, 2))));
    assert_eq!(a.insert(item(10, 3)), Err(InsertError::AlreadyExist(item(10, 3))));
    assert_eq!(a.to_records(), vec![Obj(DefaultId(1), item(10, 1))]);
    assert_eq!(a.get_with_id(DefaultId(2)), None);
    assert_eq!(a.get_with_id(DefaultId(3)), None);
    // identifiers 2 and 3 were reserved and given up: they are not issued again
    assert_eq!(a.insert(item(20, 4)), Ok(DefaultId(4)));
    let (ids, _) = a.into_raw_parts();
    assert_eq!(ids.len(), 2);
    assert_eq!(ids.max_id(), DefaultId(4));
}

#[test]
fn keys_far_outside_the_span_are_refused() {
    let mut a = ObjAllocator::<DefaultId>::new(FieldSpan::Finite { start: 50, end: 100 }, 10).unwrap();
    assert_eq!(a.insert(item(u64::MAX, 1)), Err(InsertError::OutOfSpan(item(u64::MAX, 1))));
    assert_eq!(a.insert(item(0, 2)), Err(InsertError::OutOfSpan(item(0, 2))));
    assert_eq!(a.insert(item(49, 3)), Err(InsertError::OutOfSpan(item(49, 3))));
    assert_eq!(a.insert(item(50, 4)), Ok(DefaultId(4)));
    assert_eq!(a.replace(DefaultId(4), item(u64::MAX, 5)), Err(ModifyError::OutOfSpan(item(u64::MAX, 5))));
    assert_eq!(a.replace(DefaultId(4), item(3, 5)), Err(ModifyError::OutOfSpan(item(3, 5))));
    assert_eq!(a.get_with_id(DefaultId(4)), Some(&item(50, 4)));
    assert!(a.to_records().len() == 1);
}

#[test]
fn objects_sharing_a_bucket_are_kept_apart() {
    let mut a = ObjAllocator::<DefaultId>::new(span_0_100(), 10).unwrap();
    let id1 = a.insert(item(11, 1)).unwrap();
    let id2 = a.insert(item(12, 2)).unwrap();
    let id3 = a.insert(item(19, 3)).unwrap();
    let id4 = a.insert(item(55, 4)).unwrap();
    assert_eq!(a.get_with_id(id1), Some(&item(11, 1)));
    assert_eq!(a.get_with_id(id2), Some(&item(12, 2)));
    assert_eq!(a.get_with_id(id3), Some(&item(19, 3)));
    assert_eq!(a.remove(id2), Some(item(12, 2)));
    assert_eq!(a.get_with_id(id2), None);
    assert_eq!(a.get_with_id(id1), Some(&item(11, 1)));
    assert_eq!(a.remove(id4), Some(item(55, 4)));
    assert_eq!(a.remove(id4), None);
    assert_eq!(
        a.to_records(),
        vec![Obj(id1, item(11, 1)), Obj(id3, item(19, 3))]
    );
}

#[test]
fn remove_of_unknown_identifier_returns_nothing() {
    let mut a = ObjAllocator::<DefaultId>::new(span_0_100(), 10).unwrap();
    a.insert(item(10, 1)).unwrap();
    assert_eq!(a.remove(DefaultId(9)), None);
    assert_eq!(a.get_with_id(DefaultId(9)), None);
    assert_eq!(a.get_with_id(DefaultId(0)), None);
    assert_eq!(a.to_records().len(), 1);
}

#[test]
fn replace_moves_the_record_and_keeps_the_identifier() {
    let mut a = ObjAllocator::<DefaultId>::new(span_0_100(), 10).unwrap();
    let id1 = a.insert(item(10, 1)).unwrap();
    let id2 = a.insert(item(20, 2)).unwrap();
    assert_eq!(a.replace(id1, item(40, 5)), Ok(item(10, 1)));
    assert_eq!(a.get_with_id(id1), Some(&item(40, 5)));
    assert_eq!(a.to_records(), vec![Obj(id2, item(20, 2)), Obj(id1, item(40, 5))]);
    // same key, new payload
    assert_eq!(a.replace(id1, item(40, 6)), Ok(item(40, 5)));
    assert_eq!(a.get_with_id(id1), Some(&item(40, 6)));
    // the old key is free again
    assert_eq!(a.insert(item(10, 7)), Ok(DefaultId(3)));
    let (ids, _) = a.into_raw_parts();
    assert_eq!(ids.get(id1), Some(&40));
}

#[test]
fn replace_that_cannot_be_placed_changes_nothing() {
    let mut a = ObjAllocator::<DefaultId>::new(span_0_100(), 10).unwrap();
    let id1 = a.insert(item(10, 1)).unwrap();
    let id2 = a.insert(item(20, 2)).unwrap();
    assert_eq!(a.replace(id1, item(20, 9)), Err(ModifyError::AlreadyExist(item(20, 9))));
    assert_eq!(a.replace(id1, item(100, 9)), Err(ModifyError::OutOfSpan(item(100, 9))));
    assert_eq!(a.replace(DefaultId(5), item(30, 9)), Err(ModifyError::CannotFind));
    assert_eq!(a.get_with_id(id1), Some(&item(10, 1)));
    assert_eq!(a.get_with_id(id2), Some(&item(20, 2)));
    assert_eq!(a.to_records(), vec![Obj(id1, item(10, 1)), Obj(id2, item(20, 2))]);
}

#[test]
fn modify_applies_the_function_and_returns_its_result() {
    let mut a = ObjAllocator::<DefaultId>::new(span_0_100(), 10).unwrap();
    let id1 = a.insert(item(10, 1)).unwrap();
    let id2 = a.insert(item(20, 2)).unwrap();
    let done = a.modify(id1, |o: Item| (item(o.key + 50, o.data + 1), o.key));
    assert_eq!(done, Ok(10));
    assert_eq!(a.get_with_id(id1), Some(&item(60, 2)));
    assert_eq!(a.to_records(), vec![Obj(id2, item(20, 2)), Obj(id1, item(60, 2))]);

    let done = a.modify(id1, |o: Item| (item(20, o.data), "moved"));
    assert_eq!(done, Err(ModifyError::AlreadyExist(("moved", item(20, 2)))));
    let done = a.modify(id1, |o: Item| (item(o.key + 40, o.data), "moved"));
    assert_eq!(done, Err(ModifyError::OutOfSpan(("moved", item(100, 2)))));
    let done = a.modify(DefaultId(9), |o: Item| (o, "kept"));
    assert_eq!(done, Err(ModifyError::CannotFind));
    assert_eq!(a.get_with_id(id1), Some(&item(60, 2)));
}

#[test]
fn try_modify_returns_only_the_result_on_failure() {
    let mut a = ObjAllocator::<DefaultId>::new(span_0_100(), 10).unwrap();
    let id1 = a.insert(item(10, 1)).unwrap();
    a.insert(item(20, 2)).unwrap();
    let done: Result<Result<u64, u64>, ModifyError<Result<u64, u64>>> =
        a.try_modify(id1, |o: Item| (item(20, o.data), Err(o.key)));
    assert_eq!(done, Err(ModifyError::AlreadyExist(Err(10))));
    assert_eq!(a.get_with_id(id1), Some(&item(10, 1)));
    let done: Result<Result<u64, u64>, ModifyError<Result<u64, u64>>> =
        a.try_modify(id1, |o: Item| (item(200, o.data), Ok(o.key)));
    assert_eq!(done, Err(ModifyError::OutOfSpan(Ok(10))));
    let done: Result<Result<u64, u64>, ModifyError<Result<u64, u64>>> =
        a.try_modify(id1, |o: Item| (item(15, o.data), Ok(o.key)));
    assert_eq!(done, Ok(Ok(10)));
    assert_eq!(a.get_with_id(id1), Some(&item(15, 1)));
    let done: Result<u64, ModifyError<u64>> = a.try_modify(DefaultId(8), |o: Item| (o, 0));
    assert_eq!(done, Err(ModifyError::CannotFind));
}

#[test]
fn new_refuses_bad_span_and_unit() {
    assert!(matches!(ObjAllocator::<DefaultId>::new(span_0_100(), 0), Err(ConstructionError::NonPositiveUnit)));
    assert!(matches!(
        ObjAllocator::<DefaultId>::new(FieldSpan::Finite { start: 7, end: 7 }, 1),
        Err(ConstructionError::EmptySpan)
    ));
    assert!(matches!(
        ObjAllocator::<DefaultId>::new(FieldSpan::Finite { start: 9, end: 7 }, 0),
        Err(ConstructionError::NonPositiveUnit)
    ));
    assert!(ObjAllocator::<DefaultId>::new(FieldSpan::Infinite { start: 3 }, 2).is_ok());
}

#[test]
fn with_capacity_refuses_more_than_the_buckets() {
    assert!(matches!(
        ObjAllocator::<DefaultId>::with_capacity(span_0_100(), 10, 11),
        Err(ConstructionError::OutOfSize)
    ));
    assert!(matches!(
        ObjAllocator::<DefaultId>::with_capacity(span_0_100(), 0, 11),
        Err(ConstructionError::NonPositiveUnit)
    ));
    assert!(matches!(
        ObjAllocator::<DefaultId>::with_capacity(FieldSpan::Finite { start: 1, end: 0 }, 10, 0),
        Err(ConstructionError::EmptySpan)
    ));
    let mut a = ObjAllocator::<DefaultId>::with_capacity(span_0_100(), 10, 10).unwrap();
    assert_eq!(a.get_span(), span_0_100());
    assert_eq!(a.get_unit(), 10);
    assert_eq!(a.insert(item(99, 0)), Ok(DefaultId(1)));
    assert!(ObjAllocator::<DefaultId>::with_capacity(FieldSpan::Infinite { start: 0 }, 10, 1000).is_ok());
}

#[test]
fn with_elements_stores_all_or_nothing() {
    let a = ObjAllocator::<DefaultId>::with_elements(span_0_100(), 10, vec![item(30, 1), item(10, 2)]).unwrap();
    assert_eq!(a.get_with_id(DefaultId(1)), Some(&item(30, 1)));
    assert_eq!(a.get_with_id(DefaultId(2)), Some(&item(10, 2)));
    assert_eq!(
        a.to_records(),
        vec![Obj(DefaultId(2), item(10, 2)), Obj(DefaultId(1), item(30, 1))]
    );

    let bad = ObjAllocator::<DefaultId>::with_elements(span_0_100(), 10, vec![item(30, 1), item(30, 2)]);
    assert!(matches!(
        bad,
        Err(WithElementsError::Rejected(BatchError {
            at: 1,
            error: InsertError::AlreadyExist(Item { key: 30, data: 2 })
        }))
    ));
    let bad = ObjAllocator::<DefaultId>::with_elements(span_0_100(), 10, vec![item(300, 1)]);
    assert!(matches!(
        bad,
        Err(WithElementsError::Rejected(BatchError {
            at: 0,
            error: InsertError::OutOfSpan(Item { key: 300, data: 1 })
        }))
    ));
    assert!(matches!(
        ObjAllocator::<DefaultId>::with_elements(span_0_100(), 0, vec![item(3, 1)]),
        Err(WithElementsError::NonPositiveUnit)
    ));
    assert!(matches!(
        ObjAllocator::<DefaultId>::with_elements(FieldSpan::Finite { start: 2, end: 2 }, 1, vec![]),
        Err(WithElementsError::EmptySpan)
    ));
}

#[test]
fn extend_passes_over_what_cannot_be_placed() {
    let mut a = ObjAllocator::<DefaultId>::new(FieldSpan::Finite { start: 10, end: 100 }, 10).unwrap();
    a.insert(item(20, 0)).unwrap();
    a.extend(vec![item(5, 1), item(20, 2), item(40, 3), item(100, 4), item(30, 5)]);
    assert_eq!(a.get_with_id(DefaultId(2)), None);
    assert_eq!(a.get_with_id(DefaultId(3)), None);
    assert_eq!(a.get_with_id(DefaultId(4)), Some(&item(40, 3)));
    assert_eq!(a.get_with_id(DefaultId(5)), None);
    assert_eq!(a.get_with_id(DefaultId(6)), Some(&item(30, 5)));
    assert_eq!(a.to_records().len(), 3);
    assert_eq!(a.insert(item(50, 0)), Ok(DefaultId(7)));
}

#[test]
fn try_extend_stops_at_the_first_failure() {
    let mut a = ObjAllocator::<DefaultId>::new(span_0_100(), 10).unwrap();
    assert_eq!(a.try_extend(vec![item(10, 1), item(20, 2)]), Ok(()));
    let done = a.try_extend(vec![item(30, 3), item(20, 4), item(40, 5)]);
    assert_eq!(done, Err(BatchError { at: 1, error: InsertError::AlreadyExist(item(20, 4)) }));
    assert_eq!(a.get_with_id(DefaultId(3)), Some(&item(30, 3)));
    assert_eq!(a.to_records().len(), 3);
    let done = a.try_extend(vec![item(100, 6)]);
    assert_eq!(done, Err(BatchError { at: 0, error: InsertError::OutOfSpan(item(100, 6)) }));
    // an identifier was used up for each object handed in: 1, 2, then 3, 4, 5, then 6
    assert_eq!(a.get_with_id(DefaultId(4)), None);
    assert_eq!(a.get_with_id(DefaultId(5)), None);
    assert_eq!(a.insert(item(40, 5)), Ok(DefaultId(7)));
    let (ids, _) = a.into_raw_parts();
    assert_eq!(ids.len(), 4);
}

#[test]
fn raw_parts_go_apart_and_back_together() {
    let mut a = ObjAllocator::<DefaultId>::new(span_0_100(), 10).unwrap();
    let id = a.insert(item(10, 1)).unwrap();
    let (ids, collex) = a.into_raw_parts();
    assert_eq!(ids.get(id), Some(&10));
    let mut b = ObjAllocator::<DefaultId>::from_raw_parts(ids, collex);
    assert_eq!(b.get_with_id(id), Some(&item(10, 1)));
    assert_eq!(b.insert(item(20, 2)), Ok(DefaultId(2)));
}

#[test]
fn crate_level_insert_wraps_the_object_with_its_identifier() {
    let mut ids: IdMap<DefaultId, u64> = IdMap::with_id();
    let rec = obj_alloc::allocator::insert(&mut ids, item(42, 9));
    assert_eq!(rec, Obj(DefaultId(1), item(42, 9)));
    assert_eq!(ids.get(DefaultId(1)), Some(&42));
}

#[derive(Debug, Clone, Copy, PartialEq, Eq, Hash)]
struct Ticket(u64);

impl Id for Ticket {
    fn raw(self) -> u64 {
        self.0
    }

    fn raw_is_injective(_a: Self, _b: Self) {}

    fn as_u64(&self) -> u64 {
        self.0
    }

    fn from_u64(val: u64) -> Self {
        Ticket(val)
    }
}

#[test]
fn allocator_over_a_custom_identifier() {
    let mut a = ObjAllocator::<Ticket>::new(span_0_100(), 10).unwrap();
    assert_eq!(a.insert(item(10, 1)), Ok(Ticket(1)));
    assert_eq!(a.insert(item(12, 2)), Ok(Ticket(2)));
    assert_eq!(a.get_with_id(Ticket(2)), Some(&item(12, 2)));
    assert_eq!(a.to_records(), vec![Obj(Ticket(1), item(10, 1)), Obj(Ticket(2), item(12, 2))]);
    assert_eq!(a.remove(Ticket(1)), Some(item(10, 1)));
    let b = ObjAllocator::<Ticket>::from_records(a.get_span(), a.get_unit(), a.to_records());
    assert_eq!(b.unwrap().to_records(), vec![Obj(Ticket(2), item(12, 2))]);
}

#[test]
fn extend_from_vec_numbers_the_batch() {
    let mut ids: IdMap<DefaultId, u64> = IdMap::with_id();
    ids.insert(99);
    let recs = obj_alloc::allocator::extend_from_vec(&mut ids, vec![item(7, 1), item(8, 2)]);
    assert_eq!(recs, vec![Obj(DefaultId(2), item(7, 1)), Obj(DefaultId(3), item(8, 2))]);
    assert_eq!(ids.get(DefaultId(2)), Some(&7));
    assert_eq!(ids.get(DefaultId(3)), Some(&8));
    assert_eq!(ids.max_id(), DefaultId(3));
    assert_eq!(ids.len(), 3);
}

#[test]
fn record_derefs_to_its_object() {
    let mut rec = Obj(DefaultId(1), item(4, 5));
    assert_eq!(rec.key, 4);
    rec.data = 6;
    assert_eq!(rec, Obj(DefaultId(1), item(4, 6)));
}

#[test]
fn record_hands_the_index_the_key_of_its_object() {
    let mut rec = Obj(DefaultId(3), item(5, 6));
    assert_eq!(rec.collexate(), 5);
    assert_eq!(*rec.collexate_ref(), 5);
    *rec.collexate_mut() = 8;
    assert_eq!(rec, Obj(DefaultId(3), item(8, 6)));
    assert_eq!(rec.collexate(), 8);
}

#[test]
fn item_exposes_its_key_three_ways() {
    let mut it = item(5, 6);
    assert_eq!(it.value(), 5);
    assert_eq!(*it.value_ref(), 5);
    *it.value_mut() = 8;
    assert_eq!(it, item(8, 6));
    let mut rec = Obj(DefaultId(3), it);
    assert_eq!(replace_object(&mut rec, item(1, 2)), item(8, 6));
    assert_eq!(rec, Obj(DefaultId(3), item(1, 2)));
}

#[test]
fn span_membership() {
    let f = FieldSpan::Finite { start: 2, end: 7 };
    assert!(f.contains(2));
    assert!(f.contains(6));
    assert!(!f.contains(7));
    assert!(!f.contains(1));
    assert!(!f.is_empty());
    assert!(FieldSpan::Finite { start: 5, end: 3 }.is_empty());
    let inf = FieldSpan::Infinite { start: 5 };
    assert!(inf.contains(u64::MAX));
    assert!(!inf.contains(4));
    assert!(!inf.is_empty());
}
