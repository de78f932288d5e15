use obj_alloc::allocator::{ModifyError, ObjAllocator};
use obj_alloc::id_map::DefaultId;
use obj_alloc::index::{FieldSpan, InsertError};
use obj_alloc::obj::{Item, Obj};
use std::collections::BTreeMap;

struct Lcg(u64);

impl Lcg {
    fn next(&mut self, bound: u64) -> u64 {
        self.0 = self.0.wrapping_mul(6364136223846793005).wrapping_add(1442695040888963407);
        (self.0 >> 33) % bound
    }
}

fn in_span(span: FieldSpan, key: u64) -> bool {
    match span {
        FieldSpan::Finite { start, end } => start <= key && key < end,
        FieldSpan::Infinite { start } => start <= key,
    }
}

fn run_against_model(span: FieldSpan, unit: u64, key_bound: u64, seed: u64, steps: usize) {
    let mut a = ObjAllocator::<DefaultId>::new(span, unit).unwrap();
    let mut by_id: BTreeMap<u64, Item> = BTreeMap::new();
    let mut by_key: BTreeMap<u64, u64> = BTreeMap::new();
    let mut counter = 0u64;
    let mut rng = Lcg(seed);
    for step in 0..steps {
        let key = rng.next(key_bound);
        let data = step as u64;
        match rng.next(4) {
            0 | 1 => {
                let item = Item { key, data };
                counter += 1;
                let expected = if !in_span(span, key) {
                    Err(InsertError::OutOfSpan(item))
                } else if by_key.contains_key(&key) {
                    Err(InsertError::AlreadyExist(item))
                } else {
                    by_id.insert(counter, item);
                    by_key.insert(key, counter);
                    Ok(DefaultId(counter))
                };
                assert_eq!(a.insert(item), expected);
            }
            2 => {
                let id = rng.next(counter + 2);
                let expected = by_id.remove(&id);
                if let Some(item) = expected {
                    by_key.remove(&item.key);
                }
                assert_eq!(a.remove(DefaultId(id)), expected);
            }
            _ => {
                let id = rng.next(counter + 2);
                let item = Item { key, data };
                let expected = match by_id.get(&id).copied() {
                    None => Err(ModifyError::CannotFind),
                    Some(cur) => {
                        if key != cur.key && !in_span(span, key) {
                            Err(ModifyError::OutOfSpan(item))
                        } else if key != cur.key && by_key.contains_key(&key) {
                            Err(ModifyError::AlreadyExist(item))
                        } else {
                            by_key.remove(&cur.key);
                            by_key.insert(key, id);
                            by_id.insert(id, item);
                            Ok(cur)
                        }
                    }
                };
                assert_eq!(a.replace(DefaultId(id), item), expected);
            }
        }
        let probe = rng.next(counter + 2);
        assert_eq!(a.get_with_id(DefaultId(probe)), by_id.get(&probe));
        if step % 16 == 0 {
            let listed: Vec<Obj<DefaultId, Item>> =
                by_key.iter().map(|(_, id)| Obj(DefaultId(*id), by_id[id])).collect();
            assert_eq!(a.to_records(), listed);
        }
    }
    let listed: Vec<Obj<DefaultId, Item>> =
        by_key.iter().map(|(_, id)| Obj(DefaultId(*id), by_id[id])).collect();
    assert_eq!(a.to_records(), listed);
    let b = ObjAllocator::<DefaultId>::from_records(span, unit, listed.clone()).unwrap();
    assert_eq!(b.to_records(), listed);
    let (ids, _) = a.into_raw_parts();
    assert_eq!(ids.len(), by_id.len());
    assert_eq!(ids.max_id(), DefaultId(counter));
}

#[test]
fn agrees_with_a_plain_model_on_a_finite_span() {
    run_against_model(FieldSpan::Finite { start: 0, end: 200 }, 10, 220, 1, 4000);
}

#[test]
fn agrees_with_a_plain_model_on_a_dense_span() {
    run_against_model(FieldSpan::Finite { start: 7, end: 60 }, 25, 64, 2, 4000);
}

#[test]
fn agrees_with_a_plain_model_on_wide_buckets() {
    run_against_model(FieldSpan::Finite { start: 100, end: 5000 }, 1000, 5200, 3, 6000);
}

#[test]
fn agrees_with_a_plain_model_on_an_infinite_span() {
    run_against_model(FieldSpan::Infinite { start: 5 }, 3, 300, 4, 4000);
}

#[test]
fn agrees_with_a_plain_model_on_unit_one() {
    run_against_model(FieldSpan::Finite { start: 0, end: 50 }, 1, 55, 5, 3000);
}
