use hello_ecs::components::{Mesh, Sphere};
use hello_ecs::entity::Entity;
use hello_ecs::storage::{HashMapStorage, VecStorage};
use hello_ecs::world::World;

fn entities(n: usize) -> Vec<Entity> {
    let mut world: World<f32> = World::new();
    let mut out = Vec::new();
    for _ in 0..n {
        out.push(world.create_entity());
    }
    out
}

#[test]
fn dense_storage_starts_empty() {
    let e = entities(2);
    let s: VecStorage<Mesh> = VecStorage::new();
    assert_eq!(s.len(), 0);
    assert!(!s.contains(e[0]));
    assert!(s.get(e[1]).is_none());
}

#[test]
fn dense_insert_then_get() {
    let e = entities(3);
    let mut s: VecStorage<Mesh> = VecStorage::new();
    s.insert(e[2], Mesh { handle: 7, y: 1 });
    assert!(s.contains(e[2]));
    assert!(!s.contains(e[0]));
    assert!(!s.contains(e[1]));
    assert_eq!(s.get(e[2]), Some(&Mesh { handle: 7, y: 1 }));
    assert_eq!(s.len(), 1);
}

#[test]
fn dense_insert_overwrites() {
    let e = entities(1);
    let mut s: VecStorage<Mesh> = VecStorage::new();
    s.insert(e[0], Mesh { handle: 1, y: 1 });
    s.insert(e[0], Mesh { handle: 2, y: 9 });
    assert_eq!(s.get(e[0]), Some(&Mesh { handle: 2, y: 9 }));
    assert_eq!(s.len(), 1);
}

#[test]
fn dense_walk_is_insertion_order() {
    let e = entities(4);
    let mut s: VecStorage<Mesh> = VecStorage::new();
    s.insert(e[3], Mesh { handle: 3, y: 0 });
    s.insert(e[0], Mesh { handle: 0, y: 0 });
    s.insert(e[2], Mesh { handle: 2, y: 0 });
    s.insert(e[3], Mesh { handle: 33, y: 0 });
    assert_eq!(s.len(), 3);
    assert_eq!(s.entity_at(0), e[3]);
    assert_eq!(s.entity_at(1), e[0]);
    assert_eq!(s.entity_at(2), e[2]);
}

#[test]
fn dense_remove_returns_value_and_keeps_order() {
    let e = entities(4);
    let mut s: VecStorage<Mesh> = VecStorage::new();
    for (i, x) in e.iter().enumerate() {
        s.insert(*x, Mesh { handle: i as u64, y: i });
    }
    assert_eq!(s.remove(e[1]), Some(Mesh { handle: 1, y: 1 }));
    assert_eq!(s.remove(e[1]), None);
    assert!(!s.contains(e[1]));
    assert_eq!(s.len(), 3);
    assert_eq!(s.entity_at(0), e[0]);
    assert_eq!(s.entity_at(1), e[2]);
    assert_eq!(s.entity_at(2), e[3]);
    assert_eq!(s.get(e[3]), Some(&Mesh { handle: 3, y: 3 }));
}

#[test]
fn dense_remove_of_absent_entity() {
    let e = entities(3);
    let mut s: VecStorage<Mesh> = VecStorage::new();
    s.insert(e[0], Mesh { handle: 0, y: 0 });
    assert_eq!(s.remove(e[2]), None);
    assert_eq!(s.len(), 1);
    assert!(s.contains(e[0]));
}

#[test]
fn dense_get_mut_changes_the_value() {
    let e = entities(2);
    let mut s: VecStorage<Mesh> = VecStorage::new();
    s.insert(e[1], Mesh { handle: 5, y: 5 });
    assert!(s.get_mut(e[0]).is_none());
    match s.get_mut(e[1]) {
        Some(m) => m.handle = 6,
        None => panic!("the entity holds a mesh"),
    }
    assert_eq!(s.get(e[1]), Some(&Mesh { handle: 6, y: 5 }));
    assert_eq!(s.len(), 1);
}

#[test]
fn sparse_storage_starts_empty() {
    let e = entities(1);
    let s: HashMapStorage<Sphere> = HashMapStorage::new();
    assert_eq!(s.len(), 0);
    assert!(!s.contains(e[0]));
    assert!(s.get(e[0]).is_none());
}

#[test]
fn sparse_insert_get_overwrite() {
    let e = entities(3);
    let mut s: HashMapStorage<Sphere> = HashMapStorage::new();
    s.insert(e[2], Sphere { u: 32, v: 32 });
    s.insert(e[0], Sphere { u: 8, v: 4 });
    s.insert(e[2], Sphere { u: 16, v: 16 });
    assert_eq!(s.len(), 2);
    assert_eq!(s.get(e[2]), Some(&Sphere { u: 16, v: 16 }));
    assert_eq!(s.get(e[0]), Some(&Sphere { u: 8, v: 4 }));
    assert!(s.get(e[1]).is_none());
    assert_eq!(s.entity_at(0), e[2]);
    assert_eq!(s.entity_at(1), e[0]);
}

#[test]
fn sparse_remove_moves_the_last_into_the_gap() {
    let e = entities(4);
    let mut s: HashMapStorage<Sphere> = HashMapStorage::new();
    for (i, x) in e.iter().enumerate() {
        s.insert(*x, Sphere { u: i as i32, v: -(i as i32) });
    }
    assert_eq!(s.remove(e[1]), Some(Sphere { u: 1, v: -1 }));
    assert_eq!(s.remove(e[1]), None);
    assert_eq!(s.len(), 3);
    assert_eq!(s.entity_at(0), e[0]);
    assert_eq!(s.entity_at(1), e[3]);
    assert_eq!(s.entity_at(2), e[2]);
    assert_eq!(s.get(e[3]), Some(&Sphere { u: 3, v: -3 }));
    assert_eq!(s.get(e[2]), Some(&Sphere { u: 2, v: -2 }));
    assert!(!s.contains(e[1]));
}

#[test]
fn sparse_remove_of_the_last_entity() {
    let e = entities(2);
    let mut s: HashMapStorage<Sphere> = HashMapStorage::new();
    s.insert(e[0], Sphere { u: 1, v: 1 });
    s.insert(e[1], Sphere { u: 2, v: 2 });
    assert_eq!(s.remove(e[1]), Some(Sphere { u: 2, v: 2 }));
    assert_eq!(s.len(), 1);
    assert_eq!(s.entity_at(0), e[0]);
    assert_eq!(s.remove(e[0]), Some(Sphere { u: 1, v: 1 }));
    assert_eq!(s.len(), 0);
}

#[test]
fn sparse_get_mut_changes_the_value() {
    let e = entities(2);
    let mut s: HashMapStorage<Sphere> = HashMapStorage::new();
    s.insert(e[1], Sphere { u: 1, v: 2 });
    assert!(s.get_mut(e[0]).is_none());
    match s.get_mut(e[1]) {
        Some(x) => x.v = 20,
        None => panic!("the entity holds a sphere"),
    }
    assert_eq!(s.get(e[1]), Some(&Sphere { u: 1, v: 20 }));
}
