use hello_ecs::components::{Mesh, Sphere};
use hello_ecs::entity::Entity;
use hello_ecs::join::{join, JoinIter};
use hello_ecs::storage::{HashMapStorage, VecStorage};
use hello_ecs::world::World;

fn mint(n: usize) -> Vec<Entity> {
    let mut world: World<f32> = World::new();
    let mut out = Vec::new();
    for _ in 0..n {
        out.push(world.create_entity());
    }
    out
}

fn meshes(of: &[Entity]) -> VecStorage<Mesh> {
    let mut s = VecStorage::new();
    for e in of {
        s.insert(*e, Mesh { handle: e.id() as u64, y: 0 });
    }
    s
}

fn spheres(of: &[Entity]) -> HashMapStorage<Sphere> {
    let mut s = HashMapStorage::new();
    for e in of {
        s.insert(*e, Sphere { u: 1, v: 1 });
    }
    s
}

#[test]
fn join_over_one_storage_is_the_storage() {
    let e = mint(4);
    let a = meshes(&[e[2], e[0], e[3]]);
    assert_eq!(join(&a), vec![e[2], e[0], e[3]]);
}

#[test]
fn join_over_two_storages_is_their_intersection() {
    let e = mint(5);
    let a = meshes(&[e[0], e[1], e[2], e[3]]);
    let b = meshes(&[e[3], e[1], e[4]]);
    assert_eq!(join((&a, &b)), vec![e[3], e[1]]);
    assert_eq!(join((&b, &a)), vec![e[3], e[1]]);
}

#[test]
fn join_walks_the_first_storage_when_sizes_are_equal() {
    let e = mint(3);
    let a = meshes(&[e[0], e[1], e[2]]);
    let b = meshes(&[e[2], e[1], e[0]]);
    assert_eq!(join((&a, &b)), vec![e[0], e[1], e[2]]);
    assert_eq!(join((&b, &a)), vec![e[2], e[1], e[0]]);
}

#[test]
fn join_over_three_storages() {
    let e = mint(6);
    let a = meshes(&[e[0], e[1], e[2], e[3], e[4]]);
    let b = spheres(&[e[4], e[2], e[1], e[5]]);
    let c = meshes(&[e[1], e[4]]);
    assert_eq!(join(((&a, &b), &c)), vec![e[1], e[4]]);
    assert_eq!(join((&a, (&b, &c))), vec![e[1], e[4]]);
}

#[test]
fn join_with_an_empty_storage_is_empty() {
    let e = mint(2);
    let a = meshes(&[e[0], e[1]]);
    let b = spheres(&[]);
    assert_eq!(join((&a, &b)), Vec::<Entity>::new());
    assert_eq!(join((&b, &a)), Vec::<Entity>::new());
    assert_eq!(join(&b), Vec::<Entity>::new());
}

#[test]
fn join_with_an_empty_intersection_is_empty() {
    let e = mint(4);
    let a = meshes(&[e[0], e[1]]);
    let b = spheres(&[e[2], e[3]]);
    assert_eq!(join((&a, &b)), Vec::<Entity>::new());
}

#[test]
fn join_iter_yields_one_at_a_time_and_ends() {
    let e = mint(4);
    let a = meshes(&[e[0], e[1], e[2], e[3]]);
    let b = spheres(&[e[3], e[0]]);
    let mut it = JoinIter::new((&a, &b));
    assert_eq!(it.next(), Some(e[3]));
    assert_eq!(it.next(), Some(e[0]));
    assert_eq!(it.next(), None);
    assert_eq!(it.next(), None);
}

#[test]
fn join_iter_collect_returns_what_is_left() {
    let e = mint(4);
    let a = meshes(&[e[0], e[1], e[2], e[3]]);
    let mut it = JoinIter::new(&a);
    assert_eq!(it.next(), Some(e[0]));
    assert_eq!(it.collect(), vec![e[1], e[2], e[3]]);
}
