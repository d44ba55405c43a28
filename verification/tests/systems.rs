use hello_ecs::components::{Mesh, Position, Speed};
use hello_ecs::systems::{Draw, Pass, Render, Update};
use hello_ecs::world::{ComponentKind, RegistrationError, World};

fn plus(a: f32, b: f32) -> f32 {
    a + b
}

fn started() -> World<f32> {
    let mut world = World::new();
    world.register_positions();
    world.register_speeds();
    world.register_meshes();
    world
}

#[test]
fn add_speed_adds_each_coordinate() {
    let mut p = Position { x: 1.0f32, y: 2.0, z: 3.0 };
    p.add_speed(&Speed { dx: 0.5, dy: -2.0, dz: 10.0 }, &plus);
    assert_eq!(p, Position { x: 1.5, y: 0.0, z: 13.0 });
}

#[test]
fn add_speed_with_integers() {
    let mut p = Position { x: 1i64, y: 2, z: 3 };
    p.add_speed(&Speed { dx: 10, dy: 20, dz: 30 }, &|a: i64, b: i64| a + b);
    assert_eq!(p, Position { x: 11, y: 22, z: 33 });
}

#[test]
fn update_moves_only_entities_with_position_and_speed() {
    let mut world = started();
    let a = world.create_entity();
    let b = world.create_entity();
    world.write_positions().unwrap().insert(a, Position { x: 0.0, y: 0.0, z: 0.0 });
    world.write_speeds().unwrap().insert(a, Speed { dx: 1.0, dy: 0.0, dz: 0.0 });
    world.write_positions().unwrap().insert(b, Position { x: 5.0, y: 5.0, z: 5.0 });
    assert_eq!(Update.run(&mut world, &plus), Ok(()));
    assert_eq!(
        world.read_positions().unwrap().get(a),
        Some(&Position { x: 1.0, y: 0.0, z: 0.0 })
    );
    assert_eq!(
        world.read_positions().unwrap().get(b),
        Some(&Position { x: 5.0, y: 5.0, z: 5.0 })
    );
    assert_eq!(world.read_speeds().unwrap().get(a), Some(&Speed { dx: 1.0, dy: 0.0, dz: 0.0 }));
    assert!(!world.read_speeds().unwrap().contains(b));
}

#[test]
fn update_leaves_a_speed_without_position_alone() {
    let mut world = started();
    let a = world.create_entity();
    let b = world.create_entity();
    world.write_speeds().unwrap().insert(a, Speed { dx: 1.0, dy: 2.0, dz: 3.0 });
    world.write_positions().unwrap().insert(b, Position { x: 1.0, y: 1.0, z: 1.0 });
    world.write_speeds().unwrap().insert(b, Speed { dx: 0.25, dy: 0.5, dz: -1.0 });
    assert_eq!(Update.run(&mut world, &plus), Ok(()));
    assert!(!world.read_positions().unwrap().contains(a));
    assert_eq!(world.read_speeds().unwrap().get(a), Some(&Speed { dx: 1.0, dy: 2.0, dz: 3.0 }));
    assert_eq!(
        world.read_positions().unwrap().get(b),
        Some(&Position { x: 1.25, y: 1.5, z: 0.0 })
    );
}

#[test]
fn update_twice_moves_twice() {
    let mut world = started();
    let a = world.create_entity();
    world.write_positions().unwrap().insert(a, Position { x: 0.0, y: 10.0, z: -1.0 });
    world.write_speeds().unwrap().insert(a, Speed { dx: 2.0, dy: -3.0, dz: 0.5 });
    assert_eq!(Update.run(&mut world, &plus), Ok(()));
    assert_eq!(Update.run(&mut world, &plus), Ok(()));
    assert_eq!(
        world.read_positions().unwrap().get(a),
        Some(&Position { x: 4.0, y: 4.0, z: 0.0 })
    );
}

#[test]
fn update_without_positions_fails() {
    let mut world: World<f32> = World::new();
    world.register_speeds();
    assert_eq!(
        Update.run(&mut world, &plus),
        Err(RegistrationError { component: ComponentKind::Position })
    );
    let mut bare: World<f32> = World::new();
    assert_eq!(
        Update.run(&mut bare, &plus),
        Err(RegistrationError { component: ComponentKind::Position })
    );
}

#[test]
fn update_without_speeds_fails_and_changes_nothing() {
    let mut world: World<f32> = World::new();
    world.register_positions();
    let a = world.create_entity();
    world.write_positions().unwrap().insert(a, Position { x: 1.0, y: 1.0, z: 1.0 });
    assert_eq!(
        Update.run(&mut world, &plus),
        Err(RegistrationError { component: ComponentKind::Speed })
    );
    assert_eq!(
        world.read_positions().unwrap().get(a),
        Some(&Position { x: 1.0, y: 1.0, z: 1.0 })
    );
}

#[test]
fn render_of_an_empty_world() {
    let world = started();
    let mut render = Render::new();
    assert_eq!(render.frame_count(), 0);
    assert!(render.pending());
    let frame = render.run(&world).unwrap();
    assert_eq!(frame.number, 1);
    assert!(frame.draws.is_empty());
    assert_eq!(frame.pipeline, Some(vec![Pass::Clear, Pass::DrawShaded]));
    assert_eq!(render.frame_count(), 1);
    assert!(!render.pending());
}

#[test]
fn render_sets_the_pipeline_up_once() {
    let world = started();
    let mut render = Render::new();
    let mut setups = 0;
    for tick in 1..=5u32 {
        let frame = render.run(&world).unwrap();
        if frame.pipeline.is_some() {
            setups += 1;
        }
        assert_eq!(frame.number, tick);
        assert_eq!(render.frame_count(), tick);
    }
    assert_eq!(setups, 1);
}

#[test]
fn render_draws_entities_with_position_and_mesh() {
    let mut world = started();
    let a = world.create_entity();
    let b = world.create_entity();
    let c = world.create_entity();
    let d = world.create_entity();
    let pa = Position { x: 1.0, y: 0.0, z: 0.0 };
    let pb = Position { x: 2.0, y: 0.0, z: 0.0 };
    let pc = Position { x: 3.0, y: 0.5, z: -1.0 };
    world.write_positions().unwrap().insert(a, pa);
    world.write_positions().unwrap().insert(b, pb);
    world.write_positions().unwrap().insert(c, pc);
    for e in [d, c, a] {
        world.write_meshes().unwrap().insert(e, Mesh { handle: 1, y: 0 });
    }
    let mut render = Render::new();
    let first = render.run(&world).unwrap();
    assert_eq!(
        first.draws,
        vec![Draw { entity: a, position: pa }, Draw { entity: c, position: pc }]
    );
    assert_eq!(first.number, 1);
    world.write_meshes().unwrap().remove(d);
    let second = render.run(&world).unwrap();
    assert_eq!(
        second.draws,
        vec![Draw { entity: c, position: pc }, Draw { entity: a, position: pa }]
    );
    assert_eq!(second.number, 2);
    assert_eq!(second.pipeline, None);
}

#[test]
fn draws_are_the_records_of_the_world_as_it_stands() {
    let mut world = started();
    let a = world.create_entity();
    let b = world.create_entity();
    world.write_positions().unwrap().insert(a, Position { x: 1.0, y: 2.0, z: 3.0 });
    world.write_positions().unwrap().insert(b, Position { x: 4.0, y: 5.0, z: 6.0 });
    world.write_meshes().unwrap().insert(b, Mesh { handle: 2, y: 0 });
    assert_eq!(
        Render::draws(&world),
        Ok(vec![Draw { entity: b, position: Position { x: 4.0, y: 5.0, z: 6.0 } }])
    );
    world.write_positions().unwrap().insert(b, Position { x: 0.0, y: 0.0, z: 0.0 });
    assert_eq!(
        Render::draws(&world),
        Ok(vec![Draw { entity: b, position: Position { x: 0.0, y: 0.0, z: 0.0 } }])
    );
    let bare: World<f32> = World::new();
    assert_eq!(
        Render::draws(&bare),
        Err(RegistrationError { component: ComponentKind::Position })
    );
}

#[test]
fn render_without_registration_fails_and_keeps_its_state() {
    let mut world: World<f32> = World::new();
    let mut render = Render::new();
    assert_eq!(
        render.run(&world).err(),
        Some(RegistrationError { component: ComponentKind::Position })
    );
    world.register_positions();
    assert_eq!(
        render.run(&world).err(),
        Some(RegistrationError { component: ComponentKind::Mesh })
    );
    assert_eq!(render.frame_count(), 0);
    assert!(render.pending());
    world.register_meshes();
    let frame = render.run(&world).unwrap();
    assert_eq!(frame.number, 1);
    assert!(frame.pipeline.is_some());
}
