use hello_ecs::application::Application;
use hello_ecs::components::{Mesh, Position, Speed};
use hello_ecs::main_state::{Event, HelloWorld, Key, KeyState, Trans};
use hello_ecs::scheduler::Processor;
use hello_ecs::systems::{Draw, Render, Update};
use hello_ecs::world::World;

fn plus(a: f32, b: f32) -> f32 {
    a + b
}

fn game() -> Application<f32> {
    Application::new(HelloWorld)
        .with(Processor::Update(Update), "update", 50)
        .with(Processor::Render(Render::new()), "render", 100)
}

#[test]
fn no_events_mean_continue() {
    assert_eq!(HelloWorld.handle_events(vec![]), Trans::Continue);
}

#[test]
fn other_events_mean_continue() {
    let events = vec![
        Event::Other,
        Event::KeyboardInput(KeyState::Pressed, Some(Key::Other)),
        Event::KeyboardInput(KeyState::Released, Some(Key::Other)),
        Event::KeyboardInput(KeyState::Pressed, None),
        Event::KeyboardInput(KeyState::Released, None),
    ];
    assert_eq!(HelloWorld.handle_events(events), Trans::Continue);
}

#[test]
fn a_closed_window_means_quit() {
    assert_eq!(HelloWorld.handle_events(vec![Event::Other, Event::Closed]), Trans::Quit);
    assert_eq!(HelloWorld.handle_events(vec![Event::Closed, Event::Other]), Trans::Quit);
}

#[test]
fn the_escape_key_means_quit() {
    let events = vec![
        Event::KeyboardInput(KeyState::Pressed, Some(Key::Other)),
        Event::KeyboardInput(KeyState::Pressed, Some(Key::Escape)),
        Event::Other,
    ];
    assert_eq!(HelloWorld.handle_events(events), Trans::Quit);
}

#[test]
fn a_release_of_the_escape_key_means_continue() {
    let events = vec![Event::KeyboardInput(KeyState::Released, Some(Key::Escape))];
    assert_eq!(HelloWorld.handle_events(events), Trans::Continue);
    let events = vec![
        Event::Other,
        Event::KeyboardInput(KeyState::Released, Some(Key::Escape)),
        Event::KeyboardInput(KeyState::Released, Some(Key::Other)),
    ];
    assert_eq!(HelloWorld.handle_events(events), Trans::Continue);
}

#[test]
fn a_press_after_a_release_of_the_escape_key_means_quit() {
    let events = vec![
        Event::KeyboardInput(KeyState::Released, Some(Key::Escape)),
        Event::KeyboardInput(KeyState::Pressed, Some(Key::Escape)),
        Event::KeyboardInput(KeyState::Released, Some(Key::Escape)),
    ];
    assert_eq!(HelloWorld.handle_events(events), Trans::Quit);
}

#[test]
fn the_state_registers_positions_speeds_and_meshes() {
    let mut world: World<f32> = World::new();
    HelloWorld.on_start(&mut world);
    assert_eq!(world.read_positions().unwrap().len(), 0);
    assert_eq!(world.read_speeds().unwrap().len(), 0);
    assert_eq!(world.read_meshes().unwrap().len(), 0);
    assert!(world.read_spheres().is_err());
}

#[test]
fn the_state_asks_to_go_on_and_names_its_stop() {
    assert_eq!(HelloWorld.update(), Trans::Continue);
    assert_eq!(HelloWorld.on_stop(), "Game stopped!");
}

#[test]
fn an_application_runs_from_start_to_quit() {
    let mut app = game();
    assert!(!app.is_running());
    app.start();
    assert!(app.is_running());
    assert!(app.can_tick());
    let report = app.tick(vec![Event::Other], &plus);
    assert_eq!(report.ran, 2);
    assert_eq!(report.frames.len(), 1);
    assert_eq!(report.frames[0].number, 1);
    assert!(report.frames[0].draws.is_empty());
    assert!(report.frames[0].pipeline.is_some());
    assert!(app.is_running());
    let report = app.tick(vec![Event::KeyboardInput(KeyState::Released, Some(Key::Escape))], &plus);
    assert_eq!(report.ran, 2);
    assert!(app.is_running());
    let report = app.tick(vec![Event::KeyboardInput(KeyState::Pressed, Some(Key::Escape))], &plus);
    assert_eq!(report.ran, 2);
    assert_eq!(report.frames[0].number, 3);
    assert!(report.frames[0].pipeline.is_none());
    assert!(!app.is_running());
    assert_eq!(app.stop(), "Game stopped!");
    assert!(!app.is_running());
}

#[test]
fn an_application_moves_and_draws_its_entities() {
    let mut app = game();
    app.start();
    let a = app.world_mut().create_entity();
    let b = app.world_mut().create_entity();
    app.world_mut().write_positions().unwrap().insert(a, Position { x: 0.0, y: 0.0, z: 0.0 });
    app.world_mut().write_speeds().unwrap().insert(a, Speed { dx: 1.0, dy: 0.0, dz: 0.0 });
    app.world_mut().write_positions().unwrap().insert(b, Position { x: 5.0, y: 5.0, z: 5.0 });
    app.world_mut().write_meshes().unwrap().insert(b, Mesh { handle: 3, y: 1 });
    let report = app.tick(vec![], &plus);
    assert_eq!(report.failure, None);
    assert_eq!(
        report.frames[0].draws,
        vec![Draw { entity: b, position: Position { x: 5.0, y: 5.0, z: 5.0 } }]
    );
    assert_eq!(
        app.world().read_positions().unwrap().get(a),
        Some(&Position { x: 1.0, y: 0.0, z: 0.0 })
    );
    assert_eq!(
        app.world().read_positions().unwrap().get(b),
        Some(&Position { x: 5.0, y: 5.0, z: 5.0 })
    );
}

#[test]
fn an_application_that_was_not_started_fails_its_tick() {
    let mut app = game();
    let report = app.tick(vec![], &plus);
    assert_eq!(report.ran, 0);
    assert!(report.failure.is_some());
    assert!(!app.is_running());
}
