use cce_map::control::{
    glide_step, key_action, settings, wheel_action, ElementState, GlideStep, Key, KeyAction, MapState,
    MouseButton, NamedKey, ScrollPhase, WheelAction,
};
use cce_map::fetch::Message;
use cce_map::tiles::TileKey;

type State = MapState<(f64, f64), f64>;

const KEY: TileKey = TileKey { z: 2, x: 1, y: 1 };

fn start() -> State {
    MapState::new(2.0, (500.0, 350.0), (0.0, 0.0))
}

#[test]
fn keys_map_to_actions() {
    let typed = |s: &str| key_action(ElementState::Pressed, &Key::Character(s.to_string()));
    assert_eq!(typed("+"), KeyAction::Zoom { hundredths: 50 });
    assert_eq!(typed("="), KeyAction::Zoom { hundredths: 50 });
    assert_eq!(typed("-"), KeyAction::Zoom { hundredths: -50 });
    assert_eq!(typed("a"), KeyAction::Ignore);
    assert_eq!(typed(""), KeyAction::Ignore);
    assert_eq!(typed("++"), KeyAction::Ignore);
    let named = |k| key_action(ElementState::Pressed, &Key::Named(k));
    assert_eq!(named(NamedKey::ArrowLeft), KeyAction::Pan { dx: -120, dy: 0 });
    assert_eq!(named(NamedKey::ArrowRight), KeyAction::Pan { dx: 120, dy: 0 });
    assert_eq!(named(NamedKey::ArrowUp), KeyAction::Pan { dx: 0, dy: -120 });
    assert_eq!(named(NamedKey::ArrowDown), KeyAction::Pan { dx: 0, dy: 120 });
    assert_eq!(named(NamedKey::Home), KeyAction::Home);
    assert_eq!(named(NamedKey::Other), KeyAction::Ignore);
    assert_eq!(key_action(ElementState::Pressed, &Key::Other), KeyAction::Ignore);
    assert_eq!(key_action(ElementState::Released, &Key::Named(NamedKey::Home)), KeyAction::Ignore);
}

#[test]
fn a_finger_is_followed_and_notches_glide() {
    assert_eq!(wheel_action(true, true, ScrollPhase::Finger), WheelAction::Ignore);
    assert_eq!(wheel_action(false, true, ScrollPhase::Finger), WheelAction::Follow);
    assert_eq!(wheel_action(false, true, ScrollPhase::FingerEnd), WheelAction::Follow);
    assert_eq!(wheel_action(false, true, ScrollPhase::Other), WheelAction::Retarget);
    assert_eq!(wheel_action(false, false, ScrollPhase::Finger), WheelAction::Retarget);
}

#[test]
fn a_glide_eases_then_snaps_then_rests() {
    assert_eq!(glide_step(false, false), GlideStep::Ease);
    assert_eq!(glide_step(false, true), GlideStep::Snap);
    assert_eq!(glide_step(true, true), GlideStep::Rest);
}

#[test]
fn window_settings() {
    let window = settings();
    assert_eq!((window.title, window.app_id), ("Map", "cce-map"));
    assert_eq!((window.width, window.height), (1000, 700));
    assert!(!window.fullscreen);
    assert_eq!(window.min_size, Some((320, 240)));
}

#[test]
fn only_a_drag_moves_the_view() {
    let mut state = start();
    assert_eq!(state.handle_pointer_move((1.0, 1.0)), None);
    state.handle_mouse_input(MouseButton::Other, ElementState::Pressed, (1.0, 1.0));
    assert_eq!(state.handle_pointer_move((2.0, 2.0)), None);
    state.handle_mouse_input(MouseButton::Left, ElementState::Pressed, (2.0, 2.0));
    assert_eq!(state.handle_pointer_move((5.0, 6.0)), Some(((2.0, 2.0), (5.0, 6.0))));
    assert_eq!(state.handle_pointer_move((6.0, 6.0)), Some(((5.0, 6.0), (6.0, 6.0))));
    state.handle_mouse_input(MouseButton::Other, ElementState::Released, (6.0, 6.0));
    assert_eq!(state.drag, Some((6.0, 6.0)));
    state.handle_mouse_input(MouseButton::Left, ElementState::Released, (6.0, 6.0));
    assert_eq!(state.handle_pointer_move((9.0, 9.0)), None);
    assert_eq!(state.pointer, (9.0, 9.0));
}

#[test]
fn a_direct_zoom_cancels_the_glide() {
    let mut state = start();
    assert!(!state.zoom_wheel(2.25, (10.0, 20.0), true));
    assert_eq!((state.zoom, state.zoom_target), (2.0, 2.25));
    assert_eq!(state.zoom_anchor, (10.0, 20.0));
    state.zoom_step(2.1);
    assert_eq!((state.zoom, state.zoom_target), (2.1, 2.25));
    state.zoom_by(3.0);
    assert_eq!((state.zoom, state.zoom_target), (3.0, 3.0));
    assert!(state.zoom_wheel(3.25, (1.0, 2.0), false));
}

#[test]
fn messages_reach_the_tile_store() {
    let mut state = start();
    state.tiles.ensure(KEY);
    assert!(state.update(Message::Tile { generation: 0, key: KEY, image: Some(3) }));
    assert_eq!(state.tiles.ready(KEY), Some(3));
    assert!(state.update(Message::Tile { generation: 8, key: KEY, image: Some(4) }));
    assert_eq!(state.tiles.ready(KEY), Some(3));
}

#[test]
fn only_a_replaced_renderer_resets_the_tiles() {
    let mut state = start();
    state.tiles.ensure(KEY);
    assert!(!state.renderer_init());
    assert_eq!(state.tiles.take_queue().len(), 1);
    state.update(Message::Tile { generation: 0, key: KEY, image: Some(3) });
    assert!(state.renderer_init());
    assert_eq!(state.tiles.ready(KEY), None);
    assert_eq!(state.tiles.generation(), 1);
    assert!(state.renderer_init());
    assert_eq!(state.tiles.generation(), 2);
}
