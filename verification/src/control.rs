//! The map application's state machine: what a pointer, wheel or key event
//! asks for, when a wheel glide goes on, and when the tile store starts over.
//!
//! Positions and zooms are measured by the application. Here they are values
//! of any type, kept and handed back.

use crate::fetch::Message;
use crate::tiles::{TileKey, TileManager, TileStore};
use vstd::prelude::*;

verus! {

/// Zoom change of one press of a zoom key, in hundredths of a level.
pub const KEY_ZOOM: i32 = 50;

/// Distance that an arrow key pans, in pixels.
pub const KEY_PAN_PX: i32 = 120;

/// Whether a key or button went down or up.
#[derive(Debug, Clone, Copy, PartialEq, Eq, Structural)]
pub enum ElementState {
    Pressed,
    Released,
}

/// A mouse button, as far as the map tells them apart.
#[derive(Debug, Clone, Copy, PartialEq, Eq, Structural)]
pub enum MouseButton {
    Left,
    Other,
}

/// A named key, as far as the map tells them apart.
#[derive(Debug, Clone, Copy, PartialEq, Eq, Structural)]
pub enum NamedKey {
    ArrowLeft,
    ArrowRight,
    ArrowUp,
    ArrowDown,
    Home,
    Other,
}

/// A key: the text it types, its name, or neither.
#[derive(Debug)]
pub enum Key {
    Character(String),
    Named(NamedKey),
    Other,
}

/// What a key event asks for.
#[derive(Debug, Clone, Copy, PartialEq, Eq, Structural)]
pub enum KeyAction {
    /// Change the zoom around the window's centre, by hundredths of a level.
    Zoom { hundredths: i32 },
    /// Move the view, in pixels to the right and down.
    Pan { dx: i32, dy: i32 },
    /// Return to the initial view.
    Home,
    /// Nothing: no repaint either.
    Ignore,
}

/// What pressing a key asks for: `+` and `=` zoom in, `-` zooms out, the
/// arrows pan, Home returns to the initial view.
pub open spec fn key_action_of(state: ElementState, key: Key) -> KeyAction {
    match (state, key) {
        (ElementState::Released, _) => KeyAction::Ignore,
        (_, Key::Character(text)) => if text@ == seq!['+'] || text@ == seq!['='] {
            KeyAction::Zoom { hundredths: 50 }
        } else if text@ == seq!['-'] {
            KeyAction::Zoom { hundredths: (-50) as i32 }
        } else {
            KeyAction::Ignore
        },
        (_, Key::Named(NamedKey::ArrowLeft)) => KeyAction::Pan { dx: (-120) as i32, dy: 0 },
        (_, Key::Named(NamedKey::ArrowRight)) => KeyAction::Pan { dx: 120, dy: 0 },
        (_, Key::Named(NamedKey::ArrowUp)) => KeyAction::Pan { dx: 0, dy: (-120) as i32 },
        (_, Key::Named(NamedKey::ArrowDown)) => KeyAction::Pan { dx: 0, dy: 120 },
        (_, Key::Named(NamedKey::Home)) => KeyAction::Home,
        _ => KeyAction::Ignore,
    }
}

/// What each key is for. Only a key that is pressed does anything. The zoom
/// changes for `+`, `=` and `-` alone, by the same half level in or out; the view
/// moves for the arrows alone, by the same distance along one axis, left against
/// right and up against down; and Home alone returns to the initial view.
pub proof fn law_each_key_does_one_thing(state: ElementState, key: Key)
    ensures
        ({
            let action = key_action_of(state, key);
            let pressed = state == ElementState::Pressed;
            let typed = |c: char| pressed && (key matches Key::Character(text) && text@ == seq![c]);
            let named = |name: NamedKey| pressed && key == Key::Named(name);
            &&& !pressed ==> action == KeyAction::Ignore
            &&& action is Zoom <==> typed('+') || typed('=') || typed('-')
            &&& typed('+') || typed('=') ==> action->hundredths == 50
            &&& typed('-') ==> action->hundredths == -50
            &&& action is Pan <==> named(NamedKey::ArrowLeft) || named(NamedKey::ArrowRight)
                || named(NamedKey::ArrowUp) || named(NamedKey::ArrowDown)
            &&& named(NamedKey::ArrowLeft) ==> action->dx == -120 && action->dy == 0
            &&& named(NamedKey::ArrowRight) ==> action->dx == 120 && action->dy == 0
            &&& named(NamedKey::ArrowUp) ==> action->dx == 0 && action->dy == -120
            &&& named(NamedKey::ArrowDown) ==> action->dx == 0 && action->dy == 120
            &&& action is Home <==> named(NamedKey::Home)
        }),
{
    match key {
        Key::Character(text) => {
            if text@ == seq!['-'] {
                assert(text@[0] == '-');
                assert(seq!['+'][0] == '+' && seq!['='][0] == '=');
            }
        },
        _ => {},
    }
}

/// Decides what a key event asks for.
pub fn key_action(state: ElementState, key: &Key) -> (action: KeyAction)
    ensures
        action == key_action_of(state, *key),
{
    if state == ElementState::Released {
        return KeyAction::Ignore;
    }
    proof {
        reveal_strlit("+");
        reveal_strlit("=");
        reveal_strlit("-");
    }
    assert("+"@ =~= seq!['+']);
    assert("="@ =~= seq!['=']);
    assert("-"@ =~= seq!['-']);
    match key {
        Key::Character(text) => {
            if *text == "+".to_owned() || *text == "=".to_owned() {
                KeyAction::Zoom { hundredths: KEY_ZOOM }
            } else if *text == "-".to_owned() {
                KeyAction::Zoom { hundredths: -KEY_ZOOM }
            } else {
                KeyAction::Ignore
            }
        },
        Key::Named(NamedKey::ArrowLeft) => KeyAction::Pan { dx: -KEY_PAN_PX, dy: 0 },
        Key::Named(NamedKey::ArrowRight) => KeyAction::Pan { dx: KEY_PAN_PX, dy: 0 },
        Key::Named(NamedKey::ArrowUp) => KeyAction::Pan { dx: 0, dy: -KEY_PAN_PX },
        Key::Named(NamedKey::ArrowDown) => KeyAction::Pan { dx: 0, dy: KEY_PAN_PX },
        Key::Named(NamedKey::Home) => KeyAction::Home,
        _ => KeyAction::Ignore,
    }
}

/// Where a scroll motion stands.
#[derive(Debug, Clone, Copy, PartialEq, Eq, Structural)]
pub enum ScrollPhase {
    /// A finger is on the trackpad.
    Finger,
    /// A finger has just left the trackpad.
    FingerEnd,
    /// Any other phase.
    Other,
}

/// What a wheel event asks for.
#[derive(Debug, Clone, Copy, PartialEq, Eq, Structural)]
pub enum WheelAction {
    /// Nothing: no repaint either.
    Ignore,
    /// Change the zoom at once.
    Follow,
    /// Move the target of the zoom.
    Retarget,
}

/// What a wheel event asks for.
pub open spec fn wheel_action_of(still: bool, pixels: bool, phase: ScrollPhase) -> WheelAction {
    match (still, pixels, phase) {
        (true, _, _) => WheelAction::Ignore,
        (false, true, ScrollPhase::Finger) => WheelAction::Follow,
        (false, true, ScrollPhase::FingerEnd) => WheelAction::Follow,
        _ => WheelAction::Retarget,
    }
}

/// A wheel event is ignored exactly where nothing moves. A motion that is not
/// measured in pixels moves the target whatever the phase, and so does one that
/// no finger makes; a finger's motion is followed, up to its end.
pub proof fn law_only_a_finger_is_followed(still: bool, pixels: bool, phase: ScrollPhase)
    ensures
        wheel_action_of(still, pixels, phase) is Ignore <==> still,
        !still && !pixels ==> wheel_action_of(still, pixels, phase) is Retarget,
        !still && phase == ScrollPhase::Other ==> wheel_action_of(still, pixels, phase) is Retarget,
        !still && pixels && phase != ScrollPhase::Other ==> wheel_action_of(still, pixels, phase)
            is Follow,
{
}

/// Decides what a wheel event asks for. A finger on a trackpad is followed
/// one to one; discrete notches move the target. `still` says that the event
/// holds no vertical motion, `pixels` that it is measured in pixels.
pub fn wheel_action(still: bool, pixels: bool, phase: ScrollPhase) -> (action: WheelAction)
    ensures
        action == wheel_action_of(still, pixels, phase),
        action == (if still {
            WheelAction::Ignore
        } else if pixels && phase != ScrollPhase::Other {
            WheelAction::Follow
        } else {
            WheelAction::Retarget
        }),
{
    if still {
        return WheelAction::Ignore;
    }
    let finger: bool = pixels && match phase {
        ScrollPhase::Finger | ScrollPhase::FingerEnd => true,
        ScrollPhase::Other => false,
    };
    if finger {
        WheelAction::Follow
    } else {
        WheelAction::Retarget
    }
}

/// How a tick moves the zoom toward its target.
#[derive(Debug, Clone, Copy, PartialEq, Eq, Structural)]
pub enum GlideStep {
    /// Not at all: it is there.
    Rest,
    /// All the way, so that it settles instead of trailing off.
    Snap,
    /// Part of the way.
    Ease,
}

/// How a tick moves the zoom toward its target.
pub open spec fn glide_step_of(there: bool, close: bool) -> GlideStep {
    match (there, close) {
        (true, _) => GlideStep::Rest,
        (false, true) => GlideStep::Snap,
        (false, false) => GlideStep::Ease,
    }
}

/// A glide rests exactly where it has arrived, and ends in one step from close
/// by.
pub proof fn law_glide_ends_where_it_arrives(there: bool, close: bool)
    ensures
        glide_step_of(there, close) is Rest <==> there,
        glide_step_of(there, close) is Snap <==> !there && close,
        glide_step_of(there, close) is Ease <==> !there && !close,
{
}

/// Decides how a tick moves the zoom. `there` says that nothing of the way
/// remains, `close` that only a sliver does.
pub fn glide_step(there: bool, close: bool) -> (step: GlideStep)
    ensures
        step == glide_step_of(there, close),
        step == (if there {
            GlideStep::Rest
        } else if close {
            GlideStep::Snap
        } else {
            GlideStep::Ease
        }),
{
    if there {
        GlideStep::Rest
    } else if close {
        GlideStep::Snap
    } else {
        GlideStep::Ease
    }
}

/// The window that the application asks for.
#[derive(Debug, Clone, Copy)]
pub struct WindowSettings {
    pub title: &'static str,
    pub app_id: &'static str,
    pub width: u32,
    pub height: u32,
    pub fullscreen: bool,
    pub min_size: Option<(u32, u32)>,
}

/// The map's window.
pub fn settings() -> (settings: WindowSettings)
    ensures
        settings.title@ == "Map"@,
        settings.app_id@ == "cce-map"@,
        settings.width == 1000,
        settings.height == 700,
        !settings.fullscreen,
        settings.min_size == Some((320u32, 240u32)),
{
    WindowSettings {
        title: "Map",
        app_id: "cce-map",
        width: 1000,
        height: 700,
        fullscreen: false,
        min_size: Some((320, 240)),
    }
}

/// The application's state, over the types of a position and of a zoom.
pub struct MapState<P, Z> {
    pub tiles: TileManager,
    /// Whether a renderer has been handed over yet: the first one is the
    /// process's own, any later one a replacement after a reconnect.
    pub seen_renderer: bool,
    pub zoom: Z,
    /// Where the wheel is taking the zoom.
    pub zoom_target: Z,
    /// The point that stays fixed meanwhile.
    pub zoom_anchor: P,
    pub pointer: P,
    /// Where the pointer last was in the drag under way.
    pub drag: Option<P>,
}

impl<P: Copy, Z: Copy> MapState<P, Z> {
    /// Well-formedness: kept by every operation.
    pub open spec fn wf(self) -> bool {
        self.tiles.wf()
    }

    /// The state once the pointer has moved.
    pub open spec fn moved(self, pos: P) -> Self {
        MapState {
            pointer: pos,
            drag: if self.drag is Some {
                Some(pos)
            } else {
                None
            },
            ..self
        }
    }

    /// The motion that moving the pointer pans by, if any.
    pub open spec fn motion_to(self, pos: P) -> Option<(P, P)> {
        if self.drag is Some {
            Some((self.drag->0, pos))
        } else {
            None
        }
    }

    /// The state once a button has gone down or up.
    pub open spec fn clicked(self, button: MouseButton, state: ElementState, pos: P) -> Self {
        match (button, state) {
            (MouseButton::Left, ElementState::Pressed) => MapState { drag: Some(pos), ..self },
            (MouseButton::Left, ElementState::Released) => MapState { drag: None, ..self },
            (MouseButton::Other, _) => self,
        }
    }

    /// A drag pans the view by the pointer's motions, each from where the last
    /// one ended, starting where the left button went down, until it goes up.
    /// No other button starts or ends one, and without one nothing pans. The
    /// pointer is known all the while, and nothing else changes.
    pub proof fn law_drag_follows_the_pointer(
        self,
        state: ElementState,
        from: P,
        over: P,
        to: P,
    )
        ensures
            ({
                let down = self.clicked(MouseButton::Left, ElementState::Pressed, from);
                let on = down.moved(over);
                let up = on.clicked(MouseButton::Left, ElementState::Released, to);
                &&& down.motion_to(over) == Some((from, over))
                &&& on.motion_to(to) == Some((over, to))
                &&& up.motion_to(from) is None
                &&& up.moved(from).motion_to(over) is None
                &&& down.clicked(MouseButton::Other, state, over) == down
                &&& up.clicked(MouseButton::Other, state, over) == up
                &&& self.moved(over).pointer == over
                &&& up == (MapState { pointer: over, drag: None, ..self })
            }),
            self.drag is None ==> self.motion_to(to) is None && self.moved(to).drag is None,
    {
    }

    /// The state once the zoom was changed directly.
    pub open spec fn zoomed(self, zoom: Z) -> Self {
        MapState { zoom, zoom_target: zoom, ..self }
    }

    /// The state once the glide's target was moved.
    pub open spec fn retargeted(self, target: Z, anchor: P) -> Self {
        MapState { zoom_target: target, zoom_anchor: anchor, ..self }
    }

    /// The state after a step of a glide.
    pub open spec fn stepped(self, zoom: Z) -> Self {
        MapState { zoom, ..self }
    }

    /// A glide keeps its target until it gets there: a notch moves the target
    /// and the fixed point, not the zoom; a step moves the zoom, not the target.
    /// A direct change leaves nothing of the way. None of them touches the tiles,
    /// the pointer or the drag.
    pub proof fn law_glide_keeps_its_target(self, zoom: Z, target: Z, anchor: P)
        ensures
            ({
                let gliding = self.retargeted(target, anchor);
                &&& gliding.zoom == self.zoom
                &&& gliding.stepped(zoom).zoom == zoom
                &&& gliding.stepped(zoom).zoom_target == target
                &&& gliding.stepped(zoom).zoom_anchor == anchor
                &&& gliding.stepped(target) == self.zoomed(target).retargeted(target, anchor)
                &&& gliding.zoomed(zoom).zoom == zoom
                &&& gliding.zoomed(zoom).zoom_target == zoom
                &&& gliding.zoomed(zoom).tiles == self.tiles
                &&& gliding.zoomed(zoom).pointer == self.pointer
                &&& gliding.zoomed(zoom).drag == self.drag
                &&& gliding.zoomed(zoom).zoom_anchor == anchor
                &&& gliding.zoomed(zoom).seen_renderer == self.seen_renderer
            }),
    {
    }

    /// The state at start: no tiles, no renderer yet, no drag, and the zoom at
    /// its target.
    pub fn new(zoom: Z, zoom_anchor: P, pointer: P) -> (state: Self)
        ensures
            state.wf(),
            state.tiles@ == TileStore::empty(),
            !state.seen_renderer,
            state.zoom == zoom,
            state.zoom_target == zoom,
            state.zoom_anchor == zoom_anchor,
            state.pointer == pointer,
            state.drag == None::<P>,
    {
        MapState {
            tiles: TileManager::new(),
            seen_renderer: false,
            zoom,
            zoom_target: zoom,
            zoom_anchor,
            pointer,
            drag: None,
        }
    }

    /// Takes a message: the tile store learns the outcome of the fetch. Says
    /// whether to repaint, which is always.
    pub fn update(&mut self, message: Message) -> (repaint: bool)
        requires
            old(self).wf(),
        ensures
            final(self).wf(),
            repaint,
            *final(self) == (MapState { tiles: final(self).tiles, ..*old(self) }),
            ({
                let Message::Tile { generation, key, image } = message;
                let before = old(self).tiles@;
                let after = final(self).tiles@;
                &&& generation != before.generation ==> after == before
                &&& generation == before.generation ==> exists|gone: Seq<TileKey>|
                    before.settled(key, image).evicts(after, gone)
            }),
    {
        match message {
            Message::Tile { generation, key, image } => {
                self.tiles.complete(generation, key, image);
            },
        }
        true
    }

    /// Takes a renderer. A replacement voids every image, so the tile store
    /// starts over and the next paint asks for what it needs again; the tiles
    /// asked for before the first renderer are waiting for exactly that one.
    /// Says whether it was a replacement.
    pub fn renderer_init(&mut self) -> (replaced: bool)
        requires
            old(self).wf(),
        ensures
            final(self).wf(),
            replaced == old(self).seen_renderer,
            *final(self) == (MapState {
                seen_renderer: true,
                tiles: final(self).tiles,
                ..*old(self)
            }),
            final(self).tiles@ == (if replaced {
                old(self).tiles@.renewed()
            } else {
                old(self).tiles@
            }),
    {
        let replaced: bool = self.seen_renderer;
        self.seen_renderer = true;
        if replaced {
            self.tiles.reset();
        }
        replaced
    }

    /// Follows the pointer. Under a drag, gives the motion to pan by, from the
    /// last position to this one.
    pub fn handle_pointer_move(&mut self, pos: P) -> (motion: Option<(P, P)>)
        requires
            old(self).wf(),
        ensures
            final(self).wf(),
            motion == old(self).motion_to(pos),
            *final(self) == old(self).moved(pos),
            motion == match old(self).drag {
                Some(last) => Some((last, pos)),
                None => None,
            },
            *final(self) == (MapState {
                pointer: pos,
                drag: match old(self).drag {
                    Some(_) => Some(pos),
                    None => None,
                },
                ..*old(self)
            }),
    {
        let motion: Option<(P, P)> = match self.drag {
            Some(last) => {
                self.drag = Some(pos);
                Some((last, pos))
            },
            None => None,
        };
        self.pointer = pos;
        motion
    }

    /// Takes a button event: the left button starts a drag and ends it.
    pub fn handle_mouse_input(&mut self, button: MouseButton, state: ElementState, pos: P)
        requires
            old(self).wf(),
        ensures
            final(self).wf(),
            *final(self) == old(self).clicked(button, state, pos),
            *final(self) == (MapState {
                drag: match (button, state) {
                    (MouseButton::Other, _) => old(self).drag,
                    (_, ElementState::Pressed) => Some(pos),
                    (_, ElementState::Released) => None,
                },
                ..*old(self)
            }),
    {
        if button == MouseButton::Left {
            self.drag = match state {
                ElementState::Pressed => Some(pos),
                ElementState::Released => None,
            };
        }
    }

    /// A direct zoom change: lands at once and cancels any glide in flight.
    pub fn zoom_by(&mut self, zoom: Z)
        requires
            old(self).wf(),
        ensures
            final(self).wf(),
            *final(self) == old(self).zoomed(zoom),
            *final(self) == (MapState { zoom, zoom_target: zoom, ..*old(self) }),
    {
        self.zoom = zoom;
        self.zoom_target = zoom;
    }

    /// A wheel notch: moves the glide's target and anchor. Says whether the
    /// zoom is to step to the target at once, which is when gliding is off.
    pub fn zoom_wheel(&mut self, target: Z, anchor: P, smooth: bool) -> (at_once: bool)
        requires
            old(self).wf(),
        ensures
            final(self).wf(),
            at_once == !smooth,
            *final(self) == old(self).retargeted(target, anchor),
            *final(self) == (MapState { zoom_target: target, zoom_anchor: anchor, ..*old(self) }),
    {
        self.zoom_anchor = anchor;
        self.zoom_target = target;
        !smooth
    }

    /// A step of a glide: the zoom moves, its target stays.
    pub fn zoom_step(&mut self, zoom: Z)
        requires
            old(self).wf(),
        ensures
            final(self).wf(),
            *final(self) == old(self).stepped(zoom),
            *final(self) == (MapState { zoom, ..*old(self) }),
    {
        self.zoom = zoom;
    }
}

} // verus!
