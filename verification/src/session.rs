//! The main loop's decisions: which effect slot is shown, the calibration toggle, the FPS
//! overlay, and the keyboard cursor used for calibration on rotated displays. The loop
//! itself (window, clock, scene files) hands each event to `Session` and performs the
//! actions it gets back.

use vstd::prelude::*;
use crate::control::Command;

verus! {

/// Whether effects run or the regions are being calibrated.
#[derive(Debug, Clone, Copy, PartialEq, Eq)]
pub enum AppMode {
    Effect,
    Calibration,
}

/// Mouse buttons the application reacts to.
#[derive(Debug, Clone, Copy, PartialEq, Eq)]
pub enum MouseButtonKind {
    Left,
    Right,
    Middle,
}

/// Keys the application reacts to; every other key is `Other`.
#[derive(Debug, Clone, Copy, PartialEq, Eq)]
pub enum Key {
    Escape,
    Tab,
    S,
    L,
    F,
    Delete,
    Backspace,
    LShift,
    RShift,
    Left,
    Right,
    Up,
    Down,
    Return,
    KpEnter,
    Other,
}

/// Input events from the window.
#[derive(Debug, Clone, Copy, PartialEq, Eq)]
pub enum InputEvent {
    Quit,
    KeyDown(Key),
    KeyUp(Key),
    MouseMove { x: i32, y: i32 },
    MouseDown { x: i32, y: i32, button: MouseButtonKind },
    MouseUp { x: i32, y: i32, button: MouseButtonKind },
}

/// What the main loop has to do after an event or command.
#[derive(Debug, Clone, Copy, PartialEq, Eq)]
pub enum Action {
    /// Leave the main loop.
    Quit,
    /// Save the scene file.
    SaveScene,
    /// Reload the scene file.
    LoadScene,
    /// Delete the region selected in calibration mode.
    DeleteSelected,
    /// The mouse moved or was pressed: the cursor is shown and its hide timer restarts.
    MouseActivity,
    /// Hand this event to calibration mode.
    Calibrate(InputEvent),
}

/// Fixed settings of a run.
pub struct SessionConfig {
    /// Number of effects; slot `None` is the test pattern.
    pub effect_count: usize,
    /// Content width in pixels.
    pub width: u32,
    /// Content height in pixels.
    pub height: u32,
    /// The display is rotated: calibration uses a keyboard-driven cursor.
    pub keyboard_cursor: bool,
    /// Benchmark run: interactive keys are ignored.
    pub benchmark: bool,
}

impl SessionConfig {
    /// At least one effect, and a content size that `i32` coordinates can address.
    pub open spec fn wf(&self) -> bool {
        &&& self.effect_count >= 1
        &&& self.width <= i32::MAX
        &&& self.height <= i32::MAX
    }
}

/// The main loop's state.
#[derive(Debug, Clone, Copy, PartialEq, Eq)]
pub struct Session {
    pub mode: AppMode,
    /// The effect shown; `None` shows the test pattern.
    pub current_effect: Option<usize>,
    pub show_fps: bool,
    pub shift_held: bool,
    /// The keyboard cursor in content coordinates.
    pub cursor: (i32, i32),
}

/// A slot is valid when it is the test pattern or an existing effect.
pub open spec fn valid_slot(slot: Option<usize>, count: usize) -> bool {
    match slot {
        Some(i) => i < count,
        None => true,
    }
}

/// The slot before `slot`: effect `0` goes to the test pattern, which goes to the last effect.
pub open spec fn prev_slot(slot: Option<usize>, count: usize) -> Option<usize> {
    match slot {
        Some(i) => if i == 0 { None } else { Some((i - 1) as usize) },
        None => Some((count - 1) as usize),
    }
}

/// The slot after `slot`: the last effect goes to the test pattern, which goes to effect `0`.
pub open spec fn next_slot(slot: Option<usize>, count: usize) -> Option<usize> {
    match slot {
        Some(i) => if i + 1 >= count { None } else { Some((i + 1) as usize) },
        None => Some(0),
    }
}

/// The other mode.
pub open spec fn toggled(m: AppMode) -> AppMode {
    match m {
        AppMode::Effect => AppMode::Calibration,
        AppMode::Calibration => AppMode::Effect,
    }
}

/// Keyboard cursor step in pixels: 20 with shift held, 5 without.
pub open spec fn cursor_step(shift: bool) -> int {
    if shift { 20 } else { 5 }
}

/// The larger of two integers.
pub open spec fn max_int(a: int, b: int) -> int {
    if a >= b { a } else { b }
}

/// The smaller of two integers.
pub open spec fn min_int(a: int, b: int) -> int {
    if a <= b { a } else { b }
}

/// Whether the keyboard cursor is in use: calibration mode on a rotated display.
pub open spec fn keyboard_cursor_active(s: Session, cfg: SessionConfig) -> bool {
    s.mode == AppMode::Calibration && cfg.keyboard_cursor
}

/// `s` with a new keyboard cursor position.
pub open spec fn with_cursor(s: Session, x: int, y: int) -> Session {
    Session {
        mode: s.mode,
        current_effect: s.current_effect,
        show_fps: s.show_fps,
        shift_held: s.shift_held,
        cursor: (x as i32, y as i32),
    }
}

/// `s` showing slot `slot`.
pub open spec fn with_slot(s: Session, slot: Option<usize>) -> Session {
    Session {
        mode: s.mode,
        current_effect: slot,
        show_fps: s.show_fps,
        shift_held: s.shift_held,
        cursor: s.cursor,
    }
}

/// `s` in mode `m`.
pub open spec fn with_mode(s: Session, m: AppMode) -> Session {
    Session {
        mode: m,
        current_effect: s.current_effect,
        show_fps: s.show_fps,
        shift_held: s.shift_held,
        cursor: s.cursor,
    }
}

/// `s` with the FPS overlay flag `f`.
pub open spec fn with_fps(s: Session, f: bool) -> Session {
    Session {
        mode: s.mode,
        current_effect: s.current_effect,
        show_fps: f,
        shift_held: s.shift_held,
        cursor: s.cursor,
    }
}

/// `s` with the shift flag `f`.
pub open spec fn with_shift(s: Session, f: bool) -> Session {
    Session {
        mode: s.mode,
        current_effect: s.current_effect,
        show_fps: s.show_fps,
        shift_held: f,
        cursor: s.cursor,
    }
}

/// An event no key binding consumed: a shift release clears the shift flag; without the
/// keyboard cursor, mouse moves and presses count as mouse activity, and in calibration
/// mode (outside benchmarks) the event goes to calibration.
pub open spec fn passive_step(s: Session, cfg: SessionConfig, ev: InputEvent) -> (Session, Seq<Action>) {
    let s1 = match ev {
        InputEvent::KeyUp(k) => if k == Key::LShift || k == Key::RShift {
            with_shift(s, false)
        } else {
            s
        },
        _ => s,
    };
    if cfg.keyboard_cursor {
        (s1, seq![])
    } else {
        let a1: Seq<Action> = if ev is MouseMove || ev is MouseDown {
            seq![Action::MouseActivity]
        } else {
            seq![]
        };
        let a2 = if s1.mode == AppMode::Calibration && !cfg.benchmark {
            a1.push(Action::Calibrate(ev))
        } else {
            a1
        };
        (s1, a2)
    }
}

/// A key press outside benchmarks (Escape aside).
pub open spec fn key_down_step(s: Session, cfg: SessionConfig, k: Key) -> (Session, Seq<Action>) {
    let kc = keyboard_cursor_active(s, cfg);
    let step = cursor_step(s.shift_held);
    let (cx, cy) = (s.cursor.0 as int, s.cursor.1 as int);
    match k {
        Key::Tab => (with_mode(s, toggled(s.mode)), seq![]),
        Key::S => (s, seq![Action::SaveScene]),
        Key::L => (s, seq![Action::LoadScene]),
        Key::F => (with_fps(s, !s.show_fps), seq![]),
        Key::Delete | Key::Backspace => (
            s,
            if s.mode == AppMode::Calibration { seq![Action::DeleteSelected] } else { seq![] },
        ),
        Key::LShift | Key::RShift => (with_shift(s, true), seq![]),
        Key::Left => if kc {
            let nx = max_int(cx - step, 0);
            (
                with_cursor(s, nx, cy),
                seq![Action::Calibrate(InputEvent::MouseMove { x: nx as i32, y: cy as i32 })],
            )
        } else {
            (with_slot(s, prev_slot(s.current_effect, cfg.effect_count)), seq![])
        },
        Key::Right => if kc {
            let nx = min_int(cx + step, cfg.width - 1);
            (
                with_cursor(s, nx, cy),
                seq![Action::Calibrate(InputEvent::MouseMove { x: nx as i32, y: cy as i32 })],
            )
        } else {
            (with_slot(s, next_slot(s.current_effect, cfg.effect_count)), seq![])
        },
        Key::Up => if kc {
            let ny = max_int(cy - step, 0);
            (
                with_cursor(s, cx, ny),
                seq![Action::Calibrate(InputEvent::MouseMove { x: cx as i32, y: ny as i32 })],
            )
        } else {
            (s, seq![])
        },
        Key::Down => if kc {
            let ny = min_int(cy + step, cfg.height - 1);
            (
                with_cursor(s, cx, ny),
                seq![Action::Calibrate(InputEvent::MouseMove { x: cx as i32, y: ny as i32 })],
            )
        } else {
            (s, seq![])
        },
        Key::Return | Key::KpEnter => if kc {
            (
                s,
                seq![
                    Action::Calibrate(
                        InputEvent::MouseDown { x: s.cursor.0, y: s.cursor.1, button: MouseButtonKind::Left },
                    ),
                    Action::Calibrate(
                        InputEvent::MouseUp { x: s.cursor.0, y: s.cursor.1, button: MouseButtonKind::Left },
                    ),
                ],
            )
        } else {
            (s, seq![])
        },
        Key::Escape => (s, seq![Action::Quit]),
        Key::Other => passive_step(s, cfg, InputEvent::KeyDown(k)),
    }
}

/// The state and the actions after one input event: closing the window or Escape quits;
/// during a benchmark other key presses are ignored.
pub open spec fn event_step(s: Session, cfg: SessionConfig, ev: InputEvent) -> (Session, Seq<Action>) {
    match ev {
        InputEvent::Quit => (s, seq![Action::Quit]),
        InputEvent::KeyDown(k) => if k == Key::Escape {
            (s, seq![Action::Quit])
        } else if cfg.benchmark {
            (s, seq![])
        } else {
            key_down_step(s, cfg, k)
        },
        _ => passive_step(s, cfg, ev),
    }
}

/// The state and the action after one remote command.
pub open spec fn command_step(s: Session, cfg: SessionConfig, cmd: Command) -> (Session, Option<Action>) {
    match cmd {
        Command::Left => (with_slot(s, prev_slot(s.current_effect, cfg.effect_count)), None),
        Command::Right => (with_slot(s, next_slot(s.current_effect, cfg.effect_count)), None),
        Command::Tab => (with_mode(s, toggled(s.mode)), None),
        Command::ToggleFps => (with_fps(s, !s.show_fps), None),
        Command::Save => (s, Some(Action::SaveScene)),
        Command::Load => (s, Some(Action::LoadScene)),
        Command::Quit => (s, Some(Action::Quit)),
        Command::Effect(n) => if n < cfg.effect_count {
            (with_slot(s, Some(n)), None)
        } else {
            (s, None)
        },
    }
}

/// The session invariant: the slot is valid and the keyboard cursor is on the content.
pub open spec fn session_ok(s: Session, cfg: SessionConfig) -> bool {
    &&& valid_slot(s.current_effect, cfg.effect_count)
    &&& 0 <= s.cursor.0 < cfg.width
    &&& 0 <= s.cursor.1 < cfg.height
}

/// The slot before `current`.
pub fn prev_effect(current: Option<usize>, count: usize) -> (r: Option<usize>)
    requires
        count >= 1,
    ensures
        r == prev_slot(current, count),
{
    match current {
        Some(i) => if i == 0 { None } else { Some(i - 1) },
        None => Some(count - 1),
    }
}

/// The slot after `current`.
pub fn next_effect(current: Option<usize>, count: usize) -> (r: Option<usize>)
    requires
        count >= 1,
    ensures
        r == next_slot(current, count),
{
    match current {
        Some(i) => if i >= count - 1 { None } else { Some(i + 1) },
        None => Some(0),
    }
}

/// The first slot of a run: the requested effect, clamped to the last one.
pub fn start_slot(start: Option<usize>, count: usize) -> (r: Option<usize>)
    requires
        count >= 1,
    ensures
        r == match start {
            Some(e) => Some(if e < count { e } else { (count - 1) as usize }),
            None => None,
        },
        valid_slot(r, count),
{
    match start {
        Some(e) => Some(if e < count { e } else { count - 1 }),
        None => None,
    }
}

fn clamp_down(v: i32, step: i32) -> (r: i32)
    requires
        step == 5 || step == 20,
    ensures
        r == max_int(v - step, 0),
{
    let w = v as i64 - step as i64;
    if w > 0 { w as i32 } else { 0 }
}

fn clamp_up(v: i32, step: i32, limit: u32) -> (r: i32)
    requires
        step == 5 || step == 20,
        limit <= i32::MAX,
    ensures
        r == min_int(v + step, limit - 1),
{
    let w = v as i64 + step as i64;
    let top = limit as i64 - 1;
    if w <= top { w as i32 } else { top as i32 }
}

impl Session {
    /// The state at the start of a run: effect mode showing `start_slot(start)`, no FPS
    /// overlay, the keyboard cursor in the middle of the content.
    pub fn new(cfg: &SessionConfig, start: Option<usize>) -> (s: Self)
        requires
            cfg.wf(),
        ensures
            s.mode == AppMode::Effect,
            s.current_effect == match start {
                Some(e) => Some(if e < cfg.effect_count { e } else { (cfg.effect_count - 1) as usize }),
                None => None,
            },
            !s.show_fps,
            !s.shift_held,
            s.cursor == ((cfg.width / 2) as i32, (cfg.height / 2) as i32),
            cfg.width >= 1 && cfg.height >= 1 ==> session_ok(s, *cfg),
    {
        Session {
            mode: AppMode::Effect,
            current_effect: start_slot(start, cfg.effect_count),
            show_fps: false,
            shift_held: false,
            cursor: ((cfg.width / 2) as i32, (cfg.height / 2) as i32),
        }
    }

    fn on_passive(&mut self, cfg: &SessionConfig, ev: InputEvent) -> (acts: Vec<Action>)
        requires
            cfg.wf(),
        ensures
            (*final(self), acts@) == passive_step(*old(self), *cfg, ev),
    {
        if let InputEvent::KeyUp(k) = ev {
            if matches!(k, Key::LShift | Key::RShift) {
                self.shift_held = false;
            }
        }
        let mut acts: Vec<Action> = Vec::new();
        if !cfg.keyboard_cursor {
            if matches!(ev, InputEvent::MouseMove { .. } | InputEvent::MouseDown { .. }) {
                acts.push(Action::MouseActivity);
            }
            if matches!(self.mode, AppMode::Calibration) && !cfg.benchmark {
                acts.push(Action::Calibrate(ev));
            }
        }
        proof {
            let (s1, a) = passive_step(*old(self), *cfg, ev);
            assert(*self == s1);
            assert(acts@ =~= a);
        }
        acts
    }

    fn on_key_down(&mut self, cfg: &SessionConfig, k: Key) -> (acts: Vec<Action>)
        requires
            cfg.wf(),
        ensures
            (*final(self), acts@) == key_down_step(*old(self), *cfg, k),
    {
        let kc = matches!(self.mode, AppMode::Calibration) && cfg.keyboard_cursor;
        let step: i32 = if self.shift_held { 20 } else { 5 };
        let mut acts: Vec<Action> = Vec::new();
        match k {
            Key::Tab => {
                self.mode = match self.mode {
                    AppMode::Effect => AppMode::Calibration,
                    AppMode::Calibration => AppMode::Effect,
                };
            },
            Key::S => {
                acts.push(Action::SaveScene);
            },
            Key::L => {
                acts.push(Action::LoadScene);
            },
            Key::F => {
                self.show_fps = !self.show_fps;
            },
            Key::Delete | Key::Backspace => {
                if matches!(self.mode, AppMode::Calibration) {
                    acts.push(Action::DeleteSelected);
                }
            },
            Key::LShift | Key::RShift => {
                self.shift_held = true;
            },
            Key::Left => {
                if kc {
                    let nx = clamp_down(self.cursor.0, step);
                    self.cursor = (nx, self.cursor.1);
                    acts.push(Action::Calibrate(InputEvent::MouseMove { x: nx, y: self.cursor.1 }));
                } else {
                    self.current_effect = prev_effect(self.current_effect, cfg.effect_count);
                }
            },
            Key::Right => {
                if kc {
                    let nx = clamp_up(self.cursor.0, step, cfg.width);
                    self.cursor = (nx, self.cursor.1);
                    acts.push(Action::Calibrate(InputEvent::MouseMove { x: nx, y: self.cursor.1 }));
                } else {
                    self.current_effect = next_effect(self.current_effect, cfg.effect_count);
                }
            },
            Key::Up => {
                if kc {
                    let ny = clamp_down(self.cursor.1, step);
                    self.cursor = (self.cursor.0, ny);
                    acts.push(Action::Calibrate(InputEvent::MouseMove { x: self.cursor.0, y: ny }));
                }
            },
            Key::Down => {
                if kc {
                    let ny = clamp_up(self.cursor.1, step, cfg.height);
                    self.cursor = (self.cursor.0, ny);
                    acts.push(Action::Calibrate(InputEvent::MouseMove { x: self.cursor.0, y: ny }));
                }
            },
            Key::Return | Key::KpEnter => {
                if kc {
                    let (x, y) = self.cursor;
                    acts.push(
                        Action::Calibrate(InputEvent::MouseDown { x, y, button: MouseButtonKind::Left }),
                    );
                    acts.push(Action::Calibrate(InputEvent::MouseUp { x, y, button: MouseButtonKind::Left }));
                }
            },
            Key::Escape => {
                acts.push(Action::Quit);
            },
            Key::Other => {
                return self.on_passive(cfg, InputEvent::KeyDown(k));
            },
        }
        proof {
            let (s1, a) = key_down_step(*old(self), *cfg, k);
            assert(*self == s1);
            assert(acts@ =~= a);
        }
        acts
    }

    /// React to one input event: the new state and, in order, the actions the main loop
    /// performs (`event_step`).
    pub fn handle_event(&mut self, cfg: &SessionConfig, ev: InputEvent) -> (acts: Vec<Action>)
        requires
            cfg.wf(),
        ensures
            (*final(self), acts@) == event_step(*old(self), *cfg, ev),
            session_ok(*old(self), *cfg) ==> session_ok(*final(self), *cfg),
    {
        let acts = match ev {
            InputEvent::Quit => vec![Action::Quit],
            InputEvent::KeyDown(k) => {
                if matches!(k, Key::Escape) {
                    vec![Action::Quit]
                } else if cfg.benchmark {
                    Vec::new()
                } else {
                    self.on_key_down(cfg, k)
                }
            },
            _ => self.on_passive(cfg, ev),
        };
        proof {
            let (s1, a) = event_step(*old(self), *cfg, ev);
            assert(*self == s1);
            assert(acts@ =~= a);
        }
        acts
    }

    /// React to one remote command (`command_step`).
    pub fn handle_command(&mut self, cfg: &SessionConfig, cmd: Command) -> (act: Option<Action>)
        requires
            cfg.wf(),
        ensures
            (*final(self), act) == command_step(*old(self), *cfg, cmd),
            session_ok(*old(self), *cfg) ==> session_ok(*final(self), *cfg),
    {
        match cmd {
            Command::Left => {
                self.current_effect = prev_effect(self.current_effect, cfg.effect_count);
                None
            },
            Command::Right => {
                self.current_effect = next_effect(self.current_effect, cfg.effect_count);
                None
            },
            Command::Tab => {
                self.mode = match self.mode {
                    AppMode::Effect => AppMode::Calibration,
                    AppMode::Calibration => AppMode::Effect,
                };
                None
            },
            Command::ToggleFps => {
                self.show_fps = !self.show_fps;
                None
            },
            Command::Save => Some(Action::SaveScene),
            Command::Load => Some(Action::LoadScene),
            Command::Quit => Some(Action::Quit),
            Command::Effect(n) => {
                if n < cfg.effect_count {
                    self.current_effect = Some(n);
                }
                None
            },
        }
    }
}

/// Stepping to the next slot and back, or back and then forward, returns to the slot
/// shown before.
pub proof fn lemma_prev_next_inverse(slot: Option<usize>, count: usize)
    requires
        count >= 1,
        valid_slot(slot, count),
    ensures
        prev_slot(next_slot(slot, count), count) == slot,
        next_slot(prev_slot(slot, count), count) == slot,
{
}

/// The slot reached after `k` steps forward.
pub open spec fn next_slot_n(slot: Option<usize>, count: usize, k: nat) -> Option<usize>
    decreases k,
{
    if k == 0 {
        slot
    } else {
        next_slot(next_slot_n(slot, count, (k - 1) as nat), count)
    }
}

/// Position of a slot on the ring: effects `0..count`, then the test pattern at `count`.
pub open spec fn slot_position(slot: Option<usize>, count: usize) -> int {
    match slot {
        Some(i) => i as int,
        None => count as int,
    }
}

proof fn lemma_next_n_position(slot: Option<usize>, count: usize, k: nat)
    requires
        count >= 1,
        valid_slot(slot, count),
    ensures
        valid_slot(next_slot_n(slot, count, k), count),
        slot_position(next_slot_n(slot, count, k), count) == (slot_position(slot, count) + k) % (count + 1),
    decreases k,
{
    if k > 0 {
        lemma_next_n_position(slot, count, (k - 1) as nat);
        let prev = next_slot_n(slot, count, (k - 1) as nat);
        let p = slot_position(prev, count);
        let q = slot_position(slot, count);
        let m = count + 1;
        assert(p == (q + k - 1) % m);
        vstd::arithmetic::div_mod::lemma_mod_bound(q + k - 1, m);
        vstd::arithmetic::div_mod::lemma_small_mod(1, m as nat);
        vstd::arithmetic::div_mod::lemma_add_mod_noop(q + k - 1, 1, m);
        assert((p + 1) % m == (q + k) % m);
        if p + 1 < m {
            vstd::arithmetic::div_mod::lemma_small_mod((p + 1) as nat, m as nat);
        } else {
            vstd::arithmetic::div_mod::lemma_mod_self_0(m);
        }
        assert(slot_position(next_slot(prev, count), count) == (p + 1) % m);
    } else {
        vstd::arithmetic::div_mod::lemma_small_mod(slot_position(slot, count) as nat, (count + 1) as nat);
    }
}

/// Pressing "next" once for every effect and once more for the test pattern brings back
/// the slot shown before: the slots form one ring of `count + 1` positions.
pub proof fn lemma_next_cycles(slot: Option<usize>, count: usize)
    requires
        count >= 1,
        valid_slot(slot, count),
    ensures
        next_slot_n(slot, count, (count + 1) as nat) == slot,
{
    lemma_next_n_position(slot, count, (count + 1) as nat);
    let q = slot_position(slot, count);
    let m = count + 1;
    assert((q + m) % m == q) by {
        vstd::arithmetic::div_mod::lemma_add_mod_noop(q, m, m);
        vstd::arithmetic::div_mod::lemma_mod_self_0(m);
        vstd::arithmetic::div_mod::lemma_small_mod(q as nat, m as nat);
    }
}

/// Outside benchmarks, the F key flips the FPS overlay and changes nothing else, with no
/// action; pressing it twice restores the session.
pub proof fn lemma_f_key_toggles_fps(s: Session, cfg: SessionConfig)
    requires
        !cfg.benchmark,
    ensures
        event_step(s, cfg, InputEvent::KeyDown(Key::F)) == (
        Session { show_fps: !s.show_fps, ..s }, Seq::<Action>::empty()),
        event_step(event_step(s, cfg, InputEvent::KeyDown(Key::F)).0, cfg, InputEvent::KeyDown(Key::F)).0
            == s,
{
}

/// Outside benchmarks, the Tab key switches between effects and calibration and changes
/// nothing else, with no action; pressing it twice restores the session.
pub proof fn lemma_tab_key_toggles_mode(s: Session, cfg: SessionConfig)
    requires
        !cfg.benchmark,
    ensures
        event_step(s, cfg, InputEvent::KeyDown(Key::Tab)).0.mode != s.mode,
        event_step(s, cfg, InputEvent::KeyDown(Key::Tab)) == (
        Session { mode: event_step(s, cfg, InputEvent::KeyDown(Key::Tab)).0.mode, ..s },
        Seq::<Action>::empty()),
        event_step(event_step(s, cfg, InputEvent::KeyDown(Key::Tab)).0, cfg, InputEvent::KeyDown(Key::Tab)).0
            == s,
{
}

/// The tab/calibrate command switches between effects and calibration and changes nothing
/// else, with no action; applying it twice restores the session.
pub proof fn lemma_tab_command_toggles_mode(s: Session, cfg: SessionConfig)
    ensures
        command_step(s, cfg, Command::Tab).0.mode != s.mode,
        command_step(s, cfg, Command::Tab) == (
        Session { mode: command_step(s, cfg, Command::Tab).0.mode, ..s }, Option::<Action>::None),
        command_step(command_step(s, cfg, Command::Tab).0, cfg, Command::Tab).0 == s,
{
}

/// The fps command flips the FPS overlay and changes nothing else; applying it twice
/// restores the session.
pub proof fn lemma_fps_command_toggles_fps(s: Session, cfg: SessionConfig)
    ensures
        command_step(s, cfg, Command::ToggleFps) == (
        Session { show_fps: !s.show_fps, ..s }, Option::<Action>::None),
        command_step(command_step(s, cfg, Command::ToggleFps).0, cfg, Command::ToggleFps).0 == s,
{
}

/// The left and right commands step one slot back and forward on the ring effect 0,
/// effect 1, ..., last effect, test pattern: left from effect `i > 0` shows effect `i - 1`,
/// from effect 0 the test pattern, from the test pattern the last effect; right is the
/// reverse, and left then right (or right then left) restores the session.
pub proof fn lemma_slot_commands_step_the_ring(s: Session, cfg: SessionConfig)
    requires
        cfg.effect_count >= 1,
        valid_slot(s.current_effect, cfg.effect_count),
    ensures
        ({
            let l = command_step(s, cfg, Command::Left);
            let r = command_step(s, cfg, Command::Right);
            &&& l.1 is None && r.1 is None
            &&& l.0 == Session { current_effect: l.0.current_effect, ..s }
            &&& r.0 == Session { current_effect: r.0.current_effect, ..s }
            &&& l.0.current_effect == match s.current_effect {
                Some(i) => if i > 0 { Some((i - 1) as usize) } else { None },
                None => Some((cfg.effect_count - 1) as usize),
            }
            &&& r.0.current_effect == match s.current_effect {
                Some(i) => if i + 1 < cfg.effect_count { Some((i + 1) as usize) } else { None },
                None => Some(0usize),
            }
            &&& command_step(l.0, cfg, Command::Right).0 == s
            &&& command_step(r.0, cfg, Command::Left).0 == s
        }),
{
}

/// Without the keyboard cursor (and outside benchmarks) the arrow keys left and right act
/// like the left and right commands.
pub proof fn lemma_arrow_keys_match_commands(s: Session, cfg: SessionConfig)
    requires
        !cfg.benchmark,
        !(s.mode == AppMode::Calibration && cfg.keyboard_cursor),
    ensures
        event_step(s, cfg, InputEvent::KeyDown(Key::Left)).0 == command_step(s, cfg, Command::Left).0,
        event_step(s, cfg, InputEvent::KeyDown(Key::Right)).0 == command_step(s, cfg, Command::Right).0,
        event_step(s, cfg, InputEvent::KeyDown(Key::Left)).1.len() == 0,
        event_step(s, cfg, InputEvent::KeyDown(Key::Right)).1.len() == 0,
{
}

/// The effect command shows effect `n` when it exists and otherwise changes nothing; save,
/// load and quit change nothing and ask for their action.
pub proof fn lemma_other_commands(s: Session, cfg: SessionConfig, n: usize)
    ensures
        command_step(s, cfg, Command::Effect(n)) == (if n < cfg.effect_count {
            Session { current_effect: Some(n), ..s }
        } else {
            s
        }, Option::<Action>::None),
        command_step(s, cfg, Command::Save) == (s, Some(Action::SaveScene)),
        command_step(s, cfg, Command::Load) == (s, Some(Action::LoadScene)),
        command_step(s, cfg, Command::Quit) == (s, Some(Action::Quit)),
{
}

/// Closing the window or pressing Escape quits, whatever the session, even during a
/// benchmark, and changes nothing else.
pub proof fn lemma_escape_quits(s: Session, cfg: SessionConfig)
    ensures
        event_step(s, cfg, InputEvent::KeyDown(Key::Escape)) == (s, seq![Action::Quit]),
        event_step(s, cfg, InputEvent::Quit) == (s, seq![Action::Quit]),
{
}

/// Outside benchmarks, S asks to save the scene and L to load it, changing nothing else;
/// Delete and Backspace ask to delete the selected region in calibration mode only; a
/// shift key sets the shift flag.
pub proof fn lemma_scene_keys(s: Session, cfg: SessionConfig)
    requires
        !cfg.benchmark,
    ensures
        event_step(s, cfg, InputEvent::KeyDown(Key::S)) == (s, seq![Action::SaveScene]),
        event_step(s, cfg, InputEvent::KeyDown(Key::L)) == (s, seq![Action::LoadScene]),
        event_step(s, cfg, InputEvent::KeyDown(Key::Delete)) == (s, if s.mode == AppMode::Calibration {
            seq![Action::DeleteSelected]
        } else {
            Seq::<Action>::empty()
        }),
        event_step(s, cfg, InputEvent::KeyDown(Key::Backspace)) == event_step(
            s,
            cfg,
            InputEvent::KeyDown(Key::Delete),
        ),
        event_step(s, cfg, InputEvent::KeyDown(Key::LShift)).0 == (Session { shift_held: true, ..s }),
        event_step(s, cfg, InputEvent::KeyDown(Key::RShift)).0 == (Session { shift_held: true, ..s }),
{
}

/// During a benchmark every key but Escape is ignored.
pub proof fn lemma_benchmark_ignores_keys(s: Session, cfg: SessionConfig, k: Key)
    requires
        cfg.benchmark,
        k != Key::Escape,
    ensures
        event_step(s, cfg, InputEvent::KeyDown(k)) == (s, Seq::<Action>::empty()),
{
}

/// With the keyboard cursor in use (calibration on a rotated display, outside benchmarks)
/// the arrow keys move the cursor by 5 pixels (20 with shift held), stopping at the content
/// edges, and hand calibration a mouse move to the new position; Return presses and
/// releases the left button there.
pub proof fn lemma_keyboard_cursor(s: Session, cfg: SessionConfig)
    requires
        !cfg.benchmark,
        cfg.keyboard_cursor,
        s.mode == AppMode::Calibration,
        cfg.wf(),
        0 <= s.cursor.0 < cfg.width,
        0 <= s.cursor.1 < cfg.height,
    ensures
        ({
            let d: int = if s.shift_held { 20 } else { 5 };
            let (x, y) = (s.cursor.0 as int, s.cursor.1 as int);
            let lx: int = if x - d >= 0 { x - d } else { 0 };
            let rx: int = if x + d <= cfg.width - 1 { x + d } else { cfg.width - 1 };
            let uy: int = if y - d >= 0 { y - d } else { 0 };
            let dy: int = if y + d <= cfg.height - 1 { y + d } else { cfg.height - 1 };
            &&& event_step(s, cfg, InputEvent::KeyDown(Key::Left)) == (
            Session { cursor: (lx as i32, y as i32), ..s },
            seq![Action::Calibrate(InputEvent::MouseMove { x: lx as i32, y: y as i32 })])
            &&& event_step(s, cfg, InputEvent::KeyDown(Key::Right)) == (
            Session { cursor: (rx as i32, y as i32), ..s },
            seq![Action::Calibrate(InputEvent::MouseMove { x: rx as i32, y: y as i32 })])
            &&& event_step(s, cfg, InputEvent::KeyDown(Key::Up)) == (
            Session { cursor: (x as i32, uy as i32), ..s },
            seq![Action::Calibrate(InputEvent::MouseMove { x: x as i32, y: uy as i32 })])
            &&& event_step(s, cfg, InputEvent::KeyDown(Key::Down)) == (
            Session { cursor: (x as i32, dy as i32), ..s },
            seq![Action::Calibrate(InputEvent::MouseMove { x: x as i32, y: dy as i32 })])
            &&& event_step(s, cfg, InputEvent::KeyDown(Key::Return)) == (
            s,
            seq![
                Action::Calibrate(
                    InputEvent::MouseDown { x: s.cursor.0, y: s.cursor.1, button: MouseButtonKind::Left },
                ),
                Action::Calibrate(
                    InputEvent::MouseUp { x: s.cursor.0, y: s.cursor.1, button: MouseButtonKind::Left },
                ),
            ])
        }),
{
}

} // verus!
