//! The decisions of calibration mode: what a click, a drag, a release or a delete does
//! to the region being drawn, selected or edited. The geometry (which region or handle a
//! click lands on, whether a drawn circle is large enough) is measured by the caller and
//! handed in; the editor answers with the next state and the edit to perform.

use vstd::prelude::*;
use crate::session::{Key, MouseButtonKind};

verus! {

/// What the editor is doing.
#[derive(Debug, Clone, Copy, PartialEq, Eq, Structural)]
pub enum EditState {
    /// Nothing selected, not drawing.
    Idle,
    /// Drawing a new polygon (the caller holds its vertices).
    Drawing,
    /// Drawing a circle (the caller holds its centre); the release fixes the radius.
    DrawingCircle,
    /// A region is selected.
    Selected { region_index: usize },
    /// Dragging a vertex of the selected polygon.
    DraggingVertex { region_index: usize, vertex_index: usize },
    /// Dragging the centre of the selected circle.
    DraggingCircleCenter { region_index: usize },
    /// Dragging the edge of the selected circle.
    ResizingCircle { region_index: usize },
}

/// The handle of a region under the click, if any.
#[derive(Debug, Clone, Copy, PartialEq, Eq, Structural)]
pub enum Grab {
    Nothing,
    /// Vertex `i` of a polygon.
    Vertex(usize),
    /// The centre of a circle.
    CircleCenter,
    /// The edge of a circle.
    CircleEdge,
}

/// What the geometry tests found under a left click.
#[derive(Debug, Clone, Copy)]
pub struct ClickHits {
    /// The topmost region containing the click.
    pub region: Option<usize>,
    /// The handle under the click on `region`.
    pub grab_on_hit: Grab,
    /// The handle under the click on the selected region.
    pub grab_on_selected: Grab,
    /// Number of vertices of the polygon being drawn.
    pub vertex_count: usize,
    /// Whether the click is within snapping distance of the first vertex being drawn.
    pub near_first_vertex: bool,
}

/// An input to the editor.
#[derive(Debug, Clone, Copy)]
pub enum EditEvent {
    /// The mouse moved.
    Move,
    /// A button went down; `hits` describes the click.
    Down { button: MouseButtonKind, hits: ClickHits },
    /// A button went up; `circle_big_enough` tells whether the circle being drawn would reach
    /// the minimum radius.
    Up { button: MouseButtonKind, circle_big_enough: bool },
    /// A key went down.
    KeyDown(Key),
    /// A key went up.
    KeyUp(Key),
    /// Delete the selected region.
    Delete,
}

/// The edit the caller performs.
#[derive(Debug, Clone, Copy, PartialEq, Eq, Structural)]
pub enum EditAction {
    Nothing,
    /// Start a new polygon at the click.
    StartPolygon,
    /// Add the click as the next vertex of the polygon being drawn.
    AddVertex,
    /// Turn the polygon being drawn into a new region, appended at the end.
    ClosePolygon,
    /// Start a circle centred at the click.
    StartCircle,
    /// Turn the circle being drawn into a new region, appended at the end.
    CreateCircle,
    /// Move vertex `vertex_index` of region `region_index` to the mouse.
    MoveVertex { region_index: usize, vertex_index: usize },
    /// Move the centre of circle region `region_index` to the mouse.
    MoveCircleCenter { region_index: usize },
    /// Set the radius of circle region `region_index` from the mouse.
    ResizeCircle { region_index: usize },
    /// Remove region `region_index`.
    RemoveRegion { region_index: usize },
}

/// The editor as the contracts see it.
pub struct EditorModel {
    pub state: EditState,
    pub mouse_down: bool,
    pub shift_held: bool,
    pub region_count: int,
}

/// The region a state refers to, if any.
pub open spec fn state_region(s: EditState) -> Option<usize> {
    match s {
        EditState::Selected { region_index } => Some(region_index),
        EditState::DraggingVertex { region_index, .. } => Some(region_index),
        EditState::DraggingCircleCenter { region_index } => Some(region_index),
        EditState::ResizingCircle { region_index } => Some(region_index),
        _ => None,
    }
}

/// The editor never refers to a region that does not exist.
pub open spec fn editor_ok(m: EditorModel) -> bool {
    &&& 0 <= m.region_count
    &&& match state_region(m.state) {
        Some(i) => i < m.region_count,
        None => true,
    }
}

/// The drag that grabbing `g` on region `i` starts, if any.
pub open spec fn grab_state(g: Grab, i: usize) -> Option<EditState> {
    match g {
        Grab::Nothing => None,
        Grab::Vertex(v) => Some(EditState::DraggingVertex { region_index: i, vertex_index: v }),
        Grab::CircleCenter => Some(EditState::DraggingCircleCenter { region_index: i }),
        Grab::CircleEdge => Some(EditState::ResizingCircle { region_index: i }),
    }
}

/// A click on empty wall starts a circle with shift held, a polygon otherwise.
pub open spec fn start_shape(shift: bool) -> (EditState, EditAction) {
    if shift {
        (EditState::DrawingCircle, EditAction::StartCircle)
    } else {
        (EditState::Drawing, EditAction::StartPolygon)
    }
}

/// The state and edit after a left click in state `s`. From idle, a click on a region
/// grabs the handle under it or selects the region, and a click elsewhere starts a
/// shape. While drawing a polygon, a click near the first vertex closes it when it has at
/// least three vertices (the new region, at index `count`, becomes selected); any other
/// click adds a vertex. With a region selected, a click on one of its handles starts a
/// drag, a click on another region selects that one, a click on the selected region
/// itself changes nothing, and a click elsewhere starts a shape. Other states ignore it.
pub open spec fn click_step(s: EditState, shift: bool, count: int, hits: ClickHits) -> (
    EditState,
    EditAction,
) {
    match s {
        EditState::Idle => match hits.region {
            Some(i) => (
                match grab_state(hits.grab_on_hit, i) {
                    Some(g) => g,
                    None => EditState::Selected { region_index: i },
                },
                EditAction::Nothing,
            ),
            None => start_shape(shift),
        },
        EditState::Drawing => if hits.vertex_count >= 3 && hits.near_first_vertex {
            (EditState::Selected { region_index: count as usize }, EditAction::ClosePolygon)
        } else {
            (EditState::Drawing, EditAction::AddVertex)
        },
        EditState::Selected { region_index } => match grab_state(hits.grab_on_selected, region_index) {
            Some(g) => (g, EditAction::Nothing),
            None => match hits.region {
                Some(j) => (EditState::Selected { region_index: j }, EditAction::Nothing),
                None => start_shape(shift),
            },
        },
        _ => (s, EditAction::Nothing),
    }
}

/// The edit a mouse move performs: while the button is held in a drag, the dragged
/// handle follows the mouse.
pub open spec fn move_action(s: EditState, down: bool) -> EditAction {
    if !down {
        EditAction::Nothing
    } else {
        match s {
            EditState::DraggingVertex { region_index, vertex_index } => EditAction::MoveVertex {
                region_index,
                vertex_index,
            },
            EditState::DraggingCircleCenter { region_index } => EditAction::MoveCircleCenter {
                region_index,
            },
            EditState::ResizingCircle { region_index } => EditAction::ResizeCircle { region_index },
            _ => EditAction::Nothing,
        }
    }
}

/// The state and edit after the left button is released: a drag ends with its region
/// selected; a circle being drawn becomes a new region (selected, at index `count`) when
/// big enough and is dropped otherwise.
pub open spec fn release_step(s: EditState, count: int, big_enough: bool) -> (EditState, EditAction) {
    match s {
        EditState::DraggingVertex { region_index, .. } => (
            EditState::Selected { region_index },
            EditAction::Nothing,
        ),
        EditState::DraggingCircleCenter { region_index } => (
            EditState::Selected { region_index },
            EditAction::Nothing,
        ),
        EditState::ResizingCircle { region_index } => (
            EditState::Selected { region_index },
            EditAction::Nothing,
        ),
        EditState::DrawingCircle => if big_enough {
            (EditState::Selected { region_index: count as usize }, EditAction::CreateCircle)
        } else {
            (EditState::Idle, EditAction::Nothing)
        },
        _ => (s, EditAction::Nothing),
    }
}

/// Whether `k` is a shift key.
pub open spec fn is_shift(k: Key) -> bool {
    k == Key::LShift || k == Key::RShift
}

/// Regions the edit `a` adds (one for a closed polygon or a created circle).
pub open spec fn regions_added(a: EditAction) -> int {
    match a {
        EditAction::ClosePolygon => 1,
        EditAction::CreateCircle => 1,
        _ => 0,
    }
}

/// One event: the next editor and the edit to perform. Right clicks cancel whatever is in
/// progress; deleting with a region selected (or being dragged) removes it and returns to
/// idle; shift keys set the shift flag.
pub open spec fn edit_step(m: EditorModel, ev: EditEvent) -> (EditorModel, EditAction) {
    match ev {
        EditEvent::Move => (m, move_action(m.state, m.mouse_down)),
        EditEvent::Down { button, hits } => match button {
            MouseButtonKind::Left => {
                let (s, a) = click_step(m.state, m.shift_held, m.region_count, hits);
                (
                    EditorModel {
                        state: s,
                        mouse_down: true,
                        region_count: m.region_count + regions_added(a),
                        ..m
                    },
                    a,
                )
            },
            MouseButtonKind::Right => (EditorModel { state: EditState::Idle, ..m }, EditAction::Nothing),
            MouseButtonKind::Middle => (m, EditAction::Nothing),
        },
        EditEvent::Up { button, circle_big_enough } => match button {
            MouseButtonKind::Left => {
                let (s, a) = release_step(m.state, m.region_count, circle_big_enough);
                (
                    EditorModel {
                        state: s,
                        mouse_down: false,
                        region_count: m.region_count + regions_added(a),
                        ..m
                    },
                    a,
                )
            },
            _ => (m, EditAction::Nothing),
        },
        EditEvent::KeyDown(k) => if is_shift(k) {
            (EditorModel { shift_held: true, ..m }, EditAction::Nothing)
        } else {
            (m, EditAction::Nothing)
        },
        EditEvent::KeyUp(k) => if is_shift(k) {
            (EditorModel { shift_held: false, ..m }, EditAction::Nothing)
        } else {
            (m, EditAction::Nothing)
        },
        EditEvent::Delete => match state_region(m.state) {
            Some(i) => if i < m.region_count {
                (
                    EditorModel { state: EditState::Idle, region_count: m.region_count - 1, ..m },
                    EditAction::RemoveRegion { region_index: i },
                )
            } else {
                (EditorModel { state: EditState::Idle, ..m }, EditAction::Nothing)
            },
            None => (m, EditAction::Nothing),
        },
    }
}

/// The calibration editor: its state, the left button and shift flags, and the number of
/// regions in the scene it edits.
pub struct RegionEditor {
    state: EditState,
    mouse_down: bool,
    shift_held: bool,
    region_count: usize,
}

impl View for RegionEditor {
    type V = EditorModel;

    closed spec fn view(&self) -> EditorModel {
        EditorModel {
            state: self.state,
            mouse_down: self.mouse_down,
            shift_held: self.shift_held,
            region_count: self.region_count as int,
        }
    }
}

impl RegionEditor {
    /// An idle editor over a scene of `region_count` regions.
    pub fn new(region_count: usize) -> (e: Self)
        ensures
            e@ == (EditorModel {
                state: EditState::Idle,
                mouse_down: false,
                shift_held: false,
                region_count: region_count as int,
            }),
            editor_ok(e@),
    {
        RegionEditor { state: EditState::Idle, mouse_down: false, shift_held: false, region_count }
    }

    /// The current state.
    pub fn state(&self) -> (s: EditState)
        ensures
            s == self@.state,
    {
        self.state
    }

    /// Whether a shift key is held.
    pub fn shift_held(&self) -> (b: bool)
        ensures
            b == self@.shift_held,
    {
        self.shift_held
    }

    /// The number of regions of the edited scene.
    pub fn region_count(&self) -> (n: usize)
        ensures
            n == self@.region_count,
    {
        self.region_count
    }

    /// The region selected or being edited, if any.
    pub fn selected_region(&self) -> (r: Option<usize>)
        ensures
            r == state_region(self@.state),
    {
        match self.state {
            EditState::Selected { region_index } => Some(region_index),
            EditState::DraggingVertex { region_index, .. } => Some(region_index),
            EditState::DraggingCircleCenter { region_index } => Some(region_index),
            EditState::ResizingCircle { region_index } => Some(region_index),
            _ => None,
        }
    }

    /// Handle one event (see `edit_step`) and return the edit to perform.
    pub fn handle(&mut self, ev: EditEvent) -> (a: EditAction)
        requires
            editor_ok(old(self)@),
            old(self)@.region_count < usize::MAX,
            match ev {
                EditEvent::Down { button: MouseButtonKind::Left, hits } => match hits.region {
                    Some(i) => i < old(self)@.region_count,
                    None => true,
                },
                _ => true,
            },
        ensures
            (final(self)@, a) == edit_step(old(self)@, ev),
            editor_ok(final(self)@),
    {
        match ev {
            EditEvent::Move => {
                if !self.mouse_down {
                    return EditAction::Nothing;
                }
                match self.state {
                    EditState::DraggingVertex { region_index, vertex_index } => EditAction::MoveVertex {
                        region_index,
                        vertex_index,
                    },
                    EditState::DraggingCircleCenter { region_index } => EditAction::MoveCircleCenter {
                        region_index,
                    },
                    EditState::ResizingCircle { region_index } => EditAction::ResizeCircle { region_index },
                    _ => EditAction::Nothing,
                }
            },
            EditEvent::Down { button, hits } => match button {
                MouseButtonKind::Left => {
                    self.mouse_down = true;
                    let (s, a) = self.click(hits);
                    self.state = s;
                    match a {
                        EditAction::ClosePolygon => {
                            self.region_count = self.region_count + 1;
                        },
                        _ => {},
                    }
                    a
                },
                MouseButtonKind::Right => {
                    self.state = EditState::Idle;
                    EditAction::Nothing
                },
                MouseButtonKind::Middle => EditAction::Nothing,
            },
            EditEvent::Up { button, circle_big_enough } => match button {
                MouseButtonKind::Left => {
                    self.mouse_down = false;
                    let (s, a) = self.release(circle_big_enough);
                    self.state = s;
                    match a {
                        EditAction::CreateCircle => {
                            self.region_count = self.region_count + 1;
                        },
                        _ => {},
                    }
                    a
                },
                _ => EditAction::Nothing,
            },
            EditEvent::KeyDown(k) => {
                if matches!(k, Key::LShift | Key::RShift) {
                    self.shift_held = true;
                }
                EditAction::Nothing
            },
            EditEvent::KeyUp(k) => {
                if matches!(k, Key::LShift | Key::RShift) {
                    self.shift_held = false;
                }
                EditAction::Nothing
            },
            EditEvent::Delete => match self.selected_region() {
                Some(i) => {
                    self.state = EditState::Idle;
                    if i < self.region_count {
                        self.region_count = self.region_count - 1;
                        EditAction::RemoveRegion { region_index: i }
                    } else {
                        EditAction::Nothing
                    }
                },
                None => EditAction::Nothing,
            },
        }
    }

    /// The state and edit of a left click (see `click_step`).
    fn click(&self, hits: ClickHits) -> (r: (EditState, EditAction))
        ensures
            r == click_step(self@.state, self@.shift_held, self@.region_count, hits),
    {
        match self.state {
            EditState::Idle => match hits.region {
                Some(i) => (
                    match Self::grab(hits.grab_on_hit, i) {
                        Some(g) => g,
                        None => EditState::Selected { region_index: i },
                    },
                    EditAction::Nothing,
                ),
                None => self.start_shape(),
            },
            EditState::Drawing => {
                if hits.vertex_count >= 3 && hits.near_first_vertex {
                    (EditState::Selected { region_index: self.region_count }, EditAction::ClosePolygon)
                } else {
                    (EditState::Drawing, EditAction::AddVertex)
                }
            },
            EditState::Selected { region_index } => match Self::grab(hits.grab_on_selected, region_index) {
                Some(g) => (g, EditAction::Nothing),
                None => match hits.region {
                    Some(j) => (EditState::Selected { region_index: j }, EditAction::Nothing),
                    None => self.start_shape(),
                },
            },
            _ => (self.state, EditAction::Nothing),
        }
    }

    /// The drag that grabbing `g` on region `i` starts (see `grab_state`).
    fn grab(g: Grab, i: usize) -> (r: Option<EditState>)
        ensures
            r == grab_state(g, i),
    {
        match g {
            Grab::Nothing => None,
            Grab::Vertex(v) => Some(EditState::DraggingVertex { region_index: i, vertex_index: v }),
            Grab::CircleCenter => Some(EditState::DraggingCircleCenter { region_index: i }),
            Grab::CircleEdge => Some(EditState::ResizingCircle { region_index: i }),
        }
    }

    /// The shape a click on empty wall starts (see `start_shape`).
    fn start_shape(&self) -> (r: (EditState, EditAction))
        ensures
            r == start_shape(self@.shift_held),
    {
        if self.shift_held {
            (EditState::DrawingCircle, EditAction::StartCircle)
        } else {
            (EditState::Drawing, EditAction::StartPolygon)
        }
    }

    /// The state and edit of a left release (see `release_step`).
    fn release(&self, big_enough: bool) -> (r: (EditState, EditAction))
        ensures
            r == release_step(self@.state, self@.region_count, big_enough),
    {
        match self.state {
            EditState::DraggingVertex { region_index, .. } => (
                EditState::Selected { region_index },
                EditAction::Nothing,
            ),
            EditState::DraggingCircleCenter { region_index } => (
                EditState::Selected { region_index },
                EditAction::Nothing,
            ),
            EditState::ResizingCircle { region_index } => (
                EditState::Selected { region_index },
                EditAction::Nothing,
            ),
            EditState::DrawingCircle => {
                if big_enough {
                    (EditState::Selected { region_index: self.region_count }, EditAction::CreateCircle)
                } else {
                    (EditState::Idle, EditAction::Nothing)
                }
            },
            _ => (self.state, EditAction::Nothing),
        }
    }
}

/// A right click cancels whatever is in progress: the editor returns to idle, keeps its
/// flags and regions, and performs no edit.
pub proof fn lemma_right_click_cancels(m: EditorModel, hits: ClickHits)
    ensures
        edit_step(m, EditEvent::Down { button: MouseButtonKind::Right, hits }) == (
        EditorModel { state: EditState::Idle, ..m }, EditAction::Nothing),
{
}

/// Releasing the left button ends any drag with the dragged region selected, and edits
/// nothing.
pub proof fn lemma_release_ends_drag(m: EditorModel, big_enough: bool)
    requires
        state_region(m.state) is Some,
        !(m.state is Selected),
    ensures
        edit_step(m, EditEvent::Up { button: MouseButtonKind::Left, circle_big_enough: big_enough }).0.state
            == (EditState::Selected { region_index: state_region(m.state)->0 }),
        edit_step(m, EditEvent::Up { button: MouseButtonKind::Left, circle_big_enough: big_enough }).1
            == EditAction::Nothing,
{
}

/// The editor's region count follows the edits it asks for: one more after a closed
/// polygon or a created circle, one fewer after a removal, unchanged otherwise.
pub proof fn lemma_region_count_follows_edits(m: EditorModel, ev: EditEvent)
    ensures
        ({
            let (m2, a) = edit_step(m, ev);
            m2.region_count == m.region_count + regions_added(a) - (if a is RemoveRegion {
                1int
            } else {
                0int
            })
        }),
{
}

/// A polygon is only closed by a left click near its first vertex once it has at least
/// three vertices, and the new region (appended at the end) becomes the selection; the
/// same holds for a circle, created only on a release while drawing one that is big
/// enough.
pub proof fn lemma_new_regions_need_complete_shapes(m: EditorModel, ev: EditEvent)
    ensures
        ({
            let (m2, a) = edit_step(m, ev);
            &&& a == EditAction::ClosePolygon ==> {
                &&& m.state == EditState::Drawing
                &&& ev matches EditEvent::Down { button: MouseButtonKind::Left, hits }
                    && hits.vertex_count >= 3 && hits.near_first_vertex
            }
            &&& a == EditAction::CreateCircle ==> {
                &&& m.state == EditState::DrawingCircle
                &&& ev matches EditEvent::Up { button: MouseButtonKind::Left, circle_big_enough }
                    && circle_big_enough
            }
            &&& regions_added(a) == 1 ==> m2.state == (EditState::Selected {
                region_index: m.region_count as usize,
            })
        }),
{
}

/// Deleting with a region selected or being edited removes exactly that region and
/// returns to idle; with none, nothing changes.
pub proof fn lemma_delete_removes_selection(m: EditorModel)
    requires
        editor_ok(m),
    ensures
        match state_region(m.state) {
            Some(i) => edit_step(m, EditEvent::Delete) == (
            EditorModel { state: EditState::Idle, region_count: m.region_count - 1, ..m },
            EditAction::RemoveRegion { region_index: i }),
            None => edit_step(m, EditEvent::Delete) == (m, EditAction::Nothing),
        },
{
}

/// Every event keeps the editor from referring to a region that does not exist, as long
/// as the regions the caller reports under a click exist.
pub proof fn lemma_edit_step_keeps_editor_ok(m: EditorModel, ev: EditEvent)
    requires
        editor_ok(m),
        match ev {
            EditEvent::Down { button: MouseButtonKind::Left, hits } => match hits.region {
                Some(i) => i < m.region_count,
                None => true,
            },
            _ => true,
        },
    ensures
        editor_ok(edit_step(m, ev).0),
{
}

/// A left click on a region from idle grabs the handle under it: a polygon vertex starts
/// dragging that vertex, a circle's centre starts moving the circle, a circle's edge starts
/// resizing it; with no handle under the click the region becomes selected. No edit is
/// performed yet, the button is down, and the other flags and the region count stay.
pub proof fn lemma_idle_click_on_region(m: EditorModel, hits: ClickHits, i: usize)
    requires
        m.state == EditState::Idle,
        hits.region == Some(i),
    ensures
        ({
            let (m2, a) = edit_step(m, EditEvent::Down { button: MouseButtonKind::Left, hits });
            &&& a == EditAction::Nothing
            &&& m2.mouse_down
            &&& m2.shift_held == m.shift_held
            &&& m2.region_count == m.region_count
            &&& m2.state == match hits.grab_on_hit {
                Grab::Vertex(v) => EditState::DraggingVertex { region_index: i, vertex_index: v },
                Grab::CircleCenter => EditState::DraggingCircleCenter { region_index: i },
                Grab::CircleEdge => EditState::ResizingCircle { region_index: i },
                Grab::Nothing => EditState::Selected { region_index: i },
            }
        }),
{
}

/// With region `i` selected, a left click on one of its handles starts the same drags as
/// from idle; otherwise a click on a region selects it, and a click on empty wall starts
/// a circle with shift held and a polygon without.
pub proof fn lemma_selected_click(m: EditorModel, hits: ClickHits, i: usize)
    requires
        m.state == (EditState::Selected { region_index: i }),
    ensures
        ({
            let (m2, a) = edit_step(m, EditEvent::Down { button: MouseButtonKind::Left, hits });
            &&& m2.mouse_down
            &&& m2.shift_held == m.shift_held
            &&& m2.region_count == m.region_count
            &&& (m2.state, a) == match hits.grab_on_selected {
                Grab::Vertex(v) => (
                    EditState::DraggingVertex { region_index: i, vertex_index: v },
                    EditAction::Nothing,
                ),
                Grab::CircleCenter => (EditState::DraggingCircleCenter { region_index: i }, EditAction::Nothing),
                Grab::CircleEdge => (EditState::ResizingCircle { region_index: i }, EditAction::Nothing),
                Grab::Nothing => match hits.region {
                    Some(j) => (EditState::Selected { region_index: j }, EditAction::Nothing),
                    None => if m.shift_held {
                        (EditState::DrawingCircle, EditAction::StartCircle)
                    } else {
                        (EditState::Drawing, EditAction::StartPolygon)
                    },
                },
            }
        }),
{
}

/// A left click on empty wall from idle starts a circle with shift held and a polygon
/// without.
pub proof fn lemma_idle_click_on_wall(m: EditorModel, hits: ClickHits)
    requires
        m.state == EditState::Idle,
        hits.region is None,
    ensures
        ({
            let (m2, a) = edit_step(m, EditEvent::Down { button: MouseButtonKind::Left, hits });
            &&& m2.mouse_down
            &&& m2.region_count == m.region_count
            &&& (m2.state, a) == if m.shift_held {
                (EditState::DrawingCircle, EditAction::StartCircle)
            } else {
                (EditState::Drawing, EditAction::StartPolygon)
            }
        }),
{
}

/// While the button is held in a drag, every mouse move edits the dragged handle: the
/// vertex follows the mouse, the circle's centre follows it, or the circle is resized;
/// the editor itself does not change. Without a drag, or with the button up, a move edits
/// nothing.
pub proof fn lemma_move_edits_the_grabbed_handle(m: EditorModel)
    ensures
        edit_step(m, EditEvent::Move).0 == m,
        edit_step(m, EditEvent::Move).1 == if !m.mouse_down {
            EditAction::Nothing
        } else {
            match m.state {
                EditState::DraggingVertex { region_index, vertex_index } => EditAction::MoveVertex {
                    region_index,
                    vertex_index,
                },
                EditState::DraggingCircleCenter { region_index } => EditAction::MoveCircleCenter {
                    region_index,
                },
                EditState::ResizingCircle { region_index } => EditAction::ResizeCircle { region_index },
                _ => EditAction::Nothing,
            }
        },
{
}

/// Grabbing a handle and moving the mouse edits exactly that handle: after a left click
/// from idle on region `i` with a circle centre under it, the next move moves circle
/// `i`'s centre; with its edge, it resizes circle `i`; with vertex `v`, it moves that vertex.
pub proof fn lemma_grab_then_move(m: EditorModel, hits: ClickHits, i: usize)
    requires
        m.state == EditState::Idle,
        hits.region == Some(i),
    ensures
        ({
            let m2 = edit_step(m, EditEvent::Down { button: MouseButtonKind::Left, hits }).0;
            let a = edit_step(m2, EditEvent::Move).1;
            a == match hits.grab_on_hit {
                Grab::Vertex(v) => EditAction::MoveVertex { region_index: i, vertex_index: v },
                Grab::CircleCenter => EditAction::MoveCircleCenter { region_index: i },
                Grab::CircleEdge => EditAction::ResizeCircle { region_index: i },
                Grab::Nothing => EditAction::Nothing,
            }
        }),
{
}

/// Shift keys set and clear the shift flag and change nothing else; other keys change
/// nothing.
pub proof fn lemma_shift_keys(m: EditorModel, k: Key)
    ensures
        edit_step(m, EditEvent::KeyDown(k)) == (
        EditorModel { shift_held: m.shift_held || k == Key::LShift || k == Key::RShift, ..m },
        EditAction::Nothing),
        edit_step(m, EditEvent::KeyUp(k)) == (
        EditorModel { shift_held: m.shift_held && !(k == Key::LShift || k == Key::RShift), ..m },
        EditAction::Nothing),
{
}

/// While drawing a polygon, a left click closes it (the new region, appended at the end,
/// becomes selected) exactly when the polygon has at least three vertices and the click is
/// near its first vertex; any other click adds a vertex.
pub proof fn lemma_drawing_click(m: EditorModel, hits: ClickHits)
    requires
        m.state == EditState::Drawing,
    ensures
        ({
            let (m2, a) = edit_step(m, EditEvent::Down { button: MouseButtonKind::Left, hits });
            &&& m2.mouse_down
            &&& if hits.vertex_count >= 3 && hits.near_first_vertex {
                &&& a == EditAction::ClosePolygon
                &&& m2.state == (EditState::Selected { region_index: m.region_count as usize })
                &&& m2.region_count == m.region_count + 1
            } else {
                &&& a == EditAction::AddVertex
                &&& m2.state == EditState::Drawing
                &&& m2.region_count == m.region_count
            }
        }),
{
}

/// Releasing the button while drawing a circle creates it (appended at the end and
/// selected) exactly when it is big enough, and otherwise drops it and returns to idle.
pub proof fn lemma_circle_release(m: EditorModel, big_enough: bool)
    requires
        m.state == EditState::DrawingCircle,
    ensures
        ({
            let (m2, a) = edit_step(
                m,
                EditEvent::Up { button: MouseButtonKind::Left, circle_big_enough: big_enough },
            );
            &&& !m2.mouse_down
            &&& if big_enough {
                &&& a == EditAction::CreateCircle
                &&& m2.state == (EditState::Selected { region_index: m.region_count as usize })
                &&& m2.region_count == m.region_count + 1
            } else {
                &&& a == EditAction::Nothing
                &&& m2.state == EditState::Idle
                &&& m2.region_count == m.region_count
            }
        }),
{
}

} // verus!
