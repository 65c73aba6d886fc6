use wallfacer::calibration::{ClickHits, EditAction, EditEvent, EditState, Grab, RegionEditor};
use wallfacer::session::{Key, MouseButtonKind};

fn empty_wall(vertex_count: usize, near_first_vertex: bool) -> ClickHits {
    ClickHits {
        region: None,
        grab_on_hit: Grab::Nothing,
        grab_on_selected: Grab::Nothing,
        vertex_count,
        near_first_vertex,
    }
}

fn on_region(i: usize, grab_on_hit: Grab, grab_on_selected: Grab) -> ClickHits {
    ClickHits { region: Some(i), grab_on_hit, grab_on_selected, vertex_count: 0, near_first_vertex: false }
}

fn left_down(e: &mut RegionEditor, hits: ClickHits) -> EditAction {
    e.handle(EditEvent::Down { button: MouseButtonKind::Left, hits })
}

fn left_up(e: &mut RegionEditor, big: bool) -> EditAction {
    e.handle(EditEvent::Up { button: MouseButtonKind::Left, circle_big_enough: big })
}

#[test]
fn drawing_a_polygon_needs_three_vertices_to_close() {
    let mut e = RegionEditor::new(2);
    assert_eq!(left_down(&mut e, empty_wall(0, false)), EditAction::StartPolygon);
    assert_eq!(e.state(), EditState::Drawing);
    left_up(&mut e, false);
    // Near the first vertex with only two vertices: another vertex is added.
    assert_eq!(left_down(&mut e, empty_wall(1, false)), EditAction::AddVertex);
    assert_eq!(left_down(&mut e, empty_wall(2, true)), EditAction::AddVertex);
    assert_eq!(e.region_count(), 2);
    assert_eq!(left_down(&mut e, empty_wall(3, true)), EditAction::ClosePolygon);
    assert_eq!(e.state(), EditState::Selected { region_index: 2 });
    assert_eq!(e.region_count(), 3);
}

#[test]
fn shift_click_draws_a_circle_created_on_release() {
    let mut e = RegionEditor::new(0);
    e.handle(EditEvent::KeyDown(Key::LShift));
    assert!(e.shift_held());
    assert_eq!(left_down(&mut e, empty_wall(0, false)), EditAction::StartCircle);
    assert_eq!(e.state(), EditState::DrawingCircle);
    // Clicks while drawing a circle are ignored.
    assert_eq!(left_down(&mut e, empty_wall(0, false)), EditAction::Nothing);
    assert_eq!(left_up(&mut e, true), EditAction::CreateCircle);
    assert_eq!(e.state(), EditState::Selected { region_index: 0 });
    assert_eq!(e.region_count(), 1);
    e.handle(EditEvent::KeyUp(Key::RShift));
    assert!(!e.shift_held());
}

#[test]
fn too_small_circle_is_dropped() {
    let mut e = RegionEditor::new(1);
    e.handle(EditEvent::KeyDown(Key::RShift));
    left_down(&mut e, empty_wall(0, false));
    assert_eq!(left_up(&mut e, false), EditAction::Nothing);
    assert_eq!(e.state(), EditState::Idle);
    assert_eq!(e.region_count(), 1);
}

#[test]
fn grabbing_dragging_and_releasing_a_vertex() {
    let mut e = RegionEditor::new(3);
    assert_eq!(left_down(&mut e, on_region(1, Grab::Vertex(2), Grab::Nothing)), EditAction::Nothing);
    assert_eq!(e.state(), EditState::DraggingVertex { region_index: 1, vertex_index: 2 });
    assert_eq!(e.selected_region(), Some(1));
    assert_eq!(e.handle(EditEvent::Move), EditAction::MoveVertex { region_index: 1, vertex_index: 2 });
    assert_eq!(left_up(&mut e, false), EditAction::Nothing);
    assert_eq!(e.state(), EditState::Selected { region_index: 1 });
    // Moving without the button held edits nothing.
    assert_eq!(e.handle(EditEvent::Move), EditAction::Nothing);
}

#[test]
fn selected_circle_handles_and_reselection() {
    let mut e = RegionEditor::new(3);
    left_down(&mut e, on_region(0, Grab::Nothing, Grab::Nothing));
    left_up(&mut e, false);
    assert_eq!(e.state(), EditState::Selected { region_index: 0 });
    left_down(&mut e, on_region(0, Grab::Nothing, Grab::CircleEdge));
    assert_eq!(e.state(), EditState::ResizingCircle { region_index: 0 });
    assert_eq!(e.handle(EditEvent::Move), EditAction::ResizeCircle { region_index: 0 });
    left_up(&mut e, false);
    left_down(&mut e, on_region(0, Grab::Nothing, Grab::CircleCenter));
    assert_eq!(e.handle(EditEvent::Move), EditAction::MoveCircleCenter { region_index: 0 });
    left_up(&mut e, false);
    left_down(&mut e, on_region(2, Grab::Vertex(0), Grab::Nothing));
    assert_eq!(e.state(), EditState::Selected { region_index: 2 });
    left_up(&mut e, false);
    assert_eq!(left_down(&mut e, empty_wall(0, false)), EditAction::StartPolygon);
}

#[test]
fn right_click_cancels() {
    let mut e = RegionEditor::new(1);
    left_down(&mut e, empty_wall(0, false));
    assert_eq!(e.handle(EditEvent::Down { button: MouseButtonKind::Right, hits: empty_wall(1, false) }), EditAction::Nothing);
    assert_eq!(e.state(), EditState::Idle);
    assert_eq!(e.region_count(), 1);
}

#[test]
fn middle_button_and_other_keys_do_nothing() {
    let mut e = RegionEditor::new(1);
    assert_eq!(e.handle(EditEvent::Down { button: MouseButtonKind::Middle, hits: empty_wall(0, false) }), EditAction::Nothing);
    assert_eq!(e.handle(EditEvent::KeyDown(Key::Tab)), EditAction::Nothing);
    assert_eq!(e.state(), EditState::Idle);
    assert!(!e.shift_held());
}

#[test]
fn delete_removes_the_selection() {
    let mut e = RegionEditor::new(4);
    assert_eq!(e.handle(EditEvent::Delete), EditAction::Nothing);
    left_down(&mut e, on_region(3, Grab::Nothing, Grab::Nothing));
    assert_eq!(e.handle(EditEvent::Delete), EditAction::RemoveRegion { region_index: 3 });
    assert_eq!(e.state(), EditState::Idle);
    assert_eq!(e.region_count(), 3);
    left_down(&mut e, on_region(1, Grab::Vertex(0), Grab::Nothing));
    assert_eq!(e.handle(EditEvent::Delete), EditAction::RemoveRegion { region_index: 1 });
    assert_eq!(e.region_count(), 2);
}
