use trace4d::viewer::{next_state, on_resume, respond, Response, Resume, ViewerState, WindowEvent};

fn state(w: bool, d: bool, s: bool, c: bool) -> ViewerState {
    ViewerState { has_window: w, has_display: d, has_scene: s, has_clocks: c }
}

#[test]
fn exit_on_close_and_escape() {
    let st = state(true, true, true, true);
    assert_eq!(respond(st, WindowEvent::CloseRequested), Response::Exit);
    assert_eq!(respond(st, WindowEvent::EscapePressed), Response::Exit);
    assert_eq!(respond(st, WindowEvent::Other), Response::Ignore);
}

#[test]
fn resize_carries_the_size() {
    let st = state(true, true, false, true);
    assert_eq!(
        respond(st, WindowEvent::Resized { width: 640, height: 480 }),
        Response::Resize { width: 640, height: 480 }
    );
}

#[test]
fn dropped_file_needs_a_display() {
    assert_eq!(respond(state(true, true, false, false), WindowEvent::DroppedFile), Response::LoadScene);
    assert_eq!(respond(state(true, false, false, false), WindowEvent::DroppedFile), Response::Ignore);
}

#[test]
fn redraw_renders_scene_only_when_loaded() {
    assert_eq!(
        respond(state(true, true, true, true), WindowEvent::RedrawRequested),
        Response::Redraw { draw_frame: true, render_scene: true }
    );
    assert_eq!(
        respond(state(true, true, false, true), WindowEvent::RedrawRequested),
        Response::Redraw { draw_frame: true, render_scene: false }
    );
    assert_eq!(
        respond(state(true, false, true, true), WindowEvent::RedrawRequested),
        Response::Redraw { draw_frame: false, render_scene: false }
    );
}

#[test]
fn resume_creates_missing_window() {
    assert_eq!(on_resume(state(false, false, false, false), true), Resume { create_window: true, load_default: true });
    assert_eq!(on_resume(state(true, false, false, false), false), Resume { create_window: true, load_default: false });
    assert_eq!(on_resume(state(true, true, true, true), false), Resume { create_window: false, load_default: false });
}

#[test]
fn loading_a_scene_records_it() {
    let st = state(true, true, false, true);
    let after = next_state(st, Response::LoadScene);
    assert_eq!(after, state(true, true, true, true));
    assert_eq!(next_state(st, Response::Ignore), st);
}
