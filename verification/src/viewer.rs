//! The viewer window's decisions: what it does when the application resumes
//! and on each window event, given what it has set up so far. Carrying out a
//! decision (creating the window, loading a mesh, drawing) is the caller's.

use vstd::prelude::*;

verus! {

/// What the viewer has set up so far.
#[derive(Clone, Copy, Debug, PartialEq, Eq, Structural)]
pub struct ViewerState {
    /// A window is open.
    pub has_window: bool,
    /// A GL display is bound to the window.
    pub has_display: bool,
    /// A mesh with its buffers, shaders and kernels has been loaded.
    pub has_scene: bool,
    /// The clocks for animation and for saving frames have been started.
    pub has_clocks: bool,
}

/// A window event, as far as the viewer tells events apart.
#[derive(Clone, Copy, Debug, PartialEq, Eq, Structural)]
pub enum WindowEvent {
    /// The window's close button.
    CloseRequested,
    /// The Escape key pressed.
    EscapePressed,
    /// The window's new inner size.
    Resized { width: u32, height: u32 },
    /// A file dropped on the window.
    DroppedFile,
    /// The window asks to be drawn.
    RedrawRequested,
    /// Anything else (other keys, key releases, mouse, ...).
    Other,
}

/// What the viewer does on a window event.
#[derive(Clone, Copy, Debug, PartialEq, Eq, Structural)]
pub enum Response {
    /// Leave the event loop.
    Exit,
    /// Resize the display to the given size, then ask for a redraw.
    Resize { width: u32, height: u32 },
    /// Load the dropped mesh and build the scene around it, then ask for a redraw.
    LoadScene,
    /// Draw a frame where `draw_frame` (clearing it, rendering the scene where
    /// `render_scene`, presenting it), then ask for the next redraw.
    Redraw { draw_frame: bool, render_scene: bool },
    /// Do nothing.
    Ignore,
}

/// What the viewer does when the application resumes.
#[derive(Clone, Copy, Debug, PartialEq, Eq, Structural)]
pub struct Resume {
    /// Create the window and its display, and start the clocks.
    pub create_window: bool,
    /// Load the default mesh, as if it had been dropped on the window.
    pub load_default: bool,
}

/// The viewer's response to `event` in state `st`.
pub open spec fn response_to(st: ViewerState, event: WindowEvent) -> Response {
    match event {
        WindowEvent::CloseRequested => Response::Exit,
        WindowEvent::EscapePressed => Response::Exit,
        WindowEvent::Resized { width, height } => Response::Resize { width, height },
        WindowEvent::DroppedFile => if st.has_display {
            Response::LoadScene
        } else {
            Response::Ignore
        },
        WindowEvent::RedrawRequested => Response::Redraw {
            draw_frame: st.has_display && st.has_window,
            render_scene: st.has_display && st.has_window && st.has_scene && st.has_clocks,
        },
        WindowEvent::Other => Response::Ignore,
    }
}

/// The states in which the viewer can answer `event`: resizing needs the
/// display and the window, loading a scene and asking for a redraw need the window.
pub open spec fn can_answer(st: ViewerState, event: WindowEvent) -> bool {
    match event {
        WindowEvent::Resized { .. } => st.has_display && st.has_window,
        WindowEvent::DroppedFile => st.has_display ==> st.has_window,
        WindowEvent::RedrawRequested => st.has_window,
        _ => true,
    }
}

/// Decides what to do on a window event.
pub fn respond(st: ViewerState, event: WindowEvent) -> (r: Response)
    requires
        can_answer(st, event),
    ensures
        r == response_to(st, event),
{
    match event {
        WindowEvent::CloseRequested => Response::Exit,
        WindowEvent::EscapePressed => Response::Exit,
        WindowEvent::Resized { width, height } => Response::Resize { width, height },
        WindowEvent::DroppedFile => if st.has_display {
            Response::LoadScene
        } else {
            Response::Ignore
        },
        WindowEvent::RedrawRequested => {
            let draw_frame = st.has_display && st.has_window;
            Response::Redraw {
                draw_frame,
                render_scene: draw_frame && st.has_scene && st.has_clocks,
            }
        },
        WindowEvent::Other => Response::Ignore,
    }
}

/// What the viewer does when the application resumes: it creates the window
/// where the window or its display is missing.
pub open spec fn resume_of(st: ViewerState, auto_load: bool) -> Resume {
    Resume { create_window: !st.has_window || !st.has_display, load_default: auto_load }
}

/// Decides what to do when the application resumes; `auto_load` is whether
/// the platform loads the default mesh by itself (all but macOS and Linux).
pub fn on_resume(st: ViewerState, auto_load: bool) -> (r: Resume)
    ensures
        r == resume_of(st, auto_load),
{
    Resume { create_window: !st.has_window || !st.has_display, load_default: auto_load }
}

/// The state after the application resumed.
pub open spec fn resumed_state(st: ViewerState, r: Resume) -> ViewerState {
    if r.create_window {
        ViewerState { has_window: true, has_display: true, has_scene: st.has_scene, has_clocks: true }
    } else {
        st
    }
}

/// The state after a response has been carried out.
pub open spec fn state_after(st: ViewerState, r: Response) -> ViewerState {
    match r {
        Response::LoadScene => ViewerState {
            has_window: st.has_window,
            has_display: st.has_display,
            has_scene: true,
            has_clocks: st.has_clocks,
        },
        _ => st,
    }
}

/// The state after a response has been carried out.
pub fn next_state(st: ViewerState, r: Response) -> (s: ViewerState)
    ensures
        s == state_after(st, r),
{
    match r {
        Response::LoadScene => ViewerState {
            has_window: st.has_window,
            has_display: st.has_display,
            has_scene: true,
            has_clocks: st.has_clocks,
        },
        _ => st,
    }
}

/// The viewer exits on a close request or the Escape key, and on nothing else.
pub proof fn law_exit_only_on_close(st: ViewerState, event: WindowEvent)
    ensures
        response_to(st, event) == Response::Exit <==> (event == WindowEvent::CloseRequested || event
            == WindowEvent::EscapePressed),
{
}

/// The viewer is ready once it has a window and a display.
pub open spec fn ready(st: ViewerState) -> bool {
    st.has_window && st.has_display
}

/// Resuming leaves the viewer ready.
pub proof fn law_resume_makes_ready(st: ViewerState, auto_load: bool)
    ensures
        ready(resumed_state(st, resume_of(st, auto_load))),
{
}

/// On resuming, the window is created exactly when the window or its display
/// is missing (a viewer that has both keeps them), the default mesh is loaded
/// exactly where the platform does so by itself, and what was loaded stays.
pub proof fn law_resume_decision(st: ViewerState, auto_load: bool)
    ensures
        resume_of(st, auto_load).create_window <==> (!st.has_window || !st.has_display),
        resume_of(st, auto_load).load_default == auto_load,
        ready(st) ==> resumed_state(st, resume_of(st, auto_load)) == st,
        resumed_state(st, resume_of(st, auto_load)).has_scene == st.has_scene,
{
}

/// A ready viewer can answer every event, and stays ready after answering.
pub proof fn law_ready_answers_every_event(st: ViewerState, event: WindowEvent)
    requires
        ready(st),
    ensures
        can_answer(st, event),
        ready(state_after(st, response_to(st, event))),
{
}

/// A dropped file is loaded whenever there is a display to load it into,
/// whether or not a scene is already shown (a new drop replaces it), and
/// ignored without a display.
pub proof fn law_dropped_file_loaded_with_display(st: ViewerState)
    ensures
        st.has_display ==> response_to(st, WindowEvent::DroppedFile) == Response::LoadScene,
        !st.has_display ==> response_to(st, WindowEvent::DroppedFile) == Response::Ignore,
        st.has_display ==> state_after(st, response_to(st, WindowEvent::DroppedFile)).has_scene,
{
}

/// A resize passes the new size on unchanged, a redraw always asks for the
/// next one (drawing a frame exactly when window and display are there), and
/// other events are ignored; none of them but loading changes the state.
pub proof fn law_other_responses(st: ViewerState, width: u32, height: u32)
    ensures
        response_to(st, WindowEvent::Resized { width, height }) == (Response::Resize { width, height }),
        response_to(st, WindowEvent::RedrawRequested) matches Response::Redraw { draw_frame, .. } && draw_frame
            == (st.has_window && st.has_display),
        response_to(st, WindowEvent::Other) == Response::Ignore,
        forall|e: WindowEvent|
            response_to(st, e) != Response::LoadScene ==> #[trigger] state_after(st, response_to(st, e)) == st,
{
}

/// A frame is drawn with the scene exactly when the window, the display, the
/// scene and the clocks are all there.
pub proof fn law_scene_rendered(st: ViewerState)
    ensures
        response_to(st, WindowEvent::RedrawRequested) matches Response::Redraw { render_scene, .. } && render_scene
            == (st.has_window && st.has_display && st.has_scene && st.has_clocks),
{
}

} // verus!
