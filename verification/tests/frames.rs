use lisp_core::frames::{
    frame_after_make_frame, frame_bottom_divider_width, frame_fringe_width,
    frame_internal_border_width, frame_live_p, frame_pointer_visible_p, frame_position,
    frame_right_divider_width, frame_root_window, frame_selected_window, frame_text_cols,
    frame_text_height, frame_text_lines, frame_text_width, frame_total_cols, frame_total_lines,
    frame_visible_p, framep, framep_1, selected_frame, set_frame_selected_window, window_frame_live_or_selected,
    window_frame_live_or_selected_with_action, window_system, Frame, FrameArena, LispFrameOrSelected,
    LispFrameRef, LispWindowRef, OutputMethod, Selection, Window,
};
use lisp_core::lisp::{LispError, LispObject, TypePredicate, SYM_ICON, SYM_X};

fn frame(method: OutputMethod, live: bool) -> Frame {
    Frame {
        terminal: if live { Some(0) } else { None },
        visible: 1,
        iconified: false,
        pointer_invisible: false,
        output_method: method,
        left_fringe_width: 8,
        right_fringe_width: 9,
        internal_border_width: -1,
        right_divider_width: 2,
        bottom_divider_width: 3,
        left_pos: 100,
        top_pos: 50,
        text_cols: 80,
        text_lines: 24,
        total_cols: 82,
        total_lines: 26,
        text_width: 640,
        text_height: 384,
        selected_window: LispObject::Window(0),
        root_window: LispObject::Window(1),
        after_make_frame: false,
        inhibit_horizontal_resize: true,
        inhibit_vertical_resize: true,
    }
}

/// Frame 0 is live and selected, frame 1 is live, frame 2 has been deleted.
/// Window 0 is live on frame 0, window 1 is internal on frame 0, window 2 is
/// live on frame 1, window 3 has been deleted, window 4 is live on frame 2.
fn arena() -> FrameArena {
    FrameArena {
        frames: vec![
            frame(OutputMethod::Termcap, true),
            frame(OutputMethod::XWindow, true),
            frame(OutputMethod::Ns, false),
        ],
        windows: vec![
            Window { frame: LispObject::Frame(0), contents: LispObject::Buffer(1) },
            Window { frame: LispObject::Frame(0), contents: LispObject::Window(0) },
            Window { frame: LispObject::Frame(1), contents: LispObject::Buffer(2) },
            Window { frame: LispObject::Frame(1), contents: LispObject::Nil },
            Window { frame: LispObject::Frame(2), contents: LispObject::Buffer(3) },
        ],
        current_frame: LispObject::Frame(0),
        current_window: LispObject::Window(0),
    }
}

fn not_live(obj: LispObject) -> LispError {
    LispError::WrongType(TypePredicate::FrameLivep, obj)
}

#[test]
fn liveness_and_visibility_of_a_frame() {
    let a = arena();
    assert!(LispFrameRef(0).is_live(&a));
    assert!(!LispFrameRef(2).is_live(&a));
    assert!(!LispFrameRef(9).is_live(&a));
    assert!(LispFrameRef(0).is_visible(&a));
    assert_eq!(LispFrameRef(0).total_fringe_width(&a), 17);
    assert_eq!(LispFrameRef(0).internal_border_width(&a), 0);
    assert_eq!(LispFrameRef(1).as_object(), LispObject::Frame(1));
}

#[test]
fn values_as_frames() {
    let a = arena();
    assert!(LispObject::Frame(1).is_frame());
    assert!(!LispObject::Window(1).is_frame());
    assert_eq!(LispObject::Frame(1).as_frame(), Some(LispFrameRef(1)));
    assert_eq!(LispObject::Nil.as_frame(), None);
    assert_eq!(LispObject::Frame(2).as_frame_or_error(), Ok(LispFrameRef(2)));
    assert_eq!(
        LispObject::Fixnum(2).as_frame_or_error(),
        Err(LispError::WrongType(TypePredicate::Framep, LispObject::Fixnum(2)))
    );
    assert_eq!(LispObject::Frame(1).as_live_frame(&a), Some(LispFrameRef(1)));
    assert_eq!(LispObject::Frame(2).as_live_frame(&a), None);
    assert_eq!(
        LispObject::Frame(2).as_live_frame_or_error(&a),
        Err(not_live(LispObject::Frame(2)))
    );
    assert_eq!(
        LispObject::Nil.as_live_frame_or_error(&a),
        Err(not_live(LispObject::Nil))
    );
}

#[test]
fn frame_or_selected() {
    let a = arena();
    assert_eq!(
        LispFrameOrSelected::from_object(LispObject::Nil),
        Ok(LispFrameOrSelected::Selected)
    );
    assert_eq!(
        LispFrameOrSelected::from_object(LispObject::Frame(1)),
        Ok(LispFrameOrSelected::Frame(LispFrameRef(1)))
    );
    assert_eq!(
        LispFrameOrSelected::from_object(LispObject::True),
        Err(LispError::WrongType(TypePredicate::Framep, LispObject::True))
    );
    assert_eq!(LispFrameOrSelected::Selected.to_frame(&a), Ok(LispFrameRef(0)));
    assert_eq!(LispFrameOrSelected::Selected.live_or_error(&a), Ok(LispFrameRef(0)));
    assert_eq!(
        LispFrameOrSelected::Frame(LispFrameRef(2)).live_or_error(&a),
        Err(not_live(LispObject::Frame(2)))
    );
    assert_eq!(selected_frame(&a), Ok(LispFrameRef(0)));
}

#[test]
fn frame_of_a_window_needs_no_live_frame() {
    let a = arena();
    assert_eq!(window_frame_live_or_selected(LispObject::Nil, &a), Ok(LispFrameRef(0)));
    assert_eq!(
        window_frame_live_or_selected(LispObject::Window(2), &a),
        Ok(LispFrameRef(1))
    );
    // An internal window is valid; its frame is taken as it is.
    assert_eq!(
        window_frame_live_or_selected(LispObject::Window(1), &a),
        Ok(LispFrameRef(0))
    );
    assert_eq!(
        window_frame_live_or_selected(LispObject::Window(4), &a),
        Ok(LispFrameRef(2))
    );
    // A deleted window is no window here, and no live frame either.
    assert_eq!(
        window_frame_live_or_selected(LispObject::Window(3), &a),
        Err(not_live(LispObject::Window(3)))
    );
    assert_eq!(
        window_frame_live_or_selected(LispObject::Frame(1), &a),
        Ok(LispFrameRef(1))
    );
    assert_eq!(
        window_frame_live_or_selected(LispObject::Frame(2), &a),
        Err(not_live(LispObject::Frame(2)))
    );
}

#[test]
fn frame_of_a_window_with_an_action() {
    let a = arena();
    let seen = std::cell::Cell::new(None);
    let note = |w: LispWindowRef| seen.set(Some(w));
    assert_eq!(
        window_frame_live_or_selected_with_action(LispObject::Nil, &note, &a),
        Ok(LispFrameRef(0))
    );
    assert_eq!(seen.get(), Some(LispWindowRef(0)));
    assert_eq!(
        window_frame_live_or_selected_with_action(LispObject::Window(2), &note, &a),
        Ok(LispFrameRef(1))
    );
    assert_eq!(seen.get(), Some(LispWindowRef(2)));
    seen.set(None);
    assert_eq!(
        window_frame_live_or_selected_with_action(LispObject::Window(1), &note, &a),
        Err(LispError::WrongType(TypePredicate::WindowLivep, LispObject::Window(1)))
    );
    assert_eq!(
        window_frame_live_or_selected_with_action(LispObject::Window(4), &note, &a),
        Err(not_live(LispObject::Frame(2)))
    );
    assert_eq!(
        window_frame_live_or_selected_with_action(LispObject::Frame(1), &note, &a),
        Ok(LispFrameRef(1))
    );
}

#[test]
fn kinds_of_frames() {
    let a = arena();
    assert_eq!(framep_1(LispFrameRef(0), &a), LispObject::True);
    assert_eq!(framep(LispObject::Frame(1), &a), LispObject::Symbol(SYM_X));
    assert_eq!(framep(LispObject::Nil, &a), LispObject::Nil);
    assert_eq!(frame_live_p(LispObject::Frame(1), &a), LispObject::Symbol(SYM_X));
    assert_eq!(frame_live_p(LispObject::Frame(2), &a), LispObject::Nil);
    assert_eq!(window_system(LispFrameOrSelected::Selected, &a), Ok(LispObject::Nil));
    assert_eq!(
        window_system(LispFrameOrSelected::Frame(LispFrameRef(1)), &a),
        Ok(LispObject::Symbol(SYM_X))
    );
}

#[test]
fn visibility_of_frames() {
    let mut a = arena();
    assert_eq!(frame_visible_p(LispFrameRef(0), &a), LispObject::True);
    a.frames[0].visible = 0;
    assert_eq!(frame_visible_p(LispFrameRef(0), &a), LispObject::Nil);
    a.frames[0].iconified = true;
    assert_eq!(frame_visible_p(LispFrameRef(0), &a), LispObject::Symbol(SYM_ICON));
    assert_eq!(frame_pointer_visible_p(LispFrameOrSelected::Selected, &a), Ok(true));
}

#[test]
fn dimensions_of_frames() {
    let a = arena();
    let f = LispFrameOrSelected::Selected;
    assert_eq!(frame_position(f, &a), Ok((100, 50)));
    assert_eq!(
        frame_position(LispFrameOrSelected::Frame(LispFrameRef(2)), &a),
        Err(not_live(LispObject::Frame(2)))
    );
    assert_eq!(frame_text_cols(f, &a), Ok(80));
    assert_eq!(frame_text_lines(f, &a), Ok(24));
    assert_eq!(frame_total_cols(f, &a), Ok(82));
    assert_eq!(frame_total_lines(f, &a), Ok(26));
    assert_eq!(frame_text_width(f, &a), Ok(640));
    assert_eq!(frame_text_height(f, &a), Ok(384));
    assert_eq!(frame_fringe_width(f, &a), Ok(17));
    assert_eq!(frame_internal_border_width(f, &a), Ok(0));
    assert_eq!(frame_right_divider_width(f, &a), Ok(2));
    assert_eq!(frame_bottom_divider_width(f, &a), Ok(3));
    assert_eq!(frame_root_window(LispObject::Nil, &a), Ok(LispObject::Window(1)));
    assert_eq!(
        frame_selected_window(LispObject::Window(2), &a),
        Ok(LispObject::Window(0))
    );
}

#[test]
fn after_make_frame_lifts_what_inhibits_resizing() {
    let mut a = arena();
    assert_eq!(
        frame_after_make_frame(LispFrameOrSelected::Selected, LispObject::True, &mut a),
        Ok(LispObject::True)
    );
    assert!(a.frames[0].after_make_frame);
    assert!(!a.frames[0].inhibit_horizontal_resize);
    assert!(!a.frames[0].inhibit_vertical_resize);
    assert_eq!(
        frame_after_make_frame(
            LispFrameOrSelected::Frame(LispFrameRef(2)),
            LispObject::Nil,
            &mut a
        ),
        Err(not_live(LispObject::Frame(2)))
    );
    assert!(a.frames[2].inhibit_horizontal_resize);
}

#[test]
fn selecting_a_window_of_a_frame() {
    let mut a = arena();
    let other = LispFrameOrSelected::Frame(LispFrameRef(1));
    assert_eq!(
        set_frame_selected_window(other, LispObject::Window(2), &mut a),
        Ok(Selection::Done(LispWindowRef(2)))
    );
    assert_eq!(a.frames[1].selected_window, LispObject::Window(2));
    // On the selected frame, the window is left for the caller to select.
    assert_eq!(
        set_frame_selected_window(LispFrameOrSelected::Selected, LispObject::Window(0), &mut a),
        Ok(Selection::SelectWindow(LispWindowRef(0)))
    );
    assert_eq!(
        set_frame_selected_window(other, LispObject::Window(0), &mut a),
        Err(LispError::WindowNotOnFrame)
    );
    assert_eq!(
        set_frame_selected_window(other, LispObject::Window(1), &mut a),
        Err(LispError::WrongType(TypePredicate::WindowLivep, LispObject::Window(1)))
    );
    assert_eq!(
        set_frame_selected_window(
            LispFrameOrSelected::Frame(LispFrameRef(2)),
            LispObject::Window(4),
            &mut a
        ),
        Err(not_live(LispObject::Frame(2)))
    );
}

#[test]
fn frames_convert_to_values_and_back() {
    let value: LispObject = LispFrameRef(2).into();
    assert_eq!(value, LispObject::Frame(2));
    assert_eq!(LispFrameRef::try_from(value), Ok(LispFrameRef(2)));
    assert_eq!(
        LispFrameRef::try_from(LispObject::Nil),
        Err(LispError::WrongType(TypePredicate::Framep, LispObject::Nil))
    );
    assert_eq!(
        LispFrameOrSelected::try_from(LispObject::Nil),
        Ok(LispFrameOrSelected::Selected)
    );
    assert_eq!(
        LispFrameOrSelected::try_from(value),
        Ok(LispFrameOrSelected::Frame(LispFrameRef(2)))
    );
}
