//! Frames and the windows on them: liveness, selection, and dimensions.

use vstd::prelude::*;
use crate::lisp::{
    LispError, LispObject, TypePredicate, SYM_ICON, SYM_NS, SYM_PC, SYM_W32, SYM_X,
};

verus! {

/// The kind of terminal device that a frame is displayed on.
#[derive(Clone, Copy, Debug, PartialEq, Eq, Structural)]
pub enum OutputMethod {
    Initial,
    Termcap,
    XWindow,
    W32,
    MsdosRaw,
    Ns,
}

/// What is known of a frame.
#[derive(Clone, Copy, Debug, PartialEq, Eq, Structural)]
pub struct Frame {
    /// The terminal that displays the frame; nothing once the frame has been
    /// deleted.
    pub terminal: Option<usize>,
    /// Zero if the frame is not in use for display.
    pub visible: u8,
    pub iconified: bool,
    pub pointer_invisible: bool,
    pub output_method: OutputMethod,
    pub left_fringe_width: i32,
    pub right_fringe_width: i32,
    pub internal_border_width: i32,
    pub right_divider_width: i32,
    pub bottom_divider_width: i32,
    pub left_pos: libc::c_int,
    pub top_pos: libc::c_int,
    pub text_cols: i32,
    pub text_lines: i32,
    pub total_cols: i32,
    pub total_lines: i32,
    pub text_width: i32,
    pub text_height: i32,
    pub selected_window: LispObject,
    pub root_window: LispObject,
    pub after_make_frame: bool,
    pub inhibit_horizontal_resize: bool,
    pub inhibit_vertical_resize: bool,
}

/// What is known of a window.
#[derive(Clone, Copy, Debug, PartialEq, Eq, Structural)]
pub struct Window {
    /// The frame that the window is on.
    pub frame: LispObject,
    /// A buffer for a live window, a child window for an internal window,
    /// the terminator for a deleted window.
    pub contents: LispObject,
}

/// A handle to a frame: its index in the frame arena.
#[derive(Clone, Copy, Debug, PartialEq, Eq, Structural)]
pub struct LispFrameRef(pub usize);

/// A handle to a window: its index in the frame arena.
#[derive(Clone, Copy, Debug, PartialEq, Eq, Structural)]
pub struct LispWindowRef(pub usize);

/// The frames, the windows, and which of them are selected.
pub struct FrameArena {
    pub frames: Vec<Frame>,
    pub windows: Vec<Window>,
    /// The selected frame.
    pub current_frame: LispObject,
    /// The selected window.
    pub current_window: LispObject,
}

/// A frame given by a handle, or the selected frame.
#[derive(Clone, Copy, Debug, PartialEq, Eq, Structural)]
pub enum LispFrameOrSelected {
    Frame(LispFrameRef),
    Selected,
}

/// The frame that `obj` denotes in `frames`, if it denotes one.
pub open spec fn frame_of(frames: Seq<Frame>, obj: LispObject) -> Option<Frame> {
    if obj is Frame && obj->Frame_0 < frames.len() {
        Some(frames[obj->Frame_0 as int])
    } else {
        None
    }
}

/// The window that `obj` denotes in `windows`, if it denotes one.
pub open spec fn window_of(windows: Seq<Window>, obj: LispObject) -> Option<Window> {
    if obj is Window && obj->Window_0 < windows.len() {
        Some(windows[obj->Window_0 as int])
    } else {
        None
    }
}

/// Whether `obj` denotes a frame of `frames` that has not been deleted.
pub open spec fn live_frame(frames: Seq<Frame>, obj: LispObject) -> bool {
    frame_of(frames, obj) matches Some(f) && f.terminal is Some
}

/// The frame that `obj` must be for an operation that needs a frame.
pub open spec fn frame_or_error(obj: LispObject) -> Result<LispFrameRef, LispError> {
    if obj is Frame {
        Ok(LispFrameRef(obj->Frame_0))
    } else {
        Err(LispError::WrongType(TypePredicate::Framep, obj))
    }
}

/// The frame that `obj` must be for an operation that needs a live frame.
pub open spec fn live_frame_or_error(frames: Seq<Frame>, obj: LispObject) -> Result<LispFrameRef, LispError> {
    if live_frame(frames, obj) {
        Ok(LispFrameRef(obj->Frame_0))
    } else {
        Err(LispError::WrongType(TypePredicate::FrameLivep, obj))
    }
}

impl FrameArena {
    /// The frame that `frame` denotes, if it denotes one of this arena.
    pub fn frame(&self, frame: LispFrameRef) -> (r: Option<&Frame>)
        ensures
            r is Some <==> frame.0 < self.frames@.len(),
            r matches Some(f) ==> *f == self.frames@[frame.0 as int],
    {
        if frame.0 < self.frames.len() {
            Some(&self.frames[frame.0])
        } else {
            None
        }
    }

    /// The window that `obj` denotes, if it denotes one of this arena.
    pub fn window(&self, obj: LispObject) -> (r: Option<(LispWindowRef, Window)>)
        ensures
            r is Some <==> window_of(self.windows@, obj) is Some,
            r matches Some((w, window)) ==> w.0 == obj->Window_0 && Some(window) == window_of(
                self.windows@,
                obj,
            ),
    {
        match obj {
            LispObject::Window(i) => {
                if i < self.windows.len() {
                    Some((LispWindowRef(i), self.windows[i]))
                } else {
                    None
                }
            },
            _ => None,
        }
    }
}

impl LispFrameRef {
    /// Whether the frame has not been deleted.
    pub fn is_live(self, arena: &FrameArena) -> (r: bool)
        ensures
            r == live_frame(arena.frames@, LispObject::Frame(self.0)),
    {
        match arena.frame(self) {
            Some(f) => f.terminal.is_some(),
            None => false,
        }
    }

    /// The width of the internal border in pixels: never less than zero.
    pub fn internal_border_width(self, arena: &FrameArena) -> (r: i32)
        requires
            self.0 < arena.frames@.len(),
        ensures
            r == if arena.frames@[self.0 as int].internal_border_width < 0 {
                0
            } else {
                arena.frames@[self.0 as int].internal_border_width
            },
    {
        let width = arena.frames[self.0].internal_border_width;
        if width < 0 {
            0
        } else {
            width
        }
    }

    /// Whether the frame is in use for display.
    pub fn is_visible(self, arena: &FrameArena) -> (r: bool)
        requires
            self.0 < arena.frames@.len(),
        ensures
            r == (arena.frames@[self.0 as int].visible != 0),
    {
        arena.frames[self.0].visible != 0
    }

    /// The width of both fringes together.
    pub fn total_fringe_width(self, arena: &FrameArena) -> (r: i32)
        requires
            self.0 < arena.frames@.len(),
            i32::MIN <= arena.frames@[self.0 as int].left_fringe_width + arena.frames@[self.0 as int].right_fringe_width
                <= i32::MAX,
        ensures
            r == arena.frames@[self.0 as int].left_fringe_width + arena.frames@[self.0 as int].right_fringe_width,
    {
        arena.frames[self.0].left_fringe_width + arena.frames[self.0].right_fringe_width
    }

    /// The handle as a value.
    pub fn as_object(self) -> (r: LispObject)
        ensures
            r == LispObject::Frame(self.0),
    {
        LispObject::Frame(self.0)
    }
}

impl LispObject {
    /// Whether this is a handle to a frame.
    pub fn is_frame(self) -> (r: bool)
        ensures
            r == (self is Frame),
    {
        match self {
            LispObject::Frame(_) => true,
            _ => false,
        }
    }

    /// The frame that this is a handle to.
    pub fn as_frame(self) -> (r: Option<LispFrameRef>)
        ensures
            r == if self is Frame {
                Some(LispFrameRef(self->Frame_0))
            } else {
                None
            },
    {
        match self {
            LispObject::Frame(i) => Some(LispFrameRef(i)),
            _ => None,
        }
    }

    /// The frame that this is a handle to; anything else is the wrong type.
    pub fn as_frame_or_error(self) -> (r: Result<LispFrameRef, LispError>)
        ensures
            r == frame_or_error(self),
    {
        match self.as_frame() {
            Some(f) => Ok(f),
            None => Err(LispError::WrongType(TypePredicate::Framep, self)),
        }
    }

    /// The frame that this is a handle to, if it has not been deleted.
    pub fn as_live_frame(self, arena: &FrameArena) -> (r: Option<LispFrameRef>)
        ensures
            r == if live_frame(arena.frames@, self) {
                Some(LispFrameRef(self->Frame_0))
            } else {
                None
            },
    {
        match self.as_frame() {
            Some(f) => if f.is_live(arena) {
                Some(f)
            } else {
                None
            },
            None => None,
        }
    }

    /// The live frame that this is a handle to; anything else is the wrong
    /// type.
    pub fn as_live_frame_or_error(self, arena: &FrameArena) -> (r: Result<LispFrameRef, LispError>)
        ensures
            r == live_frame_or_error(arena.frames@, self),
    {
        match self.as_live_frame(arena) {
            Some(f) => Ok(f),
            None => Err(LispError::WrongType(TypePredicate::FrameLivep, self)),
        }
    }

    /// Whether this is a handle to a window.
    pub fn is_window(self) -> (r: bool)
        ensures
            r == (self is Window),
    {
        match self {
            LispObject::Window(_) => true,
            _ => false,
        }
    }
}

impl LispFrameOrSelected {
    /// The choice that a value stands for: the selected frame for the
    /// terminator, the frame for a handle to one; anything else is the wrong
    /// type.
    pub fn from_object(obj: LispObject) -> (r: Result<LispFrameOrSelected, LispError>)
        ensures
            r == if obj == LispObject::Nil {
                Ok::<LispFrameOrSelected, LispError>(LispFrameOrSelected::Selected)
            } else {
                match frame_or_error(obj) {
                    Ok(f) => Ok(LispFrameOrSelected::Frame(f)),
                    Err(e) => Err(e),
                }
            },
    {
        if obj.is_nil() {
            Ok(LispFrameOrSelected::Selected)
        } else {
            match obj.as_frame_or_error() {
                Ok(f) => Ok(LispFrameOrSelected::Frame(f)),
                Err(e) => Err(e),
            }
        }
    }

    /// The frame that is meant.
    pub open spec fn frame_spec(self, current_frame: LispObject) -> Result<LispFrameRef, LispError> {
        match self {
            LispFrameOrSelected::Frame(f) => Ok(f),
            LispFrameOrSelected::Selected => frame_or_error(current_frame),
        }
    }

    /// The frame that is meant: the frame given, or the selected frame.
    pub fn to_frame(self, arena: &FrameArena) -> (r: Result<LispFrameRef, LispError>)
        ensures
            r == self.frame_spec(arena.current_frame),
    {
        match self {
            LispFrameOrSelected::Frame(f) => Ok(f),
            LispFrameOrSelected::Selected => arena.current_frame.as_frame_or_error(),
        }
    }

    /// The frame that is meant, which must be live.
    pub fn live_or_error(self, arena: &FrameArena) -> (r: Result<LispFrameRef, LispError>)
        ensures
            r == match self.frame_spec(arena.current_frame) {
                Ok(f) => live_frame_or_error(arena.frames@, LispObject::Frame(f.0)),
                Err(e) => Err(e),
            },
    {
        match self.to_frame(arena) {
            Ok(frame) => {
                if frame.is_live(arena) {
                    Ok(frame)
                } else {
                    Err(LispError::WrongType(TypePredicate::FrameLivep, LispObject::Frame(frame.0)))
                }
            },
            Err(e) => Err(e),
        }
    }
}

/// The frame that is now selected.
pub fn selected_frame(arena: &FrameArena) -> (r: Result<LispFrameRef, LispError>)
    ensures
        r == frame_or_error(arena.current_frame),
{
    arena.current_frame.as_frame_or_error()
}

/// Whether a window has not been deleted: it shows a buffer or has children.
pub open spec fn valid_window(windows: Seq<Window>, obj: LispObject) -> bool {
    window_of(windows, obj) matches Some(w) && w.contents != LispObject::Nil
}

/// Whether a window shows a buffer.
pub open spec fn live_window(windows: Seq<Window>, obj: LispObject) -> bool {
    window_of(windows, obj) matches Some(w) && w.contents is Buffer
}

/// The frame of `object`: the selected frame for the terminator, the frame of
/// a window that has not been deleted, whether the frame is live or not, and
/// otherwise the live frame that `object` must be.
pub fn window_frame_live_or_selected(object: LispObject, arena: &FrameArena) -> (r: Result<
    LispFrameRef,
    LispError,
>)
    ensures
        r == if object == LispObject::Nil {
            frame_or_error(arena.current_frame)
        } else if valid_window(arena.windows@, object) {
            frame_or_error(window_of(arena.windows@, object)->Some_0.frame)
        } else {
            live_frame_or_error(arena.frames@, object)
        },
{
    if object.is_nil() {
        return selected_frame(arena);
    }
    match arena.window(object) {
        Some((_, win)) => {
            if win.contents.is_not_nil() {
                // The frame of a window needs no check for liveness.
                return win.frame.as_frame_or_error();
            }
        },
        None => {},
    }
    object.as_live_frame_or_error(arena)
}

/// The live frame of `object`: of the selected window for the terminator, of
/// a live window, or the live frame that `object` must be. For a window,
/// `window_action` is called with it.
pub fn window_frame_live_or_selected_with_action<W: Fn(LispWindowRef) -> ()>(
    object: LispObject,
    window_action: W,
    arena: &FrameArena,
) -> (r: Result<LispFrameRef, LispError>)
    requires
        forall|w: LispWindowRef| call_requires(window_action, (w,)),
    ensures
        ({
            let object = if object == LispObject::Nil {
                arena.current_window
            } else {
                object
            };
            r == if object is Window {
                if live_window(arena.windows@, object) {
                    live_frame_or_error(arena.frames@, window_of(arena.windows@, object)->Some_0.frame)
                } else {
                    Err(LispError::WrongType(TypePredicate::WindowLivep, object))
                }
            } else {
                live_frame_or_error(arena.frames@, object)
            }
        }),
{
    let mut object = object;
    if object.is_nil() {
        object = arena.current_window;
    }
    if object.is_window() {
        match arena.window(object) {
            Some((w, win)) => {
                match win.contents {
                    LispObject::Buffer(_) => {
                        window_action(w);
                        object = win.frame;
                    },
                    _ => {
                        return Err(LispError::WrongType(TypePredicate::WindowLivep, object));
                    },
                }
            },
            None => {
                return Err(LispError::WrongType(TypePredicate::WindowLivep, object));
            },
        }
    }
    object.as_live_frame_or_error(arena)
}

/// The symbol for the kind of terminal device of a frame: the true value for
/// a text terminal.
pub open spec fn framep_spec(method: OutputMethod) -> LispObject {
    match method {
        OutputMethod::Initial | OutputMethod::Termcap => LispObject::True,
        OutputMethod::XWindow => LispObject::Symbol(SYM_X),
        OutputMethod::W32 => LispObject::Symbol(SYM_W32),
        OutputMethod::MsdosRaw => LispObject::Symbol(SYM_PC),
        OutputMethod::Ns => LispObject::Symbol(SYM_NS),
    }
}

/// The symbol for the kind of terminal device of `frame`.
pub fn framep_1(frame: LispFrameRef, arena: &FrameArena) -> (r: LispObject)
    requires
        frame.0 < arena.frames@.len(),
    ensures
        r == framep_spec(arena.frames@[frame.0 as int].output_method),
{
    match arena.frames[frame.0].output_method {
        OutputMethod::Initial | OutputMethod::Termcap => LispObject::True,
        OutputMethod::XWindow => LispObject::Symbol(SYM_X),
        OutputMethod::W32 => LispObject::Symbol(SYM_W32),
        OutputMethod::MsdosRaw => LispObject::Symbol(SYM_PC),
        OutputMethod::Ns => LispObject::Symbol(SYM_NS),
    }
}

/// The kind of terminal device of `frame` if it is a frame of the arena; the
/// terminator otherwise.
pub fn framep(frame: LispObject, arena: &FrameArena) -> (r: LispObject)
    ensures
        r == match frame_of(arena.frames@, frame) {
            Some(f) => framep_spec(f.output_method),
            None => LispObject::Nil,
        },
{
    match frame.as_frame() {
        Some(f) => {
            if f.0 < arena.frames.len() {
                framep_1(f, arena)
            } else {
                LispObject::Nil
            }
        },
        None => LispObject::Nil,
    }
}

/// The kind of terminal device of `frame` if it is a frame that has not been
/// deleted; the terminator otherwise.
pub fn frame_live_p(frame: LispObject, arena: &FrameArena) -> (r: LispObject)
    ensures
        r == if live_frame(arena.frames@, frame) {
            framep_spec(frame_of(arena.frames@, frame)->Some_0.output_method)
        } else {
            LispObject::Nil
        },
{
    match frame.as_live_frame(arena) {
        Some(f) => framep_1(f, arena),
        None => LispObject::Nil,
    }
}

/// The window system that a frame is displayed through: the terminator for
/// a text terminal.
pub fn window_system(frame: LispFrameOrSelected, arena: &FrameArena) -> (r: Result<LispObject, LispError>)
    ensures
        r == match frame.frame_spec(arena.current_frame) {
            Err(e) => Err::<LispObject, LispError>(e),
            Ok(f) => match frame_of(arena.frames@, LispObject::Frame(f.0)) {
                None => Err(LispError::WrongType(TypePredicate::Framep, LispObject::Frame(f.0))),
                Some(fr) => Ok(
                    if framep_spec(fr.output_method) == LispObject::True {
                        LispObject::Nil
                    } else {
                        framep_spec(fr.output_method)
                    },
                ),
            },
        },
{
    let f = match frame.to_frame(arena) {
        Ok(f) => f,
        Err(e) => {
            return Err(e);
        },
    };
    if f.0 >= arena.frames.len() {
        return Err(LispError::WrongType(TypePredicate::Framep, LispObject::Frame(f.0)));
    }
    let window_system = framep_1(f, arena);
    match window_system {
        LispObject::True => Ok(LispObject::Nil),
        _ => Ok(window_system),
    }
}

/// Whether `frame` is in use for display: the true value if it is, the symbol
/// `icon` if it is iconified, the terminator if it is invisible.
pub fn frame_visible_p(frame: LispFrameRef, arena: &FrameArena) -> (r: LispObject)
    requires
        frame.0 < arena.frames@.len(),
    ensures
        r == if arena.frames@[frame.0 as int].visible != 0 {
            LispObject::True
        } else if arena.frames@[frame.0 as int].iconified {
            LispObject::Symbol(SYM_ICON)
        } else {
            LispObject::Nil
        },
{
    if frame.is_visible(arena) {
        LispObject::True
    } else if arena.frames[frame.0].iconified {
        LispObject::Symbol(SYM_ICON)
    } else {
        LispObject::Nil
    }
}

/// The live frame that is meant, and what is known of it.
pub open spec fn live_frame_data(frame: LispFrameOrSelected, arena: &FrameArena) -> Result<Frame, LispError> {
    match frame.frame_spec(arena.current_frame) {
        Ok(f) => match live_frame_or_error(arena.frames@, LispObject::Frame(f.0)) {
            Ok(_) => Ok(arena.frames@[f.0 as int]),
            Err(e) => Err(e),
        },
        Err(e) => Err(e),
    }
}

/// The frame that is meant, and what is known of it.
pub open spec fn frame_data(frame: LispFrameOrSelected, arena: &FrameArena) -> Result<Frame, LispError> {
    match frame.frame_spec(arena.current_frame) {
        Ok(f) => match frame_of(arena.frames@, LispObject::Frame(f.0)) {
            Some(fr) => Ok(fr),
            None => Err(LispError::WrongType(TypePredicate::Framep, LispObject::Frame(f.0))),
        },
        Err(e) => Err(e),
    }
}

/// Looks up the frame that is meant.
fn frame_record(frame: LispFrameOrSelected, arena: &FrameArena) -> (r: Result<Frame, LispError>)
    ensures
        r == frame_data(frame, arena),
{
    match frame.to_frame(arena) {
        Ok(f) => match arena.frame(f) {
            Some(fr) => Ok(*fr),
            None => Err(LispError::WrongType(TypePredicate::Framep, LispObject::Frame(f.0))),
        },
        Err(e) => Err(e),
    }
}

/// The position of the top left corner of a live frame on its display, in
/// pixels.
pub fn frame_position(frame: LispFrameOrSelected, arena: &FrameArena) -> (r: Result<
    (libc::c_int, libc::c_int),
    LispError,
>)
    ensures
        r == match live_frame_data(frame, arena) {
            Ok(f) => Ok::<(libc::c_int, libc::c_int), LispError>((f.left_pos, f.top_pos)),
            Err(e) => Err(e),
        },
{
    match frame.live_or_error(arena) {
        Ok(f) => Ok((arena.frames[f.0].left_pos, arena.frames[f.0].top_pos)),
        Err(e) => Err(e),
    }
}

/// Whether the mouse pointer on a frame is visible.
pub fn frame_pointer_visible_p(frame: LispFrameOrSelected, arena: &FrameArena) -> (r: Result<bool, LispError>)
    ensures
        r == match frame_data(frame, arena) {
            Ok(f) => Ok::<bool, LispError>(!f.pointer_invisible),
            Err(e) => Err(e),
        },
{
    match frame_record(frame, arena) {
        Ok(f) => Ok(!f.pointer_invisible),
        Err(e) => Err(e),
    }
}

/// The frame of `frame_or_window`, and what is known of it.
pub open spec fn window_frame_data(frame_or_window: LispObject, arena: &FrameArena) -> Result<Frame, LispError> {
    let frame = if frame_or_window == LispObject::Nil {
        frame_or_error(arena.current_frame)
    } else if valid_window(arena.windows@, frame_or_window) {
        frame_or_error(window_of(arena.windows@, frame_or_window)->Some_0.frame)
    } else {
        live_frame_or_error(arena.frames@, frame_or_window)
    };
    match frame {
        Ok(f) => match frame_of(arena.frames@, LispObject::Frame(f.0)) {
            Some(fr) => Ok(fr),
            None => Err(LispError::WrongType(TypePredicate::Framep, LispObject::Frame(f.0))),
        },
        Err(e) => Err(e),
    }
}

/// The root window of the frame of `frame_or_window`.
pub fn frame_root_window(frame_or_window: LispObject, arena: &FrameArena) -> (r: Result<LispObject, LispError>)
    ensures
        r == match window_frame_data(frame_or_window, arena) {
            Ok(f) => Ok::<LispObject, LispError>(f.root_window),
            Err(e) => Err(e),
        },
{
    match window_frame_live_or_selected(frame_or_window, arena) {
        Ok(f) => match arena.frame(f) {
            Some(fr) => Ok(fr.root_window),
            None => Err(LispError::WrongType(TypePredicate::Framep, LispObject::Frame(f.0))),
        },
        Err(e) => Err(e),
    }
}

/// The selected window of the frame of `frame_or_window`.
pub fn frame_selected_window(frame_or_window: LispObject, arena: &FrameArena) -> (r: Result<
    LispObject,
    LispError,
>)
    ensures
        r == match window_frame_data(frame_or_window, arena) {
            Ok(f) => Ok::<LispObject, LispError>(f.selected_window),
            Err(e) => Err(e),
        },
{
    match window_frame_live_or_selected(frame_or_window, arena) {
        Ok(f) => match arena.frame(f) {
            Some(fr) => Ok(fr.selected_window),
            None => Err(LispError::WrongType(TypePredicate::Framep, LispObject::Frame(f.0))),
        },
        Err(e) => Err(e),
    }
}

/// The width of the text area of a frame in columns.
pub fn frame_text_cols(frame: LispFrameOrSelected, arena: &FrameArena) -> (r: Result<i32, LispError>)
    ensures
        r == match frame_data(frame, arena) {
            Ok(f) => Ok::<i32, LispError>(f.text_cols),
            Err(e) => Err(e),
        },
{
    match frame_record(frame, arena) {
        Ok(f) => Ok(f.text_cols),
        Err(e) => Err(e),
    }
}

/// The height of the text area of a frame in lines.
pub fn frame_text_lines(frame: LispFrameOrSelected, arena: &FrameArena) -> (r: Result<i32, LispError>)
    ensures
        r == match frame_data(frame, arena) {
            Ok(f) => Ok::<i32, LispError>(f.text_lines),
            Err(e) => Err(e),
        },
{
    match frame_record(frame, arena) {
        Ok(f) => Ok(f.text_lines),
        Err(e) => Err(e),
    }
}

/// The number of columns of a frame.
pub fn frame_total_cols(frame: LispFrameOrSelected, arena: &FrameArena) -> (r: Result<i32, LispError>)
    ensures
        r == match frame_data(frame, arena) {
            Ok(f) => Ok::<i32, LispError>(f.total_cols),
            Err(e) => Err(e),
        },
{
    match frame_record(frame, arena) {
        Ok(f) => Ok(f.total_cols),
        Err(e) => Err(e),
    }
}

/// The number of lines of a frame.
pub fn frame_total_lines(frame: LispFrameOrSelected, arena: &FrameArena) -> (r: Result<i32, LispError>)
    ensures
        r == match frame_data(frame, arena) {
            Ok(f) => Ok::<i32, LispError>(f.total_lines),
            Err(e) => Err(e),
        },
{
    match frame_record(frame, arena) {
        Ok(f) => Ok(f.total_lines),
        Err(e) => Err(e),
    }
}

/// The width of the text area of a frame in pixels.
pub fn frame_text_width(frame: LispFrameOrSelected, arena: &FrameArena) -> (r: Result<i32, LispError>)
    ensures
        r == match frame_data(frame, arena) {
            Ok(f) => Ok::<i32, LispError>(f.text_width),
            Err(e) => Err(e),
        },
{
    match frame_record(frame, arena) {
        Ok(f) => Ok(f.text_width),
        Err(e) => Err(e),
    }
}

/// The height of the text area of a frame in pixels.
pub fn frame_text_height(frame: LispFrameOrSelected, arena: &FrameArena) -> (r: Result<i32, LispError>)
    ensures
        r == match frame_data(frame, arena) {
            Ok(f) => Ok::<i32, LispError>(f.text_height),
            Err(e) => Err(e),
        },
{
    match frame_record(frame, arena) {
        Ok(f) => Ok(f.text_height),
        Err(e) => Err(e),
    }
}

/// The width of the fringes of a frame in pixels.
pub fn frame_fringe_width(frame: LispFrameOrSelected, arena: &FrameArena) -> (r: Result<i32, LispError>)
    requires
        frame_data(frame, arena) matches Ok(f) ==> i32::MIN <= f.left_fringe_width + f.right_fringe_width
            <= i32::MAX,
    ensures
        r == match frame_data(frame, arena) {
            Ok(f) => Ok::<i32, LispError>((f.left_fringe_width + f.right_fringe_width) as i32),
            Err(e) => Err(e),
        },
{
    match frame.to_frame(arena) {
        Ok(h) => {
            if h.0 < arena.frames.len() {
                Ok(h.total_fringe_width(arena))
            } else {
                Err(LispError::WrongType(TypePredicate::Framep, LispObject::Frame(h.0)))
            }
        },
        Err(e) => Err(e),
    }
}

/// The width of the internal border of a frame in pixels.
pub fn frame_internal_border_width(frame: LispFrameOrSelected, arena: &FrameArena) -> (r: Result<
    i32,
    LispError,
>)
    ensures
        r == match frame_data(frame, arena) {
            Ok(f) => Ok::<i32, LispError>(
                if f.internal_border_width < 0 {
                    0
                } else {
                    f.internal_border_width
                },
            ),
            Err(e) => Err(e),
        },
{
    match frame_record(frame, arena) {
        Ok(f) => Ok(
            if f.internal_border_width < 0 {
                0
            } else {
                f.internal_border_width
            },
        ),
        Err(e) => Err(e),
    }
}

/// The width of the vertical window dividers of a frame in pixels.
pub fn frame_right_divider_width(frame: LispFrameOrSelected, arena: &FrameArena) -> (r: Result<i32, LispError>)
    ensures
        r == match frame_data(frame, arena) {
            Ok(f) => Ok::<i32, LispError>(f.right_divider_width),
            Err(e) => Err(e),
        },
{
    match frame_record(frame, arena) {
        Ok(f) => Ok(f.right_divider_width),
        Err(e) => Err(e),
    }
}

/// The width of the horizontal window dividers of a frame in pixels.
pub fn frame_bottom_divider_width(frame: LispFrameOrSelected, arena: &FrameArena) -> (r: Result<
    i32,
    LispError,
>)
    ensures
        r == match frame_data(frame, arena) {
            Ok(f) => Ok::<i32, LispError>(f.bottom_divider_width),
            Err(e) => Err(e),
        },
{
    match frame_record(frame, arena) {
        Ok(f) => Ok(f.bottom_divider_width),
        Err(e) => Err(e),
    }
}

/// Marks a live frame as made, or not, and lifts what inhibits its resizing.
/// Returns `made`.
pub fn frame_after_make_frame(frame: LispFrameOrSelected, made: LispObject, arena: &mut FrameArena) -> (r:
    Result<LispObject, LispError>)
    ensures
        match live_frame_data(frame, old(arena)) {
            Ok(f) => {
                &&& r == Ok::<LispObject, LispError>(made)
                &&& frame.frame_spec(old(arena).current_frame) matches Ok(h) && final(arena).frames@
                    == old(arena).frames@.update(
                    h.0 as int,
                    Frame {
                        after_make_frame: made != LispObject::Nil,
                        inhibit_horizontal_resize: false,
                        inhibit_vertical_resize: false,
                        ..f
                    },
                )
            },
            Err(e) => r == Err::<LispObject, LispError>(e) && final(arena).frames@ == old(arena).frames@,
        },
        final(arena).windows@ == old(arena).windows@,
        final(arena).current_frame == old(arena).current_frame,
        final(arena).current_window == old(arena).current_window,
{
    match frame.live_or_error(arena) {
        Ok(h) => {
            let mut f = arena.frames[h.0];
            f.after_make_frame = made.is_not_nil();
            f.inhibit_horizontal_resize = false;
            f.inhibit_vertical_resize = false;
            arena.frames[h.0] = f;
            Ok(made)
        },
        Err(e) => Err(e),
    }
}

/// What is left to do once a window has been chosen as the selected window
/// of a frame.
#[derive(Clone, Copy, Debug, PartialEq, Eq, Structural)]
pub enum Selection {
    /// The frame is the selected frame: the window is to become the selected
    /// window as well.
    SelectWindow(LispWindowRef),
    /// The frame has the window as its selected window now.
    Done(LispWindowRef),
}

/// The live window that `obj` must be.
pub open spec fn live_window_or_error(windows: Seq<Window>, obj: LispObject) -> Result<LispWindowRef, LispError> {
    if live_window(windows, obj) {
        Ok(LispWindowRef(obj->Window_0))
    } else {
        Err(LispError::WrongType(TypePredicate::WindowLivep, obj))
    }
}

/// Makes `window` the selected window of `frame`. Both must be live, and the
/// window must be on the frame. If the frame is the selected frame, nothing
/// is changed here: the window is to be selected by the caller, which then
/// makes it the selected window of its frame too.
pub fn set_frame_selected_window(frame: LispFrameOrSelected, window: LispObject, arena: &mut FrameArena) -> (r:
    Result<Selection, LispError>)
    ensures
        final(arena).windows@ == old(arena).windows@,
        final(arena).current_frame == old(arena).current_frame,
        final(arena).current_window == old(arena).current_window,
        match live_frame_data(frame, old(arena)) {
            Err(e) => r == Err::<Selection, LispError>(e) && final(arena).frames@ == old(arena).frames@,
            Ok(f) => {
                let h = frame.frame_spec(old(arena).current_frame)->Ok_0;
                match live_window_or_error(old(arena).windows@, window) {
                    Err(e) => r == Err::<Selection, LispError>(e) && final(arena).frames@ == old(arena).frames@,
                    Ok(w) => if old(arena).windows@[w.0 as int].frame != LispObject::Frame(h.0) {
                        r == Err::<Selection, LispError>(LispError::WindowNotOnFrame) && final(arena).frames@
                            == old(arena).frames@
                    } else if old(arena).current_frame == LispObject::Frame(h.0) {
                        r == Ok::<Selection, LispError>(Selection::SelectWindow(w)) && final(arena).frames@
                            == old(arena).frames@
                    } else {
                        r == Ok::<Selection, LispError>(Selection::Done(w)) && final(arena).frames@
                            == old(arena).frames@.update(h.0 as int, Frame { selected_window: window, ..f })
                    },
                }
            },
        },
{
    let h = match frame.live_or_error(arena) {
        Ok(h) => h,
        Err(e) => {
            return Err(e);
        },
    };
    let (w, win) = match arena.window(window) {
        Some((w, win)) => (w, win),
        None => {
            return Err(LispError::WrongType(TypePredicate::WindowLivep, window));
        },
    };
    match win.contents {
        LispObject::Buffer(_) => {},
        _ => {
            return Err(LispError::WrongType(TypePredicate::WindowLivep, window));
        },
    }
    if !win.frame.eq(LispObject::Frame(h.0)) {
        return Err(LispError::WindowNotOnFrame);
    }
    if arena.current_frame.eq(LispObject::Frame(h.0)) {
        Ok(Selection::SelectWindow(w))
    } else {
        let mut f = arena.frames[h.0];
        f.selected_window = window;
        arena.frames[h.0] = f;
        Ok(Selection::Done(w))
    }
}

impl From<LispFrameRef> for LispObject {
    fn from(f: LispFrameRef) -> (r: LispObject) {
        LispObject::Frame(f.0)
    }
}

impl vstd::std_specs::convert::FromSpecImpl<LispFrameRef> for LispObject {
    open spec fn obeys_from_spec() -> bool {
        true
    }

    open spec fn from_spec(f: LispFrameRef) -> LispObject {
        LispObject::Frame(f.0)
    }
}

impl TryFrom<LispObject> for LispFrameRef {
    type Error = LispError;

    fn try_from(o: LispObject) -> (r: Result<LispFrameRef, LispError>) {
        o.as_frame_or_error()
    }
}

impl vstd::std_specs::convert::TryFromSpecImpl<LispObject> for LispFrameRef {
    open spec fn obeys_try_from_spec() -> bool {
        true
    }

    open spec fn try_from_spec(o: LispObject) -> Result<LispFrameRef, LispError> {
        frame_or_error(o)
    }
}

impl TryFrom<LispObject> for LispFrameOrSelected {
    type Error = LispError;

    fn try_from(o: LispObject) -> (r: Result<LispFrameOrSelected, LispError>) {
        LispFrameOrSelected::from_object(o)
    }
}

impl vstd::std_specs::convert::TryFromSpecImpl<LispObject> for LispFrameOrSelected {
    open spec fn obeys_try_from_spec() -> bool {
        true
    }

    open spec fn try_from_spec(o: LispObject) -> Result<LispFrameOrSelected, LispError> {
        if o == LispObject::Nil {
            Ok(LispFrameOrSelected::Selected)
        } else {
            match frame_or_error(o) {
                Ok(f) => Ok(LispFrameOrSelected::Frame(f)),
                Err(e) => Err(e),
            }
        }
    }
}

} // verus!
