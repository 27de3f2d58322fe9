use vstd::prelude::*;
use crate::commands_processor::{CommandOutcome, CommandsProcessor};
use crate::config_value::ConfigValue;
use crate::console::{Console, ConsoleKey, key_press_effect};
use crate::frame_upscaler::MAX_FRAME_SCALE;
use crate::number_text::{parse_u64, u64_text_value};

verus! {

/// A key that the host reacts to.
#[derive(Copy, Clone, PartialEq, Eq, Structural)]
pub enum HostKey {
    /// Closes the console, or quits when it is closed.
    Escape,
    /// Requests a screenshot.
    F12,
    /// Opens or closes the console.
    Backquote,
    /// Any other key, as the console sees it.
    Console(ConsoleKey),
}

/// An input event of the window.
pub enum HostEvent {
    Quit,
    KeyDown(HostKey),
    TextInput(String),
}

/// What the input events of the frames asked for.
#[derive(Copy, Clone, PartialEq, Eq, Structural)]
pub struct HostInputState {
    pub quit_requested: bool,
    pub screenshot_requested: bool,
    /// The backquote key was pressed among the events of this frame: its text is not console input.
    pub has_backquote: bool,
}

/// The console's visible state did not change.
pub open spec fn console_unchanged(c0: Console, c1: Console) -> bool {
    &&& c1.active() == c0.active()
    &&& c1.lines_view() == c0.lines_view()
    &&& c1.history_view() == c0.history_view()
    &&& c1.history_index() == c0.history_index()
    &&& c1.input_view() == c0.input_view()
}

/// The console was opened or closed and nothing else changed.
pub open spec fn console_toggled(c0: Console, c1: Console) -> bool {
    &&& c1.active() == !c0.active()
    &&& c1.lines_view() == c0.lines_view()
    &&& c1.history_view() == c0.history_view()
    &&& c1.history_index() == c0.history_index()
    &&& c1.input_view() == c0.input_view()
}

/// What an event does to the input state, the console, the commands processor and the
/// configuration, and what it returns.
pub open spec fn event_effect(
    s0: HostInputState,
    s1: HostInputState,
    c0: Console,
    c1: Console,
    p0: CommandsProcessor,
    p1: CommandsProcessor,
    g0: ConfigValue,
    g1: ConfigValue,
    event: HostEvent,
    r: CommandOutcome,
) -> bool {
    match event {
        HostEvent::Quit => {
            &&& s1 == HostInputState { quit_requested: true, ..s0 }
            &&& console_unchanged(c0, c1) && p1 == p0 && g1 == g0 && r is Done
        },
        HostEvent::KeyDown(HostKey::Escape) => {
            &&& if c0.active() {
                s1 == s0 && console_toggled(c0, c1)
            } else {
                s1 == HostInputState { quit_requested: true, ..s0 } && console_unchanged(c0, c1)
            }
            &&& p1 == p0 && g1 == g0 && r is Done
        },
        HostEvent::KeyDown(HostKey::F12) => {
            &&& s1 == HostInputState { screenshot_requested: true, ..s0 }
            &&& console_unchanged(c0, c1) && p1 == p0 && g1 == g0 && r is Done
        },
        HostEvent::KeyDown(HostKey::Backquote) => {
            &&& s1 == HostInputState { has_backquote: true, ..s0 }
            &&& console_toggled(c0, c1) && p1 == p0 && g1 == g0 && r is Done
        },
        HostEvent::KeyDown(HostKey::Console(k)) => {
            &&& s1 == s0
            &&& if c0.active() {
                key_press_effect(c0, c1, k, p0, p1, g0, g1, r)
            } else {
                console_unchanged(c0, c1) && p1 == p0 && g1 == g0 && r is Done
            }
        },
        HostEvent::TextInput(t) => {
            &&& s1 == s0
            &&& p1 == p0 && g1 == g0 && r is Done
            &&& if c0.active() && !s0.has_backquote {
                &&& c1.input_view() == c0.input_view() + t@
                &&& c1.active() == c0.active()
                &&& c1.lines_view() == c0.lines_view()
                &&& c1.history_view() == c0.history_view()
                &&& c1.history_index() == c0.history_index()
            } else {
                console_unchanged(c0, c1)
            }
        },
    }
}

impl HostInputState {
    /// Nothing requested.
    pub fn new() -> (r: Self)
        ensures
            !r.quit_requested,
            !r.screenshot_requested,
            !r.has_backquote,
    {
        HostInputState { quit_requested: false, screenshot_requested: false, has_backquote: false }
    }

    /// Starts the events of a new frame: the backquote key was not pressed among them yet.
    pub fn begin_frame_events(&mut self)
        ensures
            *final(self) == (HostInputState { has_backquote: false, ..*old(self) }),
    {
        self.has_backquote = false;
    }

    /// Reacts to one input event: Escape closes the console or quits, F12 requests a screenshot,
    /// the backquote key opens or closes the console, other keys and typed text go to the console
    /// while it is open (text typed with the backquote key of the same frame excepted). Returns what
    /// a command line run by the console came to.
    pub fn process_event(
        &mut self,
        console: &mut Console,
        processor: &mut CommandsProcessor,
        config: &mut ConfigValue,
        event: &HostEvent,
    ) -> (r: CommandOutcome)
        ensures
            event_effect(
                *old(self),
                *final(self),
                *old(console),
                *final(console),
                *old(processor),
                *final(processor),
                *old(config),
                *final(config),
                *event,
                r,
            ),
    {
        match event {
            HostEvent::Quit => {
                self.quit_requested = true;
                CommandOutcome::Done
            },
            HostEvent::KeyDown(key) => {
                let mut outcome = CommandOutcome::Done;
                let console_key = match *key {
                    HostKey::Escape => {
                        if console.is_active() {
                            console.toggle();
                        } else {
                            self.quit_requested = true;
                        }
                        ConsoleKey::Other
                    },
                    HostKey::F12 => {
                        self.screenshot_requested = true;
                        ConsoleKey::Other
                    },
                    HostKey::Backquote => {
                        self.has_backquote = true;
                        console.toggle();
                        ConsoleKey::Other
                    },
                    HostKey::Console(k) => k,
                };
                if console.is_active() {
                    outcome = console.process_key_press(console_key, processor, config);
                }
                outcome
            },
            HostEvent::TextInput(text) => {
                if console.is_active() && !self.has_backquote {
                    console.process_text_input(text.as_str());
                }
                CommandOutcome::Done
            },
        }
    }
}

/// How a frame is rendered and brought to the window surface.
#[derive(Copy, Clone, PartialEq, Eq, Structural)]
pub enum FramePath {
    /// Rendered into the reduced buffer (through the HDR buffer and postprocessing when `hdr`),
    /// then upscaled into the window surface.
    Upscaled { hdr: bool },
    /// Rendered into the HDR buffer, then postprocessed into the window surface.
    Postprocessed,
    /// Prepared beforehand, then rendered straight into the window surface.
    Direct,
}

/// What the host does with the input and the picture of a frame.
#[derive(Copy, Clone, PartialEq, Eq, Structural)]
pub struct FramePlan {
    /// Input events and the keyboard state reach the game: not while the console is open.
    pub game_gets_input: bool,
    /// The mouse moves in relative mode: where the game grabs it and the console is closed.
    pub relative_mouse: bool,
    pub path: FramePath,
}

/// The plan of a frame from the console state, the game's wish for the mouse, the frame scale
/// and whether rendering goes through the HDR buffer.
pub fn plan_frame(console_active: bool, game_grabs_mouse: bool, frame_scale: u32, use_hdr_rendering: bool) -> (r:
    FramePlan)
    ensures
        r.game_gets_input == !console_active,
        r.relative_mouse == (game_grabs_mouse && !console_active),
        r.path == if frame_scale > 1 {
            FramePath::Upscaled { hdr: use_hdr_rendering }
        } else if use_hdr_rendering {
            FramePath::Postprocessed
        } else {
            FramePath::Direct
        },
{
    let path = if frame_scale > 1 {
        FramePath::Upscaled { hdr: use_hdr_rendering }
    } else if use_hdr_rendering {
        FramePath::Postprocessed
    } else {
        FramePath::Direct
    };
    FramePlan { game_gets_input: !console_active, relative_mouse: game_grabs_mouse && !console_active, path }
}

/// How the window is shown.
#[derive(Copy, Clone, PartialEq, Eq, Structural)]
pub enum WindowMode {
    Windowed,
    FullscreenDesktop,
    Fullscreen,
}

/// The window mode of a fullscreen setting: 0 windowed, 1 fullscreen at desktop resolution,
/// 2 fullscreen; other values leave the window as it is.
pub fn window_mode(fullscreen_mode: u32) -> (r: Option<WindowMode>)
    ensures
        fullscreen_mode == 0 ==> r == Some(WindowMode::Windowed),
        fullscreen_mode == 1 ==> r == Some(WindowMode::FullscreenDesktop),
        fullscreen_mode == 2 ==> r == Some(WindowMode::Fullscreen),
        fullscreen_mode > 2 ==> r is None,
{
    if fullscreen_mode == 0 {
        Some(WindowMode::Windowed)
    } else if fullscreen_mode == 1 {
        Some(WindowMode::FullscreenDesktop)
    } else if fullscreen_mode == 2 {
        Some(WindowMode::Fullscreen)
    } else {
        None
    }
}

/// The integer host settings brought to reasonable values: an unknown fullscreen mode becomes
/// windowed, the frame scale is brought within `1..=MAX_FRAME_SCALE`. Returns the fullscreen mode,
/// the frame scale, and whether a value had to be changed.
pub fn sanitize_host_settings(fullscreen_mode: u32, frame_scale: u32) -> (r: (u32, u32, bool))
    ensures
        r.0 == if fullscreen_mode > 2 { 0 } else { fullscreen_mode },
        r.1 == if frame_scale > MAX_FRAME_SCALE { MAX_FRAME_SCALE as u32 } else if frame_scale < 1 { 1 } else { frame_scale },
        r.2 == (fullscreen_mode > 2 || frame_scale > MAX_FRAME_SCALE || frame_scale < 1),
{
    let mut dirty = false;
    let mut mode = fullscreen_mode;
    if mode > 2 {
        mode = 0;
        dirty = true;
    }
    let mut scale = frame_scale;
    if scale > 6 {
        scale = 6;
        dirty = true;
    }
    if scale < 1 {
        scale = 1;
        dirty = true;
    }
    (mode, scale, dirty)
}

/// Why the arguments of the window resize command are refused.
#[derive(Copy, Clone, PartialEq, Eq, Structural)]
pub enum ResizeWindowError {
    /// Fewer than two arguments.
    ExpectedTwoArgs,
    /// The first two arguments are not both `u32` numbers.
    FailedToParseArgs,
}

impl ResizeWindowError {
    /// The message shown for the error.
    pub fn message(self) -> (r: String)
        ensures
            self == ResizeWindowError::ExpectedTwoArgs ==> r@ == "Expected two args"@,
            self == ResizeWindowError::FailedToParseArgs ==> r@ == "Failed to parse args"@,
    {
        match self {
            ResizeWindowError::ExpectedTwoArgs => {
                let s = String::from_str("Expected two args");
                proof {
                    reveal_strlit("Expected two args");
                }
                s
            },
            ResizeWindowError::FailedToParseArgs => {
                let s = String::from_str("Failed to parse args");
                proof {
                    reveal_strlit("Failed to parse args");
                }
                s
            },
        }
    }
}

/// The number `u32::from_str` reads from the text, if any.
pub open spec fn u32_text_value(t: Seq<char>) -> Option<u32> {
    match u64_text_value(t) {
        Some(v) => if v <= u32::MAX {
            Some(v as u32)
        } else {
            None
        },
        None => None,
    }
}

/// Width and height of the window resize command: its first two arguments as `u32` numbers.
pub fn resize_window_size(args: &Vec<String>) -> (r: Result<(u32, u32), ResizeWindowError>)
    ensures
        args@.len() < 2 ==> r == Err::<(u32, u32), ResizeWindowError>(ResizeWindowError::ExpectedTwoArgs),
        args@.len() >= 2 ==> match (u32_text_value(args@[0]@), u32_text_value(args@[1]@)) {
            (Some(w), Some(h)) => r == Ok::<(u32, u32), ResizeWindowError>((w, h)),
            _ => r == Err::<(u32, u32), ResizeWindowError>(ResizeWindowError::FailedToParseArgs),
        },
{
    if args.len() < 2 {
        return Err(ResizeWindowError::ExpectedTwoArgs);
    }
    let w = parse_u64(&crate::text::chars_of(args[0].as_str()));
    let h = parse_u64(&crate::text::chars_of(args[1].as_str()));
    match (w, h) {
        (Some(w), Some(h)) => {
            if w <= 0xffff_ffff && h <= 0xffff_ffff {
                Ok((w as u32, h as u32))
            } else {
                Err(ResizeWindowError::FailedToParseArgs)
            }
        },
        _ => Err(ResizeWindowError::FailedToParseArgs),
    }
}

} // verus!
