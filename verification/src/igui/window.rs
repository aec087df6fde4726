//! The frame window's part that is plain computation: requests to open
//! child windows, the encoding of MDI verbs in a message parameter, and
//! the decoding of the words packed into message parameters.

use vstd::prelude::*;

use crate::let_lang::lexer::chars_of;

verus! {

/// Window-arrangement commands of the MDI frame.
#[derive(Clone, Copy, PartialEq, Eq, Structural, Debug)]
pub enum MdiVerb {
    Cascade,
    TileH,
    TileV,
    CloseAll,
    ArrangeIcons,
}

pub open spec fn verb_tag_spec(verb: MdiVerb) -> u8 {
    match verb {
        MdiVerb::Cascade => 1,
        MdiVerb::TileH => 2,
        MdiVerb::TileV => 3,
        MdiVerb::CloseAll => 4,
        MdiVerb::ArrangeIcons => 5,
    }
}

/// The verb whose tag is `tag`, if any.
pub open spec fn verb_of_tag(tag: u8) -> Option<MdiVerb> {
    if tag == 1 {
        Some(MdiVerb::Cascade)
    } else if tag == 2 {
        Some(MdiVerb::TileH)
    } else if tag == 3 {
        Some(MdiVerb::TileV)
    } else if tag == 4 {
        Some(MdiVerb::CloseAll)
    } else if tag == 5 {
        Some(MdiVerb::ArrangeIcons)
    } else {
        None
    }
}

/// The verb carried by a message tag; tags other than 1 to 5 carry none.
pub fn mdi_verb_from_tag(tag: u8) -> (r: Option<MdiVerb>)
    ensures
        r == verb_of_tag(tag),
        match r {
            Some(v) => verb_tag_spec(v) == tag,
            None => !(1 <= tag <= 5),
        },
{
    match tag {
        1 => Some(MdiVerb::Cascade),
        2 => Some(MdiVerb::TileH),
        3 => Some(MdiVerb::TileV),
        4 => Some(MdiVerb::CloseAll),
        5 => Some(MdiVerb::ArrangeIcons),
        _ => None,
    }
}

/// The tag that carries `verb` in a message.
pub fn mdi_verb_to_tag(verb: MdiVerb) -> (tag: u8)
    ensures
        tag == verb_tag_spec(verb),
        1 <= tag <= 5,
{
    match verb {
        MdiVerb::Cascade => 1,
        MdiVerb::TileH => 2,
        MdiVerb::TileV => 3,
        MdiVerb::CloseAll => 4,
        MdiVerb::ArrangeIcons => 5,
    }
}

/// A verb sent as its tag is received as the same verb: distinct verbs
/// have distinct tags.
pub proof fn mdi_verb_tag_round_trip(a: MdiVerb, b: MdiVerb)
    ensures
        verb_tag_spec(a) == verb_tag_spec(b) ==> a == b,
        1 <= verb_tag_spec(a) <= 5,
{
}

/// The UTF-16 code units of `cs`, each character as one unit or as a
/// surrogate pair.
pub open spec fn utf16_units(cs: Seq<char>) -> Seq<u16>
    decreases cs.len(),
{
    if cs.len() == 0 {
        seq![]
    } else {
        let v = cs.last() as u32;
        utf16_units(cs.drop_last()) + if v < 0x10000 {
            seq![v as u16]
        } else {
            seq![(0xD800 + (v - 0x10000) / 0x400) as u16, (0xDC00 + (v - 0x10000) % 0x400) as u16]
        }
    }
}

/// A window title in UTF-16, terminated by a zero unit.
pub fn wide_title(title: &str) -> (w: Vec<u16>)
    ensures
        w@ == utf16_units(title@).push(0u16),
{
    let cs = chars_of(title);
    let mut w: Vec<u16> = Vec::new();
    let mut i: usize = 0;
    while i < cs.len()
        invariant
            i <= cs@.len(),
            w@ == utf16_units(cs@.take(i as int)),
        decreases cs@.len() - i,
    {
        let v = cs[i] as u32;
        proof {
            assert(cs@.take(i + 1).drop_last() =~= cs@.take(i as int));
            assert(cs@.take(i + 1).last() == cs@[i as int]);
            vstd::utf8::char_is_scalar(cs@[i as int]);
        }
        if v < 0x10000 {
            w.push(v as u16);
        } else {
            let u = v - 0x10000;
            w.push((0xD800 + u / 0x400) as u16);
            w.push((0xDC00 + u % 0x400) as u16);
        }
        proof {
            assert(w@ =~= utf16_units(cs@.take(i + 1)));
        }
        i = i + 1;
    }
    proof {
        assert(cs@.take(cs@.len() as int) =~= cs@);
        assert(title@ == cs@);
    }
    w.push(0);
    w
}

/// A request to the GUI thread to open a child window.
pub struct OpenChildRequest {
    /// The title in UTF-16, zero-terminated.
    pub title: Vec<u16>,
    /// Initial size in pixels; 0 lets the system choose.
    pub width: i32,
    pub height: i32,
    /// The new child's id, once the GUI thread has created it.
    pub out: Option<i64>,
}

/// The request to open a child window of the given size titled `title`.
pub fn open_child_sized(title: &str, width: i32, height: i32) -> (req: OpenChildRequest)
    ensures
        req.title@ == utf16_units(title@).push(0u16),
        req.width == width,
        req.height == height,
        req.out is None,
{
    OpenChildRequest { title: wide_title(title), width, height, out: None }
}

/// The request to open a child window titled `title`, of the system's
/// default size.
pub fn open_child(title: &str) -> (req: OpenChildRequest)
    ensures
        req.title@ == utf16_units(title@).push(0u16),
        req.width == 0,
        req.height == 0,
        req.out is None,
{
    open_child_sized(title, 0, 0)
}

/// `CW_USEDEFAULT`: let the system choose a window dimension.
pub const CW_USEDEFAULT: i32 = -2147483648i32;

/// The size passed on to window creation: a positive dimension as asked,
/// otherwise the system's default.
pub fn child_size(width: i32, height: i32) -> (r: (i32, i32))
    ensures
        r.0 == (if width > 0 {
            width
        } else {
            CW_USEDEFAULT
        }),
        r.1 == (if height > 0 {
            height
        } else {
            CW_USEDEFAULT
        }),
{
    (if width > 0 {
        width
    } else {
        CW_USEDEFAULT
    }, if height > 0 {
        height
    } else {
        CW_USEDEFAULT
    })
}

/// The redraw timer interval: none for a non-positive request.
pub fn redraw_interval(interval_ms: i64) -> (r: u64)
    ensures
        r == (if interval_ms <= 0 {
            0
        } else {
            interval_ms as u64
        }),
{
    if interval_ms <= 0 {
        0
    } else {
        interval_ms as u64
    }
}

/// The low 16 bits of a message parameter.
pub open spec fn low_word(x: int) -> int {
    x % 0x10000
}

/// Bits 16 to 31 of a message parameter.
pub open spec fn high_word(x: int) -> int {
    (x / 0x10000) % 0x10000
}

/// A 16-bit word read as a signed value.
pub open spec fn signed16(w: int) -> int {
    if w >= 0x8000 {
        w - 0x10000
    } else {
        w
    }
}

fn low_word_exec(x: i64) -> (r: i64)
    ensures
        r == low_word(x as int),
{
    proof {
        assert(x & 0xFFFFi64 == x % 0x10000) by (bit_vector);
    }
    x & 0xFFFF
}

fn high_word_exec(x: i64) -> (r: i64)
    ensures
        r == high_word(x as int),
{
    proof {
        assert((x >> 16i64) & 0xFFFFi64 == (x / 0x10000) % 0x10000) by (bit_vector);
    }
    (x >> 16) & 0xFFFF
}

fn signed16_exec(w: i64) -> (r: i64)
    requires
        0 <= w < 0x10000,
    ensures
        r == signed16(w as int),
{
    if w >= 0x8000 {
        w - 0x10000
    } else {
        w
    }
}

/// The new client size carried by a resize message: width in the low
/// word, height in the high word.
pub fn resize_size(lparam: i64) -> (r: (i64, i64))
    ensures
        r.0 == low_word(lparam as int),
        r.1 == high_word(lparam as int),
{
    (low_word_exec(lparam), high_word_exec(lparam))
}

/// The signed client coordinates carried by a mouse message.
pub fn mouse_point(lparam: i64) -> (r: (i64, i64))
    ensures
        r.0 == signed16(low_word(lparam as int)),
        r.1 == signed16(high_word(lparam as int)),
{
    (signed16_exec(low_word_exec(lparam)), signed16_exec(high_word_exec(lparam)))
}

/// The scan code (bits 16 to 23) and repeat count (low word) of a key
/// message.
pub fn key_fields(lparam: i64) -> (r: (i64, i64))
    ensures
        r.0 == (lparam as int / 0x10000) % 0x100,
        r.1 == low_word(lparam as int),
{
    proof {
        assert((lparam >> 16i64) & 0xFFi64 == (lparam / 0x10000) % 0x100) by (bit_vector);
    }
    ((lparam >> 16) & 0xFF, low_word_exec(lparam))
}

/// One wheel notch.
pub const WHEEL_DELTA: i64 = 120;

/// The signed wheel rotation in the high word of a wheel message, and the
/// whole notches it makes (rounded toward zero).
pub fn wheel_rotation(wparam: i64) -> (r: (i64, i64))
    ensures
        r.0 == signed16(high_word(wparam as int)),
        r.1 == (if r.0 >= 0 {
            r.0 / 120
        } else {
            -((-r.0) / 120)
        }),
{
    let delta = signed16_exec(high_word_exec(wparam));
    let lines = if delta >= 0 {
        delta / WHEEL_DELTA
    } else {
        -((-delta) / WHEEL_DELTA)
    };
    (delta, lines)
}

/// The command id in the low word of a command message.
pub fn command_id(wparam: u64) -> (r: u16)
    ensures
        r == wparam % 0x10000,
{
    proof {
        assert(wparam & 0xFFFFu64 == wparam % 0x10000) by (bit_vector);
    }
    (wparam & 0xFFFF) as u16
}

/// A colour value: red in the low byte, then green, then blue.
pub fn rgb(r: u8, g: u8, b: u8) -> (c: u32)
    ensures
        c == r + 0x100 * g + 0x10000 * b,
{
    r as u32 + 0x100 * (g as u32) + 0x10000 * (b as u32)
}

// ---------------------------------------------------------------------
// Routing of the frame window's messages

pub const WM_DESTROY: u32 = 0x0002;
pub const WM_SIZE: u32 = 0x0005;
pub const WM_SETFOCUS: u32 = 0x0007;
pub const WM_KILLFOCUS: u32 = 0x0008;
pub const WM_CLOSE: u32 = 0x0010;
pub const WM_SYSCOLORCHANGE: u32 = 0x0015;
pub const WM_KEYDOWN: u32 = 0x0100;
pub const WM_KEYUP: u32 = 0x0101;
pub const WM_CHAR: u32 = 0x0102;
pub const WM_SYSKEYDOWN: u32 = 0x0104;
pub const WM_SYSKEYUP: u32 = 0x0105;
pub const WM_COMMAND: u32 = 0x0111;
pub const WM_MOUSEMOVE: u32 = 0x0200;
pub const WM_LBUTTONDOWN: u32 = 0x0201;
pub const WM_LBUTTONUP: u32 = 0x0202;
pub const WM_RBUTTONDOWN: u32 = 0x0204;
pub const WM_RBUTTONUP: u32 = 0x0205;
pub const WM_MBUTTONDOWN: u32 = 0x0207;
pub const WM_MBUTTONUP: u32 = 0x0208;
pub const WM_MOUSEWHEEL: u32 = 0x020A;
pub const WM_THEMECHANGED: u32 = 0x031A;
pub const WM_USER: u32 = 0x0400;

/// Private messages that carry the language thread's requests to the
/// GUI thread.
pub const WM_IGUI_OPEN_CHILD: u32 = 0x0401;
pub const WM_IGUI_CLOSE_CHILD: u32 = 0x0402;
pub const WM_IGUI_SET_TITLE: u32 = 0x0403;
pub const WM_IGUI_SET_MENU: u32 = 0x0404;
pub const WM_IGUI_MDI_VERB: u32 = 0x0405;
pub const WM_IGUI_SET_TIMER: u32 = 0x0406;
pub const WM_IGUI_OPEN_TEXT: u32 = 0x0407;
pub const WM_IGUI_TEXT_FLUSH: u32 = 0x0408;
pub const WM_IGUI_FCONSOLE_FLUSH: u32 = 0x0409;

/// A mouse event other than a wheel turn.
#[derive(Clone, Copy, PartialEq, Eq, Structural, Debug)]
pub enum MouseOp {
    Move,
    LeftDown,
    LeftUp,
    RightDown,
    RightUp,
    MiddleDown,
    MiddleUp,
}

/// What the frame window does with one message.
#[derive(Clone, Copy, PartialEq, Eq, Structural, Debug)]
pub enum FrameAction {
    /// Serve the open-child request that the message points at.
    OpenChild,
    /// Serve the open-text-view request that the message points at.
    OpenText,
    /// Apply the queued text of a text-view child.
    TextFlush { child_id: i64 },
    /// Apply the console's queued lines.
    ConsoleFlush,
    /// Serve the close-child request that the message points at.
    CloseChild,
    /// Serve the set-title request that the message points at.
    SetTitle,
    /// Serve the set-menu request that the message points at.
    SetMenu,
    /// Carry out a window-arrangement verb.
    Verb { verb: MdiVerb },
    /// A verb message with an unknown tag: nothing to do.
    Ignore,
    /// A menu or accelerator command.
    Command { cmd_id: u16 },
    /// The frame's client area changed size.
    Resize { width: i64, height: i64 },
    /// A key went down or up.
    Key { down: bool, vkey: i64, scancode: i64, repeat: i64 },
    /// A character was typed.
    Char { codepoint: i64 },
    /// The mouse moved or a button changed; `button` is 0 for a move,
    /// then 1, 2, 3 for the left, right and middle buttons.
    Mouse { op: MouseOp, button: i64, x: i64, y: i64 },
    /// The wheel turned by `delta`, that is `lines` whole notches.
    Wheel { delta: i64, lines: i64, x: i64, y: i64 },
    /// The frame gained or lost the focus.
    Focus { gained: bool },
    /// The system colours or theme changed.
    ColorsChanged,
    /// The frame is asked to close: close every child, then the frame.
    Close,
    /// The frame is gone: end the message loop.
    Destroy,
    /// Nothing of the frame's own: default processing only.
    Default,
}

/// The mouse action of a button or move message, if it is one.
pub open spec fn mouse_op_of(msg: u32) -> Option<(MouseOp, int)> {
    if msg == WM_MOUSEMOVE {
        Some((MouseOp::Move, 0))
    } else if msg == WM_LBUTTONDOWN {
        Some((MouseOp::LeftDown, 1))
    } else if msg == WM_LBUTTONUP {
        Some((MouseOp::LeftUp, 1))
    } else if msg == WM_RBUTTONDOWN {
        Some((MouseOp::RightDown, 2))
    } else if msg == WM_RBUTTONUP {
        Some((MouseOp::RightUp, 2))
    } else if msg == WM_MBUTTONDOWN {
        Some((MouseOp::MiddleDown, 3))
    } else if msg == WM_MBUTTONUP {
        Some((MouseOp::MiddleUp, 3))
    } else {
        None
    }
}

/// Whole wheel notches in a rotation, rounded toward zero.
pub open spec fn notches(delta: int) -> int {
    if delta >= 0 {
        delta / 120
    } else {
        -((-delta) / 120)
    }
}

/// The action for message `msg` with parameters `wparam` and `lparam`.
pub open spec fn frame_action_spec(msg: u32, wparam: u64, lparam: i64) -> FrameAction {
    let w = wparam as i64;
    if msg == WM_IGUI_OPEN_CHILD {
        FrameAction::OpenChild
    } else if msg == WM_IGUI_OPEN_TEXT {
        FrameAction::OpenText
    } else if msg == WM_IGUI_TEXT_FLUSH {
        FrameAction::TextFlush { child_id: w }
    } else if msg == WM_IGUI_FCONSOLE_FLUSH {
        FrameAction::ConsoleFlush
    } else if msg == WM_IGUI_CLOSE_CHILD {
        FrameAction::CloseChild
    } else if msg == WM_IGUI_SET_TITLE {
        FrameAction::SetTitle
    } else if msg == WM_IGUI_SET_MENU {
        FrameAction::SetMenu
    } else if msg == WM_IGUI_MDI_VERB {
        match verb_of_tag((wparam % 0x100) as u8) {
            Some(verb) => FrameAction::Verb { verb },
            None => FrameAction::Ignore,
        }
    } else if msg == WM_COMMAND {
        FrameAction::Command { cmd_id: (wparam % 0x10000) as u16 }
    } else if msg == WM_SIZE {
        FrameAction::Resize {
            width: low_word(lparam as int) as i64,
            height: high_word(lparam as int) as i64,
        }
    } else if msg == WM_KEYDOWN || msg == WM_SYSKEYDOWN || msg == WM_KEYUP || msg
        == WM_SYSKEYUP {
        FrameAction::Key {
            down: msg == WM_KEYDOWN || msg == WM_SYSKEYDOWN,
            vkey: w,
            scancode: ((lparam as int / 0x10000) % 0x100) as i64,
            repeat: low_word(lparam as int) as i64,
        }
    } else if msg == WM_CHAR {
        FrameAction::Char { codepoint: w }
    } else if mouse_op_of(msg) is Some {
        let (op, button) = mouse_op_of(msg)->0;
        FrameAction::Mouse {
            op,
            button: button as i64,
            x: signed16(low_word(lparam as int)) as i64,
            y: signed16(high_word(lparam as int)) as i64,
        }
    } else if msg == WM_MOUSEWHEEL {
        let delta = signed16(high_word(w as int));
        FrameAction::Wheel {
            delta: delta as i64,
            lines: notches(delta) as i64,
            x: signed16(low_word(lparam as int)) as i64,
            y: signed16(high_word(lparam as int)) as i64,
        }
    } else if msg == WM_SETFOCUS {
        FrameAction::Focus { gained: true }
    } else if msg == WM_KILLFOCUS {
        FrameAction::Focus { gained: false }
    } else if msg == WM_SYSCOLORCHANGE || msg == WM_THEMECHANGED {
        FrameAction::ColorsChanged
    } else if msg == WM_CLOSE {
        FrameAction::Close
    } else if msg == WM_DESTROY {
        FrameAction::Destroy
    } else {
        FrameAction::Default
    }
}

/// Focus changes are reported as such and only for the focus messages:
/// gaining the focus for `WM_SETFOCUS`, losing it for `WM_KILLFOCUS`,
/// whatever the parameters.
pub proof fn focus_messages_report_their_direction(msg: u32, wparam: u64, lparam: i64)
    ensures
        frame_action_spec(WM_SETFOCUS, wparam, lparam) == (FrameAction::Focus { gained: true }),
        frame_action_spec(WM_KILLFOCUS, wparam, lparam) == (FrameAction::Focus { gained: false }),
        frame_action_spec(msg, wparam, lparam) is Focus ==> (msg == WM_SETFOCUS || msg
            == WM_KILLFOCUS),
        frame_action_spec(msg, wparam, lparam) is Focus ==> (frame_action_spec(
            msg,
            wparam,
            lparam,
        )->gained <==> msg == WM_SETFOCUS),
{
}

/// Whether the system's default frame processing follows the action.
pub open spec fn passes_to_default(a: FrameAction) -> bool {
    match a {
        FrameAction::Resize { .. } | FrameAction::Key { .. } | FrameAction::Char { .. }
        | FrameAction::Mouse { .. } | FrameAction::Wheel { .. } | FrameAction::Focus { .. }
        | FrameAction::ColorsChanged | FrameAction::Default => true,
        _ => false,
    }
}

/// The mouse action of a button or move message, if it is one.
fn mouse_op_exec(msg: u32) -> (r: Option<(MouseOp, i64)>)
    ensures
        match mouse_op_of(msg) {
            Some(p) => r matches Some(q) && q.0 == p.0 && q.1 == p.1,
            None => r is None,
        },
{
    if msg == WM_MOUSEMOVE {
        Some((MouseOp::Move, 0))
    } else if msg == WM_LBUTTONDOWN {
        Some((MouseOp::LeftDown, 1))
    } else if msg == WM_LBUTTONUP {
        Some((MouseOp::LeftUp, 1))
    } else if msg == WM_RBUTTONDOWN {
        Some((MouseOp::RightDown, 2))
    } else if msg == WM_RBUTTONUP {
        Some((MouseOp::RightUp, 2))
    } else if msg == WM_MBUTTONDOWN {
        Some((MouseOp::MiddleDown, 3))
    } else if msg == WM_MBUTTONUP {
        Some((MouseOp::MiddleUp, 3))
    } else {
        None
    }
}

/// Decides what the frame window does with message `msg`; the window
/// procedure carries the action out.
pub fn frame_action(msg: u32, wparam: u64, lparam: i64) -> (a: FrameAction)
    ensures
        a == frame_action_spec(msg, wparam, lparam),
{
    let w = wparam as i64;
    if msg == WM_IGUI_OPEN_CHILD {
        FrameAction::OpenChild
    } else if msg == WM_IGUI_OPEN_TEXT {
        FrameAction::OpenText
    } else if msg == WM_IGUI_TEXT_FLUSH {
        FrameAction::TextFlush { child_id: w }
    } else if msg == WM_IGUI_FCONSOLE_FLUSH {
        FrameAction::ConsoleFlush
    } else if msg == WM_IGUI_CLOSE_CHILD {
        FrameAction::CloseChild
    } else if msg == WM_IGUI_SET_TITLE {
        FrameAction::SetTitle
    } else if msg == WM_IGUI_SET_MENU {
        FrameAction::SetMenu
    } else if msg == WM_IGUI_MDI_VERB {
        proof {
            assert(wparam & 0xFFu64 == wparam % 0x100) by (bit_vector);
        }
        let tag = (wparam & 0xFF) as u8;
        match mdi_verb_from_tag(tag) {
            Some(verb) => FrameAction::Verb { verb },
            None => FrameAction::Ignore,
        }
    } else if msg == WM_COMMAND {
        FrameAction::Command { cmd_id: command_id(wparam) }
    } else if msg == WM_SIZE {
        let (width, height) = resize_size(lparam);
        FrameAction::Resize { width, height }
    } else if msg == WM_KEYDOWN || msg == WM_SYSKEYDOWN || msg == WM_KEYUP || msg
        == WM_SYSKEYUP {
        let (scancode, repeat) = key_fields(lparam);
        FrameAction::Key {
            down: msg == WM_KEYDOWN || msg == WM_SYSKEYDOWN,
            vkey: w,
            scancode,
            repeat,
        }
    } else if msg == WM_CHAR {
        FrameAction::Char { codepoint: w }
    } else {
        match mouse_op_exec(msg) {
            Some((op, button)) => {
                let (x, y) = mouse_point(lparam);
                FrameAction::Mouse { op, button, x, y }
            },
            None => {
                if msg == WM_MOUSEWHEEL {
                    let (delta, lines) = wheel_rotation(w);
                    let (x, y) = mouse_point(lparam);
                    FrameAction::Wheel { delta, lines, x, y }
                } else if msg == WM_SETFOCUS {
                    FrameAction::Focus { gained: true }
                } else if msg == WM_KILLFOCUS {
                    FrameAction::Focus { gained: false }
                } else if msg == WM_SYSCOLORCHANGE || msg == WM_THEMECHANGED {
                    FrameAction::ColorsChanged
                } else if msg == WM_CLOSE {
                    FrameAction::Close
                } else if msg == WM_DESTROY {
                    FrameAction::Destroy
                } else {
                    FrameAction::Default
                }
            },
        }
    }
}

impl FrameAction {
    /// Whether the system's default frame processing follows this action.
    pub fn passes_to_default(&self) -> (r: bool)
        ensures
            r == passes_to_default(*self),
    {
        match self {
            FrameAction::Resize { .. } | FrameAction::Key { .. } | FrameAction::Char { .. }
            | FrameAction::Mouse { .. } | FrameAction::Wheel { .. } | FrameAction::Focus { .. }
            | FrameAction::ColorsChanged | FrameAction::Default => true,
            _ => false,
        }
    }
}

/// The message loop's step on what getting a message returned: `None` to
/// go on; the exit code when it returned 0 (the quit message, whose
/// `wparam` is the code) or -1 (a failure).
pub fn pump_exit(get_result: i32, wparam: u64) -> (r: Option<i32>)
    ensures
        r == (if get_result == 0 {
            Some(wparam as i32)
        } else if get_result == -1 {
            Some(1i32)
        } else {
            None
        }),
{
    if get_result == 0 {
        Some(wparam as i32)
    } else if get_result == -1 {
        Some(1)
    } else {
        None
    }
}

// ---------------------------------------------------------------------
// Requests and messages sent to the GUI thread

/// A request to open a text-view child window.
pub struct OpenTextRequest {
    /// The title in UTF-16, zero-terminated.
    pub title: Vec<u16>,
    /// The new child's id, once the GUI thread has created it.
    pub out: Option<i64>,
}

/// The request to open a text-view child titled `title`.
pub fn open_text_child(title: &str) -> (req: OpenTextRequest)
    ensures
        req.title@ == utf16_units(title@).push(0u16),
        req.out is None,
{
    OpenTextRequest { title: wide_title(title), out: None }
}

/// A request to close a child window.
pub struct CloseChildRequest {
    pub child_id: i64,
    /// Whether the GUI thread closed it.
    pub ok: bool,
}

/// The request to close child `child_id`.
pub fn close_child(child_id: i64) -> (req: CloseChildRequest)
    ensures
        req.child_id == child_id,
        !req.ok,
{
    CloseChildRequest { child_id, ok: false }
}

/// A request to install a menu bar described by `spec`.
pub struct SetMenuRequest {
    pub spec: String,
    /// Whether the GUI thread installed it.
    pub ok: bool,
}

/// The request to install the menu bar described by `spec`.
pub fn set_menu(spec: &str) -> (req: SetMenuRequest)
    ensures
        req.spec@ == spec@,
        !req.ok,
{
    SetMenuRequest { spec: spec.to_owned(), ok: false }
}

/// A request to retitle a child window.
pub struct SetTitleRequest {
    pub child_id: i64,
    /// The title in UTF-16, zero-terminated.
    pub title: Vec<u16>,
}

/// The request to title child `child_id` with `title`.
pub fn set_child_title(child_id: i64, title: &str) -> (req: SetTitleRequest)
    ensures
        req.child_id == child_id,
        req.title@ == utf16_units(title@).push(0u16),
{
    SetTitleRequest { child_id, title: wide_title(title) }
}

/// The message, and its `wparam`, that asks the frame to carry out `verb`.
pub fn dispatch_mdi_verb(verb: MdiVerb) -> (m: (u32, u64))
    ensures
        m.0 == WM_IGUI_MDI_VERB,
        m.1 == verb_tag_spec(verb),
{
    (WM_IGUI_MDI_VERB, mdi_verb_to_tag(verb) as u64)
}

/// The message, and its `wparam`, that asks the frame to apply the queued
/// text of child `child_id`.
pub fn post_text_flush(child_id: i64) -> (m: (u32, u64))
    ensures
        m.0 == WM_IGUI_TEXT_FLUSH,
        m.1 == child_id as u64,
{
    (WM_IGUI_TEXT_FLUSH, child_id as u64)
}

/// The message that asks the frame to apply the console's queued lines.
pub fn post_fconsole_flush() -> (m: (u32, u64))
    ensures
        m == (WM_IGUI_FCONSOLE_FLUSH, 0u64),
{
    (WM_IGUI_FCONSOLE_FLUSH, 0)
}

/// The message, and its `wparam`, that sets a child's redraw timer to
/// `interval_ms` (cleared for a non-positive interval).
pub fn set_redraw_rate(interval_ms: i64) -> (m: (u32, u64))
    ensures
        m.0 == WM_IGUI_SET_TIMER,
        m.1 == (if interval_ms <= 0 {
            0
        } else {
            interval_ms as u64
        }),
{
    (WM_IGUI_SET_TIMER, redraw_interval(interval_ms))
}

/// What the language thread sends, the frame carries out: a verb
/// dispatched is the verb the frame performs, a text flush names the same
/// child, and a console flush is a console flush.
pub proof fn sent_messages_are_understood(verb: MdiVerb, child_id: i64)
    ensures
        frame_action_spec(WM_IGUI_MDI_VERB, verb_tag_spec(verb) as u64, 0) == (FrameAction::Verb {
            verb,
        }),
        frame_action_spec(WM_IGUI_TEXT_FLUSH, child_id as u64, 0) == (FrameAction::TextFlush {
            child_id,
        }),
        frame_action_spec(WM_IGUI_FCONSOLE_FLUSH, 0, 0) == FrameAction::ConsoleFlush,
{
    assert((child_id as u64) as i64 == child_id) by (bit_vector);
}

// ---------------------------------------------------------------------
// Routing of menu commands

/// The command of the Forth menu's Restart item.
pub const FORTH_RESTART_CMD_ID: u16 = 0x3200;

/// The command that opens the console (its Tools menu item).
pub const CONSOLE_CMD_ID: u16 = 0x3002;

/// The command ids of the built-in editor tools.
pub struct ToolIds {
    /// Opens the editor.
    pub editor: u16,
    /// Opens the log view.
    pub log: u16,
    /// The range of the editor's Edit-menu commands.
    pub edit_first: u16,
    pub edit_last: u16,
}

/// Where a menu or accelerator command goes.
#[derive(Clone, Copy, PartialEq, Eq, Structural, Debug)]
pub enum CommandRoute {
    OpenEditor,
    OpenLog,
    OpenConsole,
    /// A fresh Forth session.
    Restart,
    /// An Edit-menu command, forwarded to the active child.
    ToActiveChild,
    /// A window-arrangement verb of the installed menu.
    Verb { verb: MdiVerb },
    /// An item of the user's menu, for the language thread.
    UserMenu { item_id: i64 },
}

pub open spec fn command_route_spec(cmd_id: u16, ids: ToolIds, verb: Option<MdiVerb>) -> CommandRoute {
    if cmd_id == ids.editor {
        CommandRoute::OpenEditor
    } else if cmd_id == ids.log {
        CommandRoute::OpenLog
    } else if cmd_id == CONSOLE_CMD_ID {
        CommandRoute::OpenConsole
    } else if cmd_id == FORTH_RESTART_CMD_ID {
        CommandRoute::Restart
    } else if ids.edit_first <= cmd_id <= ids.edit_last {
        CommandRoute::ToActiveChild
    } else {
        match verb {
            Some(v) => CommandRoute::Verb { verb: v },
            None => CommandRoute::UserMenu { item_id: cmd_id as i64 },
        }
    }
}

/// Routes command `cmd_id`: the built-in tools first, then Restart, the
/// Edit-menu range, a verb of the installed menu (`verb`, what the menu
/// maps the id to), and otherwise the user's own menu.
pub fn command_route(cmd_id: u16, ids: &ToolIds, verb: Option<MdiVerb>) -> (r: CommandRoute)
    ensures
        r == command_route_spec(cmd_id, *ids, verb),
{
    if cmd_id == ids.editor {
        CommandRoute::OpenEditor
    } else if cmd_id == ids.log {
        CommandRoute::OpenLog
    } else if cmd_id == CONSOLE_CMD_ID {
        CommandRoute::OpenConsole
    } else if cmd_id == FORTH_RESTART_CMD_ID {
        CommandRoute::Restart
    } else if ids.edit_first <= cmd_id && cmd_id <= ids.edit_last {
        CommandRoute::ToActiveChild
    } else {
        match verb {
            Some(v) => CommandRoute::Verb { verb: v },
            None => CommandRoute::UserMenu { item_id: cmd_id as i64 },
        }
    }
}

} // verus!
