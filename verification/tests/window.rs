use wf64::igui::window::{command_route, CommandRoute, ToolIds, CONSOLE_CMD_ID, FORTH_RESTART_CMD_ID};
use wf64::igui::window::{
    close_child, dispatch_mdi_verb, open_text_child, post_fconsole_flush, post_text_flush,
    set_child_title, set_menu, set_redraw_rate, WM_IGUI_FCONSOLE_FLUSH, WM_IGUI_SET_TIMER,
};
use wf64::igui::window::{
    frame_action, pump_exit, FrameAction, MouseOp, WM_CHAR, WM_CLOSE, WM_COMMAND, WM_DESTROY,
    WM_IGUI_MDI_VERB, WM_IGUI_OPEN_CHILD, WM_IGUI_TEXT_FLUSH, WM_KEYUP, WM_MOUSEWHEEL,
    WM_RBUTTONDOWN, WM_SIZE, WM_SYSKEYDOWN, WM_THEMECHANGED,
};
use wf64::igui::window::{
    child_size, command_id, key_fields, mdi_verb_from_tag, mdi_verb_to_tag, mouse_point,
    open_child, open_child_sized, redraw_interval, resize_size, rgb, wheel_rotation, wide_title,
    MdiVerb, CW_USEDEFAULT,
};

#[test]
fn mdi_verbs_round_trip_through_tags() {
    for v in [MdiVerb::Cascade, MdiVerb::TileH, MdiVerb::TileV, MdiVerb::CloseAll, MdiVerb::ArrangeIcons] {
        assert_eq!(mdi_verb_from_tag(mdi_verb_to_tag(v)), Some(v));
    }
    assert_eq!(mdi_verb_from_tag(0), None);
    assert_eq!(mdi_verb_from_tag(6), None);
    assert_eq!(mdi_verb_to_tag(MdiVerb::CloseAll), 4);
}

#[test]
fn titles_are_utf16_with_terminator() {
    assert_eq!(wide_title("ab"), vec![0x61, 0x62, 0]);
    assert_eq!(wide_title("∴ x"), vec![0x2234, 0x20, 0x78, 0]);
    assert_eq!(wide_title("😀"), vec![0xD83D, 0xDE00, 0]);
    let req = open_child("∴ console");
    assert_eq!(req.title, "∴ console".encode_utf16().chain([0]).collect::<Vec<u16>>());
    assert_eq!((req.width, req.height, req.out), (0, 0, None));
    let req = open_child_sized("w", 640, 480);
    assert_eq!((req.width, req.height), (640, 480));
}

#[test]
fn child_size_defaults() {
    assert_eq!(child_size(640, 0), (640, CW_USEDEFAULT));
    assert_eq!(child_size(-1, 10), (CW_USEDEFAULT, 10));
    assert_eq!(redraw_interval(-5), 0);
    assert_eq!(redraw_interval(16), 16);
}

#[test]
fn message_words_decode() {
    assert_eq!(resize_size(0x0258_0320), (800, 600));
    assert_eq!(mouse_point(0xFFFF_FFFE), (-2, -1));
    assert_eq!(mouse_point(0x0010_0020), (32, 16));
    assert_eq!(key_fields(0x001E_0001), (0x1E, 1));
    assert_eq!(wheel_rotation(0xFF88_0000), (-120, -1));
    assert_eq!(wheel_rotation(0x00F0_0000), (240, 2));
    assert_eq!(wheel_rotation(0xFFC4_0000), (-60, 0));
    assert_eq!(command_id(0x1_3002), 0x3002);
}

#[test]
fn colours_pack_red_low() {
    assert_eq!(rgb(0x12, 0x34, 0x56), 0x0056_3412);
}

#[test]
fn frame_routes_requests_and_verbs() {
    assert_eq!(frame_action(WM_IGUI_OPEN_CHILD, 0, 0), FrameAction::OpenChild);
    assert_eq!(frame_action(WM_IGUI_TEXT_FLUSH, 7, 0), FrameAction::TextFlush { child_id: 7 });
    assert_eq!(frame_action(WM_IGUI_MDI_VERB, 4, 0), FrameAction::Verb { verb: MdiVerb::CloseAll });
    assert_eq!(frame_action(WM_IGUI_MDI_VERB, 0x102, 0), FrameAction::Verb { verb: MdiVerb::TileH });
    assert_eq!(frame_action(WM_IGUI_MDI_VERB, 9, 0), FrameAction::Ignore);
    assert_eq!(frame_action(WM_COMMAND, 0x0001_3200, 0), FrameAction::Command { cmd_id: 0x3200 });
    assert_eq!(frame_action(WM_CLOSE, 0, 0), FrameAction::Close);
    assert_eq!(frame_action(WM_DESTROY, 0, 0), FrameAction::Destroy);
    assert_eq!(frame_action(0x7777, 0, 0), FrameAction::Default);
}

#[test]
fn frame_decodes_input_messages() {
    assert_eq!(frame_action(WM_SIZE, 0, 0x00C8_0190), FrameAction::Resize { width: 400, height: 200 });
    assert_eq!(
        frame_action(WM_SYSKEYDOWN, 0x41, 0x001E_0001),
        FrameAction::Key { down: true, vkey: 0x41, scancode: 0x1E, repeat: 1 }
    );
    assert_eq!(
        frame_action(WM_KEYUP, 0x41, 0xC01E_0001),
        FrameAction::Key { down: false, vkey: 0x41, scancode: 0x1E, repeat: 1 }
    );
    assert_eq!(frame_action(WM_CHAR, 0x3BB, 0), FrameAction::Char { codepoint: 0x3BB });
    assert_eq!(
        frame_action(WM_RBUTTONDOWN, 0, 0xFFFF_0005),
        FrameAction::Mouse { op: MouseOp::RightDown, button: 2, x: 5, y: -1 }
    );
    assert_eq!(
        frame_action(WM_MOUSEWHEEL, 0xFF10_0000, 0x0002_0003),
        FrameAction::Wheel { delta: -240, lines: -2, x: 3, y: 2 }
    );
    assert_eq!(frame_action(WM_THEMECHANGED, 0, 0), FrameAction::ColorsChanged);
}

#[test]
fn frame_default_processing_follows_input_only() {
    assert!(frame_action(WM_SIZE, 0, 0).passes_to_default());
    assert!(frame_action(WM_CHAR, 0x41, 0).passes_to_default());
    assert!(frame_action(0x7777, 0, 0).passes_to_default());
    assert!(!frame_action(WM_IGUI_OPEN_CHILD, 0, 0).passes_to_default());
    assert!(!frame_action(WM_COMMAND, 5, 0).passes_to_default());
    assert!(!frame_action(WM_CLOSE, 0, 0).passes_to_default());
}

#[test]
fn message_loop_stops_on_quit_or_failure() {
    assert_eq!(pump_exit(1, 0), None);
    assert_eq!(pump_exit(0, 3), Some(3));
    assert_eq!(pump_exit(-1, 3), Some(1));
}

#[test]
fn requests_carry_their_arguments() {
    let t = open_text_child("log");
    assert_eq!(t.title, vec![0x6C, 0x6F, 0x67, 0]);
    assert_eq!(t.out, None);
    let c = close_child(12);
    assert_eq!(c.child_id, 12);
    assert!(!c.ok);
    let m = set_menu("File|Open");
    assert_eq!(m.spec, "File|Open");
    assert!(!m.ok);
    let s = set_child_title(3, "∴");
    assert_eq!(s.child_id, 3);
    assert_eq!(s.title, vec![0x2234, 0]);
}

#[test]
fn sent_messages_are_routed_back() {
    for v in [MdiVerb::Cascade, MdiVerb::TileH, MdiVerb::TileV, MdiVerb::CloseAll, MdiVerb::ArrangeIcons] {
        let (msg, wparam) = dispatch_mdi_verb(v);
        assert_eq!(frame_action(msg, wparam, 0), FrameAction::Verb { verb: v });
    }
    let (msg, wparam) = post_text_flush(-5);
    assert_eq!(frame_action(msg, wparam, 0), FrameAction::TextFlush { child_id: -5 });
    assert_eq!(post_fconsole_flush(), (WM_IGUI_FCONSOLE_FLUSH, 0));
    let (msg, _) = post_fconsole_flush();
    assert_eq!(frame_action(msg, 0, 0), FrameAction::ConsoleFlush);
    assert_eq!(set_redraw_rate(16), (WM_IGUI_SET_TIMER, 16));
    assert_eq!(set_redraw_rate(-1), (WM_IGUI_SET_TIMER, 0));
}

#[test]
fn commands_go_to_tools_first_then_menus() {
    let ids = ToolIds { editor: 0x3001, log: 0x3003, edit_first: 0x3100, edit_last: 0x31FF };
    assert_eq!(command_route(0x3001, &ids, None), CommandRoute::OpenEditor);
    assert_eq!(command_route(0x3003, &ids, None), CommandRoute::OpenLog);
    assert_eq!(command_route(CONSOLE_CMD_ID, &ids, None), CommandRoute::OpenConsole);
    assert_eq!(command_route(FORTH_RESTART_CMD_ID, &ids, None), CommandRoute::Restart);
    assert_eq!(command_route(0x3150, &ids, Some(MdiVerb::TileH)), CommandRoute::ToActiveChild);
    assert_eq!(command_route(0x5000, &ids, Some(MdiVerb::TileH)), CommandRoute::Verb { verb: MdiVerb::TileH });
    assert_eq!(command_route(0x5000, &ids, None), CommandRoute::UserMenu { item_id: 0x5000 });
}
