use square_wheel::commands_processor::{CommandOutcome, CommandsProcessor};
use square_wheel::commands_queue::CommandsQueue;
use square_wheel::config_value::ConfigValue;
use square_wheel::console::{Console, ConsoleKey};
use square_wheel::dynamic_objects_index::DynamicObjectsIndex;
use square_wheel::fixed_math::{fixed16_div, fixed16_mul, fixed16_mul_div};
use square_wheel::host::{
    plan_frame, FramePath,
    resize_window_size, sanitize_host_settings, window_mode, HostEvent, HostInputState, HostKey, ResizeWindowError,
    WindowMode,
};
use square_wheel::rasterizer::{polygon_parts, PolygonPointProjected};
use square_wheel::triangle_model_iqm::frame_channel_values;

fn setup() -> (HostInputState, Console, CommandsProcessor, ConfigValue) {
    let mut p = CommandsProcessor::new();
    p.register_command_queue(CommandsQueue::new(vec!["quit".to_string()]));
    (HostInputState::new(), Console::new(), p, ConfigValue::Object(vec![]))
}

#[test]
fn escape_closes_console_before_quitting() {
    let (mut s, mut c, mut p, mut g) = setup();
    s.process_event(&mut c, &mut p, &mut g, &HostEvent::KeyDown(HostKey::Backquote));
    assert!(c.is_active());
    s.process_event(&mut c, &mut p, &mut g, &HostEvent::KeyDown(HostKey::Escape));
    assert!(!c.is_active());
    assert!(!s.quit_requested);
    s.process_event(&mut c, &mut p, &mut g, &HostEvent::KeyDown(HostKey::Escape));
    assert!(s.quit_requested);
}

#[test]
fn text_goes_to_open_console_except_with_backquote() {
    let (mut s, mut c, mut p, mut g) = setup();
    s.process_event(&mut c, &mut p, &mut g, &HostEvent::TextInput("ignored".to_string()));
    assert_eq!(c.get_input_line(), "");
    s.process_event(&mut c, &mut p, &mut g, &HostEvent::KeyDown(HostKey::Backquote));
    s.process_event(&mut c, &mut p, &mut g, &HostEvent::TextInput("`".to_string()));
    assert_eq!(c.get_input_line(), "");
    s.begin_frame_events();
    s.process_event(&mut c, &mut p, &mut g, &HostEvent::TextInput("quit".to_string()));
    assert_eq!(c.get_input_line(), "quit");
    let out = s.process_event(&mut c, &mut p, &mut g, &HostEvent::KeyDown(HostKey::Console(ConsoleKey::Return)));
    assert!(matches!(out, CommandOutcome::Done));
    assert_eq!(c.get_input_line(), "");
}

#[test]
fn quit_and_screenshot_requests() {
    let (mut s, mut c, mut p, mut g) = setup();
    s.process_event(&mut c, &mut p, &mut g, &HostEvent::KeyDown(HostKey::F12));
    assert!(s.screenshot_requested);
    s.process_event(&mut c, &mut p, &mut g, &HostEvent::Quit);
    assert!(s.quit_requested);
}

#[test]
fn host_settings_are_brought_within_bounds() {
    assert_eq!(sanitize_host_settings(1, 3), (1, 3, false));
    assert_eq!(sanitize_host_settings(5, 3), (0, 3, true));
    assert_eq!(sanitize_host_settings(2, 0), (2, 1, true));
    assert_eq!(sanitize_host_settings(0, 9), (0, 6, true));
    assert!(matches!(window_mode(1), Some(WindowMode::FullscreenDesktop)));
    assert!(window_mode(3).is_none());
}

#[test]
fn resize_window_arguments() {
    let args = |v: &[&str]| v.iter().map(|s| s.to_string()).collect::<Vec<String>>();
    assert!(matches!(resize_window_size(&args(&["640", "480"])), Ok((640, 480))));
    assert!(matches!(resize_window_size(&args(&["640"])), Err(ResizeWindowError::ExpectedTwoArgs)));
    assert!(matches!(resize_window_size(&args(&["640", "4294967296"])), Err(ResizeWindowError::FailedToParseArgs)));
    assert!(matches!(resize_window_size(&args(&["x", "1"])), Err(ResizeWindowError::FailedToParseArgs)));
    assert_eq!(ResizeWindowError::ExpectedTwoArgs.message(), "Expected two args");
    assert_eq!(ResizeWindowError::FailedToParseArgs.message(), "Failed to parse args");
}

#[test]
fn fixed_point_products_and_quotients() {
    assert_eq!(fixed16_mul(3 << 16, 1 << 15), 3 << 15);
    assert_eq!(fixed16_mul(-1, 1), -1);
    assert_eq!(fixed16_div(1 << 16, 3 << 16), 21845);
    assert_eq!(fixed16_div(-(1 << 16), 3 << 16), -21845);
    assert_eq!(fixed16_mul_div(7, 9, 2), 31);
}

fn p(x: i32, y: i32) -> PolygonPointProjected {
    PolygonPointProjected { x: x << 16, y: y << 16 }
}

#[test]
fn triangle_is_split_into_bands() {
    // Clockwise on screen (y down): top, right, bottom-left.
    let parts = polygon_parts(&vec![p(10, 0), p(20, 10), p(0, 20)]);
    assert_eq!(parts.len(), 2);
    assert_eq!((parts[0].y_start, parts[0].y_end), (0, 10 << 16));
    assert_eq!((parts[1].y_start, parts[1].y_end), (10 << 16, 20 << 16));
    assert_eq!(parts[0].left.x_start, 10 << 16);
    assert_eq!(parts[0].left.dx_dy, -(1 << 15));
    assert_eq!(parts[0].right.x_start, 10 << 16);
    assert_eq!(parts[0].right.dx_dy, 1 << 16);
    assert_eq!(parts[1].right.x_start, 20 << 16);
    assert_eq!(parts[1].right.dx_dy, -(2 << 16));
}

#[test]
fn flat_polygon_has_no_bands() {
    assert!(polygon_parts(&vec![p(0, 5), p(10, 5), p(20, 5)]).is_empty());
    assert!(polygon_parts(&vec![p(3, 3)]).is_empty());
}

#[test]
fn frame_channels_are_read_in_pose_order() {
    let mut bytes = vec![0u8; 4];
    for v in [1u16, 2, 3, 4, 5, 6] {
        bytes.extend_from_slice(&v.to_le_bytes());
    }
    // Pose 0 animates channels 0 and 3, pose 1 channel 9.
    let masks = vec![0b1001, 0b10_0000_0000];
    let frames = frame_channel_values(&bytes, 4, 2, &masks).unwrap();
    assert_eq!(frames.len(), 4);
    assert_eq!(frames[0][0], 1);
    assert_eq!(frames[0][3], 2);
    assert_eq!(frames[0][1], 0);
    assert_eq!(frames[1][9], 3);
    assert_eq!(frames[2][0], 4);
    assert_eq!(frames[3][9], 6);
    assert!(frame_channel_values(&bytes, 4, 3, &masks).is_none());
    assert_eq!(frame_channel_values(&bytes, 100, 5, &vec![0, 0]).unwrap().len(), 10);
}

#[test]
fn objects_and_leafs_are_recorded_on_both_sides() {
    let mut index = DynamicObjectsIndex::new(4);
    index.allocate_objects(2);
    index.place_object_in_leaf(1, 3);
    index.place_object_in_leaf(1, 0);
    index.place_object_in_leaf(0, 3);
    assert_eq!(index.get_leaf_objects(3), &vec![1, 0]);
    assert_eq!(index.get_object_leafs(1), &vec![3, 0]);
    assert!(index.get_leaf_objects(2).is_empty());
    index.clear();
    assert!(index.get_leaf_objects(3).is_empty());
    assert!(index.get_object_leafs(1).is_empty());
    index.allocate_objects(1);
    assert!(index.get_object_leafs(1).is_empty());
}

#[test]
fn frame_plan_follows_console_scale_and_hdr() {
    let plan = plan_frame(false, true, 1, false);
    assert!(plan.game_gets_input && plan.relative_mouse);
    assert!(plan.path == FramePath::Direct);
    let plan = plan_frame(true, true, 2, true);
    assert!(!plan.game_gets_input && !plan.relative_mouse);
    assert!(plan.path == FramePath::Upscaled { hdr: true });
    assert!(plan_frame(false, false, 3, false).path == FramePath::Upscaled { hdr: false });
    assert!(plan_frame(false, false, 1, true).path == FramePath::Postprocessed);
    assert!(!plan_frame(false, false, 1, true).relative_mouse);
}
