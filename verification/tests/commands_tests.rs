use square_wheel::commands_processor::{CommandOutcome, CommandsProcessor};
use square_wheel::commands_queue::{CommandsQueue, CommandsQueueInterface};
use square_wheel::config_value::{parse_config_text, ConfigValue};
use square_wheel::console::{Console, ConsoleKey};

fn obj(members: Vec<(&str, ConfigValue)>) -> ConfigValue {
    ConfigValue::Object(members.into_iter().map(|(k, v)| (k.to_string(), v)).collect())
}

fn sample_config() -> ConfigValue {
    obj(vec![
        ("renderer", obj(vec![("portals_depth", ConfigValue::Unsigned(2)), ("shadows", ConfigValue::Bool(true))])),
        ("name", ConfigValue::Text("player".to_string())),
        ("offset", ConfigValue::Negative(-3)),
        ("scale", ConfigValue::Float("1.5".to_string())),
        ("list", ConfigValue::Array(vec![])),
    ])
}

fn member<'a>(v: &'a ConfigValue, key: &str) -> &'a ConfigValue {
    match v {
        ConfigValue::Object(m) => &m.iter().find(|(k, _)| k == key).unwrap().1,
        _ => panic!("not an object"),
    }
}

fn queue(names: &[&str]) -> CommandsQueue {
    CommandsQueue::new(names.iter().map(|s| s.to_string()).collect())
}

#[test]
fn queue_runs_invocations_in_order() {
    let mut q = queue(&["map", "quit"]);
    assert!(q.has_handler("map"));
    assert!(!q.has_handler("save"));
    q.add_invocation("quit", vec![]);
    q.add_invocation("map", vec!["e1m1".to_string()]);
    q.add_invocation("map", vec!["e1m2".to_string()]);
    q.add_invocation("save", vec!["x".to_string()]);
    let runs = q.process_commands();
    assert_eq!(runs.len(), 3);
    assert_eq!(runs[0], (0, vec!["e1m1".to_string()]));
    assert_eq!(runs[1], (0, vec!["e1m2".to_string()]));
    assert_eq!(runs[2], (1, vec![]));
    assert!(q.process_commands().is_empty());
}

#[test]
fn queue_lists_commands_with_prefix() {
    let q = queue(&["map", "map_info", "quit"]);
    assert_eq!(q.get_commands_started_with("ma"), vec!["map".to_string(), "map_info".to_string()]);
    assert!(q.get_commands_started_with("x").is_empty());
}

#[test]
fn command_goes_to_first_queue_with_handler() {
    let mut p = CommandsProcessor::new();
    let first = p.register_command_queue(queue(&["map"]));
    let second = p.register_command_queue(queue(&["map", "quit"]));
    assert_ne!(first, second);
    let mut config = sample_config();
    let out = p.process_command("  map   e1m1  ", &mut config);
    assert!(matches!(out, CommandOutcome::Done));
    let runs = p.process_queue_commands(first).unwrap();
    assert_eq!(runs, vec![(0, vec!["e1m1".to_string()])]);
    assert!(p.process_queue_commands(second).unwrap().is_empty());
}

#[test]
fn removed_queue_no_longer_gets_commands() {
    let mut p = CommandsProcessor::new();
    let id = p.register_command_queue(queue(&["quit"]));
    p.remove_command_queue(id);
    assert!(p.process_queue_commands(id).is_none());
    let mut config = sample_config();
    match p.process_command("quit", &mut config) {
        CommandOutcome::Message(m) => assert_eq!(m, "quit not found"),
        _ => panic!("expected a message"),
    }
}

#[test]
fn empty_command_line_does_nothing() {
    let mut p = CommandsProcessor::new();
    let mut config = sample_config();
    assert!(matches!(p.process_command("   ", &mut config), CommandOutcome::Done));
}

#[test]
fn config_value_is_shown() {
    let mut p = CommandsProcessor::new();
    let mut config = sample_config();
    match p.process_command("renderer.portals_depth", &mut config) {
        CommandOutcome::Message(m) => assert_eq!(m, "renderer.portals_depth is 2"),
        _ => panic!("expected a message"),
    }
}

fn shown(p: &mut CommandsProcessor, config: &mut ConfigValue, line: &str) -> String {
    match p.process_command(line, config) {
        CommandOutcome::Message(m) => m,
        _ => panic!("expected a message"),
    }
}

#[test]
fn config_values_are_shown_as_json() {
    let mut p = CommandsProcessor::new();
    let mut config = sample_config();
    assert_eq!(shown(&mut p, &mut config, "name"), "name is \"player\"");
    assert_eq!(shown(&mut p, &mut config, "offset"), "offset is -3");
    assert_eq!(shown(&mut p, &mut config, "scale"), "scale is 1.5");
    assert_eq!(shown(&mut p, &mut config, "list"), "list is []");
    assert_eq!(shown(&mut p, &mut config, "renderer.shadows"), "renderer.shadows is true");
    assert_eq!(
        shown(&mut p, &mut config, "renderer"),
        "renderer is {\"portals_depth\":2,\"shadows\":true}"
    );
    assert!(matches!(p.process_command("scale 3", &mut config), CommandOutcome::Done));
    assert_eq!(shown(&mut p, &mut config, "scale"), "scale is 3.0");
    assert!(matches!(p.process_command("scale +2.50", &mut config), CommandOutcome::Done));
    assert_eq!(shown(&mut p, &mut config, "scale"), "scale is 2.5");
    assert!(matches!(p.process_command("scale inf", &mut config), CommandOutcome::Done));
    assert_eq!(shown(&mut p, &mut config, "scale"), "scale is null");
}

#[test]
fn float_settings_are_kept_as_json_numbers() {
    for (typed, kept) in [
        ("3", "3.0"),
        ("007.5", "7.5"),
        ("1.", "1.0"),
        (".5", "0.5"),
        ("-.5", "-0.5"),
        ("+2.50", "2.50"),
        ("1E5", "1E5"),
        ("00.e-3", "0e-3"),
        ("-0", "-0.0"),
    ] {
        let mut p = CommandsProcessor::new();
        let mut config = sample_config();
        assert!(matches!(p.process_command(&format!("scale {}", typed), &mut config), CommandOutcome::Done));
        assert!(matches!(member(&config, "scale"), ConfigValue::Float(t) if t == kept), "{}", typed);
        assert_eq!(typed.parse::<f64>().unwrap(), kept.parse::<f64>().unwrap(), "{}", typed);
    }
}

#[test]
fn console_shows_config_value_after_the_input_line() {
    let mut console = Console::new();
    let mut p = CommandsProcessor::new();
    let mut config = sample_config();
    console.process_text_input("renderer.portals_depth");
    assert!(matches!(
        console.process_key_press(ConsoleKey::Return, &mut p, &mut config),
        CommandOutcome::Message(_)
    ));
    let lines = console.get_lines();
    let n = lines.len();
    assert!(n >= 2);
    assert_eq!(lines[n - 2], "renderer.portals_depth");
    assert_eq!(lines[n - 1], "renderer.portals_depth is 2");
}

#[test]
fn config_values_are_set_by_type() {
    let mut p = CommandsProcessor::new();
    let mut config = sample_config();
    assert!(matches!(p.process_command("renderer.portals_depth 7", &mut config), CommandOutcome::Done));
    assert!(matches!(member(member(&config, "renderer"), "portals_depth"), ConfigValue::Unsigned(7)));
    assert!(matches!(p.process_command("renderer.shadows 0", &mut config), CommandOutcome::Done));
    assert!(matches!(member(member(&config, "renderer"), "shadows"), ConfigValue::Bool(false)));
    assert!(matches!(p.process_command("name bot", &mut config), CommandOutcome::Done));
    assert!(matches!(member(&config, "name"), ConfigValue::Text(t) if t == "bot"));
    assert!(matches!(p.process_command("offset -10", &mut config), CommandOutcome::Done));
    assert!(matches!(member(&config, "offset"), ConfigValue::Negative(-10)));
    assert!(matches!(p.process_command("scale 2.25", &mut config), CommandOutcome::Done));
    assert!(matches!(member(&config, "scale"), ConfigValue::Float(t) if t == "2.25"));
}

#[test]
fn config_parse_failures_are_reported() {
    let mut p = CommandsProcessor::new();
    let mut config = sample_config();
    let message = |o: CommandOutcome| match o {
        CommandOutcome::Message(m) => m,
        _ => panic!("expected a message"),
    };
    assert_eq!(message(p.process_command("renderer.portals_depth -1", &mut config)), "Failed to parse u64");
    assert_eq!(message(p.process_command("offset x", &mut config)), "Failed to parse i64");
    assert_eq!(message(p.process_command("scale abc", &mut config)), "Failed to parse f64");
    assert_eq!(message(p.process_command("renderer.shadows yes", &mut config)), "Failed to parse bool");
    assert_eq!(message(p.process_command("list 1", &mut config)), "Can't set value of this type");
    assert_eq!(message(p.process_command("renderer.missing 1", &mut config)), "renderer.missing not found");
    assert!(matches!(member(member(&config, "renderer"), "portals_depth"), ConfigValue::Unsigned(2)));
}

#[test]
fn completion_gives_common_prefix_or_sorted_list() {
    let mut p = CommandsProcessor::new();
    p.register_command_queue(queue(&["map", "map_info", "quit"]));
    let config = sample_config();
    assert_eq!(p.complete_command("q", &config), vec!["quit".to_string()]);
    assert_eq!(p.complete_command("ma", &config), vec!["map".to_string()]);
    assert_eq!(p.complete_command("renderer.s", &config), vec!["renderer.shadows".to_string()]);
    assert_eq!(
        p.complete_command("renderer.", &config),
        vec!["renderer.portals_depth".to_string(), "renderer.shadows".to_string()]
    );
    assert!(p.complete_command("zzz", &config).is_empty());
}

#[test]
fn console_runs_line_and_keeps_history() {
    let mut console = Console::new();
    let mut p = CommandsProcessor::new();
    let id = p.register_command_queue(queue(&["quit"]));
    let mut config = sample_config();
    console.toggle();
    assert!(console.is_active());
    console.process_text_input("quix");
    console.process_key_press(ConsoleKey::Backspace, &mut p, &mut config);
    console.process_text_input("t");
    assert_eq!(console.get_input_line(), "quit");
    console.process_key_press(ConsoleKey::Return, &mut p, &mut config);
    assert_eq!(console.get_input_line(), "");
    assert_eq!(p.process_queue_commands(id).unwrap(), vec![(0, vec![])]);
    console.process_key_press(ConsoleKey::Up, &mut p, &mut config);
    assert_eq!(console.get_input_line(), "quit");
}

#[test]
fn console_tab_completes_input() {
    let mut console = Console::new();
    let mut p = CommandsProcessor::new();
    p.register_command_queue(queue(&["quit"]));
    let mut config = sample_config();
    console.process_text_input("qu");
    console.process_key_press(ConsoleKey::Tab, &mut p, &mut config);
    assert_eq!(console.get_input_line(), "quit");
}

#[test]
fn config_text_is_parsed_into_a_tree() {
    let v = parse_config_text("{\"b\": {\"scale\": 2, \"gamma\": 1.5}, \"a\": [-3, true, null, \"x\"]}")
        .expect("valid JSON");
    let a = member(&v, "a");
    match a {
        ConfigValue::Array(items) => {
            assert_eq!(items.len(), 4);
            assert!(matches!(items[0], ConfigValue::Negative(-3)));
            assert!(matches!(items[1], ConfigValue::Bool(true)));
            assert!(matches!(items[2], ConfigValue::Null));
            assert!(matches!(&items[3], ConfigValue::Text(t) if t == "x"));
        },
        _ => panic!("expected an array"),
    }
    let b = member(&v, "b");
    assert!(matches!(member(b, "scale"), ConfigValue::Unsigned(2)));
    assert!(matches!(member(b, "gamma"), ConfigValue::Float(t) if t == "1.5"));
}

#[test]
fn text_that_is_no_json_gives_no_config() {
    assert!(parse_config_text("{\"a\": ").is_none());
    assert!(parse_config_text("not json").is_none());
}

#[test]
fn infinite_floats_become_null_and_then_cannot_be_set() {
    for text in ["inf", "-Infinity", "NaN", "1e309", "2e308"] {
        let mut p = CommandsProcessor::new();
        let mut config = sample_config();
        let line = format!("scale {}", text);
        assert!(matches!(p.process_command(&line, &mut config), CommandOutcome::Done));
        assert!(matches!(member(&config, "scale"), ConfigValue::Null), "{}", text);
        match p.process_command("scale 1.5", &mut config) {
            CommandOutcome::Message(m) => assert_eq!(m, "Can't set value of this type"),
            _ => panic!("expected a message"),
        }
    }
}

#[test]
fn finite_floats_up_to_the_rounding_threshold_stay_floats() {
    let below = "179769313486231580793728971405303415079934132710037826936173778980444968292764750946649017977587207096330286416692887910946555547851940402630657488671505820681908902000708383676273854845817711531764475730270069855571366959622842914819860834936475292719074168444365510704342711559699508093042880177904174497791";
    let at = "179769313486231580793728971405303415079934132710037826936173778980444968292764750946649017977587207096330286416692887910946555547851940402630657488671505820681908902000708383676273854845817711531764475730270069855571366959622842914819860834936475292719074168444365510704342711559699508093042880177904174497792";
    for (text, finite) in [
        (below, true),
        (at, false),
        ("1.7976931348623157e308", true),
        ("0.0000000000000000000000001e309", true),
        ("1e-99999999999999999999999999999999999", true),
        ("1e99999999999999999999999999999999999", false),
        ("0e99999999999999999999999999999999999", true),
    ] {
        assert_eq!(text.parse::<f64>().unwrap().is_finite(), finite, "{}", text);
        let mut p = CommandsProcessor::new();
        let mut config = sample_config();
        p.process_command(&format!("scale {}", text), &mut config);
        let is_float = matches!(member(&config, "scale"), ConfigValue::Float(_));
        assert_eq!(is_float, finite, "{}", text);
    }
}
