use nexmud::service::{route_command, CommandRoute};
use nexmud::engine::{
    AliasTable, MushAlias, MushMatchingEngine, MushTrigger, TriggerAction, TriggerResponse,
    TriggerTable,
};

fn trigger(name: &str, m: &str, r: &str, prio: i32) -> MushTrigger {
    MushTrigger {
        name: name.to_string(),
        match_text: m.to_string(),
        response_text: r.to_string(),
        is_multi_line: false,
        lines_to_match: 1,
        priority: prio,
    }
}

fn alias(name: &str, m: &str, r: &str, prio: i32) -> MushAlias {
    MushAlias { name: name.to_string(), match_text: m.to_string(), response_text: r.to_string(), priority: prio }
}

#[test]
fn lowest_priority_trigger_wins() {
    let mut table = TriggerTable::new();
    table.insert(trigger("hp", r"^你的气血：(\d+)/(\d+)", "eat medicine", 100));
    table.insert(trigger("hp_script", "气血", "script:on_hp", 50));
    let mut window = Vec::new();
    let actions = MushMatchingEngine::process_incoming_text("你的气血：50/200\n", &mut window, &table);
    assert_eq!(
        actions,
        vec![TriggerAction {
            trigger_name: "hp_script".to_string(),
            priority: 50,
            response: TriggerResponse::RunScript("on_hp".to_string()),
        }]
    );
    assert_eq!(window, vec!["你的气血：50/200".to_string()]);
}

#[test]
fn send_trigger_yields_its_command() {
    let mut table = TriggerTable::new();
    table.insert(trigger("hp", r"^你的气血：(\d+)/(\d+)", "eat medicine", 100));
    let mut window = Vec::new();
    let actions = MushMatchingEngine::process_incoming_text("你的气血：50/200", &mut window, &table);
    assert_eq!(actions.len(), 1);
    assert_eq!(actions[0].response, TriggerResponse::SendCommand("eat medicine".to_string()));
}

#[test]
fn equal_priorities_go_by_table_order() {
    let mut table = TriggerTable::new();
    table.insert(trigger("first", "a", "one", 7));
    table.insert(trigger("second", "a", "two", 7));
    let mut window = Vec::new();
    let actions = MushMatchingEngine::process_incoming_text("a", &mut window, &table);
    assert_eq!(actions[0].trigger_name, "first");
}

#[test]
fn every_leading_script_prefix_is_removed() {
    let mut table = TriggerTable::new();
    table.insert(trigger("t", "x", "script:script:f", 1));
    let mut window = Vec::new();
    let actions = MushMatchingEngine::process_incoming_text("x", &mut window, &table);
    assert_eq!(actions[0].response, TriggerResponse::RunScript("f".to_string()));
}

#[test]
fn multi_line_trigger_sees_joined_lines() {
    let mut table = TriggerTable::new();
    let mut t = trigger("two", "^one\ntwo$", "both", 10);
    t.is_multi_line = true;
    t.lines_to_match = 2;
    table.insert(t);
    let mut window = Vec::new();
    let actions = MushMatchingEngine::process_incoming_text("one\r\ntwo\n", &mut window, &table);
    assert_eq!(actions.len(), 1);
    assert_eq!(actions[0].trigger_name, "two");
    assert_eq!(window, vec!["one".to_string(), "two".to_string()]);
}

#[test]
fn window_keeps_the_ten_newest_lines() {
    let table = TriggerTable::new();
    let mut window = Vec::new();
    let text: String = (0..12).map(|i| format!("l{}\n", i)).collect();
    let actions = MushMatchingEngine::process_incoming_text(&text, &mut window, &table);
    assert!(actions.is_empty());
    let expected: Vec<String> = (2..12).map(|i| format!("l{}", i)).collect();
    assert_eq!(window, expected);
}

#[test]
fn invalid_patterns_never_fire() {
    let mut table = TriggerTable::new();
    table.insert(trigger("bad", "(", "x", 1));
    table.insert(trigger("good", "a", "y", 2));
    let mut window = Vec::new();
    let actions = MushMatchingEngine::process_incoming_text("(a", &mut window, &table);
    assert_eq!(actions[0].trigger_name, "good");
}

#[test]
fn one_action_per_line() {
    let mut table = TriggerTable::new();
    table.insert(trigger("t", "hit", "dodge", 1));
    let mut window = Vec::new();
    let actions = MushMatchingEngine::process_incoming_text("hit\nmiss\nhit", &mut window, &table);
    assert_eq!(actions.len(), 2);
}

#[test]
fn inserting_a_name_again_replaces_it() {
    let mut table = TriggerTable::new();
    table.insert(trigger("t", "a", "one", 1));
    table.insert(trigger("u", "b", "two", 1));
    table.insert(trigger("t", "c", "three", 5));
    assert_eq!(table.len(), 2);
    assert_eq!(table.get(0).match_text, "c");
    assert_eq!(table.get(0).priority, 5);
    assert_eq!(table.get(1).name, "u");
}

#[test]
fn alias_rewrites_with_groups() {
    let mut aliases = AliasTable::new();
    aliases.insert(alias("k", "^k (.*)$", "kill $1", 50));
    let mut intercepted = false;
    let out = MushMatchingEngine::process_outgoing_command("k rat", &aliases, &mut intercepted);
    assert_eq!(out, "kill rat");
    assert!(!intercepted);
}

#[test]
fn script_alias_intercepts_unchanged() {
    let mut aliases = AliasTable::new();
    aliases.insert(alias("g", "^gg$", "script:go", 10));
    aliases.insert(alias("h", "^gg$", "nope", 20));
    let mut intercepted = false;
    let out = MushMatchingEngine::process_outgoing_command("gg", &aliases, &mut intercepted);
    assert_eq!(out, "gg");
    assert!(intercepted);
    assert_eq!(aliases.len(), 2);
    assert_eq!(aliases.get(1).name, "h");
}

#[test]
fn unmatched_command_passes_and_flag_is_kept() {
    let aliases = AliasTable::new();
    let mut intercepted = true;
    let out = MushMatchingEngine::process_outgoing_command("look", &aliases, &mut intercepted);
    assert_eq!(out, "look");
    assert!(intercepted);
}

#[test]
fn selection_prefers_lowest_then_first() {
    assert_eq!(MushMatchingEngine::select_by_priority(&[5, 3, 3, 1], &[true, true, true, false]), Some(1));
    assert_eq!(MushMatchingEngine::select_by_priority(&[5, 3], &[false, false]), None);
}

#[test]
fn network_bytes_decode_as_utf8_or_gbk() {
    assert_eq!(MushMatchingEngine::auto_decode_network_bytes("你好".as_bytes()), "你好");
    assert_eq!(MushMatchingEngine::auto_decode_network_bytes(&[0xC4, 0xE3, 0xBA, 0xC3]), "你好");
}

#[test]
fn window_holds_the_newest_lines_in_order() {
    let mut window: Vec<String> = (0..8).map(|i| format!("old{}", i)).collect();
    let table = TriggerTable::new();
    let _ = MushMatchingEngine::process_incoming_text("a\nb\nc\nd", &mut window, &table);
    let expected: Vec<String> = ["old2", "old3", "old4", "old5", "old6", "old7", "a", "b", "c", "d"]
        .iter()
        .map(|s| s.to_string())
        .collect();
    assert_eq!(window, expected);
}

#[test]
fn commands_are_routed() {
    let mut aliases = AliasTable::new();
    aliases.insert(alias("k", "^k (.*)$", "kill $1", 10));
    aliases.insert(alias("s", "^secret$", "script:on_secret", 10));
    match route_command("  include(\"a.lua\") ", &aliases, true) {
        CommandRoute::Include(f) => assert_eq!(f, "a.lua"),
        _ => panic!("expected Include"),
    }
    match route_command("include(\"a.lua\")", &aliases, false) {
        CommandRoute::AskScript(c) => assert_eq!(c, "include(\"a.lua\")"),
        _ => panic!("expected AskScript"),
    }
    assert!(matches!(route_command("secret", &aliases, true), CommandRoute::Intercepted));
    match route_command(" k orc ", &aliases, true) {
        CommandRoute::AskScript(c) => assert_eq!(c, "kill orc"),
        _ => panic!("expected AskScript"),
    }
}
