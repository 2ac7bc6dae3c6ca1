use nexmud::bindings::MushBindingFactory;
use nexmud::broker::{ProcessRegistry, TabPortRegistry};
use nexmud::codec::{from_gbk_bytes, to_gbk_bytes};
use nexmud::sandbox::{PluginVariableStore, VariableStore};
use nexmud::service::{frame_outgoing_command, include_target, normalize_command, strip_bom};
use nexmud::telnet::MudConnection;

#[test]
fn variables_read_back_what_was_written() {
    let mut vars = VariableStore::new();
    assert_eq!(vars.get("hp"), "");
    vars.set("hp".to_string(), "100".to_string());
    vars.set("mp".to_string(), "5".to_string());
    vars.set("hp".to_string(), "90".to_string());
    assert_eq!(vars.get("hp"), "90");
    assert_eq!(vars.get("mp"), "5");
}

#[test]
fn plugin_variables_are_isolated() {
    let mut store = PluginVariableStore::new();
    store.set("a".to_string(), "x".to_string(), "1".to_string());
    store.set("b".to_string(), "x".to_string(), "2".to_string());
    store.set("a".to_string(), "y".to_string(), "3".to_string());
    assert_eq!(store.get("a", "x"), "1");
    assert_eq!(store.get("b", "x"), "2");
    assert_eq!(store.get("a", "y"), "3");
    assert_eq!(store.get("b", "y"), "");
    assert_eq!(store.get("c", "x"), "");
}

#[test]
fn tabs_get_consecutive_ports_once() {
    let mut ports = TabPortRegistry::new();
    assert_eq!(ports.assign("A".to_string()), Some(50051));
    assert_eq!(ports.assign("B".to_string()), Some(50052));
    assert_eq!(ports.assign("A".to_string()), None);
    assert_eq!(ports.port_of("A"), Some(50051));
    assert_eq!(ports.port_of("C"), None);
    assert_eq!(ports.assign("C".to_string()), Some(50053));
}

#[test]
fn processes_are_registered_and_forgotten() {
    let mut reg = ProcessRegistry::new();
    reg.register(10);
    reg.register(0);
    reg.register(20);
    reg.register(10);
    assert_eq!(reg.kill_list(), vec![10, 20, 10]);
    reg.unregister(10);
    assert_eq!(reg.kill_list(), vec![20]);
}

#[test]
fn rule_builders_apply_default_priorities() {
    let t = MushBindingFactory::add_trigger("n".to_string(), "m".to_string(), "r".to_string());
    assert_eq!(t.priority, 100);
    assert!(!t.is_multi_line);
    assert_eq!(t.lines_to_match, 1);
    let t = MushBindingFactory::add_trigger_ex("n".to_string(), "m".to_string(), "r".to_string(), 0, true, 3);
    assert_eq!(t.priority, 100);
    assert!(t.is_multi_line);
    assert_eq!(t.lines_to_match, 3);
    let t = MushBindingFactory::add_trigger_ex("n".to_string(), "m".to_string(), "r".to_string(), 7, false, 1);
    assert_eq!(t.priority, 7);
    let a = MushBindingFactory::add_alias("n".to_string(), "m".to_string(), "r".to_string(), -3);
    assert_eq!(a.priority, 50);
    let a = MushBindingFactory::add_alias("n".to_string(), "m".to_string(), "r".to_string(), 9);
    assert_eq!(a.priority, 9);
    assert!(MushBindingFactory::timer_is_one_shot(1));
    assert!(MushBindingFactory::timer_is_one_shot(3));
    assert!(!MushBindingFactory::timer_is_one_shot(2));
    assert_eq!(MushBindingFactory::priority_from_flags(-1, 42), 42);
}

#[test]
fn commands_are_trimmed_and_framed() {
    assert_eq!(normalize_command("  look \t"), "look");
    assert_eq!(frame_outgoing_command(" look "), b"look\n".to_vec());
    assert_eq!(frame_outgoing_command("你好"), vec![0xC4, 0xE3, 0xBA, 0xC3, b'\n']);
}

#[test]
fn include_directives_name_their_file() {
    assert_eq!(include_target("include(\"bot.lua\")"), Some("bot.lua".to_string()));
    assert_eq!(include_target("/include(\"a\" \"b\")"), Some("a\" \"b".to_string()));
    assert_eq!(include_target("include(bot.lua)"), None);
    assert_eq!(include_target("include(\")"), None);
    assert_eq!(include_target("say \"hi\""), None);
}

#[test]
fn byte_order_marks_are_stripped() {
    assert_eq!(strip_bom("\u{feff}\u{feff}print(1)"), "print(1)");
    assert_eq!(strip_bom("x\u{feff}"), "x\u{feff}");
}

#[test]
fn gbk_round_trip() {
    let bytes = to_gbk_bytes("你好 look");
    assert_eq!(bytes, vec![0xC4, 0xE3, 0xBA, 0xC3, b' ', b'l', b'o', b'o', b'k']);
    assert_eq!(from_gbk_bytes(&bytes), "你好 look");
    assert_eq!(to_gbk_bytes("look"), b"look".to_vec());
}

#[test]
fn connection_keeps_its_address() {
    let c = MudConnection::new("127.0.0.1:8888");
    assert_eq!(c.addr(), "127.0.0.1:8888");
}
