use nexmud::converter::{convert_plugin, PluginConversion};
use nexmud::plugin::{extract_attr, extract_send_node};

const BANNER: &str = "-- =====================================================================\n-- 🛰️ NexMUD 转换引擎：已自动将旧 XML 的嵌套 <send> 节点重构为标准的动态过程桩\n-- =====================================================================\n\n";
const RULE: &str = "\n-- =====================================================================\n\n";

#[test]
fn attributes_are_read_with_either_quote() {
    let tag = "<trigger match=\"abc\" sequence='5' lines=7>";
    assert_eq!(extract_attr(tag, "match="), Some("abc".to_string()));
    assert_eq!(extract_attr(tag, "sequence="), Some("5".to_string()));
    assert_eq!(extract_attr(tag, "lines="), None);
    assert_eq!(extract_attr(tag, "script="), None);
    assert_eq!(extract_attr("<a x=\"open", "x="), None);
}

#[test]
fn send_bodies_lose_cdata_and_whitespace() {
    assert_eq!(
        extract_send_node("<alias><send><![CDATA[ Send('x') ]]></send></alias>"),
        Some("Send('x')".to_string())
    );
    assert_eq!(extract_send_node("<alias></send><send>"), None);
    assert_eq!(extract_send_node("<alias/>"), None);
}

#[test]
fn plugin_is_converted() {
    let xml = "<muclient>\n<plugin name=\"t\" language=\"Lua\">\n<triggers>\n<trigger match=\"你的气血：*\" script=\"on_hp\" sequence=\"90\"></trigger>\n</triggers>\n<aliases>\n<alias match=\"^gg$\" enabled=\"y\"><send>Send(\"go\")</send></alias>\n</aliases>\n<script><![CDATA[\nfunction on_hp() end\n]]></script>\n</plugin>\n</muclient>\n";
    let expected = format!(
        "{}{}{}{}{}{}",
        BANNER,
        "AddTriggerEx(\"on_hp\", \"^你的气血：(.*)$\", \"script:on_hp\", 90, 0, 0, \"\", \"\", false, 1)\n",
        "function auto_generated_alias_func_1()\n\nSend(\"go\")\n\nend\n\n",
        "AddAlias(\"auto_generated_alias_func_1\", \"^gg$\", \"script:auto_generated_alias_func_1\", 50, \"\")\n",
        RULE,
        "function on_hp() end"
    );
    match convert_plugin(xml) {
        PluginConversion::Converted(lua) => assert_eq!(lua, expected),
        other => panic!("unexpected {:?}", other),
    }
}

#[test]
fn trigger_send_body_becomes_a_function() {
    let xml = "<trigger match=\"[hp] *\" multi_line=\"y\" lines=\"2\"><send>Send(\"eat\")</send></trigger>";
    let expected = format!(
        "{}{}{}{}",
        BANNER,
        "function auto_generated_trig_func_1()\nSend(\"eat\")\nend\n\n",
        "AddTriggerEx(\"auto_generated_trig_func_1\", \"^\\[hp\\] (.*)$\", \"script:auto_generated_trig_func_1\", 100, 0, 0, \"\", \"\", true, 2)\n",
        RULE.trim_end()
    );
    match convert_plugin(xml) {
        PluginConversion::Converted(lua) => assert_eq!(lua, expected),
        other => panic!("unexpected {:?}", other),
    }
}

#[test]
fn foreign_script_plugins_are_refused() {
    let xml = "<plugin language=\"VBScript\"><alias x>";
    assert!(matches!(convert_plugin(xml), PluginConversion::NonLuaScript));
}

#[test]
fn an_alias_cut_past_the_end_is_malformed() {
    assert!(matches!(convert_plugin("<alias x>"), PluginConversion::MalformedMarkup));
}

#[test]
fn a_trigger_cut_inside_a_character_is_malformed() {
    assert!(matches!(convert_plugin("<trigger/>你好好好"), PluginConversion::MalformedMarkup));
}

#[test]
fn an_empty_plugin_is_the_banner() {
    match convert_plugin("") {
        PluginConversion::Converted(lua) => assert_eq!(lua, format!("{}{}", BANNER, RULE).trim()),
        other => panic!("unexpected {:?}", other),
    }
}

#[test]
fn attribute_names_are_matched_whole() {
    assert_eq!(
        extract_attr("<trigger lines_to_match=\"2\" match=\"^hp$\">", "match="),
        Some("^hp$".to_string())
    );
    assert_eq!(extract_attr("<trigger lines_to_match=\"2\">", "match="), None);
    assert_eq!(extract_attr("match='x'", "match="), Some("x".to_string()));
}
