use rsc_ls::completion::{
    compute_completions, get_detail, get_insert_text, parse_enum_values, CompletionItem,
    KIND_CLASS, KIND_CONSTANT, KIND_ENUM_MEMBER, KIND_FUNCTION, KIND_PROPERTY,
};
use rsc_ls::hover::{can_hover, compute_hover, find_word_end, find_word_start};
use rsc_ls::menus::{
    is_standard_verb, standard_verb_list, ArgEntry, ChildEntry, FlagEntry, MenuData, MenuEntry,
};
use rsc_ls::script::{
    build_before_cursor, can_tokenize, count_newlines, cursor_fits, parse_line, tokenize,
};
use rsc_ls::server::{Message, Received, Reply, Server};
use rsc_ls::wire::{content_length, parse_decimal};
use rsc_ls::string_map::StringMap;
use rsc_ls::text::{chars_of, lines_str, trim_str};

fn arg(name: &str, arg_type: &str) -> ArgEntry {
    ArgEntry { name: name.to_string(), arg_type: arg_type.to_string() }
}

fn child(name: &str, path: &str, menu_type: &str) -> ChildEntry {
    ChildEntry { name: name.to_string(), path: path.to_string(), menu_type: menu_type.to_string() }
}

fn sample_data() -> MenuData {
    let mut data = MenuData::new();
    data.insert_children(
        String::new(),
        vec![child("ip", "ip", "Directory"), child("system", "system", "Directory")],
    );
    data.insert_children(
        "/ip".to_string(),
        vec![
            child("address", "/ip/address", "Directory"),
            child("route", "/ip/route", "Directory"),
            child("firewall", "/ip/firewall", "Directory"),
        ],
    );
    data.insert_children(
        "/ip/route".to_string(),
        vec![child("check", "/ip/route/check", "Command"), child("rule", "/ip/route/rule", "Settings Directory")],
    );
    data.insert_menu(MenuEntry {
        path: "/ip/address".to_string(),
        menu_type: "Directory".to_string(),
        arguments: vec![
            arg("address", "ipPrefix"),
            arg("interface", "iface_enum"),
            arg("comment", "string"),
            arg("disabled", "bool"),
            arg("network", ""),
            arg("scope", "enum( global | link |host )"),
        ],
        flags: vec![FlagEntry { name: "dynamic".to_string(), description: "set by the router".to_string() }],
    });
    data.insert_menu(MenuEntry {
        path: "/ip/route".to_string(),
        menu_type: String::new(),
        arguments: vec![arg("gateway", "address")],
        flags: vec![],
    });
    data
}

fn labels(items: &[CompletionItem]) -> Vec<String> {
    items.iter().map(|i| i.label.clone()).collect()
}

#[test]
fn tokenize_splits_paths_properties_and_quotes() {
    let toks = tokenize("/ip address add address=10.0.0.1/24 interface=ether1 comment=\"office LAN\"");
    assert_eq!(
        toks,
        vec!["/ip", "address", "add", "address=10.0.0.1/24", "interface=ether1", "comment=\"office LAN\""]
    );
}

#[test]
fn tokenize_keeps_quoted_value_with_spaces() {
    assert_eq!(tokenize("add comment=\"hello world\""), vec!["add", "comment=\"hello world\""]);
}

#[test]
fn tokenize_quoted_token_and_escapes() {
    assert_eq!(tokenize("  \"a \\\" b\"x  c\t"), vec!["\"a \\\" b\"", "x", "c"]);
    assert_eq!(tokenize("\"open quote"), vec!["\"open quote"]);
    assert!(tokenize("   ").is_empty());
}

#[test]
fn tokenize_path_segment_ends_at_white_space() {
    assert_eq!(tokenize("/a\"b c\""), vec!["/a\"b", "c\""]);
}

#[test]
fn tokenize_refuses_trailing_backslash_in_quotes() {
    assert!(!can_tokenize("comment \"abc\\"));
    assert!(can_tokenize("comment=\"abc\\"));
    assert!(can_tokenize("\"abc\\\" d"));
}

#[test]
fn parse_line_lone_slash_is_root() {
    let data = sample_data();
    let ctx = parse_line(&data, "/");
    assert_eq!(ctx.path, "");
    assert!(ctx.command.is_none());
    assert_eq!(ctx.last_token, "/");
}

#[test]
fn parse_line_space_separated_path_and_properties() {
    let data = sample_data();
    let ctx = parse_line(&data, "/ip address add address=10.0.0.1/24 comment=\"a b\" address=10.0.0.2/24");
    assert_eq!(ctx.path, "/ip/address");
    assert_eq!(ctx.command.as_deref(), Some("add"));
    assert_eq!(ctx.properties.get("address").map(|s| s.as_str()), Some("10.0.0.2/24"));
    assert_eq!(ctx.properties.get("comment").map(|s| s.as_str()), Some("\"a b\""));
    assert!(!ctx.properties.contains_key("interface"));
    assert_eq!(ctx.last_token, "address=10.0.0.2/24");
}

#[test]
fn parse_line_slash_path_and_action_command() {
    let data = sample_data();
    let ctx = parse_line(&data, "/ip/address print");
    assert_eq!(ctx.path, "/ip/address");
    assert_eq!(ctx.command.as_deref(), Some("print"));
    let ctx = parse_line(&data, "/ip route check");
    assert_eq!(ctx.path, "/ip/route");
    assert_eq!(ctx.command.as_deref(), Some("check"));
    let ctx = parse_line(&data, "/ip route rule print");
    assert_eq!(ctx.path, "/ip/route/rule");
    assert_eq!(ctx.command.as_deref(), Some("print"));
}

#[test]
fn parse_line_words_after_command_are_arguments() {
    let data = sample_data();
    let ctx = parse_line(&data, "/ip address print detail where");
    assert_eq!(ctx.path, "/ip/address");
    assert_eq!(ctx.command.as_deref(), Some("print"));
    assert_eq!(ctx.last_token, "where");
}

#[test]
fn parse_line_slash_after_path_adds_empty_segment() {
    let data = sample_data();
    let ctx = parse_line(&data, "/ip /");
    assert_eq!(ctx.path, "/ip/");
    let ctx = parse_line(&data, "/ /ip");
    assert_eq!(ctx.path, "/ip");
}

#[test]
fn parse_line_global_command() {
    let data = sample_data();
    let ctx = parse_line(&data, ":put $x");
    assert_eq!(ctx.path, "");
    assert_eq!(ctx.command.as_deref(), Some(":put"));
    assert!(!ctx.properties.contains_key("$x"));
    assert_eq!(ctx.last_token, "$x");
}

#[test]
fn completions_for_lone_slash_are_root_menus() {
    let data = sample_data();
    let items = compute_completions(&data, "/");
    assert_eq!(labels(&items), vec!["ip", "system"]);
    assert_eq!(items[0].kind, Some(KIND_CLASS));
    assert_eq!(items[0].detail.as_deref(), Some("root menu — ip"));
    assert_eq!(items[0].insert_text.as_deref(), Some("ip"));
    assert_eq!(items[0].insert_text_format, Some(1));
}

#[test]
fn completions_before_verb_are_sub_menus_then_verbs() {
    let data = sample_data();
    let items = compute_completions(&data, "/ip ");
    let mut expected = vec!["address".to_string(), "route".to_string(), "firewall".to_string()];
    expected.extend(standard_verb_list());
    assert_eq!(labels(&items), expected);
    assert_eq!(items[0].detail.as_deref(), Some("sub-menu — /ip/address"));
    assert_eq!(items[3].kind, Some(KIND_FUNCTION));
    assert_eq!(items[3].detail.as_deref(), Some("add — standard command"));
}

#[test]
fn completions_include_action_commands() {
    let data = sample_data();
    let items = compute_completions(&data, "/ip route ");
    let l = labels(&items);
    assert_eq!(l[0], "rule");
    assert_eq!(l.last().unwrap(), "check");
    let check = items.last().unwrap();
    assert_eq!(check.kind, Some(KIND_FUNCTION));
    assert_eq!(check.detail.as_deref(), Some("action command"));
}

#[test]
fn completions_after_verb_are_unused_arguments_and_flags() {
    let data = sample_data();
    let items = compute_completions(&data, "/ip address add address=10.0.0.1/24 ");
    assert_eq!(labels(&items), vec!["interface", "comment", "disabled", "network", "scope", "dynamic"]);
    let comment = &items[1];
    assert_eq!(comment.kind, Some(KIND_PROPERTY));
    assert_eq!(comment.detail.as_deref(), Some("type: string"));
    assert_eq!(comment.insert_text.as_deref(), Some("comment=\"$1\""));
    assert_eq!(comment.insert_text_format, Some(2));
    assert_eq!(items[3].detail.as_deref(), Some("property"));
    assert_eq!(items[3].insert_text.as_deref(), Some("network=$1"));
    let flag = &items[5];
    assert_eq!(flag.kind, Some(KIND_CONSTANT));
    assert_eq!(flag.detail.as_deref(), Some("dynamic: set by the router"));
}

#[test]
fn completions_after_equals_enum_values() {
    let data = sample_data();
    let items = compute_completions(&data, "/ip address add scope=");
    assert_eq!(labels(&items), vec!["global", "link", "host"]);
    assert!(items.iter().all(|i| i.kind == Some(KIND_ENUM_MEMBER)));
    assert_eq!(items[0].detail.as_deref(), Some("enum value — enum( global | link |host )"));
}

#[test]
fn completions_after_equals_bool_iface_and_address() {
    let data = sample_data();
    assert_eq!(
        labels(&compute_completions(&data, "/ip address add disabled=")),
        vec!["yes", "no", "true", "false"]
    );
    let ifaces = compute_completions(&data, "/ip address add interface=");
    assert_eq!(labels(&ifaces), vec!["ether1", "bridge"]);
    assert_eq!(ifaces[0].detail.as_deref(), Some("common interface name"));
    let addr = compute_completions(&data, "/ip address add address=");
    assert_eq!(labels(&addr), vec!["0.0.0.0/0"]);
    assert_eq!(addr[0].detail.as_deref(), Some("type: ipPrefix"));
    let gw = compute_completions(&data, "/ip route add gateway=");
    assert_eq!(labels(&gw), vec!["0.0.0.0/0"]);
    assert!(compute_completions(&data, "/ip address add nothing=").is_empty());
    assert!(compute_completions(&data, "/ip address add comment=").is_empty());
}

#[test]
fn completions_quoted_value_stays_with_property() {
    let data = sample_data();
    let items = compute_completions(&data, "/ip address add comment=\"hello world\" ");
    assert!(!labels(&items).contains(&"comment".to_string()));
    assert!(labels(&items).contains(&"network".to_string()));
}

#[test]
fn enum_values_are_parsed_and_trimmed() {
    assert_eq!(parse_enum_values("enum(a|b|c)"), vec!["a", "b", "c"]);
    assert_eq!(parse_enum_values("enum ( x | y )"), vec!["x", "y"]);
    assert_eq!(parse_enum_values("enum()"), vec![""]);
    assert!(parse_enum_values("enum").is_empty());
    assert!(parse_enum_values("enum(a|b").is_empty());
    assert!(parse_enum_values("string").is_empty());
}

#[test]
fn insert_text_and_detail() {
    assert_eq!(get_insert_text(&arg("comment", "string")), "comment=\"$1\"");
    assert_eq!(get_insert_text(&arg("mtu", "integer")), "mtu=$1");
    assert_eq!(get_detail(&arg("mtu", "integer")), "type: integer");
    assert_eq!(get_detail(&arg("mtu", "")), "property");
}

#[test]
fn build_before_cursor_joins_continuation_lines() {
    let doc = "# comment\n/ip address add \\\r\n    address=10.0.0.1/24 \\\n    interface=eth";
    assert_eq!(
        build_before_cursor(doc, 3, 17),
        "/ip address add \\     address=10.0.0.1/24 \\     interface=eth"
    );
    assert_eq!(build_before_cursor(doc, 3, 8), "/ip address add \\     address=10.0.0.1/24 \\     inte");
}

#[test]
fn build_before_cursor_new_command_on_cursor_line() {
    assert_eq!(build_before_cursor("/ip address add\n/ip route add", 1, 13), "/ip route add");
    assert_eq!(build_before_cursor("/ip address add\n  :put $x", 1, 100), ":put $x");
    assert_eq!(build_before_cursor("/ip address add\n  comment=x", 1, 100), "/ip address add   comment=x");
}

#[test]
fn build_before_cursor_stops_at_blank_line_and_edges() {
    let doc = "/system identity print\n\n  comment=x\n   \n";
    assert_eq!(build_before_cursor(doc, 2, 100), "comment=x");
    assert_eq!(build_before_cursor(doc, 3, 2), "");
    assert_eq!(build_before_cursor(doc, 9, 0), "");
    assert_eq!(build_before_cursor(doc, 0, 7), "/system");
    assert_eq!(build_before_cursor("", 0, 0), "");
}

#[test]
fn cursor_inside_multibyte_char_is_refused() {
    let doc = "/ip é";
    assert!(cursor_fits(doc, 0, 4));
    assert!(!cursor_fits(doc, 0, 5));
    assert!(cursor_fits(doc, 0, 6));
    assert!(cursor_fits(doc, 5, 1));
}

#[test]
fn word_bounds() {
    let line = "/ip address add address=10.0.0.1/24";
    assert_eq!(find_word_start(line, 18), 16);
    assert_eq!(find_word_end(line, 18), 23);
    assert_eq!(find_word_start(line, 2), 0);
    assert_eq!(find_word_end(line, 2), 3);
    assert_eq!(find_word_start(line, 1000), 31);
    assert_eq!(find_word_end(line, 1000), line.len());
    assert_eq!(find_word_start(" ", 0), 0);
    assert_eq!(find_word_end(" ", 0), 0);
}

#[test]
fn hover_property_of_current_menu() {
    let data = sample_data();
    let line = "/ip address add address=10.0.0.1/24";
    let h = compute_hover(&data, line, 18, line, 0).unwrap();
    assert_eq!(h.contents.kind, "markdown");
    assert_eq!(h.contents.value, "**address**\n\nType: `ipPrefix`");
}

#[test]
fn hover_flag_and_untyped_property() {
    let data = sample_data();
    let line = "/ip address print dynamic network";
    let h = compute_hover(&data, line, 20, line, 0).unwrap();
    assert_eq!(h.contents.value, "**dynamic**\n\nset by the router");
    let h = compute_hover(&data, line, 28, line, 0).unwrap();
    assert_eq!(h.contents.value, "**network**\n\nType: `any`");
}

#[test]
fn hover_known_menu_path() {
    let data = sample_data();
    let line = "/ip/address print";
    let h = compute_hover(&data, line, 3, line, 0).unwrap();
    assert_eq!(
        h.contents.value,
        "### /ip/address\n\n**Type:** Directory\n\n**Arguments:**\n  address: ipPrefix\n  interface: iface_enum\n  comment: string\n  disabled: bool\n  network: (any)\n  scope: enum( global | link |host )\n\n**Flags:**\n  dynamic — set by the router"
    );
    let line = "/ip/route";
    let h = compute_hover(&data, line, 0, line, 0).unwrap();
    assert_eq!(h.contents.value, "### /ip/route\n\n**Type:** Directory\n\n**Arguments:**\n  gateway: address");
}

#[test]
fn hover_standard_verb_and_nothing() {
    let data = sample_data();
    let line = "/ip address print";
    let h = compute_hover(&data, line, 13, line, 0).unwrap();
    assert_eq!(h.contents.value, "**print**\n\nStandard RouterOS command.");
    assert!(compute_hover(&data, "/ip", 1, "/ip", 0).is_none());
    assert!(compute_hover(&data, "a  b", 2, "a  b", 0).is_none());
    assert!(compute_hover(&data, "/ip address frobnicate", 15, "/ip address frobnicate", 0).is_none());
}

#[test]
fn hover_on_multibyte_boundary_is_refused() {
    let data = sample_data();
    let line = "é x";
    assert!(!can_hover(&data, line, 1, line, 0));
    assert!(can_hover(&data, line, 2, line, 0));
    assert!(compute_hover(&data, line, 2, line, 0).is_none());
}

#[test]
fn standard_verbs_known() {
    assert!(is_standard_verb("add"));
    assert!(is_standard_verb("print"));
    assert!(!is_standard_verb("check"));
    assert_eq!(standard_verb_list().len(), 14);
}

#[test]
fn count_newlines_before_position() {
    assert_eq!(count_newlines("a\nb\nc", 4), 2);
    assert_eq!(count_newlines("a\nb\nc", 2), 1);
    assert_eq!(count_newlines("a\nb\nc", 1), 0);
    assert_eq!(count_newlines("a\nb\n", 100), 2);
    assert_eq!(count_newlines("", 3), 0);
}

#[test]
fn string_map_insert_get_remove() {
    let mut m = StringMap::new();
    m.insert("a".to_string(), "1".to_string());
    m.insert("b".to_string(), "2".to_string());
    m.insert("a".to_string(), "3".to_string());
    assert_eq!(m.get("a").map(|s| s.as_str()), Some("3"));
    assert_eq!(m.get("b").map(|s| s.as_str()), Some("2"));
    m.remove("a");
    assert!(!m.contains_key("a"));
    assert!(m.contains_key("b"));
}

#[test]
fn menu_data_lookup_and_replace() {
    let mut data = sample_data();
    assert_eq!(data.menu_count(), 2);
    assert_eq!(data.menu_by_path("/ip/route").unwrap().arguments.len(), 1);
    assert!(data.menu_by_path("/ip").is_none());
    assert_eq!(data.children_of("/ip").unwrap().len(), 3);
    data.insert_menu(MenuEntry {
        path: "/ip/route".to_string(),
        menu_type: "Directory".to_string(),
        arguments: vec![],
        flags: vec![],
    });
    assert!(data.menu_by_path("/ip/route").unwrap().arguments.is_empty());
    assert_eq!(data.menu_count(), 3);
}

fn message(method: &str) -> Message {
    Message {
        method: method.to_string(),
        has_id: true,
        uri: None,
        open_text: None,
        change_text: None,
        line: None,
        character: None,
    }
}

fn at(method: &str, uri: &str, line: usize, character: usize) -> Message {
    Message { uri: Some(uri.to_string()), line: Some(line), character: Some(character), ..message(method) }
}

#[test]
fn server_lifecycle_replies() {
    let mut server = Server::new(sample_data());
    assert!(matches!(server.handle_message(&message("initialize")), Some(Reply::Capabilities)));
    assert!(matches!(server.handle_message(&message("shutdown")), Some(Reply::Null)));
    assert!(matches!(server.handle_message(&message("exit")), Some(Reply::Exit)));
    match server.handle_message(&message("workspace/symbol")) {
        Some(Reply::MethodNotFound(m)) => assert_eq!(m, "workspace/symbol"),
        _ => panic!("expected method not found"),
    }
    let mut note = message("$/cancelRequest");
    note.has_id = false;
    assert!(server.handle_message(&note).is_none());
}

#[test]
fn server_documents_open_change_close() {
    let mut server = Server::new(sample_data());
    let mut open = message("textDocument/didOpen");
    open.uri = Some("file:///a.rsc".to_string());
    open.open_text = Some("/ip address add ".to_string());
    assert!(server.handle_message(&open).is_none());
    assert_eq!(server.document("file:///a.rsc").map(|s| s.as_str()), Some("/ip address add "));

    match server.handle_message(&at("textDocument/completion", "file:///a.rsc", 0, 16)) {
        Some(Reply::Completions(items)) => assert_eq!(items[0].label, "address"),
        _ => panic!("expected completions"),
    }

    let mut change = message("textDocument/didChange");
    change.uri = Some("file:///a.rsc".to_string());
    change.change_text = Some("/ip address print".to_string());
    assert!(server.handle_message(&change).is_none());
    assert_eq!(server.document("file:///a.rsc").map(|s| s.as_str()), Some("/ip address print"));

    match server.handle_message(&at("textDocument/hover", "file:///a.rsc", 0, 13)) {
        Some(Reply::Hover(Some(h))) => assert_eq!(h.contents.value, "**print**\n\nStandard RouterOS command."),
        _ => panic!("expected hover"),
    }
    match server.handle_message(&at("textDocument/hover", "file:///a.rsc", 5, 0)) {
        Some(Reply::Hover(None)) => {}
        _ => panic!("expected empty hover"),
    }

    let mut close = message("textDocument/didClose");
    close.uri = Some("file:///a.rsc".to_string());
    assert!(server.handle_message(&close).is_none());
    assert!(server.document("file:///a.rsc").is_none());
    assert!(server.handle_message(&at("textDocument/completion", "file:///a.rsc", 0, 3)).is_none());
}

#[test]
fn server_refuses_requests_that_would_panic() {
    let mut server = Server::new(sample_data());
    let mut open = message("textDocument/didOpen");
    open.uri = Some("u".to_string());
    open.open_text = Some("add comment \"x\\".to_string());
    server.handle_message(&open);
    assert!(!server.can_handle(&at("textDocument/completion", "u", 0, 100)));
    assert!(server.can_handle(&at("textDocument/completion", "u", 0, 3)));
    assert!(server.can_handle(&at("textDocument/completion", "other", 0, 100)));
    assert!(server.can_handle(&message("initialize")));
}

#[test]
fn given_argument_is_no_longer_offered_after_quoted_value() {
    let data = sample_data();
    let before = "/ip address add comment=\"a b\"";
    let mut expected = labels(&compute_completions(&data, before));
    assert_eq!(expected, vec!["address", "interface", "disabled", "network", "scope", "dynamic"]);
    expected.retain(|l| l != "interface");
    let after = compute_completions(&data, &format!("{before} interface=ether1"));
    assert_eq!(labels(&after), expected);
    assert_eq!(after.last().unwrap().kind, Some(KIND_CONSTANT));
    let quoted_key = compute_completions(&data, &format!("{before} interface=ether1 a\"b=c"));
    assert_eq!(labels(&quoted_key), expected);
}

#[test]
fn other_messages_leave_documents_alone() {
    let mut server = Server::new(sample_data());
    let mut open = message("textDocument/didOpen");
    open.uri = Some("file:///a.rsc".to_string());
    open.open_text = Some("/ip address ".to_string());
    server.handle_message(&open);
    server.handle_message(&message("initialize"));
    server.handle_message(&message("workspace/symbol"));
    server.handle_message(&at("textDocument/hover", "file:///a.rsc", 0, 2));
    server.handle_message(&at("textDocument/completion", "file:///a.rsc", 0, 12));
    server.handle_message(&message("shutdown"));
    assert_eq!(server.document("file:///a.rsc").map(|s| s.as_str()), Some("/ip address "));
    assert_eq!(server.menus().menu_count(), 2);
}

#[test]
fn trim_drops_unicode_white_space_at_both_ends() {
    assert_eq!(trim_str("\u{3000} a b \t\n"), "a b");
    assert_eq!(trim_str("   "), "");
    assert_eq!(trim_str("x"), "x");
    assert_eq!(trim_str("\u{85}x\u{a0}"), "x");
}

#[test]
fn lines_split_like_str_lines() {
    assert_eq!(lines_str("a\r\nb\n\nc\r"), vec!["a", "b", "", "c\r"]);
    assert_eq!(lines_str("a\n"), vec!["a"]);
    assert_eq!(lines_str("\n"), vec![""]);
    assert!(lines_str("").is_empty());
    let doc = "/ip address\r\n  add x=1\n\u{e9}t\u{e9}";
    assert_eq!(lines_str(doc), doc.lines().collect::<Vec<_>>());
}

#[test]
fn chars_of_reads_every_character() {
    assert_eq!(chars_of("h\u{e9}llo"), vec!['h', '\u{e9}', 'l', 'l', 'o']);
    assert!(chars_of("").is_empty());
}

/// A table whose sub-menus carry no type, as some generated entries do.
fn untyped_data() -> MenuData {
    let mut data = MenuData::new();
    data.insert_children(String::new(), vec![child("ip", "ip", "")]);
    data.insert_children(
        "/ip".to_string(),
        vec![child("address", "/ip/address", ""), child("route", "/ip/route", "")],
    );
    data.insert_children("/ip/route".to_string(), vec![child("check", "/ip/route/check", "Command")]);
    data.insert_menu(MenuEntry {
        path: "/ip/address".to_string(),
        menu_type: String::new(),
        arguments: vec![arg("address", "ipPrefix"), arg("comment", "string")],
        flags: vec![],
    });
    data
}

#[test]
fn untyped_children_extend_the_path() {
    let data = untyped_data();
    let ctx = parse_line(&data, "/ip route check");
    assert_eq!(ctx.path, "/ip/route");
    assert_eq!(ctx.command.as_deref(), Some("check"));
    let ctx = parse_line(&data, "/ip address add address=10.0.0.1/24 comment=\"office\"");
    assert_eq!(ctx.path, "/ip/address");
    assert_eq!(ctx.command.as_deref(), Some("add"));
    assert_eq!(ctx.properties.get("address").map(|s| s.as_str()), Some("10.0.0.1/24"));
    assert_eq!(ctx.properties.get("comment").map(|s| s.as_str()), Some("\"office\""));
    assert_eq!(ctx.last_token, "comment=\"office\"");
}

#[test]
fn untyped_children_hover_properties() {
    let data = untyped_data();
    let line = "/ip address add address=10.0.0.1/24";
    let h = compute_hover(&data, line, 16, line, 0).unwrap();
    assert_eq!(h.contents.value, "**address**\n\nType: `ipPrefix`");
    let doc = "/ip address add\naddress=10.0.0.1/24";
    let h = compute_hover(&data, "address=10.0.0.1/24", 3, doc, 1).unwrap();
    assert_eq!(h.contents.value, "**address**\n\nType: `ipPrefix`");
}

#[test]
fn content_length_reads_the_last_length_header() {
    assert_eq!(content_length("Content-Length: 42\r\n\r\n"), 42);
    assert_eq!(content_length("Content-Type: text\r\nContent-Length:7\r\n\r\n"), 7);
    assert_eq!(content_length("Content-Length: 5\r\nContent-Length: 9\r\n\r\n"), 9);
    assert_eq!(content_length("Content-Length: 5\r\nContent-Length: x\r\n\r\n"), 0);
    assert_eq!(content_length("content-length: 5\r\n\r\n"), 0);
    assert_eq!(content_length("Content-Length:\t+12 \r\n"), 12);
    assert_eq!(content_length("Content-Length: 99999999999999999999999\r\n"), 0);
    assert_eq!(content_length("\r\n"), 0);
}

#[test]
fn decimal_numbers_parse_like_usize_from_str() {
    assert_eq!(parse_decimal("0"), Some(0));
    assert_eq!(parse_decimal("+17"), Some(17));
    assert_eq!(parse_decimal("007"), Some(7));
    assert_eq!(parse_decimal(""), None);
    assert_eq!(parse_decimal("+"), None);
    assert_eq!(parse_decimal("-1"), None);
    assert_eq!(parse_decimal("1 2"), None);
    assert_eq!(parse_decimal(&usize::MAX.to_string()), Some(usize::MAX));
    assert_eq!(parse_decimal("99999999999999999999999"), None);
}

#[test]
fn receive_decodes_and_handles_bodies() {
    let mut server = Server::new(sample_data());
    let open = br#"{"jsonrpc":"2.0","method":"textDocument/didOpen","params":{"textDocument":{"uri":"file:///a.rsc","text":"/ip address add "}}}"#;
    match server.receive(open) {
        Received::Handled(m, None) => {
            assert_eq!(m.method, "textDocument/didOpen");
            assert!(!m.has_id);
        }
        _ => panic!("expected a handled notification"),
    }
    assert_eq!(server.document("file:///a.rsc").map(|s| s.as_str()), Some("/ip address add "));

    let change = br#"{"method":"textDocument/didChange","params":{"textDocument":{"uri":"file:///a.rsc"},"contentChanges":[{"text":"/ip route "}]}}"#;
    assert!(matches!(server.receive(change), Received::Handled(_, None)));
    assert_eq!(server.document("file:///a.rsc").map(|s| s.as_str()), Some("/ip route "));

    let completion = br#"{"id":3,"method":"textDocument/completion","params":{"textDocument":{"uri":"file:///a.rsc"},"position":{"line":0,"character":10}}}"#;
    match server.receive(completion) {
        Received::Handled(m, Some(Reply::Completions(items))) => {
            assert!(m.has_id);
            assert_eq!((m.line, m.character), (Some(0), Some(10)));
            assert_eq!(items[0].label, "rule");
        }
        _ => panic!("expected completions"),
    }

    assert!(matches!(server.receive(b"not json"), Received::NotJson));
    assert!(matches!(server.receive(br#"{"method":"#), Received::NotJson));
    match server.receive(br#"{"id":null,"method":5}"#) {
        Received::Handled(m, None) => {
            assert_eq!(m.method, "");
            assert!(!m.has_id);
        }
        _ => panic!("expected an ignored notification"),
    }
}

#[test]
fn receive_refuses_unsliceable_requests() {
    let mut server = Server::new(sample_data());
    let open = br#"{"method":"textDocument/didOpen","params":{"textDocument":{"uri":"u","text":"add comment \"x\\"}}}"#;
    assert!(matches!(server.receive(open), Received::Handled(_, None)));
    let request = br#"{"id":1,"method":"textDocument/completion","params":{"textDocument":{"uri":"u"},"position":{"line":0,"character":100}}}"#;
    match server.receive(request) {
        Received::Refused(m) => assert_eq!(m.method, "textDocument/completion"),
        _ => panic!("expected a refusal"),
    }
    assert_eq!(server.document("u").map(|s| s.as_str()), Some("add comment \"x\\"));
}
