use qemu_hmp::args::{ArgDef, ArgType};
use qemu_hmp::completer::{SchemaCache, Span, Suggestion};
use qemu_hmp::hmp_completer::{Answers, CompletionStep, HmpCompleter, Query};

fn empty_schema() -> SchemaCache {
    SchemaCache {
        enums: vec![],
        object_add_variants: vec![],
        qmp_commands: vec!["query-status".to_string(), "stop".to_string()],
        command_args: vec![],
        object_types: vec![],
        tagged_unions: vec![],
        command_arg_type_ids: vec![],
    }
}

fn names(t: &[&str]) -> Vec<String> {
    t.iter().map(|s| s.to_string()).collect()
}

fn completer() -> HmpCompleter {
    HmpCompleter::new(
        names(&["system_reset", "stop", "block_resize", "savevm", "stop", "qom-list", "sendkey"]),
        names(&["version", "status", "block", "vnc"]),
        vec![
            (
                "block_resize".to_string(),
                vec![
                    ArgDef::new("device".to_string(), ArgType::BlockDevice, false),
                    ArgDef::new("size".to_string(), ArgType::Size, false),
                ],
            ),
            ("stop".to_string(), vec![]),
        ],
        vec![(
            "block".to_string(),
            vec![ArgDef::new("verbose".to_string(), ArgType::Flag("-v".to_string()), true)],
        )],
        names(&["ctrl", "alt", "delete", "a"]),
        empty_schema(),
    )
}

fn done(step: CompletionStep) -> Vec<Suggestion> {
    match step {
        CompletionStep::Done(v) => v,
        CompletionStep::Need(q) => panic!("unexpected question {:?}", q),
    }
}

fn values(v: &[Suggestion]) -> Vec<&str> {
    v.iter().map(|s| s.value.as_str()).collect()
}

#[test]
fn names_sorted_and_unique() {
    let c = completer();
    assert_eq!(
        c.main_names,
        names(&["block_resize", "help", "info", "qom-list", "savevm", "sendkey", "stop", "system_reset"])
    );
    assert_eq!(c.info_names, names(&["block", "status", "version", "vnc"]));
    // Commands without argument definitions are left out.
    assert_eq!(c.main_arg_defs.len(), 1);
}

#[test]
fn first_word_completion() {
    let c = completer();
    let r = done(c.complete("s", 1, &Answers::none()));
    assert_eq!(values(&r), vec!["savevm", "sendkey", "stop", "system_reset"]);
    assert_eq!(r[0].span, Span { start: 0, end: 1 });
    assert!(r[0].append_whitespace);
    let all = done(c.complete("", 0, &Answers::none()));
    assert_eq!(all.len(), 8);
}

#[test]
fn cursor_in_the_middle_sees_only_the_text_before_it() {
    let c = completer();
    let r = done(c.complete("system_reset", 2, &Answers::none()));
    assert_eq!(values(&r), vec!["system_reset"]);
    assert_eq!(r[0].span, Span { start: 0, end: 2 });
}

#[test]
fn info_subcommands() {
    let c = completer();
    let r = done(c.complete("info v", 6, &Answers::none()));
    assert_eq!(values(&r), vec!["version", "vnc"]);
    assert_eq!(r[0].span, Span { start: 5, end: 6 });
    let flags = done(c.complete("info block ", 11, &Answers::none()));
    assert_eq!(values(&flags), vec!["-v"]);
}

#[test]
fn help_offers_commands_and_info_names() {
    let c = completer();
    let r = done(c.complete("help st", 7, &Answers::none()));
    assert_eq!(values(&r), vec!["stop", "status"]);
    let i = done(c.complete("help info b", 11, &Answers::none()));
    assert_eq!(values(&i), vec!["block"]);
}

#[test]
fn block_devices_are_asked_for() {
    let c = completer();
    match c.complete("block_resize ", 13, &Answers::none()) {
        CompletionStep::Need(q) => assert_eq!(q, Query::BlockDevices),
        CompletionStep::Done(v) => panic!("unexpected suggestions {:?}", v),
    }
    let ans = Answers {
        qom_list: None,
        block_devices: Some(names(&["ide0-hd0", "virtio0"])),
        filenames: None,
        user_types: None,
    };
    let r = done(c.complete("block_resize v", 14, &ans));
    assert_eq!(values(&r), vec!["virtio0"]);
    assert_eq!(r[0].span, Span { start: 13, end: 14 });
}

#[test]
fn qom_paths_are_asked_for() {
    let c = completer();
    let r = done(c.complete("qom-list ", 9, &Answers::none()));
    assert_eq!(values(&r), vec!["/"]);
    match c.complete("qom-list /ma", 12, &Answers::none()) {
        CompletionStep::Need(q) => assert_eq!(q, Query::QomList("/".to_string())),
        CompletionStep::Done(v) => panic!("unexpected suggestions {:?}", v),
    }
    let ans = Answers {
        qom_list: Some(vec![
            ("machine".to_string(), "child<pc-i440fx-machine>".to_string()),
            ("type".to_string(), "string".to_string()),
            ("objects".to_string(), "child<container>".to_string()),
        ]),
        block_devices: None,
        filenames: None,
        user_types: None,
    };
    let r = done(c.complete("qom-list /ma", 12, &ans));
    assert_eq!(values(&r), vec!["/machine"]);
    assert_eq!(r[0].span, Span { start: 9, end: 12 });
}

#[test]
fn sendkey_combinations() {
    let c = completer();
    let r = done(c.complete("sendkey ctrl-a", 14, &Answers::none()));
    assert_eq!(values(&r), vec!["ctrl-alt", "ctrl-a"]);
    assert_eq!(r[0].display_override, Some("alt".to_string()));
}

#[test]
fn json_lines_complete_qmp_commands() {
    let c = completer();
    let r = done(c.complete("{", 1, &Answers::none()));
    assert_eq!(values(&r), vec!["{\"execute\": \""]);
    let line = "{\"execute\": \"qu";
    let r = done(c.complete(line, line.len(), &Answers::none()));
    assert_eq!(values(&r), vec!["query-status\""]);
}

#[test]
fn commands_without_definitions_offer_nothing() {
    let c = completer();
    let r = done(c.complete("savevm ", 7, &Answers::none()));
    assert!(r.is_empty());
}

#[test]
fn key_codes_of_qemu_for_sendkey() {
    let c = HmpCompleter::with_key_codes(names(&["sendkey"]), vec![], vec![], vec![], empty_schema());
    let r = done(c.complete("sendkey alt-ctr", 15, &Answers::none()));
    let v = values(&r);
    assert!(v.contains(&"alt-ctrl"));
    assert!(v.contains(&"alt-ctrl_r"));
    assert!(v.iter().all(|s| s.starts_with("alt-ctr")));
}

#[test]
fn every_suggestion_ends_at_the_cursor() {
    let c = completer();
    let ans = Answers {
        qom_list: Some(vec![("machine".to_string(), "child<pc>".to_string())]),
        block_devices: Some(names(&["ide0-hd0"])),
        filenames: Some(vec![("disk.img".to_string(), false)]),
        user_types: Some(names(&["rng-random"])),
    };
    for line in ["", "s", "info ", "help ", "qom-list /", "block_resize ", "sendkey ctrl-", "{\"execute\": \""] {
        let pos = line.len();
        let r = done(c.complete(line, pos, &ans));
        assert!(r.iter().all(|s| s.span.end == pos), "{line}");
    }
}

#[test]
fn key_codes_are_the_schema_list() {
    let c = HmpCompleter::with_key_codes(vec![], vec![], vec![], vec![], empty_schema());
    assert_eq!(c.sendkey_names.len(), 162);
    assert_eq!(c.sendkey_names[0], "unmapped");
    assert_eq!(c.sendkey_names[5], "ctrl");
    assert_eq!(c.sendkey_names[161], "f24");
}
