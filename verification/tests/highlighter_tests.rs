use qemu_hmp::highlighter::{highlight, SegStyle};

fn segs(line: &str) -> Vec<(SegStyle, String)> {
    highlight(line)
}

#[test]
fn highlight_command_only() {
    let st = segs("quit");
    assert_eq!(st, vec![(SegStyle::Command, "quit".to_string())]);
}

#[test]
fn highlight_command_with_args() {
    let st = segs("qom-get /machine type");
    assert_eq!(st[0], (SegStyle::Command, "qom-get".to_string()));
    assert_eq!(st[1].1, " /machine type");
}

#[test]
fn highlight_info_subcommand() {
    let st = segs("info version");
    assert_eq!(st[0], (SegStyle::Command, "info".to_string()));
    assert_eq!(st[1].1, " ");
    assert_eq!(st[2], (SegStyle::Command, "version".to_string()));
}

#[test]
fn highlight_keyval() {
    let st = segs("object_add rng-random,id=foo");
    assert_eq!(st[0], (SegStyle::Command, "object_add".to_string()));
    let has_grey_key = st.iter().any(|(c, t)| *c == SegStyle::Key && t == "id");
    assert!(has_grey_key, "expected 'id' as a key, got: {st:?}");
    let has_eq_val = st.iter().any(|(_, t)| t == "=foo");
    assert!(has_eq_val, "expected '=foo' segment, got: {st:?}");
}

#[test]
fn highlight_multiple_keyvals() {
    let st = segs("object_add t,a=1,b=2");
    let grey_keys: Vec<&str> =
        st.iter().filter(|(c, _)| *c == SegStyle::Key).map(|(_, t)| t.as_str()).collect();
    assert_eq!(grey_keys, vec!["a", "b"]);
}

#[test]
fn highlight_exact_pieces() {
    let st = segs("set_link net0,x=on off");
    assert_eq!(
        st,
        vec![
            (SegStyle::Command, "set_link".to_string()),
            (SegStyle::Plain, " net0,".to_string()),
            (SegStyle::Key, "x".to_string()),
            (SegStyle::Plain, "=on off".to_string()),
        ]
    );
}

#[test]
fn highlight_keys_are_tokens_and_text_is_kept() {
    let line = "device_add a b=1,c d=2";
    let r = highlight(line);
    let expected: Vec<(SegStyle, String)> = vec![
        (SegStyle::Command, "device_add".to_string()),
        (SegStyle::Plain, " a ".to_string()),
        (SegStyle::Key, "b".to_string()),
        (SegStyle::Plain, "=1".to_string()),
        (SegStyle::Plain, ",".to_string()),
        (SegStyle::Plain, "c ".to_string()),
        (SegStyle::Key, "d".to_string()),
        (SegStyle::Plain, "=2".to_string()),
    ];
    assert_eq!(r, expected);
    let joined: String = r.iter().map(|(_, t)| t.as_str()).collect();
    assert_eq!(joined, line);
}
