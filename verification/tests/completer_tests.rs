use std::collections::HashMap;

use qemu_hmp::arg_completion::{complete_args_impl, complete_change_impl, complete_object_add_impl};
use qemu_hmp::args::{ArgDef, ArgType};
use qemu_hmp::completer::{complete_json_impl, SchemaCache, SchemaMember, Suggestion};

// ---------------------------------------------------------------------
// Fixtures and adapters: the completers take the answers of QEMU and of
// the file system as values; these helpers hand them over.
// ---------------------------------------------------------------------

fn member(name: &str, display_type: &str, type_id: &str) -> SchemaMember {
    SchemaMember { name: name.into(), display_type: display_type.into(), type_id: type_id.into() }
}

fn copy_members(v: &[SchemaMember]) -> Vec<SchemaMember> {
    v.iter().map(|m| m.copy()).collect()
}

fn table<V>(m: &HashMap<String, V>, f: impl Fn(&V) -> V) -> Vec<(String, V)> {
    m.iter().map(|(k, v)| (k.clone(), f(v))).collect()
}

fn values(suggestions: &[Suggestion]) -> Vec<&str> {
    suggestions.iter().map(|s| s.value.as_str()).collect()
}

fn tokens(t: &[&str]) -> Vec<String> {
    t.iter().map(|s| s.to_string()).collect()
}

/// Argument definitions in the `args_type` notation of the HMP tables:
/// `name:type` pairs separated by commas, `?` after the type for an
/// optional argument, `-x` for a flag.
fn parse_defs(spec: &str) -> Vec<ArgDef> {
    if spec.is_empty() {
        return vec![];
    }
    spec.split(',')
        .map(|part| {
            let (name, ty) = part.split_once(':').unwrap();
            let (ty, optional) = match ty.strip_suffix('?') {
                Some(t) => (t, true),
                None => (ty, false),
            };
            let arg_type = if ty.starts_with('-') {
                ArgType::Flag(ty.to_string())
            } else {
                match ty {
                    "B" => ArgType::BlockDevice,
                    "F" => ArgType::Filename,
                    "s" => ArgType::Str,
                    "b" => ArgType::Bool,
                    "i" => ArgType::Int,
                    "l" => ArgType::Long,
                    "o" => ArgType::Size,
                    "M" => ArgType::Mebibytes,
                    "O" => ArgType::Object,
                    other => panic!("unknown argument type {other}"),
                }
            };
            ArgDef::new(name.to_string(), arg_type, optional)
        })
        .collect()
}

fn test_types() -> Vec<String> {
    vec![
        "dbus-display".into(),
        "memory-backend-file".into(),
        "memory-backend-memfd".into(),
        "rng-random".into(),
    ]
}

fn test_props(typename: &str) -> Vec<SchemaMember> {
    match typename {
        "dbus-display" => vec![
            member("id", "str", "str"),
            member("gl-mode", "enum", "42"),
            member("rendernode", "str", "str"),
        ],
        "memory-backend-file" => vec![
            member("id", "str", "str"),
            member("size", "int", "int"),
            member("mem-path", "str", "str"),
            member("share", "bool", "bool"),
        ],
        _ => vec![],
    }
}

fn test_enum_values() -> HashMap<String, Vec<String>> {
    let mut m = HashMap::new();
    m.insert("42".into(), vec!["off".into(), "on".into(), "core".into(), "es".into()]);
    m
}

fn empty_schema() -> SchemaCache {
    SchemaCache {
        enums: vec![],
        object_add_variants: vec![],
        qmp_commands: vec![],
        command_args: vec![],
        object_types: vec![],
        tagged_unions: vec![],
        command_arg_type_ids: vec![],
    }
}

fn complete_object_add(
    spec: &str,
    span_start: usize,
    pos: usize,
    types: &[String],
    props_fn: impl Fn(&str) -> Vec<SchemaMember>,
    enums: &HashMap<String, Vec<String>>,
) -> Vec<Suggestion> {
    let mut schema = empty_schema();
    for t in ["dbus-display", "memory-backend-file"] {
        schema.object_add_variants.push((t.to_string(), props_fn(t)));
    }
    schema.enums = table(enums, |v| v.clone());
    complete_object_add_impl(spec, span_start, pos, &types.to_vec(), &schema)
}

fn no_block_devices() -> Vec<String> {
    vec![]
}

fn test_block_devices() -> Vec<String> {
    vec!["drive0".into(), "drive1".into(), "virtio0".into()]
}

fn no_filenames(_prefix: &str) -> Vec<(String, bool)> {
    vec![]
}

fn test_filenames(prefix: &str) -> Vec<(String, bool)> {
    let all = vec![("file1.txt", false), ("file2.log", false), ("subdir/", true)];
    all.into_iter().filter(|(p, _)| p.starts_with(prefix)).map(|(p, d)| (p.to_string(), d)).collect()
}

#[allow(clippy::too_many_arguments)]
fn complete_args(
    defs: &Vec<ArgDef>,
    arg_tokens: &[&str],
    trailing_space: bool,
    prefix: &str,
    span_start: usize,
    pos: usize,
    block_devices_fn: impl Fn() -> Vec<String>,
    filenames_fn: impl Fn(&str) -> Vec<(String, bool)>,
) -> Vec<Suggestion> {
    complete_args_impl(
        defs,
        &tokens(arg_tokens),
        trailing_space,
        prefix,
        span_start,
        pos,
        &block_devices_fn(),
        &filenames_fn(prefix),
    )
}

fn complete_change(
    arg_tokens: &[&str],
    trailing_space: bool,
    prefix: &str,
    span_start: usize,
    pos: usize,
    block_devices_fn: impl Fn() -> Vec<String>,
    filenames_fn: impl Fn(&str) -> Vec<(String, bool)>,
) -> Vec<Suggestion> {
    complete_change_impl(
        &tokens(arg_tokens),
        trailing_space,
        prefix,
        span_start,
        pos,
        &block_devices_fn(),
        &filenames_fn(prefix),
    )
}

/// A tagged union of the test schema: its tag and variants.
struct TaggedUnionInfo {
    tag: String,
    variants: HashMap<String, String>,
}

/// The schema data of the JSON tests.
struct JsonSchemaCtx<'a> {
    commands: &'a [String],
    command_args: &'a HashMap<String, Vec<SchemaMember>>,
    object_types: &'a HashMap<String, Vec<SchemaMember>>,
    tagged_unions: &'a HashMap<String, TaggedUnionInfo>,
    command_arg_type_ids: &'a HashMap<String, String>,
}

fn complete_json(
    line: &str,
    pos: usize,
    schema: &JsonSchemaCtx<'_>,
    enums: &HashMap<String, Vec<String>>,
) -> Vec<Suggestion> {
    let cache = SchemaCache {
        enums: table(enums, |v| v.clone()),
        object_add_variants: vec![],
        qmp_commands: schema.commands.to_vec(),
        command_args: schema.command_args.iter().map(|(k, v)| (k.clone(), copy_members(v))).collect(),
        object_types: schema.object_types.iter().map(|(k, v)| (k.clone(), copy_members(v))).collect(),
        tagged_unions: schema
            .tagged_unions
            .iter()
            .map(|(k, u)| {
                (
                    k.clone(),
                    qemu_hmp::completer::TaggedUnionInfo {
                        tag: u.tag.clone(),
                        variants: u.variants.iter().map(|(c, t)| (c.clone(), t.clone())).collect(),
                    },
                )
            })
            .collect(),
        command_arg_type_ids: table(schema.command_arg_type_ids, |v| v.clone()),
    };
    complete_json_impl(line, pos, &cache)
}

fn test_qmp_commands() -> Vec<String> {
    vec![
        "blockdev-change-medium".into(),
        "device-add".into(),
        "device_del".into(),
        "query-block".into(),
        "query-blockstats".into(),
        "query-cpus-fast".into(),
        "query-status".into(),
        "query-version".into(),
        "system_reset".into(),
    ]
}

fn test_command_args() -> HashMap<String, Vec<SchemaMember>> {
    let mut m = HashMap::new();
    m.insert(
        "device-add".into(),
        vec![member("driver", "str", "str"), member("bus", "str", "str"), member("id", "str", "str")],
    );
    m.insert(
        "blockdev-change-medium".into(),
        vec![
            member("device", "str", "str"),
            member("filename", "str", "str"),
            member("format", "str", "str"),
            member("read-only-mode", "enum", "BlockdevChangeReadOnlyMode"),
        ],
    );
    m.insert(
        "screendump".into(),
        vec![
            member("filename", "str", "str"),
            member("device", "str", "str"),
            member("head", "int", "int"),
            member("format", "enum", "ImageFormat"),
        ],
    );
    m.insert(
        "set-action".into(),
        vec![
            member("reboot", "enum", "RebootAction"),
            member("shutdown", "enum", "ShutdownAction"),
            member("watchdog", "enum", "WatchdogAction"),
            member("panic", "enum", "PanicAction"),
        ],
    );
    m.insert("migrate-set-capabilities".into(), vec![member("auto-converge", "bool", "bool")]);
    m
}

fn test_json_enums() -> HashMap<String, Vec<String>> {
    let mut m = test_enum_values();
    m.insert(
        "BlockdevChangeReadOnlyMode".into(),
        vec!["retain".into(), "read-only".into(), "read-write".into()],
    );
    m.insert("ImageFormat".into(), vec!["ppm".into(), "png".into(), "jpg".into()]);
    m
}

fn test_json_schema<'a>(
    commands: &'a [String],
    command_args: &'a HashMap<String, Vec<SchemaMember>>,
) -> JsonSchemaCtx<'a> {
    JsonSchemaCtx {
        commands,
        command_args,
        object_types: Box::leak(Box::new(HashMap::new())),
        tagged_unions: Box::leak(Box::new(HashMap::new())),
        command_arg_type_ids: Box::leak(Box::new(HashMap::new())),
    }
}

fn test_object_types() -> HashMap<String, Vec<SchemaMember>> {
    let mut m = HashMap::new();
    m.insert(
        "BlockdevOptionsFile".into(),
        vec![
            member("filename", "str", "str"),
            member("aio", "enum", "BlockdevAioOptions"),
            member("locking", "enum", "OnOffAuto"),
        ],
    );
    m.insert("SocketAddressInet".into(), vec![member("host", "str", "str"), member("port", "str", "str")]);
    m.insert(
        "BlockdevOptionsNbd".into(),
        vec![member("server", "object", "SocketAddressInet"), member("export", "str", "str")],
    );
    m
}

fn test_tagged_unions() -> HashMap<String, TaggedUnionInfo> {
    let mut m = HashMap::new();
    m.insert(
        "BlockdevOptionsArgs".into(),
        TaggedUnionInfo {
            tag: "driver".into(),
            variants: HashMap::from([
                ("file".into(), "BlockdevOptionsFile".into()),
                ("nbd".into(), "BlockdevOptionsNbd".into()),
            ]),
        },
    );
    m
}

fn test_command_arg_type_ids() -> HashMap<String, String> {
    let mut m = HashMap::new();
    m.insert("blockdev-add".into(), "BlockdevOptionsArgs".into());
    m
}

fn test_command_args_with_nesting() -> HashMap<String, Vec<SchemaMember>> {
    let mut m = test_command_args();
    m.insert(
        "blockdev-add".into(),
        vec![
            member("driver", "enum", "BlockdevDriver"),
            member("node-name", "str", "str"),
            member("file", "object", "BlockdevOptionsFile"),
        ],
    );
    m
}

fn test_qmp_commands_with_nesting() -> Vec<String> {
    let mut cmds = test_qmp_commands();
    cmds.push("blockdev-add".into());
    cmds.sort();
    cmds
}

#[test]
fn complete_type_name_empty() {
    let types = test_types();
    let enums = test_enum_values();
    let result = complete_object_add("", 11, 11, &types, test_props, &enums);
    assert_eq!(
        values(&result),
        &[
            "dbus-display",
            "memory-backend-file",
            "memory-backend-memfd",
            "rng-random"
        ]
    );
}

#[test]
fn complete_type_name_prefix() {
    let types = test_types();
    let enums = test_enum_values();
    let result =
        complete_object_add("mem", 11, 14, &types, test_props, &enums);
    assert_eq!(
        values(&result),
        &["memory-backend-file", "memory-backend-memfd"]
    );
}

#[test]
fn complete_property_key() {
    let types = test_types();
    let enums = test_enum_values();
    let result = complete_object_add(
        "dbus-display,",
        11,
        24,
        &types,
        test_props,
        &enums,
    );
    assert_eq!(values(&result), &["id=", "gl-mode=", "rendernode="]);
}

#[test]
fn complete_property_key_with_prefix() {
    let types = test_types();
    let enums = test_enum_values();
    let result = complete_object_add(
        "dbus-display,gl",
        11,
        26,
        &types,
        test_props,
        &enums,
    );
    assert_eq!(values(&result), &["gl-mode="]);
}

#[test]
fn complete_property_key_excludes_used() {
    let types = test_types();
    let enums = test_enum_values();
    let result = complete_object_add(
        "dbus-display,id=foo,",
        11,
        31,
        &types,
        test_props,
        &enums,
    );
    let vals = values(&result);
    assert!(!vals.contains(&"id="));
    assert!(vals.contains(&"gl-mode="));
    assert!(vals.contains(&"rendernode="));
}

#[test]
fn complete_enum_value_empty() {
    let types = test_types();
    let enums = test_enum_values();
    let result = complete_object_add(
        "dbus-display,gl-mode=",
        11,
        32,
        &types,
        test_props,
        &enums,
    );
    assert_eq!(values(&result), &["off", "on", "core", "es"]);
    assert_eq!(result[0].description.as_deref(), Some("enum"));
}

#[test]
fn complete_enum_value_prefix() {
    let types = test_types();
    let enums = test_enum_values();
    let result = complete_object_add(
        "dbus-display,gl-mode=o",
        11,
        33,
        &types,
        test_props,
        &enums,
    );
    assert_eq!(values(&result), &["off", "on"]);
}

#[test]
fn complete_non_enum_value_empty() {
    let types = test_types();
    let enums = test_enum_values();
    let result = complete_object_add(
        "dbus-display,id=",
        11,
        27,
        &types,
        test_props,
        &enums,
    );
    assert!(result.is_empty());
}

#[test]
fn complete_enum_after_other_props() {
    let types = test_types();
    let enums = test_enum_values();
    let result = complete_object_add(
        "dbus-display,id=mydisp,gl-mode=",
        11,
        42,
        &types,
        test_props,
        &enums,
    );
    assert_eq!(values(&result), &["off", "on", "core", "es"]);
}

#[test]
fn complete_span_for_enum_value() {
    let types = test_types();
    let enums = test_enum_values();
    // "object_add dbus-display,gl-mode=o"
    //             ^span_start=11         ^pos=33
    let result = complete_object_add(
        "dbus-display,gl-mode=o",
        11,
        33,
        &types,
        test_props,
        &enums,
    );
    assert!(!result.is_empty());
    // val_start = span_start + idx + 1 + key.len() + 1
    //           = 11 + 12 + 1 + 7 + 1 = 32
    let span = result[0].span;
    assert_eq!(span.start, 32);
    assert_eq!(span.end, 33);
}

#[test]
fn complete_unknown_type_gives_no_props() {
    let types = test_types();
    let enums = test_enum_values();
    let result = complete_object_add(
        "no-such-type,",
        11,
        24,
        &types,
        test_props,
        &enums,
    );
    assert!(result.is_empty());
}

#[test]
fn args_complete_flag_present() {
    // "eject " with defs: force:-f,device:B
    let defs = parse_defs("force:-f,device:B");
    // Cursor right after "eject " — first arg position, flag expected
    let result = complete_args(&defs, &[], true, "", 6, 6, no_block_devices, no_filenames);
    assert_eq!(values(&result), &["-f"]);
}

#[test]
fn args_complete_flag_partial() {
    let defs = parse_defs("force:-f,device:B");
    // Typing "-" after "eject "
    let result = complete_args(
        &defs,
        &["-"],
        false,
        "-",
        6,
        7,
        no_block_devices,
        no_filenames,
    );
    assert_eq!(values(&result), &["-f"]);
}

#[test]
fn args_complete_block_device_after_flag() {
    let defs = parse_defs("force:-f,device:B");
    // "eject -f " — flag consumed, now completing block device
    let result = complete_args(
        &defs,
        &["-f"],
        true,
        "",
        10,
        10,
        test_block_devices,
        no_filenames,
    );
    assert_eq!(values(&result), &["drive0", "drive1", "virtio0"]);
}

#[test]
fn args_complete_block_device_without_flag() {
    let defs = parse_defs("force:-f,device:B");
    // "eject " — flag is optional, so both the flag and the next
    // required arg (block device) are offered as candidates.
    let result =
        complete_args(&defs, &[], true, "", 6, 6, test_block_devices, no_filenames);
    assert_eq!(values(&result), &["-f", "drive0", "drive1", "virtio0"]);
}

#[test]
fn args_complete_block_device_with_prefix() {
    let defs = parse_defs("device:B");
    // "block_resize dr" — partial block device name
    let result = complete_args(
        &defs,
        &["dr"],
        false,
        "dr",
        13,
        15,
        test_block_devices,
        no_filenames,
    );
    assert_eq!(values(&result), &["drive0", "drive1"]);
}

#[test]
fn args_complete_bool() {
    let defs = parse_defs("name:s,state:b");
    // "set_link net0 " — name consumed, now completing bool
    let result = complete_args(
        &defs,
        &["net0"],
        true,
        "",
        14,
        14,
        no_block_devices,
        no_filenames,
    );
    assert_eq!(values(&result), &["on", "off"]);
}

#[test]
fn args_complete_bool_partial() {
    let defs = parse_defs("name:s,state:b");
    // "set_link net0 o" — partial bool
    let result = complete_args(
        &defs,
        &["net0", "o"],
        false,
        "o",
        14,
        15,
        no_block_devices,
        no_filenames,
    );
    assert_eq!(values(&result), &["on", "off"]);
}

#[test]
fn args_complete_bool_partial_on() {
    let defs = parse_defs("name:s,state:b");
    let result = complete_args(
        &defs,
        &["net0", "on"],
        false,
        "on",
        14,
        16,
        no_block_devices,
        no_filenames,
    );
    assert_eq!(values(&result), &["on"]);
}

#[test]
fn args_complete_hint_for_string() {
    let defs = parse_defs("name:s");
    let result = complete_args(&defs, &[], true, "", 5, 5, no_block_devices, no_filenames);
    assert_eq!(result.len(), 1);
    assert_eq!(result[0].display_override.as_deref(), Some("<name>"));
    assert_eq!(result[0].description.as_deref(), Some("string"));
}

#[test]
fn args_complete_hint_for_int() {
    let defs = parse_defs("value:i");
    let result = complete_args(&defs, &[], true, "", 5, 5, no_block_devices, no_filenames);
    assert_eq!(result.len(), 1);
    assert_eq!(result[0].display_override.as_deref(), Some("<value>"));
    assert_eq!(result[0].description.as_deref(), Some("integer"));
}

#[test]
fn args_complete_empty_defs() {
    let defs = parse_defs("");
    let result = complete_args(&defs, &[], true, "", 5, 5, no_block_devices, no_filenames);
    assert!(result.is_empty());
}

#[test]
fn args_complete_all_args_consumed() {
    let defs = parse_defs("device:B");
    // Already typed the only arg — no more completions
    let result = complete_args(
        &defs,
        &["drive0"],
        true,
        "",
        13,
        13,
        test_block_devices,
        no_filenames,
    );
    assert!(result.is_empty());
}

#[test]
fn args_complete_multiple_flags_then_required() {
    // Like dump-guest-memory: several flags, then a required filename
    let defs = parse_defs("paging:-p,detach:-d,filename:F");
    let result =
        complete_args(&defs, &[], true, "", 5, 5, no_block_devices, test_filenames);
    let vals = values(&result);
    assert!(vals.contains(&"-p"));
    assert!(vals.contains(&"-d"));
    assert!(vals.contains(&"file1.txt"));
    assert!(vals.contains(&"file2.log"));
    assert!(vals.contains(&"subdir/"));
}

#[test]
fn args_complete_flags_consumed_then_next() {
    let defs = parse_defs("paging:-p,detach:-d,filename:F");
    // "-p" consumed — should show remaining flag "-d" + filenames
    let result = complete_args(
        &defs,
        &["-p"],
        true,
        "",
        8,
        8,
        no_block_devices,
        test_filenames,
    );
    let vals = values(&result);
    assert!(vals.contains(&"-d"));
    assert!(vals.contains(&"file1.txt"));
    assert!(!vals.contains(&"-p"));
}

#[test]
fn args_complete_filename_with_prefix() {
    let defs = parse_defs("filename:F");
    let result = complete_args(
        &defs,
        &["fi"],
        false,
        "fi",
        5,
        7,
        no_block_devices,
        test_filenames,
    );
    assert_eq!(values(&result), &["file1.txt", "file2.log"]);
}

#[test]
fn args_complete_filename_dir_no_space() {
    let defs = parse_defs("filename:F");
    let result = complete_args(
        &defs,
        &["su"],
        false,
        "su",
        5,
        7,
        no_block_devices,
        test_filenames,
    );
    assert_eq!(values(&result), &["subdir/"]);
    // Directories should not append whitespace so the user can keep completing.
    assert!(!result[0].append_whitespace);
}

#[test]
fn args_complete_optional_shows_next() {
    // Optional string then required bool
    let defs = parse_defs("name:s?,state:b");
    let result = complete_args(&defs, &[], true, "", 5, 5, no_block_devices, no_filenames);
    // Should show hint for optional name AND bool values for required state
    assert_eq!(result.len(), 3); // <name> hint + on + off
    assert_eq!(result[0].display_override.as_deref(), Some("<name>"));
    assert_eq!(result[1].value, "on");
    assert_eq!(result[2].value, "off");
}

#[test]
fn args_complete_hint_for_size() {
    let defs = parse_defs("amount:o");
    let result = complete_args(&defs, &[], true, "", 5, 5, no_block_devices, no_filenames);
    assert_eq!(result.len(), 1);
    assert_eq!(result[0].display_override.as_deref(), Some("<amount>"));
    assert_eq!(result[0].description.as_deref(), Some("size (K/M/G/T)"));
}

#[test]
fn args_complete_hint_for_long() {
    let defs = parse_defs("addr:l");
    let result = complete_args(&defs, &[], true, "", 5, 5, no_block_devices, no_filenames);
    assert_eq!(result.len(), 1);
    assert_eq!(result[0].display_override.as_deref(), Some("<addr>"));
    assert_eq!(
        result[0].description.as_deref(),
        Some("expression ($reg, hex, arithmetic)")
    );
}

#[test]
fn args_complete_hint_for_mebibytes() {
    let defs = parse_defs("value:M");
    let result = complete_args(&defs, &[], true, "", 5, 5, no_block_devices, no_filenames);
    assert_eq!(result.len(), 1);
    assert_eq!(result[0].display_override.as_deref(), Some("<value>"));
    assert_eq!(result[0].description.as_deref(), Some("megabytes"));
}

#[test]
fn args_complete_flag_after_positional() {
    // After typing the device, the unconsumed flag should still appear.
    let defs = parse_defs("force:-f,device:B");
    let result = complete_args(
        &defs,
        &["drive0"],
        true,
        "",
        13,
        13,
        test_block_devices,
        no_filenames,
    );
    assert_eq!(values(&result), &["-f"]);
}

#[test]
fn args_complete_flag_consumed_anywhere() {
    // Flag consumed after the device — no longer offered.
    let defs = parse_defs("force:-f,device:B");
    let result = complete_args(
        &defs,
        &["drive0", "-f"],
        true,
        "",
        17,
        17,
        test_block_devices,
        no_filenames,
    );
    assert!(result.is_empty());
}

#[test]
fn args_complete_mid_token_filters_by_prefix() {
    // Typing a non-flag value skips the flag and matches block device
    let defs = parse_defs("force:-f,device:B");
    let result = complete_args(
        &defs,
        &["dr"],
        false,
        "dr",
        6,
        8,
        test_block_devices,
        no_filenames,
    );
    let vals = values(&result);
    // "-f" doesn't start with "dr" → filtered out
    assert!(!vals.contains(&"-f"));
    assert!(vals.contains(&"drive0"));
    assert!(vals.contains(&"drive1"));
}

#[test]
fn change_complete_device_empty() {
    // "change " — should offer -f, block devices, and "vnc"
    let result = complete_change(&[], true, "", 7, 7, test_block_devices, no_filenames);
    let vals = values(&result);
    assert!(vals.contains(&"-f"));
    assert!(vals.contains(&"drive0"));
    assert!(vals.contains(&"vnc"));
}

#[test]
fn change_complete_device_prefix() {
    // "change v" — should match "vnc" and "virtio0"
    let result =
        complete_change(&["v"], false, "v", 7, 8, test_block_devices, no_filenames);
    let vals = values(&result);
    assert!(vals.contains(&"vnc"));
    assert!(vals.contains(&"virtio0"));
    assert!(!vals.contains(&"drive0"));
    assert!(!vals.contains(&"-f"));
}

#[test]
fn change_vnc_complete_target() {
    // "change vnc " — should offer "passwd" and "password"
    let result =
        complete_change(&["vnc"], true, "", 11, 11, test_block_devices, no_filenames);
    let vals = values(&result);
    assert!(vals.contains(&"passwd"));
    assert!(vals.contains(&"password"));
    assert!(vals.contains(&"-f"));
}

#[test]
fn change_vnc_complete_target_prefix() {
    // "change vnc pass" — should match both "passwd" and "password"
    let result = complete_change(
        &["vnc", "pass"],
        false,
        "pass",
        11,
        15,
        test_block_devices,
        no_filenames,
    );
    let vals = values(&result);
    assert!(vals.contains(&"passwd"));
    assert!(vals.contains(&"password"));
}

#[test]
fn change_vnc_complete_password_hint() {
    // "change vnc password " — should show a password hint
    let result = complete_change(
        &["vnc", "password"],
        true,
        "",
        20,
        20,
        test_block_devices,
        no_filenames,
    );
    assert_eq!(result.len(), 2); // -f + password hint
    let pw = result
        .iter()
        .find(|s| s.display_override.is_some())
        .unwrap();
    assert_eq!(pw.display_override.as_deref(), Some("<password>"));
}

#[test]
fn change_block_complete_target_filenames() {
    // "change drive0 " — should offer filenames and -f flag
    let result = complete_change(
        &["drive0"],
        true,
        "",
        14,
        14,
        test_block_devices,
        test_filenames,
    );
    let vals = values(&result);
    assert!(vals.contains(&"-f"));
    assert!(vals.contains(&"file1.txt"));
    assert!(vals.contains(&"file2.log"));
    assert!(vals.contains(&"subdir/"));
}

#[test]
fn change_block_complete_format() {
    // "change drive0 /tmp/disk.img " — should offer image formats + -f
    let result = complete_change(
        &["drive0", "/tmp/disk.img"],
        true,
        "",
        25,
        25,
        test_block_devices,
        no_filenames,
    );
    let vals = values(&result);
    assert!(vals.contains(&"-f"));
    assert!(vals.contains(&"qcow2"));
    assert!(vals.contains(&"raw"));
    assert!(vals.contains(&"vmdk"));
}

#[test]
fn change_block_complete_format_prefix() {
    // "change drive0 /tmp/disk.img q" — should match qcow2 and qed
    let result = complete_change(
        &["drive0", "/tmp/disk.img", "q"],
        false,
        "q",
        25,
        26,
        test_block_devices,
        no_filenames,
    );
    let vals = values(&result);
    assert!(vals.contains(&"qcow2"));
    assert!(vals.contains(&"qed"));
    assert!(!vals.contains(&"raw"));
}

#[test]
fn change_block_complete_read_only_mode() {
    // "change drive0 /tmp/disk.img qcow2 " — should offer read-only modes
    let result = complete_change(
        &["drive0", "/tmp/disk.img", "qcow2"],
        true,
        "",
        31,
        31,
        test_block_devices,
        no_filenames,
    );
    let vals = values(&result);
    assert!(vals.contains(&"retain"));
    assert!(vals.contains(&"read-only"));
    assert!(vals.contains(&"read-write"));
}

#[test]
fn change_block_complete_read_only_mode_prefix() {
    // "change drive0 /tmp/disk.img qcow2 read-" — should filter
    let result = complete_change(
        &["drive0", "/tmp/disk.img", "qcow2", "read-"],
        false,
        "read-",
        31,
        36,
        test_block_devices,
        no_filenames,
    );
    let vals = values(&result);
    assert!(vals.contains(&"read-only"));
    assert!(vals.contains(&"read-write"));
    assert!(!vals.contains(&"retain"));
}

#[test]
fn change_flag_before_device() {
    // "change -f " — flag consumed, now completing device
    let result =
        complete_change(&["-f"], true, "", 10, 10, test_block_devices, no_filenames);
    let vals = values(&result);
    assert!(!vals.contains(&"-f")); // flag already consumed
    assert!(vals.contains(&"drive0"));
    assert!(vals.contains(&"vnc"));
}

#[test]
fn change_flag_between_device_and_target() {
    // "change drive0 -f " — flag consumed after device, completing target
    let result = complete_change(
        &["drive0", "-f"],
        true,
        "",
        17,
        17,
        test_block_devices,
        test_filenames,
    );
    let vals = values(&result);
    assert!(!vals.contains(&"-f"));
    assert!(vals.contains(&"file1.txt"));
}

#[test]
fn change_vnc_no_read_only_mode() {
    // "change vnc password secret " — no further completions for VNC
    let result = complete_change(
        &["vnc", "password", "secret"],
        true,
        "",
        27,
        27,
        test_block_devices,
        no_filenames,
    );
    // Only the unconsumed -f flag, no positional suggestions
    let vals = values(&result);
    assert_eq!(vals, &["-f"]);
}

#[test]
fn change_all_consumed() {
    // "change drive0 /tmp/disk.img qcow2 retain " — everything consumed
    let result = complete_change(
        &["drive0", "/tmp/disk.img", "qcow2", "retain"],
        true,
        "",
        38,
        38,
        test_block_devices,
        no_filenames,
    );
    // Only the unconsumed -f flag
    let vals = values(&result);
    assert_eq!(vals, &["-f"]);
}

#[test]
fn json_complete_boilerplate_just_brace() {
    let cmds = test_qmp_commands();
    let args = test_command_args();
    let enums = test_json_enums();
    let line = "{";
    let pos = line.len();
    let result = complete_json(
        line,
        pos,
        &test_json_schema(&cmds, &args),
        &enums,
    );
    assert_eq!(result.len(), 1);
    assert_eq!(result[0].value, r#"{"execute": ""#);
}

#[test]
fn json_complete_boilerplate_partial_key() {
    let cmds = test_qmp_commands();
    let args = test_command_args();
    let enums = test_json_enums();
    let line = r#"{"ex"#;
    let pos = line.len();
    let result = complete_json(
        line,
        pos,
        &test_json_schema(&cmds, &args),
        &enums,
    );
    assert_eq!(result.len(), 1);
    assert_eq!(result[0].value, r#"{"execute": ""#);
}

#[test]
fn json_complete_boilerplate_full_key_no_colon() {
    let cmds = test_qmp_commands();
    let args = test_command_args();
    let enums = test_json_enums();
    let line = r#"{"execute""#;
    let pos = line.len();
    let result = complete_json(
        line,
        pos,
        &test_json_schema(&cmds, &args),
        &enums,
    );
    assert_eq!(result.len(), 1);
    assert_eq!(result[0].value, r#"{"execute": ""#);
}

#[test]
fn json_complete_boilerplate_colon_no_quote() {
    let cmds = test_qmp_commands();
    let args = test_command_args();
    let enums = test_json_enums();
    let line = r#"{"execute": "#;
    let pos = line.len();
    let result = complete_json(
        line,
        pos,
        &test_json_schema(&cmds, &args),
        &enums,
    );
    assert_eq!(result.len(), 1);
    assert_eq!(result[0].value, r#"{"execute": ""#);
}

#[test]
fn json_complete_boilerplate_with_space() {
    let cmds = test_qmp_commands();
    let args = test_command_args();
    let enums = test_json_enums();
    let line = "{ ";
    let pos = line.len();
    let result = complete_json(
        line,
        pos,
        &test_json_schema(&cmds, &args),
        &enums,
    );
    assert_eq!(result.len(), 1);
    assert_eq!(result[0].value, r#"{"execute": ""#);
}

#[test]
fn json_complete_boilerplate_non_execute_key() {
    let cmds = test_qmp_commands();
    let args = test_command_args();
    let enums = test_json_enums();
    let line = r#"{"other"#;
    let pos = line.len();
    let result = complete_json(
        line,
        pos,
        &test_json_schema(&cmds, &args),
        &enums,
    );
    assert!(result.is_empty());
}

#[test]
fn json_complete_args_boilerplate_after_command() {
    let cmds = test_qmp_commands();
    let args = test_command_args();
    let enums = test_json_enums();
    let line = r#"{"execute": "device-add""#;
    let pos = line.len();
    let result = complete_json(
        line,
        pos,
        &test_json_schema(&cmds, &args),
        &enums,
    );
    assert_eq!(result.len(), 1);
    assert_eq!(result[0].value, r#", "arguments": {"#);
}

#[test]
fn json_complete_args_boilerplate_after_comma() {
    let cmds = test_qmp_commands();
    let args = test_command_args();
    let enums = test_json_enums();
    let line = r#"{"execute": "device-add", "#;
    let pos = line.len();
    let result = complete_json(
        line,
        pos,
        &test_json_schema(&cmds, &args),
        &enums,
    );
    assert_eq!(result.len(), 1);
    assert_eq!(result[0].value, r#", "arguments": {"#);
}

#[test]
fn json_complete_args_boilerplate_partial_key() {
    let cmds = test_qmp_commands();
    let args = test_command_args();
    let enums = test_json_enums();
    let line = r#"{"execute": "device-add", "arg"#;
    let pos = line.len();
    let result = complete_json(
        line,
        pos,
        &test_json_schema(&cmds, &args),
        &enums,
    );
    assert_eq!(result.len(), 1);
    assert_eq!(result[0].value, r#", "arguments": {"#);
}

#[test]
fn json_complete_args_boilerplate_no_args_command() {
    let cmds = test_qmp_commands();
    let args = test_command_args();
    let enums = test_json_enums();
    // query-version has no args in test data
    let line = r#"{"execute": "query-version""#;
    let pos = line.len();
    let result = complete_json(
        line,
        pos,
        &test_json_schema(&cmds, &args),
        &enums,
    );
    assert!(result.is_empty());
}

#[test]
fn json_complete_args_boilerplate_colon_no_brace() {
    let cmds = test_qmp_commands();
    let args = test_command_args();
    let enums = test_json_enums();
    let line = r#"{"execute": "device-add", "arguments": "#;
    let pos = line.len();
    let result = complete_json(
        line,
        pos,
        &test_json_schema(&cmds, &args),
        &enums,
    );
    assert_eq!(result.len(), 1);
    assert_eq!(result[0].value, r#", "arguments": {"#);
}

#[test]
fn json_complete_command_name_empty() {
    let cmds = test_qmp_commands();
    let args = test_command_args();
    let enums = test_json_enums();
    let line = r#"{"execute": ""#;
    let pos = line.len();
    let result = complete_json(
        line,
        pos,
        &test_json_schema(&cmds, &args),
        &enums,
    );
    assert_eq!(result.len(), cmds.len());
    let vals = values(&result);
    assert!(vals.contains(&r#"device-add""#));
    assert!(vals.contains(&r#"query-version""#));
}

#[test]
fn json_complete_command_name_prefix() {
    let cmds = test_qmp_commands();
    let args = test_command_args();
    let enums = test_json_enums();
    let line = r#"{"execute": "query-"#;
    let pos = line.len();
    let result = complete_json(
        line,
        pos,
        &test_json_schema(&cmds, &args),
        &enums,
    );
    let vals = values(&result);
    assert!(vals.contains(&r#"query-block""#));
    assert!(vals.contains(&r#"query-version""#));
    assert!(!vals.iter().any(|v| v.starts_with("device")));
}

#[test]
fn json_complete_command_name_unique() {
    let cmds = test_qmp_commands();
    let args = test_command_args();
    let enums = test_json_enums();
    let line = r#"{"execute": "query-v"#;
    let pos = line.len();
    let result = complete_json(
        line,
        pos,
        &test_json_schema(&cmds, &args),
        &enums,
    );
    assert_eq!(values(&result), &[r#"query-version""#]);
}

#[test]
fn json_complete_command_display_override() {
    let cmds = test_qmp_commands();
    let args = test_command_args();
    let enums = test_json_enums();
    let line = r#"{"execute": "query-v"#;
    let pos = line.len();
    let result = complete_json(
        line,
        pos,
        &test_json_schema(&cmds, &args),
        &enums,
    );
    assert_eq!(result[0].display_override.as_deref(), Some("query-version"));
}

#[test]
fn json_complete_command_with_spaces() {
    let cmds = test_qmp_commands();
    let args = test_command_args();
    let enums = test_json_enums();
    let line = r#"{ "execute" : "query-"#;
    let pos = line.len();
    let result = complete_json(
        line,
        pos,
        &test_json_schema(&cmds, &args),
        &enums,
    );
    let vals = values(&result);
    assert!(vals.contains(&r#"query-block""#));
}

#[test]
fn json_complete_arg_key_no_quote() {
    let cmds = test_qmp_commands();
    let args = test_command_args();
    let enums = test_json_enums();
    let line = r#"{"execute": "device-add", "arguments": {"#;
    let pos = line.len();
    let result = complete_json(
        line,
        pos,
        &test_json_schema(&cmds, &args),
        &enums,
    );
    let vals = values(&result);
    assert!(vals.contains(&r#""driver": "#));
    assert!(vals.contains(&r#""bus": "#));
    assert!(vals.contains(&r#""id": "#));
}

#[test]
fn json_complete_arg_key_in_quotes() {
    let cmds = test_qmp_commands();
    let args = test_command_args();
    let enums = test_json_enums();
    let line = r#"{"execute": "device-add", "arguments": {"dr"#;
    let pos = line.len();
    let result = complete_json(
        line,
        pos,
        &test_json_schema(&cmds, &args),
        &enums,
    );
    assert_eq!(values(&result), &[r#"driver": "#]);
}

#[test]
fn json_complete_arg_key_excludes_used() {
    let cmds = test_qmp_commands();
    let args = test_command_args();
    let enums = test_json_enums();
    let line = r#"{"execute": "device-add", "arguments": {"driver": "e1000", ""#;
    let pos = line.len();
    let result = complete_json(
        line,
        pos,
        &test_json_schema(&cmds, &args),
        &enums,
    );
    let vals = values(&result);
    assert!(!vals.iter().any(|v| v.contains("driver")));
    assert!(vals.contains(&r#"bus": "#));
    assert!(vals.contains(&r#"id": "#));
}

#[test]
fn json_complete_arg_key_display_override() {
    let cmds = test_qmp_commands();
    let args = test_command_args();
    let enums = test_json_enums();
    let line = r#"{"execute": "device-add", "arguments": {"dr"#;
    let pos = line.len();
    let result = complete_json(
        line,
        pos,
        &test_json_schema(&cmds, &args),
        &enums,
    );
    assert_eq!(result[0].display_override.as_deref(), Some("driver"));
}

#[test]
fn json_complete_arg_enum_value() {
    let cmds = test_qmp_commands();
    let args = test_command_args();
    let enums = test_json_enums();
    let line = r#"{"execute": "blockdev-change-medium", "arguments": {"read-only-mode": ""#;
    let pos = line.len();
    let result = complete_json(
        line,
        pos,
        &test_json_schema(&cmds, &args),
        &enums,
    );
    let vals = values(&result);
    assert!(vals.contains(&r#"retain""#));
    assert!(vals.contains(&r#"read-only""#));
    assert!(vals.contains(&r#"read-write""#));
}

#[test]
fn json_complete_arg_enum_value_prefix() {
    let cmds = test_qmp_commands();
    let args = test_command_args();
    let enums = test_json_enums();
    let line =
        r#"{"execute": "blockdev-change-medium", "arguments": {"read-only-mode": "read-o"#;
    let pos = line.len();
    let result = complete_json(
        line,
        pos,
        &test_json_schema(&cmds, &args),
        &enums,
    );
    assert_eq!(values(&result), &[r#"read-only""#]);
}

#[test]
fn json_complete_non_json_returns_empty() {
    let cmds = test_qmp_commands();
    let args = test_command_args();
    let enums = test_json_enums();
    let line = "info version";
    let pos = line.len();
    let result = complete_json(
        line,
        pos,
        &test_json_schema(&cmds, &args),
        &enums,
    );
    assert!(result.is_empty());
}

#[test]
fn json_complete_no_execute_key() {
    let cmds = test_qmp_commands();
    let args = test_command_args();
    let enums = test_json_enums();
    let line = r#"{"other": "value"#;
    let pos = line.len();
    let result = complete_json(
        line,
        pos,
        &test_json_schema(&cmds, &args),
        &enums,
    );
    assert!(result.is_empty());
}

#[test]
fn json_complete_unknown_command_args() {
    let cmds = test_qmp_commands();
    let args = test_command_args();
    let enums = test_json_enums();
    let line = r#"{"execute": "query-version", "arguments": {"#;
    let pos = line.len();
    let result = complete_json(
        line,
        pos,
        &test_json_schema(&cmds, &args),
        &enums,
    );
    // query-version has no args in our test data
    assert!(result.is_empty());
}

#[test]
fn json_complete_arg_key_after_comma() {
    let cmds = test_qmp_commands();
    let args = test_command_args();
    let enums = test_json_enums();
    let line = r#"{"execute": "device-add", "arguments": {"driver": "e1000", "#;
    let pos = line.len();
    let result = complete_json(
        line,
        pos,
        &test_json_schema(&cmds, &args),
        &enums,
    );
    let vals = values(&result);
    // "driver" is used, should not appear; "bus" and "id" should
    assert!(!vals.iter().any(|v| v.contains("driver")));
    assert!(vals.contains(&r#""bus": "#));
    assert!(vals.contains(&r#""id": "#));
}

#[test]
fn json_complete_command_span() {
    let cmds = test_qmp_commands();
    let args = test_command_args();
    let enums = test_json_enums();
    let line = r#"{"execute": "query-v"#;
    let pos = line.len();
    let result = complete_json(
        line,
        pos,
        &test_json_schema(&cmds, &args),
        &enums,
    );
    assert!(!result.is_empty());
    // Span should cover "query-v" (7 chars from end)
    let span = result[0].span;
    assert_eq!(span.start, pos - "query-v".len());
    assert_eq!(span.end, pos);
}

#[test]
fn json_complete_enum_value_no_quote() {
    let cmds = test_qmp_commands();
    let args = test_command_args();
    let enums = test_json_enums();
    // "format":  with no opening quote — should offer quoted enum values
    let line = r#"{"execute": "screendump", "arguments": {"format": "#;
    let pos = line.len();
    let result = complete_json(
        line,
        pos,
        &test_json_schema(&cmds, &args),
        &enums,
    );
    let vals = values(&result);
    assert!(vals.contains(&r#""ppm""#));
    assert!(vals.contains(&r#""png""#));
    assert!(vals.contains(&r#""jpg""#));
}

#[test]
fn json_complete_enum_value_no_quote_prefix() {
    let cmds = test_qmp_commands();
    let args = test_command_args();
    let enums = test_json_enums();
    // Partial unquoted value
    let line = r#"{"execute": "screendump", "arguments": {"format": p"#;
    let pos = line.len();
    let result = complete_json(
        line,
        pos,
        &test_json_schema(&cmds, &args),
        &enums,
    );
    let vals = values(&result);
    assert!(vals.contains(&r#""ppm""#));
    assert!(vals.contains(&r#""png""#));
    assert!(!vals.iter().any(|v| v.contains("jpg")));
}

#[test]
fn json_complete_enum_value_in_quote() {
    let cmds = test_qmp_commands();
    let args = test_command_args();
    let enums = test_json_enums();
    // With opening quote — existing behavior, value includes only closing quote
    let line = r#"{"execute": "screendump", "arguments": {"format": ""#;
    let pos = line.len();
    let result = complete_json(
        line,
        pos,
        &test_json_schema(&cmds, &args),
        &enums,
    );
    let vals = values(&result);
    assert!(vals.contains(&r#"ppm""#));
    assert!(vals.contains(&r#"png""#));
    assert!(vals.contains(&r#"jpg""#));
}

#[test]
fn json_complete_bool_value_no_quote() {
    let cmds = test_qmp_commands();
    let args = test_command_args();
    let enums = test_json_enums();
    let line = r#"{"execute": "migrate-set-capabilities", "arguments": {"auto-converge": "#;
    let pos = line.len();
    let result = complete_json(
        line,
        pos,
        &test_json_schema(&cmds, &args),
        &enums,
    );
    let vals = values(&result);
    assert!(vals.contains(&"true"));
    assert!(vals.contains(&"false"));
}

#[test]
fn json_complete_bool_value_partial() {
    let cmds = test_qmp_commands();
    let args = test_command_args();
    let enums = test_json_enums();
    let line = r#"{"execute": "migrate-set-capabilities", "arguments": {"auto-converge": t"#;
    let pos = line.len();
    let result = complete_json(
        line,
        pos,
        &test_json_schema(&cmds, &args),
        &enums,
    );
    assert_eq!(values(&result), &["true"]);
}

#[test]
fn json_complete_bool_not_in_quotes() {
    let cmds = test_qmp_commands();
    let args = test_command_args();
    let enums = test_json_enums();
    // Inside quotes — booleans shouldn't be suggested (not valid JSON)
    let line = r#"{"execute": "migrate-set-capabilities", "arguments": {"auto-converge": ""#;
    let pos = line.len();
    let result = complete_json(
        line,
        pos,
        &test_json_schema(&cmds, &args),
        &enums,
    );
    assert!(result.is_empty());
}

#[test]
fn json_complete_enum_display_override_no_quote() {
    let cmds = test_qmp_commands();
    let args = test_command_args();
    let enums = test_json_enums();
    let line = r#"{"execute": "screendump", "arguments": {"format": "#;
    let pos = line.len();
    let result = complete_json(
        line,
        pos,
        &test_json_schema(&cmds, &args),
        &enums,
    );
    // Display override should show clean value without quotes
    assert_eq!(result[0].display_override.as_deref(), Some("ppm"));
}

#[test]
fn json_complete_nested_object_keys() {
    let cmds = test_qmp_commands_with_nesting();
    let args = test_command_args_with_nesting();
    let obj_types = test_object_types();
    let tagged = HashMap::new();
    let tag_ids = HashMap::new();
    let enums = test_json_enums();
    let line = r#"{"execute": "blockdev-add", "arguments": {"file": {"#;
    let pos = line.len();
    let schema = JsonSchemaCtx {
        commands: &cmds,
        command_args: &args,
        object_types: &obj_types,
        tagged_unions: &tagged,
        command_arg_type_ids: &tag_ids,
    };
    let result = complete_json(line, pos, &schema, &enums);
    let vals = values(&result);
    assert!(vals.contains(&r#""filename": "#));
    assert!(vals.contains(&r#""aio": "#));
    assert!(vals.contains(&r#""locking": "#));
}

#[test]
fn json_complete_nested_object_excludes_used() {
    let cmds = test_qmp_commands_with_nesting();
    let args = test_command_args_with_nesting();
    let obj_types = test_object_types();
    let tagged = HashMap::new();
    let tag_ids = HashMap::new();
    let enums = test_json_enums();
    let line = r#"{"execute": "blockdev-add", "arguments": {"file": {"filename": "/tmp/x", "#;
    let pos = line.len();
    let schema = JsonSchemaCtx {
        commands: &cmds,
        command_args: &args,
        object_types: &obj_types,
        tagged_unions: &tagged,
        command_arg_type_ids: &tag_ids,
    };
    let result = complete_json(line, pos, &schema, &enums);
    let vals = values(&result);
    assert!(!vals.iter().any(|v| v.contains("filename")));
    assert!(vals.contains(&r#""aio": "#));
    assert!(vals.contains(&r#""locking": "#));
}

#[test]
fn json_complete_nested_enum_value() {
    let cmds = test_qmp_commands_with_nesting();
    let args = test_command_args_with_nesting();
    let obj_types = test_object_types();
    let tagged = HashMap::new();
    let tag_ids = HashMap::new();
    let mut enums = test_json_enums();
    enums.insert(
        "BlockdevAioOptions".into(),
        vec!["threads".into(), "native".into(), "io_uring".into()],
    );
    let line = r#"{"execute": "blockdev-add", "arguments": {"file": {"aio": ""#;
    let pos = line.len();
    let schema = JsonSchemaCtx {
        commands: &cmds,
        command_args: &args,
        object_types: &obj_types,
        tagged_unions: &tagged,
        command_arg_type_ids: &tag_ids,
    };
    let result = complete_json(line, pos, &schema, &enums);
    let vals = values(&result);
    assert!(vals.contains(&r#"threads""#));
    assert!(vals.contains(&r#"native""#));
    assert!(vals.contains(&r#"io_uring""#));
}

#[test]
fn json_complete_double_nested_keys() {
    let cmds = test_qmp_commands_with_nesting();
    let mut args = test_command_args_with_nesting();
    args.insert(
        "blockdev-add".into(),
        vec![
            member("driver", "enum", "BlockdevDriver"),
            member("node-name", "str", "str"),
            member("server", "object", "BlockdevOptionsNbd"),
        ],
    );
    let obj_types = test_object_types();
    let tagged = HashMap::new();
    let tag_ids = HashMap::new();
    let enums = test_json_enums();
    let line = r#"{"execute": "blockdev-add", "arguments": {"server": {"server": {"#;
    let pos = line.len();
    let schema = JsonSchemaCtx {
        commands: &cmds,
        command_args: &args,
        object_types: &obj_types,
        tagged_unions: &tagged,
        command_arg_type_ids: &tag_ids,
    };
    let result = complete_json(line, pos, &schema, &enums);
    let vals = values(&result);
    assert!(vals.contains(&r#""host": "#));
    assert!(vals.contains(&r#""port": "#));
}

#[test]
fn json_complete_comma_inside_nested_no_break() {
    let cmds = test_qmp_commands_with_nesting();
    let args = test_command_args_with_nesting();
    let obj_types = test_object_types();
    let tagged = HashMap::new();
    let tag_ids = HashMap::new();
    let enums = test_json_enums();
    let line = r#"{"execute": "blockdev-add", "arguments": {"file": {"filename": "/tmp", "aio": "native"}, "#;
    let pos = line.len();
    let schema = JsonSchemaCtx {
        commands: &cmds,
        command_args: &args,
        object_types: &obj_types,
        tagged_unions: &tagged,
        command_arg_type_ids: &tag_ids,
    };
    let result = complete_json(line, pos, &schema, &enums);
    let vals = values(&result);
    assert!(!vals.iter().any(|v| v.contains("file")));
    assert!(vals.contains(&r#""driver": "#));
    assert!(vals.contains(&r#""node-name": "#));
}

#[test]
fn json_complete_tagged_union_variant_members() {
    let cmds = test_qmp_commands_with_nesting();
    let mut args = test_command_args_with_nesting();
    args.insert(
        "blockdev-add".into(),
        vec![
            member("driver", "enum", "BlockdevDriver"),
            member("node-name", "str", "str"),
        ],
    );
    let obj_types = test_object_types();
    let tagged = test_tagged_unions();
    let tag_ids = test_command_arg_type_ids();
    let enums = test_json_enums();
    let line =
        r#"{"execute": "blockdev-add", "arguments": {"driver": "file", "node-name": "n1", "#;
    let pos = line.len();
    let schema = JsonSchemaCtx {
        commands: &cmds,
        command_args: &args,
        object_types: &obj_types,
        tagged_unions: &tagged,
        command_arg_type_ids: &tag_ids,
    };
    let result = complete_json(line, pos, &schema, &enums);
    let vals = values(&result);
    assert!(vals.contains(&r#""filename": "#));
    assert!(vals.contains(&r#""aio": "#));
    assert!(!vals.iter().any(|v| v.contains("driver")));
    assert!(!vals.iter().any(|v| v.contains("node-name")));
}

#[test]
fn json_complete_tagged_union_no_tag_value() {
    let cmds = test_qmp_commands_with_nesting();
    let mut args = test_command_args_with_nesting();
    args.insert(
        "blockdev-add".into(),
        vec![
            member("driver", "enum", "BlockdevDriver"),
            member("node-name", "str", "str"),
        ],
    );
    let obj_types = test_object_types();
    let tagged = test_tagged_unions();
    let tag_ids = test_command_arg_type_ids();
    let enums = test_json_enums();
    let line = r#"{"execute": "blockdev-add", "arguments": {"#;
    let pos = line.len();
    let schema = JsonSchemaCtx {
        commands: &cmds,
        command_args: &args,
        object_types: &obj_types,
        tagged_unions: &tagged,
        command_arg_type_ids: &tag_ids,
    };
    let result = complete_json(line, pos, &schema, &enums);
    let vals = values(&result);
    assert!(vals.contains(&r#""driver": "#));
    assert!(vals.contains(&r#""node-name": "#));
    assert!(!vals.iter().any(|v| v.contains("filename")));
}
