use qemu_hmp::completer::SchemaMember;
use qemu_hmp::json::Json;
use qemu_hmp::schema::build_schema_cache;

fn s(t: &str) -> Json {
    Json::Str(t.to_string())
}

fn obj(members: Vec<(&str, Json)>) -> Json {
    Json::Object(members.into_iter().map(|(k, v)| (k.to_string(), v)).collect())
}

fn entry(name: &str, meta: &str, rest: Vec<(&str, Json)>) -> Json {
    let mut m = vec![("name", s(name)), ("meta-type", s(meta))];
    m.extend(rest);
    obj(m)
}

fn member(name: &str, ty: &str) -> Json {
    obj(vec![("name", s(name)), ("type", s(ty))])
}

fn lookup<'a, V>(t: &'a [(String, V)], k: &str) -> Option<&'a V> {
    t.iter().find(|(key, _)| key == k).map(|(_, v)| v)
}

fn shown(ms: &[SchemaMember]) -> Vec<(String, String, String)> {
    ms.iter().map(|m| (m.name.clone(), m.display_type.clone(), m.type_id.clone())).collect()
}

fn triple(a: &str, b: &str, c: &str) -> (String, String, String) {
    (a.to_string(), b.to_string(), c.to_string())
}

fn reply() -> Json {
    obj(vec![(
        "return",
        Json::Array(vec![
            entry("str", "builtin", vec![("json-type", s("string"))]),
            entry("bool", "builtin", vec![("json-type", s("boolean"))]),
            entry(
                "1",
                "enum",
                vec![("members", Json::Array(vec![obj(vec![("name", s("on"))]), obj(vec![("name", s("off"))])]))],
            ),
            entry("0", "object", vec![("members", Json::Array(vec![member("id", "str"), member("mode", "1")]))]),
            entry("stop", "command", vec![("arg-type", s("0"))]),
            entry("quit", "command", vec![("arg-type", s("2"))]),
            entry("2", "object", vec![("members", Json::Array(vec![]))]),
            entry(
                "3",
                "object",
                vec![
                    ("members", Json::Array(vec![member("qom-type", "4"), member("id", "str")])),
                    ("tag", s("qom-type")),
                    (
                        "variants",
                        Json::Array(vec![obj(vec![("case", s("rng-random")), ("type", s("5"))])]),
                    ),
                ],
            ),
            entry("5", "object", vec![("members", Json::Array(vec![member("filename", "str"), member("on", "bool")]))]),
            entry("object-add", "command", vec![("arg-type", s("3"))]),
        ]),
    )])
}

#[test]
fn schema_commands_sorted() {
    let c = build_schema_cache(&reply());
    assert_eq!(c.qmp_commands, vec!["object-add".to_string(), "quit".to_string(), "stop".to_string()]);
}

#[test]
fn schema_enums_and_command_args() {
    let c = build_schema_cache(&reply());
    assert_eq!(lookup(&c.enums, "1"), Some(&vec!["on".to_string(), "off".to_string()]));
    let stop = lookup(&c.command_args, "stop").expect("stop has arguments");
    assert_eq!(shown(stop), vec![triple("id", "str", "str"), triple("mode", "enum", "1")]);
    // A command whose argument object has no members has no entry.
    assert!(lookup(&c.command_args, "quit").is_none());
    assert_eq!(lookup(&c.command_arg_type_ids, "stop"), Some(&"0".to_string()));
}

#[test]
fn schema_object_add_variants() {
    let c = build_schema_cache(&reply());
    let rng = lookup(&c.object_add_variants, "rng-random").expect("variant");
    assert_eq!(
        shown(rng),
        vec![triple("id", "str", "str"), triple("filename", "str", "str"), triple("on", "bool", "bool")]
    );
    let u = lookup(&c.tagged_unions, "3").expect("tagged union");
    assert_eq!(u.tag, "qom-type");
    assert_eq!(u.variants, vec![("rng-random".to_string(), "5".to_string())]);
    assert_eq!(shown(lookup(&c.object_types, "5").unwrap()).len(), 2);
}

#[test]
fn schema_without_return_is_empty() {
    let c = build_schema_cache(&Json::Null);
    assert!(c.qmp_commands.is_empty());
    assert!(c.enums.is_empty());
    assert!(c.command_args.is_empty());
}

fn unique<V>(t: &[(String, V)]) -> bool {
    t.iter().enumerate().all(|(i, (k, _))| t[i + 1..].iter().all(|(k2, _)| k2 != k))
}

#[test]
fn schema_tables_have_one_entry_per_key() {
    let mut r = reply();
    if let Json::Object(m) = &mut r {
        if let Json::Array(v) = &mut m[0].1 {
            // A later entry of the same name replaces the earlier one.
            v.push(entry("stop", "command", vec![("arg-type", s("5"))]));
        }
    }
    let c = build_schema_cache(&r);
    assert!(unique(&c.enums) && unique(&c.object_add_variants) && unique(&c.command_args));
    assert!(unique(&c.object_types) && unique(&c.tagged_unions) && unique(&c.command_arg_type_ids));
    assert_eq!(lookup(&c.command_arg_type_ids, "stop"), Some(&"5".to_string()));
    assert_eq!(shown(lookup(&c.command_args, "stop").unwrap()).len(), 2);
    assert!(c.command_args.iter().all(|(_, ms)| !ms.is_empty()));
    assert!(c.object_types.iter().all(|(_, ms)| !ms.is_empty()));
    assert_eq!(c.qmp_commands, vec!["object-add".to_string(), "quit".to_string(), "stop".to_string()]);
}
