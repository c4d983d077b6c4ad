use qemu_hmp::commands::xen_event::{
    format_xen_event_list, inject_port, xen_event_inject_message, EvtchnInfo,
};
use qemu_hmp::commands::DispatchOutput;
use qemu_hmp::json::Json;
use qemu_hmp::prompt::HmpPrompt;
use qemu_hmp::qmp::{
    capabilities_request, cpu_index_of, is_error_reply, is_event, parse_address, reply_value,
    request_line, Address,
};
use qemu_hmp::repl::{
    after_dispatch, input_command, next_frame, pipe_record, repl_step, socket_choice,
    spinner_frame, version_message, ExitReason, ReplAction, Signal, SocketChoice,
};

fn obj(members: Vec<(&str, Json)>) -> Json {
    Json::Object(members.into_iter().map(|(k, v)| (k.to_string(), v)).collect())
}

#[test]
fn address_tcp_unix_and_bare_path() {
    assert_eq!(parse_address("tcp:localhost:4444"), Address::Tcp("localhost:4444".to_string()));
    assert_eq!(parse_address("unix:/tmp/qmp.sock"), Address::Unix("/tmp/qmp.sock".to_string()));
    assert_eq!(parse_address("/tmp/qmp.sock"), Address::Unix("/tmp/qmp.sock".to_string()));
}

#[test]
fn reply_kinds() {
    let ev = obj(vec![("event", Json::Str("STOP".to_string()))]);
    let err = obj(vec![("error", obj(vec![("class", Json::Str("GenericError".to_string()))]))]);
    let ok = obj(vec![("return", Json::Number("7".to_string()))]);
    assert!(is_event(&ev));
    assert!(!is_event(&ok));
    assert!(is_error_reply(&err));
    assert!(!is_error_reply(&ok));
    match reply_value(&ok) {
        Some(Json::Number(n)) => assert_eq!(n, "7"),
        other => panic!("unexpected {:?}", other),
    }
    assert!(reply_value(&err).is_none());
}

#[test]
fn request_lines() {
    assert_eq!(capabilities_request(), "{\"execute\":\"qmp_capabilities\"}\n");
    let req = obj(vec![
        ("execute", Json::Str("human-monitor-command".to_string())),
        ("arguments", obj(vec![("command-line", Json::Str("info \"x\"\n".to_string()))])),
    ]);
    assert_eq!(
        request_line(&req),
        "{\"execute\":\"human-monitor-command\",\"arguments\":{\"command-line\":\"info \\\"x\\\"\\n\"}}\n"
    );
}

#[test]
fn cpu_index_unset_is_none() {
    assert_eq!(cpu_index_of(-1), None);
    assert_eq!(cpu_index_of(0), Some(0));
    assert_eq!(cpu_index_of(3), Some(3));
}

#[test]
fn prompt_texts() {
    let p = HmpPrompt;
    assert_eq!(p.render_prompt_left(), "(qemu) ");
    assert_eq!(p.render_prompt_right(), "");
    assert_eq!(p.render_prompt_indicator(), "");
    assert_eq!(p.render_prompt_multiline_indicator(), "::: ");
    assert_eq!(p.render_prompt_history_search_indicator(false, "info"), "(reverse-search: info) ");
    assert_eq!(
        p.render_prompt_history_search_indicator(true, "xyz"),
        "(failing reverse-search: xyz) "
    );
}

#[test]
fn input_lines_are_trimmed() {
    assert_eq!(input_command("  info status \t"), Some("info status".to_string()));
    assert_eq!(input_command("   "), None);
    assert_eq!(input_command(""), None);
}

#[test]
fn repl_steps() {
    match repl_step(Signal::Line("  stop ".to_string())) {
        ReplAction::Dispatch(c) => assert_eq!(c, "stop"),
        other => panic!("unexpected {:?}", other),
    }
    assert!(matches!(repl_step(Signal::Line(" ".to_string())), ReplAction::Continue));
    assert!(matches!(repl_step(Signal::Quit), ReplAction::Stop));
    assert!(matches!(repl_step(Signal::Other), ReplAction::Continue));
    match repl_step(Signal::Error("broken pipe".to_string())) {
        ReplAction::Fail(m) => assert_eq!(m, "Input error: broken pipe"),
        other => panic!("unexpected {:?}", other),
    }
}

#[test]
fn dispatch_results() {
    assert_eq!(after_dispatch(DispatchOutput::Output("VM status: running".to_string())), Ok(Some("VM status: running".to_string())));
    assert_eq!(after_dispatch(DispatchOutput::Output(String::new())), Ok(None));
    assert_eq!(after_dispatch(DispatchOutput::Disconnected), Err(ExitReason::Disconnected));
}

#[test]
fn pipe_records_end_with_nul() {
    assert_eq!(pipe_record("QEMU 9.0.0"), "QEMU 9.0.0\n\0");
    assert_eq!(pipe_record(""), "\0");
    let r = pipe_record("a\nb");
    assert_eq!(r.matches('\0').count(), 1);
    assert!(r.ends_with('\0'));
}

#[test]
fn socket_choices() {
    assert_eq!(socket_choice(0, true), SocketChoice::NoneFound);
    assert_eq!(socket_choice(1, false), SocketChoice::Only);
    assert_eq!(socket_choice(3, true), SocketChoice::Menu);
    assert_eq!(socket_choice(3, false), SocketChoice::List);
}

#[test]
fn spinner_cycles() {
    assert_eq!(next_frame(0), 1);
    assert_eq!(next_frame(9), 0);
    assert_eq!(spinner_frame(0), "⠋");
    assert_eq!(spinner_frame(9), "⠏");
}

#[test]
fn version_messages() {
    assert_eq!(version_message(Some((9, 1, 50))), "QEMU 9.1.50 connected.");
    assert_eq!(version_message(None), "Connected to QEMU.");
}

#[test]
fn xen_event_list_lines() {
    let list = vec![
        EvtchnInfo {
            port: 1,
            vcpu: 0,
            port_type: "virq".to_string(),
            is_ipi: false,
            remote_domain: String::new(),
            target: 3,
            pending: false,
            masked: false,
        },
        EvtchnInfo {
            port: 12345,
            vcpu: 2,
            port_type: "interdomain".to_string(),
            is_ipi: false,
            remote_domain: "qemu".to_string(),
            target: 7,
            pending: true,
            masked: true,
        },
        EvtchnInfo {
            port: 42,
            vcpu: 1,
            port_type: "ipi".to_string(),
            is_ipi: true,
            remote_domain: String::new(),
            target: 0,
            pending: false,
            masked: true,
        },
    ];
    assert_eq!(
        format_xen_event_list(&list),
        "port    1: vcpu: 0 virq(3)\n\
         port 12345: vcpu: 2 interdomain(qemu:7) PENDING MASKED\n\
         port   42: vcpu: 1 ipi MASKED\n"
    );
    assert_eq!(format_xen_event_list(&Vec::new()), "");
}

#[test]
fn xen_event_inject() {
    assert_eq!(xen_event_inject_message(5), "Delivered port 5\n");
    assert_eq!(xen_event_inject_message(-2), "Delivered port -2\n");
    assert_eq!(inject_port(5), 5);
    assert_eq!(inject_port(0x1_0000_0007), 7);
    assert_eq!(inject_port(-1), u32::MAX);
}
