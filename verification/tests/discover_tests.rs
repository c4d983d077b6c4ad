use qemu_hmp::discover::{
    draw_menu, extract_unix_path, is_qemu_exe, menu_step, repeat, socket_candidates, sort_sockets,
    MenuAction, MenuKey, QmpSocket,
};
use qemu_hmp::filenames::{filename_candidates, filename_dir};

fn sock(path: &str, label: &str) -> QmpSocket {
    QmpSocket { path: path.to_string(), label: label.to_string() }
}

fn cmdline(args: &[&str]) -> Vec<u8> {
    let mut raw = Vec::new();
    for a in args {
        raw.extend_from_slice(a.as_bytes());
        raw.push(0);
    }
    raw
}

#[test]
fn qemu_executables() {
    assert!(is_qemu_exe("qemu-system-x86_64"));
    assert!(is_qemu_exe("qemu-system-aarch64"));
    assert!(is_qemu_exe("qemu-kvm"));
    assert!(!is_qemu_exe("qemu-img"));
    assert!(!is_qemu_exe("bash"));
}

#[test]
fn unix_paths() {
    assert_eq!(extract_unix_path("unix:/tmp/qmp.sock,server,wait=off"), Some("/tmp/qmp.sock".to_string()));
    assert_eq!(extract_unix_path("unix:/tmp/q.sock"), Some("/tmp/q.sock".to_string()));
    assert_eq!(extract_unix_path("unix:,server"), None);
    assert_eq!(extract_unix_path("tcp:localhost:4444"), None);
}

#[test]
fn candidates_from_cmdline() {
    let raw = cmdline(&[
        "qemu-system-x86_64",
        "-name",
        "guest=vm1,debug-threads=on",
        "-qmp",
        "unix:/run/vm1.sock,server,wait=off",
        "-qmp-pretty",
        "tcp:localhost:4444",
        "-qmp",
        "unix:/run/vm1b.sock",
    ]);
    assert_eq!(
        socket_candidates(1234, &raw),
        vec![sock("/run/vm1.sock", "vm1 (pid 1234)"), sock("/run/vm1b.sock", "vm1 (pid 1234)")]
    );
}

#[test]
fn candidates_without_name() {
    let raw = cmdline(&["qemu-system-x86_64", "-qmp", "unix:/tmp/a.sock,server"]);
    assert_eq!(socket_candidates(7, &raw), vec![sock("/tmp/a.sock", "qemu (pid 7)")]);
    assert_eq!(socket_candidates(7, &cmdline(&["qemu-system-x86_64", "-m", "1G"])), vec![]);
}

#[test]
fn sockets_sorted_by_label_stably() {
    let sorted = sort_sockets(vec![
        sock("/c", "zeta (pid 3)"),
        sock("/a", "alpha (pid 1)"),
        sock("/b1", "beta (pid 2)"),
        sock("/b2", "beta (pid 2)"),
    ]);
    assert_eq!(
        sorted,
        vec![
            sock("/a", "alpha (pid 1)"),
            sock("/b1", "beta (pid 2)"),
            sock("/b2", "beta (pid 2)"),
            sock("/c", "zeta (pid 3)"),
        ]
    );
}

#[test]
fn menu_text_highlights_selection() {
    let s = vec![sock("/a", "vm1 (pid 1)"), sock("/b", "vm2 (pid 2)")];
    assert_eq!(
        draw_menu(&s, 1),
        "Select a QMP socket:\r\n  vm1 (pid 1) /a\x1b[K\r\n\x1b[1;36m> vm2 (pid 2) \x1b[0;36m/b\x1b[0m\x1b[K\r\n"
    );
}

#[test]
fn menu_keys() {
    assert_eq!(menu_step(0, 3, MenuKey::Up), MenuAction::Move(0));
    assert_eq!(menu_step(2, 3, MenuKey::Up), MenuAction::Move(1));
    assert_eq!(menu_step(2, 3, MenuKey::Down), MenuAction::Move(2));
    assert_eq!(menu_step(0, 3, MenuKey::Down), MenuAction::Move(1));
    assert_eq!(menu_step(1, 3, MenuKey::Enter), MenuAction::Choose(1));
    assert_eq!(menu_step(1, 3, MenuKey::Esc), MenuAction::Cancel);
    assert_eq!(menu_step(1, 3, MenuKey::CtrlC), MenuAction::Cancel);
    assert_eq!(menu_step(1, 3, MenuKey::Other), MenuAction::Ignore);
}

#[test]
fn repeated_text() {
    assert_eq!(repeat("ab", 3), "ababab");
    assert_eq!(repeat("x", 0), "");
}

#[test]
fn filename_directories() {
    assert_eq!(filename_dir(""), ".");
    assert_eq!(filename_dir("disk"), ".");
    assert_eq!(filename_dir("/tmp/di"), "/tmp");
    assert_eq!(filename_dir("/tmp/"), "/tmp");
    assert_eq!(filename_dir("/x"), "/");
    assert_eq!(filename_dir("images/a"), "images");
}

#[test]
fn filename_completions_sorted_and_filtered() {
    let entries = vec![
        ("disk2.qcow2".to_string(), false),
        (".hidden".to_string(), false),
        ("disk1.qcow2".to_string(), false),
        ("dir".to_string(), true),
        ("other".to_string(), false),
    ];
    assert_eq!(
        filename_candidates("/img/di", &entries),
        vec![
            ("/img/dir/".to_string(), true),
            ("/img/disk1.qcow2".to_string(), false),
            ("/img/disk2.qcow2".to_string(), false),
        ]
    );
    assert_eq!(
        filename_candidates("", &entries),
        vec![
            ("dir/".to_string(), true),
            ("disk1.qcow2".to_string(), false),
            ("disk2.qcow2".to_string(), false),
            ("other".to_string(), false),
        ]
    );
    assert_eq!(filename_candidates(".h", &entries), vec![(".hidden".to_string(), false)]);
    assert_eq!(
        filename_candidates("/x", &vec![("xa".to_string(), false)]),
        vec![("/xa".to_string(), false)]
    );
}
