use qemu_hmp::format::{format_size, rst_to_text, style_emphasis};

#[test]
fn format_size_bytes() {
    assert_eq!(format_size(512), "512 bytes");
    assert_eq!(format_size(0), "0 bytes");
}

#[test]
fn format_size_kib() {
    assert_eq!(format_size(1024), "1 KiB");
    assert_eq!(format_size(2048), "2 KiB");
}

#[test]
fn format_size_gib() {
    assert_eq!(format_size(10 * 1024 * 1024 * 1024), "10 GiB");
}

#[test]
fn format_size_fractional() {
    // 1.5 GiB
    let bytes = 1024 * 1024 * 1024 + 512 * 1024 * 1024;
    assert_eq!(format_size(bytes), "1.50 GiB");
}

#[test]
fn format_size_tib() {
    assert_eq!(format_size(1024_i64 * 1024 * 1024 * 1024), "1 TiB");
}

#[test]
fn format_size_large_value_no_precision_loss() {
    let val = (1_i64 << 53) + 1024 * 1024 * 1024;
    let out = format_size(val);
    assert_eq!(out, "8192.00 TiB");
}

#[test]
fn format_size_negative_values() {
    assert_eq!(format_size(-5), "-5 bytes");
    assert_eq!(format_size(-2048), "-2 KiB");
    assert_eq!(format_size(i64::MIN), "-8388608 TiB");
}

#[test]
fn format_size_rounding_keeps_two_decimals() {
    // 1 MiB - 1 byte is not a multiple: 1024.00 KiB, two decimal places.
    assert_eq!(format_size(1024 * 1024 - 1), "1024.00 KiB");
    assert_eq!(format_size(2047), "2.00 KiB");
    assert_eq!(format_size(-2047), "-2.00 KiB");
    // 1.005 KiB rounds half up to 1.01 KiB (1029 bytes = 1.0048..)
    assert_eq!(format_size(1029), "1.00 KiB");
    assert_eq!(format_size(1030), "1.01 KiB");
    assert_eq!(format_size(1536 * 1024), "1.50 MiB");
}

#[test]
fn rst_to_text_plain() {
    let rst = "``commit``\n  Commit changes to the disk images.";
    assert_eq!(
        rst_to_text(rst, false),
        "commit\n  Commit changes to the disk images."
    );
}

#[test]
fn rst_to_text_styled() {
    let rst = "``commit``\n  Commit changes to the disk images.";
    assert_eq!(
        rst_to_text(rst, true),
        "\x1b[1mcommit\x1b[0m\n  Commit changes to the disk images."
    );
}

#[test]
fn rst_to_text_emphasis() {
    let rst = "``help`` or ``?`` [*cmd*]\n  Show the help for command *cmd*.";
    assert_eq!(
        rst_to_text(rst, true),
        "\x1b[1mhelp\x1b[0m or \x1b[1m?\x1b[0m [\x1b[4mcmd\x1b[0m]\n  Show the help for command \x1b[4mcmd\x1b[0m."
    );
}

#[test]
fn rst_to_text_dedent_info() {
    let rst = "  ``info version``\n    Show the version of QEMU.";
    assert_eq!(
        rst_to_text(rst, false),
        "info version\n  Show the version of QEMU."
    );
}

#[test]
fn rst_to_text_backslash_escape() {
    let rst = "``log`` *item1*\\ [,...]\n  Activate logging.";
    assert_eq!(
        rst_to_text(rst, false),
        "log item1[,...]\n  Activate logging."
    );
}

#[test]
fn rst_to_text_unclosed_bold_is_reset() {
    assert_eq!(rst_to_text("a ``b", true), "a \x1b[1mb\x1b[0m");
}

#[test]
fn rst_to_text_blank_lines_and_crlf() {
    let rst = "\r\n    first\r\n\n      second\n";
    assert_eq!(rst_to_text(rst, false), "first\n\n  second");
}

#[test]
fn rst_to_text_empty() {
    assert_eq!(rst_to_text("", true), "");
    assert_eq!(rst_to_text("   \n  ", false), "");
}

#[test]
fn style_emphasis_keeps_strong_markers() {
    assert_eq!(style_emphasis("**a** *b*", "<", ">"), "**a** <b>");
    assert_eq!(style_emphasis("*open", "<", ">"), "<open");
}

#[test]
fn rst_to_text_unstyled_has_no_escapes() {
    let rst = "  Use ``info block`` to *list* devices.\n  a\\_b";
    let plain = rst_to_text(rst, false);
    assert!(!plain.contains('\x1b'));
    assert_eq!(plain, "Use info block to list devices.\na_b");
    assert!(rst_to_text(rst, true).contains('\x1b'));
}

fn strip_codes(s: &str) -> String {
    s.replace("\x1b[1m", "").replace("\x1b[4m", "").replace("\x1b[0m", "")
}

#[test]
fn rst_to_text_styled_without_codes_is_plain() {
    for rst in [
        "  Use ``info block`` to *list* devices.",
        "``a`` *b* ``*c*`` \\*d\\* **e**",
        "*unclosed ``bold",
        "*``**``",
        "**``*``",
    ] {
        assert_eq!(strip_codes(&rst_to_text(rst, true)), rst_to_text(rst, false), "{rst}");
    }
    assert_eq!(rst_to_text("*``**``", false), "**");
}

#[test]
fn rst_to_text_star_run_with_two_odd_pieces_differs() {
    // Two odd runs of `*` that only codes separate: styled, each single
    // `*` is an emphasis marker; unstyled, they make a kept `**`.
    for rst in ["*````*", "*``*``", "*``***``"] {
        assert_ne!(strip_codes(&rst_to_text(rst, true)), rst_to_text(rst, false), "{rst}");
    }
    assert_eq!(strip_codes(&rst_to_text("*``*``", true)), "");
    assert_eq!(rst_to_text("*``*``", false), "**");
}
