use qemu_hmp::commands::{route, Route};
use qemu_hmp::listing::listed_names;

#[test]
fn help_listing_names_with_aliases() {
    let listing = "announce_self [interfaces] [id] -- Trigger GARP/RARP announcements\r\n\
                   c|cont  -- resume emulation\n\
                   \n\
                   q|quit  -- quit the emulator\n";
    assert_eq!(listed_names(listing, 0), vec!["announce_self", "c", "cont", "q", "quit"]);
    let info = "info balloon  -- show balloon information\ninfo block [-n] [-v] [device] -- show block info";
    assert_eq!(listed_names(info, 1), vec!["balloon", "block"]);
    assert_eq!(listed_names("", 0), Vec::<String>::new());
    assert_eq!(listed_names("a||b", 0), vec!["a", "b"]);
}

#[test]
fn command_routes() {
    assert_eq!(route("xen-event-list"), Route::XenEventList);
    assert_eq!(route("  xen-event-inject -12 "), Route::XenEventInject(-12));
    assert_eq!(route("xen-event-inject +7"), Route::XenEventInject(7));
    assert_eq!(route("xen-event-inject 99999999999999999999"), Route::Hmp);
    assert_eq!(route("xen-event-inject x"), Route::Hmp);
    assert_eq!(route("xen-event-list extra"), Route::Hmp);
    assert_eq!(route("screendump /tmp/a.ppm -f png"), Route::Screendump("/tmp/a.ppm".to_string()));
    assert_eq!(route("screendump"), Route::Hmp);
    assert_eq!(route("info status"), Route::Hmp);
}
