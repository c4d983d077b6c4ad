//! What HMP commands hand back, and where a command line goes.
use vstd::prelude::*;

use crate::format::{all_digits, dec_value};
use crate::text::{same, split_whitespace, string_from, to_chars, words};

pub mod xen_event;

verus! {

/// An error reported to the user by an HMP command.
#[derive(Debug)]
pub enum CmdError {
    /// A failure with a human-readable message.
    Command(String),
}

/// The outcome of dispatching one command line.
#[derive(Debug)]
pub enum DispatchOutput {
    /// The text to show (possibly empty).
    Output(String),
    /// QEMU closed the connection.
    Disconnected,
}

/// The value of an integer in decimal text as `i64`'s `FromStr` reads
/// it: an optional `+` or `-`, then one or more ASCII digits, nothing
/// else, and within `i64`'s range.
pub open spec fn i64_text_value(t: Seq<char>) -> Option<int> {
    let (neg, d) = if t.len() > 0 && t[0] == '+' {
        (false, t.skip(1))
    } else if t.len() > 0 && t[0] == '-' {
        (true, t.skip(1))
    } else {
        (false, t)
    };
    let v: int = if neg {
        -(dec_value(d) as int)
    } else {
        dec_value(d) as int
    };
    if d.len() > 0 && all_digits(d) && i64::MIN <= v <= i64::MAX {
        Some(v)
    } else {
        None
    }
}

/// `str::parse::<i64>`: documented to accept an optional `+` or `-` sign
/// followed by decimal digits only, and to fail on anything else and on
/// a value out of range.
#[verifier::external_body]
fn parse_i64(t: &str) -> (r: Option<i64>)
    ensures
        match r {
            Some(v) => i64_text_value(t@) == Some(v as int),
            None => i64_text_value(t@) is None,
        },
{
    t.parse::<i64>().ok()
}

/// Where a command line goes: the Xen event channel commands and
/// `screendump` are handled here, everything else by QEMU's own monitor.
#[derive(Debug, PartialEq, Eq)]
pub enum Route {
    /// `xen-event-list`.
    XenEventList,
    /// `xen-event-inject PORT`.
    XenEventInject(i64),
    /// `screendump FILE ...`, with the file to show afterwards.
    Screendump(String),
    /// Anything else: through `human-monitor-command`.
    Hmp,
}

pub ghost enum RouteView {
    XenEventList,
    XenEventInject(int),
    Screendump(Seq<char>),
    Hmp,
}

impl DeepView for Route {
    type V = RouteView;

    open spec fn deep_view(&self) -> RouteView {
        match self {
            Route::XenEventList => RouteView::XenEventList,
            Route::XenEventInject(p) => RouteView::XenEventInject(*p as int),
            Route::Screendump(f) => RouteView::Screendump(f@),
            Route::Hmp => RouteView::Hmp,
        }
    }
}

/// Where a command line goes, by its words.
pub open spec fn spec_route(line: Seq<char>) -> RouteView {
    let ws = words(line);
    if ws.len() == 1 && ws[0] == "xen-event-list"@ {
        RouteView::XenEventList
    } else if ws.len() >= 2 && ws[0] == "screendump"@ {
        RouteView::Screendump(ws[1])
    } else if ws.len() == 2 && ws[0] == "xen-event-inject"@ && i64_text_value(ws[1]) is Some {
        RouteView::XenEventInject(i64_text_value(ws[1])->0)
    } else {
        RouteView::Hmp
    }
}

pub fn route(line: &str) -> (r: Route)
    ensures
        r.deep_view() == spec_route(line@),
{
    let v = to_chars(line);
    let ws = split_whitespace(&v);
    proof {
        assert(ws@.map_values(|w: Vec<char>| w@) == words(v@));
        if ws@.len() > 0 {
            assert(ws@.map_values(|w: Vec<char>| w@)[0] == ws@[0]@);
        }
        if ws@.len() > 1 {
            assert(ws@.map_values(|w: Vec<char>| w@)[1] == ws@[1]@);
        }
    }
    if ws.len() == 1 && same(&ws[0], &to_chars("xen-event-list")) {
        return Route::XenEventList;
    }
    if ws.len() >= 2 && same(&ws[0], &to_chars("screendump")) {
        return Route::Screendump(string_from(&ws[1]));
    }
    if ws.len() == 2 && same(&ws[0], &to_chars("xen-event-inject")) {
        let t = string_from(&ws[1]);
        if let Some(p) = parse_i64(t.as_str()) {
            return Route::XenEventInject(p);
        }
    }
    Route::Hmp
}

} // verus!
