//! Decisions of the QMP connection: addresses, messages and replies.
use vstd::prelude::*;

use crate::json::{compact, get, get_member, Json};
use crate::text::{is_prefix, push_str, starts_with, string_from, tail, to_chars};

verus! {

/// Where QMP listens.
#[derive(Debug, PartialEq, Eq)]
pub enum Address {
    /// `tcp:HOST:PORT`.
    Tcp(String),
    /// `unix:PATH`, or a bare path.
    Unix(String),
}

pub ghost enum AddressView {
    Tcp(Seq<char>),
    Unix(Seq<char>),
}

impl DeepView for Address {
    type V = AddressView;

    open spec fn deep_view(&self) -> AddressView {
        match self {
            Address::Tcp(s) => AddressView::Tcp(s@),
            Address::Unix(s) => AddressView::Unix(s@),
        }
    }
}

/// The address that a socket argument names.
pub open spec fn spec_parse_address(a: Seq<char>) -> AddressView {
    if is_prefix("tcp:"@, a) {
        AddressView::Tcp(a.skip(4))
    } else if is_prefix("unix:"@, a) {
        AddressView::Unix(a.skip(5))
    } else {
        AddressView::Unix(a)
    }
}

pub fn parse_address(address: &str) -> (r: Address)
    ensures
        r.deep_view() == spec_parse_address(address@),
{
    let v = to_chars(address);
    proof {
        reveal_strlit("tcp:");
        reveal_strlit("unix:");
    }
    if starts_with(&v, &to_chars("tcp:")) {
        Address::Tcp(string_from(&tail(&v, 4)))
    } else if starts_with(&v, &to_chars("unix:")) {
        Address::Unix(string_from(&tail(&v, 5)))
    } else {
        Address::Unix(string_from(&v))
    }
}

/// Whether a message from QEMU is an event (it has an `event` member);
/// anything else is a reply.
pub fn is_event(msg: &Json) -> (r: bool)
    ensures
        r == (get(*msg, "event"@) is Some),
{
    get_member(msg, "event").is_some()
}

/// Whether a reply reports an error (it has an `error` member).
pub fn is_error_reply(reply: &Json) -> (r: bool)
    ensures
        r == (get(*reply, "error"@) is Some),
{
    get_member(reply, "error").is_some()
}

/// The `return` member of a reply; `None` stands for JSON `null`.
pub fn reply_value(reply: &Json) -> (r: Option<&Json>)
    ensures
        match r {
            Some(x) => get(*reply, "return"@) == Some(*x),
            None => get(*reply, "return"@) is None,
        },
{
    get_member(reply, "return")
}

/// The line that asks QEMU to leave capabilities negotiation.
pub fn capabilities_request() -> (r: String)
    ensures
        r@ == "{\"execute\":\"qmp_capabilities\"}\n"@,
{
    String::from_str("{\"execute\":\"qmp_capabilities\"}\n")
}

/// A request as it is sent: compact JSON and a newline.
pub fn request_line(json: &Json) -> (r: String)
    ensures
        r@ == compact(*json) + "\n"@,
{
    let mut out = crate::json::to_compact(json);
    push_str(&mut out, "\n");
    out
}

/// A QMP request is exactly one line: the request text ends with its only
/// line break.
pub proof fn law_request_one_line(json: Json)
    requires
        crate::json::numbers_one_line(json),
    ensures
        ({
            let r = compact(json) + "\n"@;
            &&& r.len() > 0
            &&& r.last() == '\n'
            &&& forall|i: int| 0 <= i < r.len() - 1 ==> #[trigger] r[i] != '\n'
        }),
{
    reveal_strlit("\n");
    crate::json::law_compact_one_line(json);
    let c = compact(json);
    let r = c + "\n"@;
    assert forall|i: int| 0 <= i < r.len() - 1 implies #[trigger] r[i] != '\n' by {
        assert(r[i] == c[i]);
    }
}

/// The CPU that register access uses: none while the index is -1.
pub fn cpu_index_of(stored: i64) -> (r: Option<i64>)
    ensures
        r == (if stored == -1 {
            None
        } else {
            Some(stored)
        }),
{
    if stored == -1 {
        None
    } else {
        Some(stored)
    }
}

} // verus!
