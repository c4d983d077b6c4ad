//! The Xen event channel commands.
use vstd::prelude::*;

use crate::format::{dec, push_dec};
use crate::text::{push_char, push_str};

verus! {

/// One open Xen event channel port, as `xen-event-list` reports it.
#[derive(Debug)]
pub struct EvtchnInfo {
    pub port: u16,
    pub vcpu: u32,
    /// The name of the port type (`ipi`, `virq`, `interdomain`, ...).
    pub port_type: String,
    /// Whether the port type is `ipi`.
    pub is_ipi: bool,
    pub remote_domain: String,
    pub target: u16,
    pub pending: bool,
    pub masked: bool,
}

pub ghost struct EvtchnView {
    pub port: nat,
    pub vcpu: nat,
    pub port_type: Seq<char>,
    pub is_ipi: bool,
    pub remote_domain: Seq<char>,
    pub target: nat,
    pub pending: bool,
    pub masked: bool,
}

impl DeepView for EvtchnInfo {
    type V = EvtchnView;

    open spec fn deep_view(&self) -> EvtchnView {
        EvtchnView {
            port: self.port as nat,
            vcpu: self.vcpu as nat,
            port_type: self.port_type@,
            is_ipi: self.is_ipi,
            remote_domain: self.remote_domain@,
            target: self.target as nat,
            pending: self.pending,
            masked: self.masked,
        }
    }
}

/// Text right-aligned in a field of four characters (`{:4}`).
pub open spec fn pad4(t: Seq<char>) -> Seq<char> {
    if t.len() < 4 {
        Seq::new((4 - t.len()) as nat, |i: int| ' ') + t
    } else {
        t
    }
}

/// One line of the event channel list.
pub open spec fn evtchn_line(e: EvtchnView) -> Seq<char> {
    "port "@ + pad4(dec(e.port)) + ": vcpu: "@ + dec(e.vcpu) + " "@ + e.port_type + (if !e.is_ipi {
        "("@ + (if e.remote_domain.len() > 0 {
            e.remote_domain + ":"@
        } else {
            seq![]
        }) + dec(e.target) + ")"@
    } else {
        seq![]
    }) + (if e.pending {
        " PENDING"@
    } else {
        seq![]
    }) + (if e.masked {
        " MASKED"@
    } else {
        seq![]
    }) + "\n"@
}

pub open spec fn evtchn_lines(l: Seq<EvtchnView>, n: int) -> Seq<char>
    decreases n,
{
    if n <= 0 {
        seq![]
    } else {
        evtchn_lines(l, n - 1) + evtchn_line(l[n - 1])
    }
}

fn push_padded(out: &mut String, port: u16)
    ensures
        final(out)@ == old(out)@ + pad4(dec(port as nat)),
{
    let mut num = String::new();
    push_dec(&mut num, port as u64);
    let nv = crate::text::to_chars(num.as_str());
    if nv.len() < 4 {
        let k = 4 - nv.len();
        let mut pad: usize = 0;
        while pad < k
            invariant
                pad <= k,
                out@ == old(out)@ + Seq::new(pad as nat, |q: int| ' '),
            decreases k - pad,
        {
            push_char(out, ' ');
            pad = pad + 1;
            assert(out@ =~= old(out)@ + Seq::new(pad as nat, |q: int| ' '));
        }
    }
    push_str(out, num.as_str());
    assert(out@ =~= old(out)@ + pad4(dec(port as nat)));
}

fn push_target(out: &mut String, info: &EvtchnInfo)
    ensures
        final(out)@ == old(out)@ + (if !info.is_ipi {
            "("@ + (if info.remote_domain@.len() > 0 {
                info.remote_domain@ + ":"@
            } else {
                seq![]
            }) + dec(info.target as nat) + ")"@
        } else {
            seq![]
        }),
{
    if !info.is_ipi {
        push_str(out, "(");
        if crate::text::to_chars(info.remote_domain.as_str()).len() > 0 {
            push_str(out, info.remote_domain.as_str());
            push_str(out, ":");
        }
        push_dec(out, info.target as u64);
        push_str(out, ")");
    }
    assert(out@ =~= old(out)@ + (if !info.is_ipi {
        "("@ + (if info.remote_domain@.len() > 0 {
            info.remote_domain@ + ":"@
        } else {
            seq![]
        }) + dec(info.target as nat) + ")"@
    } else {
        seq![]
    }));
}

#[verifier::spinoff_prover]
#[verifier::rlimit(40)]
fn push_evtchn_line(out: &mut String, info: &EvtchnInfo)
    ensures
        final(out)@ == old(out)@ + evtchn_line(info.deep_view()),
{
    push_str(out, "port ");
    push_padded(out, info.port);
    push_str(out, ": vcpu: ");
    push_dec(out, info.vcpu as u64);
    push_str(out, " ");
    push_str(out, info.port_type.as_str());
    push_target(out, info);
    if info.pending {
        push_str(out, " PENDING");
    }
    if info.masked {
        push_str(out, " MASKED");
    }
    push_str(out, "\n");
    assert(out@ =~= old(out)@ + evtchn_line(info.deep_view()));
}

/// The output of `xen-event-list`: one line per port.
pub fn format_xen_event_list(list: &Vec<EvtchnInfo>) -> (r: String)
    ensures
        r@ == evtchn_lines(list.deep_view(), list@.len() as int),
{
    let ghost lv = list.deep_view();
    let mut out = String::new();
    let mut i: usize = 0;
    while i < list.len()
        invariant
            i <= list@.len(),
            lv == list.deep_view(),
            out@ == evtchn_lines(lv, i as int),
        decreases list@.len() - i,
    {
        push_evtchn_line(&mut out, &list[i]);
        assert(lv[i as int] == list@[i as int].deep_view());
        i = i + 1;
    }
    out
}

/// The message of `xen-event-inject` after delivering a port.
pub open spec fn inject_message(port: int) -> Seq<char> {
    "Delivered port "@ + crate::format::int_text(port) + "\n"@
}

pub fn xen_event_inject_message(port: i64) -> (r: String)
    ensures
        r@ == inject_message(port as int),
{
    let mut out = String::from_str("Delivered port ");
    crate::format::push_int(&mut out, port);
    push_str(&mut out, "\n");
    out
}

/// The port number handed to QMP (`port as u32`: the low 32 bits).
pub fn inject_port(port: i64) -> (r: u32)
    ensures
        r == port as u32,
{
    #[verifier::truncate]
    (port as u32)
}

} // verus!
