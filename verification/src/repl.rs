//! Decisions of the read-eval-print loops and of the start-up.
use vstd::prelude::*;

use crate::commands::DispatchOutput;
use crate::text::{push_str, to_chars, trim, trimmed};

verus! {

/// Reason the REPL loop exited.
#[derive(Debug, Clone, Copy, PartialEq, Eq)]
pub enum ExitReason {
    /// User pressed Ctrl-C or Ctrl-D.
    UserQuit,
    /// The QMP connection was closed by QEMU.
    Disconnected,
}

/// What the line editor returned.
#[derive(Debug)]
pub enum Signal {
    /// A line was entered.
    Line(String),
    /// Ctrl-C or Ctrl-D.
    Quit,
    /// Anything else.
    Other,
    /// Reading failed with this message.
    Error(String),
}

/// What the interactive loop does next.
#[derive(Debug)]
pub enum ReplAction {
    /// Dispatch this command line.
    Dispatch(String),
    /// Read the next line.
    Continue,
    /// Leave the loop.
    Stop,
    /// Print this error and leave the loop.
    Fail(String),
}

pub ghost enum ReplActionView {
    Dispatch(Seq<char>),
    Continue,
    Stop,
    Fail(Seq<char>),
}

impl DeepView for ReplAction {
    type V = ReplActionView;

    open spec fn deep_view(&self) -> ReplActionView {
        match self {
            ReplAction::Dispatch(s) => ReplActionView::Dispatch(s@),
            ReplAction::Continue => ReplActionView::Continue,
            ReplAction::Stop => ReplActionView::Stop,
            ReplAction::Fail(s) => ReplActionView::Fail(s@),
        }
    }
}

/// The command line of an input line: the line trimmed, or nothing when
/// it is blank.
pub open spec fn command_line(line: Seq<char>) -> Option<Seq<char>> {
    if trim(line).len() == 0 {
        None
    } else {
        Some(trim(line))
    }
}

pub fn input_command(line: &str) -> (r: Option<String>)
    ensures
        r.deep_view() == command_line(line@),
{
    let t = trimmed(line);
    if to_chars(t.as_str()).len() == 0 {
        None
    } else {
        Some(t)
    }
}

/// The interactive loop's answer to what the line editor returned.
pub open spec fn spec_repl_step(sig: Signal) -> ReplActionView {
    match sig {
        Signal::Line(l) => match command_line(l@) {
            Some(c) => ReplActionView::Dispatch(c),
            None => ReplActionView::Continue,
        },
        Signal::Quit => ReplActionView::Stop,
        Signal::Other => ReplActionView::Continue,
        Signal::Error(e) => ReplActionView::Fail("Input error: "@ + e@),
    }
}

pub fn repl_step(sig: Signal) -> (r: ReplAction)
    ensures
        r.deep_view() == spec_repl_step(sig),
{
    match sig {
        Signal::Line(l) => match input_command(l.as_str()) {
            Some(c) => ReplAction::Dispatch(c),
            None => ReplAction::Continue,
        },
        Signal::Quit => ReplAction::Stop,
        Signal::Other => ReplAction::Continue,
        Signal::Error(e) => {
            let mut m = String::from_str("Input error: ");
            push_str(&mut m, e.as_str());
            ReplAction::Fail(m)
        },
    }
}

/// After a dispatch: the text to print (when there is any), or the end of
/// the session.
pub open spec fn spec_after_dispatch(o: DispatchOutput) -> Result<Option<Seq<char>>, ExitReason> {
    match o {
        DispatchOutput::Output(s) => Ok(if s@.len() > 0 {
            Some(s@)
        } else {
            None
        }),
        DispatchOutput::Disconnected => Err(ExitReason::Disconnected),
    }
}

pub fn after_dispatch(o: DispatchOutput) -> (r: Result<Option<String>, ExitReason>)
    ensures
        match r {
            Ok(Some(t)) => spec_after_dispatch(o) == Ok::<Option<Seq<char>>, ExitReason>(Some(t@)),
            Ok(None) => spec_after_dispatch(o) == Ok::<Option<Seq<char>>, ExitReason>(None),
            Err(e) => spec_after_dispatch(o) == Err::<Option<Seq<char>>, ExitReason>(e),
        },
{
    match o {
        DispatchOutput::Output(s) => {
            if to_chars(s.as_str()).len() > 0 {
                Ok(Some(s))
            } else {
                Ok(None)
            }
        },
        DispatchOutput::Disconnected => Err(ExitReason::Disconnected),
    }
}

/// The record that pipe mode writes for a response: the output and a
/// newline when there is output, then a NUL byte.
pub open spec fn spec_pipe_record(output: Seq<char>) -> Seq<char> {
    if output.len() > 0 {
        output + "\n"@ + seq!['\0']
    } else {
        seq!['\0']
    }
}

pub fn pipe_record(output: &str) -> (r: String)
    ensures
        r@ == spec_pipe_record(output@),
{
    let mut out = String::new();
    if to_chars(output).len() > 0 {
        push_str(&mut out, output);
        push_str(&mut out, "\n");
    }
    crate::text::push_char(&mut out, '\0');
    assert(out@ =~= spec_pipe_record(output@));
    out
}

/// Pipe-mode records delimit themselves: for a response without a NUL,
/// the record holds exactly one NUL, at its end, and what stands before
/// it is the response and a newline (nothing for an empty response).
pub proof fn law_pipe_record_delimited(output: Seq<char>)
    requires
        !output.contains('\0'),
    ensures
        ({
            let r = spec_pipe_record(output);
            &&& r.len() > 0
            &&& r.last() == '\0'
            &&& forall|i: int| 0 <= i < r.len() - 1 ==> #[trigger] r[i] != '\0'
            &&& r.drop_last() == (if output.len() > 0 {
                output + "\n"@
            } else {
                seq![]
            })
        }),
{
    reveal_strlit("\n");
    let r = spec_pipe_record(output);
    if output.len() > 0 {
        let body = output + "\n"@;
        assert(r.drop_last() =~= body);
        assert forall|i: int| 0 <= i < r.len() - 1 implies #[trigger] r[i] != '\0' by {
            if i < output.len() {
                assert(r[i] == output[i]);
                if output[i] == '\0' {
                    assert(output.contains('\0'));
                }
            }
        }
    } else {
        assert(r.drop_last() =~= Seq::<char>::empty());
    }
}

/// How the socket to connect to is chosen.
#[derive(Debug, Clone, Copy, PartialEq, Eq)]
pub enum SocketChoice {
    /// No socket was found: explain how to start QEMU, and exit.
    NoneFound,
    /// Exactly one socket: connect to it.
    Only,
    /// Several sockets and a terminal: let the user pick one.
    Menu,
    /// Several sockets and no terminal: list them, and exit.
    List,
}

pub fn socket_choice(found: usize, terminal: bool) -> (r: SocketChoice)
    ensures
        r == (if found == 0 {
            SocketChoice::NoneFound
        } else if found == 1 {
            SocketChoice::Only
        } else if terminal {
            SocketChoice::Menu
        } else {
            SocketChoice::List
        }),
{
    if found == 0 {
        SocketChoice::NoneFound
    } else if found == 1 {
        SocketChoice::Only
    } else if terminal {
        SocketChoice::Menu
    } else {
        SocketChoice::List
    }
}

/// The frames of the connection spinner.
pub open spec fn spinner_frames() -> Seq<Seq<char>> {
    seq!["⠋"@, "⠙"@, "⠹"@, "⠸"@, "⠼"@, "⠴"@, "⠦"@, "⠧"@, "⠇"@, "⠏"@]
}

/// The spinner frame after `frame`, cycling through the ten frames.
pub fn next_frame(frame: usize) -> (r: usize)
    requires
        frame < 10,
    ensures
        r == (frame + 1) % 10,
{
    (frame + 1) % 10
}

/// The text of a spinner frame.
pub fn spinner_frame(frame: usize) -> (r: String)
    requires
        frame < 10,
    ensures
        r@ == spinner_frames()[frame as int],
{
    let frames: Vec<String> = vec![
        String::from_str("⠋"),
        String::from_str("⠙"),
        String::from_str("⠹"),
        String::from_str("⠸"),
        String::from_str("⠼"),
        String::from_str("⠴"),
        String::from_str("⠦"),
        String::from_str("⠧"),
        String::from_str("⠇"),
        String::from_str("⠏"),
    ];
    assert(frames.deep_view() =~= spinner_frames());
    let f = frames[frame].clone();
    assert(f@ == frames.deep_view()[frame as int]);
    f
}

/// The greeting after connecting: QEMU's version when it is known.
pub open spec fn version_text(v: Option<(i64, i64, i64)>) -> Seq<char> {
    match v {
        Some((a, b, c)) => "QEMU "@ + crate::format::int_text(a as int) + "."@ + crate::format::int_text(
            b as int,
        ) + "."@ + crate::format::int_text(c as int) + " connected."@,
        None => "Connected to QEMU."@,
    }
}

pub fn version_message(v: Option<(i64, i64, i64)>) -> (r: String)
    ensures
        r@ == version_text(v),
{
    match v {
        Some((a, b, c)) => {
            let mut out = String::from_str("QEMU ");
            crate::format::push_int(&mut out, a);
            push_str(&mut out, ".");
            crate::format::push_int(&mut out, b);
            push_str(&mut out, ".");
            crate::format::push_int(&mut out, c);
            push_str(&mut out, " connected.");
            out
        },
        None => String::from_str("Connected to QEMU."),
    }
}

} // verus!
