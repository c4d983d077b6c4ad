//! The entries of the HMP command tables.
use vstd::prelude::*;

verus! {

/// A command entry of `hmp-commands.hx` / `hmp-commands-info.hx`.
#[derive(Debug)]
pub struct HxEntry {
    pub name: &'static str,
    pub args_type: &'static str,
    pub params: &'static str,
    pub help: &'static str,
    pub flags: &'static str,
    pub doc: &'static str,
}

} // verus!
