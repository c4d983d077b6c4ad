//! Argument definitions of HMP commands, as parsed from their
//! `args_type` specification.
use vstd::prelude::*;

verus! {

/// The type of one HMP command argument.
#[derive(Debug, PartialEq, Eq)]
pub enum ArgType {
    /// A boolean flag such as `-f`.
    Flag(String),
    /// A flag followed by a string value.
    FlagStr(String),
    /// `on` / `off`.
    Bool,
    /// A block device name.
    BlockDevice,
    /// A file name.
    Filename,
    /// A string.
    Str,
    /// An integer.
    Int,
    /// An integer that may carry a leading dot.
    DotInt,
    /// A 64-bit expression.
    Long,
    /// A size with an optional K/M/G/T suffix.
    Size,
    /// A size in megabytes.
    Mebibytes,
    /// A `/fmt` format specification.
    Format,
    /// A `key=val,...` object.
    Object,
}

/// One argument of an HMP command.
#[derive(Debug, PartialEq, Eq)]
pub struct ArgDef {
    pub name: String,
    pub arg_type: ArgType,
    pub optional: bool,
}

pub ghost enum ArgTypeView {
    Flag(Seq<char>),
    FlagStr(Seq<char>),
    Bool,
    BlockDevice,
    Filename,
    Str,
    Int,
    DotInt,
    Long,
    Size,
    Mebibytes,
    Format,
    Object,
}

pub ghost struct ArgDefView {
    pub name: Seq<char>,
    pub arg_type: ArgTypeView,
    pub optional: bool,
}

impl DeepView for ArgType {
    type V = ArgTypeView;

    open spec fn deep_view(&self) -> ArgTypeView {
        match self {
            ArgType::Flag(s) => ArgTypeView::Flag(s@),
            ArgType::FlagStr(s) => ArgTypeView::FlagStr(s@),
            ArgType::Bool => ArgTypeView::Bool,
            ArgType::BlockDevice => ArgTypeView::BlockDevice,
            ArgType::Filename => ArgTypeView::Filename,
            ArgType::Str => ArgTypeView::Str,
            ArgType::Int => ArgTypeView::Int,
            ArgType::DotInt => ArgTypeView::DotInt,
            ArgType::Long => ArgTypeView::Long,
            ArgType::Size => ArgTypeView::Size,
            ArgType::Mebibytes => ArgTypeView::Mebibytes,
            ArgType::Format => ArgTypeView::Format,
            ArgType::Object => ArgTypeView::Object,
        }
    }
}

impl DeepView for ArgDef {
    type V = ArgDefView;

    open spec fn deep_view(&self) -> ArgDefView {
        ArgDefView { name: self.name@, arg_type: self.arg_type.deep_view(), optional: self.optional }
    }
}

impl ArgDef {
    pub fn new(name: String, arg_type: ArgType, optional: bool) -> (r: ArgDef)
        ensures
            r.deep_view() == (ArgDefView { name: name@, arg_type: arg_type.deep_view(), optional }),
    {
        ArgDef { name, arg_type, optional }
    }
}

/// The flag string of a flag argument, and whether the flag takes a value.
pub open spec fn flag_of(d: ArgDefView) -> Option<(Seq<char>, bool)> {
    match d.arg_type {
        ArgTypeView::Flag(s) => Some((s, false)),
        ArgTypeView::FlagStr(s) => Some((s, true)),
        _ => None,
    }
}

} // verus!
