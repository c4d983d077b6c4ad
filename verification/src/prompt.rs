//! The prompt of the line editor.
use vstd::prelude::*;

use crate::text::push_str;

verus! {

/// The HMP prompt.
#[derive(Debug, Clone, Copy, PartialEq, Eq)]
pub struct HmpPrompt;

impl HmpPrompt {
    /// The left prompt: `(qemu) `.
    pub fn render_prompt_left(&self) -> (r: String)
        ensures
            r@ == "(qemu) "@,
    {
        String::from_str("(qemu) ")
    }

    /// The right prompt: nothing.
    pub fn render_prompt_right(&self) -> (r: String)
        ensures
            r@ == Seq::<char>::empty(),
    {
        String::new()
    }

    /// The edit-mode indicator: nothing.
    pub fn render_prompt_indicator(&self) -> (r: String)
        ensures
            r@ == Seq::<char>::empty(),
    {
        String::new()
    }

    /// The indicator of continuation lines: `::: `.
    pub fn render_prompt_multiline_indicator(&self) -> (r: String)
        ensures
            r@ == "::: "@,
    {
        String::from_str("::: ")
    }

    /// The indicator of reverse history search for `term`, marked when the
    /// search is failing.
    pub fn render_prompt_history_search_indicator(&self, failing: bool, term: &str) -> (r: String)
        ensures
            r@ == "("@ + (if failing {
                "failing "@
            } else {
                Seq::<char>::empty()
            }) + "reverse-search: "@ + term@ + ") "@,
    {
        let mut out = String::from_str("(");
        if failing {
            push_str(&mut out, "failing ");
        }
        push_str(&mut out, "reverse-search: ");
        push_str(&mut out, term);
        push_str(&mut out, ") ");
        assert(out@ =~= "("@ + (if failing {
            "failing "@
        } else {
            Seq::<char>::empty()
        }) + "reverse-search: "@ + term@ + ") "@);
        out
    }
}

} // verus!
