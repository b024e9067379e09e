//! Configuration handed to the language-model backend: the system prompt,
//! loaded once per pipeline run with first-wins semantics.

use vstd::prelude::*;

use crate::store::RagError;

verus! {

/// Holds the system prompt for generation, set at most once.
pub struct PromptCell {
    prompt: Option<String>,
}

impl PromptCell {
    /// Whether a prompt has been loaded.
    pub closed spec fn is_loaded(&self) -> bool {
        self.prompt is Some
    }

    /// The loaded prompt (meaningful only when loaded).
    pub closed spec fn view(&self) -> Seq<char> {
        self.prompt->0@
    }

    /// A cell with no prompt yet.
    pub fn empty() -> (c: PromptCell)
        ensures
            !c.is_loaded(),
    {
        PromptCell { prompt: None }
    }

    /// The loaded prompt, if any.
    pub fn system_prompt(&self) -> (r: Option<&String>)
        ensures
            self.is_loaded() ==> r is Some && r->0@ == self@,
            !self.is_loaded() ==> r is None,
    {
        match &self.prompt {
            Some(p) => Some(p),
            None => None,
        }
    }
}

/// Loads the model configuration: sets the default system prompt on the
/// first call; a repeated call keeps the first value and still succeeds.
pub fn load_model(cell: &mut PromptCell) -> (r: Result<(), RagError>)
    ensures
        r is Ok,
        final(cell).is_loaded(),
        !old(cell).is_loaded() ==> final(cell)@
            == "The assistant will act like a helpful research assistant."@,
        old(cell).is_loaded() ==> *final(cell) == *old(cell),
{
    if cell.prompt.is_none() {
        cell.prompt = Some(
            String::from_str("The assistant will act like a helpful research assistant."),
        );
    }
    Ok(())
}

} // verus!
