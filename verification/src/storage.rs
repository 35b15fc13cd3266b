//! The stored records: a template with the alias it goes by.

use vstd::prelude::*;

verus! {

/// A stored template.
#[derive(Debug, Clone)]
pub struct Prompt {
    pub id: String,
    pub alias: String,
    pub description: String,
    pub tags: Vec<String>,
    pub template: String,
}

/// The content of the store: the records in the order in which they were
/// saved.
#[derive(Debug)]
pub struct PromptFile {
    pub prompts: Vec<Prompt>,
}

/// Looks up the record that goes by `alias`: the first one, where several do.
pub fn find_prompt(prompts: &Vec<Prompt>, alias: &str) -> (found: Option<usize>)
    ensures
        match found {
            Some(i) => i < prompts@.len() && prompts@[i as int].alias@ == alias@ && forall|j: int|
                0 <= j < i ==> (#[trigger] prompts@[j]).alias@ != alias@,
            None => forall|j: int|
                0 <= j < prompts@.len() ==> (#[trigger] prompts@[j]).alias@ != alias@,
        },
{
    let wanted = alias.to_owned();
    let mut i: usize = 0;
    while i < prompts.len()
        invariant
            i <= prompts@.len(),
            wanted@ == alias@,
            forall|j: int| 0 <= j < i ==> (#[trigger] prompts@[j]).alias@ != alias@,
        decreases prompts.len() - i,
    {
        if prompts[i].alias == wanted {
            return Some(i);
        }
        i += 1;
    }
    None
}

impl PromptFile {
    /// The store with no record.
    pub fn new() -> (file: PromptFile)
        ensures
            file.prompts@.len() == 0,
    {
        PromptFile { prompts: Vec::new() }
    }

    /// Adds `prompt` after the records that are there.
    pub fn push(&mut self, prompt: Prompt)
        ensures
            final(self).prompts@ == old(self).prompts@.push(prompt),
    {
        self.prompts.push(prompt);
    }
}

} // verus!
