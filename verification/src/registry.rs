//! What the tokenizers found the source to use.
use vstd::prelude::*;

verus! {

#[derive(Debug)]
pub struct VariantRegistry {
    /// Whether a character tokenizer was set up.
    pub has_characters: bool,
}

impl VariantRegistry {
    pub fn new() -> (r: VariantRegistry)
        ensures
            !r.has_characters,
    {
        VariantRegistry { has_characters: false }
    }
}

} // verus!
