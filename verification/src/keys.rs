use vstd::prelude::*;

verus! {

/// An accelerator for repeated look-ups of struct field names. It remembers the names
/// it has been shown; what a decode call returns never depends on it.
pub struct KeyCache {
    pub names: Vec<String>,
}

impl KeyCache {
    /// A cache that has seen no name.
    pub fn new() -> (cache: KeyCache)
        ensures
            cache.names@.len() == 0,
    {
        KeyCache { names: Vec::new() }
    }
}

} // verus!
