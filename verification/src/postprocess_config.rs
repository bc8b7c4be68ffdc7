//! The rewrite rule set applied uniformly to every compile command.

use vstd::prelude::*;

verus! {

/// Configuration for post-processing: token patterns to remove,
/// literal tokens to insert, `"from,to"` substring replacement rules,
/// and path patterns selecting records to drop altogether.
///
/// A value is loaded once per run and is read-only afterwards; absent
/// lists mean the corresponding pass changes nothing.
#[derive(Debug, Clone, PartialEq, Eq)]
pub struct PostProcessConfig {
    /// Regular expressions; any token they match anywhere is dropped.
    pub remove: Vec<String>,
    /// Literal tokens inserted right after the compiler token.
    pub insert: Vec<String>,
    /// `"from,to"` pairs applied as literal substring replacements.
    pub replace: Vec<String>,
    /// Regular expressions matched against `directory + "/" + file`;
    /// any record they match is dropped from the collection.
    pub ignore_files: Vec<String>,
}

impl Default for PostProcessConfig {
    /// The identity rule set: every list empty.
    fn default() -> (c: PostProcessConfig)
        ensures
            c.remove@.len() == 0,
            c.insert@.len() == 0,
            c.replace@.len() == 0,
            c.ignore_files@.len() == 0,
    {
        PostProcessConfig {
            remove: Vec::new(),
            insert: Vec::new(),
            replace: Vec::new(),
            ignore_files: Vec::new(),
        }
    }
}

} // verus!
