//! Logical path resolution, backed by the `relative-path` crate.
//!
//! Resolution is purely lexical: `.` and `..` are folded away against
//! the base directory without consulting a filesystem.

use crate::text::split_char;
use vstd::prelude::*;

verus! {

/// What `relative_path::RelativePath::to_logical_path` produces for
/// the path text `rel` applied onto the base path `base`, read back as
/// a string (Unix separators).
pub uninterp spec fn logical_path_of(rel: Seq<char>, base: Seq<char>) -> Seq<char>;

/// `s` without its leading '/' characters.
pub open spec fn drop_leading_slashes(s: Seq<char>) -> Seq<char>
    decreases s.len(),
{
    if s.len() > 0 && s[0] == '/' {
        drop_leading_slashes(s.skip(1))
    } else {
        s
    }
}

/// A path in logical normal form: either empty, or nonempty components
/// separated by single '/' characters, none of them `.` or `..`, with
/// no leading or trailing separator.
pub open spec fn is_clean_rel_path(s: Seq<char>) -> bool {
    s.len() == 0 || forall|i: int|
        0 <= i < split_char(s, '/').len() ==> {
            let p = #[trigger] split_char(s, '/')[i];
            p.len() > 0 && p != seq!['.'] && p != seq!['.', '.']
        }
}

/// A clean nonempty path does not start with a separator.
pub proof fn lemma_clean_path_head(s: Seq<char>)
    requires
        is_clean_rel_path(s),
        s.len() > 0,
    ensures
        s[0] != '/',
{
    if s[0] == '/' {
        assert(split_char(s, '/')[0] =~= Seq::<char>::empty());
    }
}

pub proof fn lemma_drop_leading_slashes_clean(s: Seq<char>)
    requires
        is_clean_rel_path(s),
    ensures
        drop_leading_slashes(s) == s,
{
    if s.len() > 0 {
        lemma_clean_path_head(s);
    }
}

/// Relies on `relative_path::RelativePath::new` (a view change of the
/// string, nothing computed) and `RelativePath::to_logical_path`: the
/// components of `rel` — runs of '/' collapse, `.` is dropped, `..`
/// pops one trailing component — are applied onto `base` with '/' as
/// separator.  In particular, when `base` is empty and `rel` is, apart
/// from leading separators, already in normal form, the components are
/// rebuilt verbatim.
#[verifier::external_body]
pub fn resolve_logical(rel: &str, base: &str) -> (r: String)
    ensures
        r@ == logical_path_of(rel@, base@),
        base@.len() == 0 && is_clean_rel_path(drop_leading_slashes(rel@)) ==> r@
            == drop_leading_slashes(rel@),
{
    let resolved = relative_path::RelativePath::new(rel).to_logical_path(base);
    resolved.to_string_lossy().into_owned()
}

} // verus!
