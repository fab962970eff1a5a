//! Project records read from a workspace manifest, and workspace paths.
use vstd::prelude::*;

verus! {

/// One project of a workspace manifest.
pub struct ProjectRecord {
    pub name: String,
    /// Path relative to the directory that holds the manifest; unique within it.
    pub path: String,
    /// Absent for entries that only name a directory of the root repository.
    pub repo: Option<String>,
    pub provides: Vec<String>,
    pub depends_on: Vec<String>,
    pub tags: Vec<String>,
}

/// `rel` resolved against `base`, as `Path::join` does for these forms: an
/// absolute `rel` stands alone, an empty `base` adds nothing, and otherwise
/// one `/` separates the two.
pub open spec fn joined(base: Seq<char>, rel: Seq<char>) -> Seq<char> {
    if rel.len() > 0 && rel[0] == '/' {
        rel
    } else if base.len() == 0 {
        rel
    } else if base.last() == '/' {
        base + rel
    } else {
        base + seq!['/'] + rel
    }
}

pub fn join_path(base: &str, rel: &str) -> (r: String)
    ensures
        r@ == joined(base@, rel@),
{
    let b = crate::text::chars_of(base);
    let rl = crate::text::chars_of(rel);
    if rl.len() > 0 && rl[0] == '/' {
        return crate::text::string_of(&rl);
    }
    if b.len() == 0 {
        return crate::text::string_of(&rl);
    }
    let mut out = b.clone();
    if b[b.len() - 1] != '/' {
        out.push('/');
    }
    crate::text::append_chars(&mut out, &rl);
    crate::text::string_of(&out)
}

} // verus!
