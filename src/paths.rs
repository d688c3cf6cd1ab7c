//! Where the isolated copy of a workspace puts each file, and the check on a
//! manifest path given by the user.
use vstd::prelude::*;
use vstd::string::*;

verus! {

pub open spec fn is_prefix(p: Seq<char>, s: Seq<char>) -> bool {
    p.len() <= s.len() && s.subrange(0, p.len() as int) == p
}

fn starts_with(s: &str, p: &str) -> (r: bool)
    ensures
        r == is_prefix(p@, s@),
{
    let n = p.unicode_len();
    if n > s.unicode_len() {
        return false;
    }
    let mut i: usize = 0;
    while i < n
        invariant
            n == p@.len(),
            n <= s@.len(),
            i <= n,
            forall|j: int| 0 <= j < i ==> s@[j] == p@[j],
        decreases n - i,
    {
        if s.get_char(i) != p.get_char(i) {
            assert(s@.subrange(0, n as int)[i as int] != p@[i as int]);
            return false;
        }
        i = i + 1;
    }
    assert(s@.subrange(0, n as int) =~= p@);
    true
}

/// The directory that mirrors member directory `source` under the scratch
/// root: `source` with its leading `workspace_root` replaced by
/// `scratch_root`, or `None` when `source` does not lie under the workspace
/// root.
pub fn mirror_path(source: &str, workspace_root: &str, scratch_root: &str) -> (r: Option<String>)
    ensures
        r is Some <==> is_prefix(workspace_root@, source@),
        r matches Some(p) ==> p@ == scratch_root@ + source@.subrange(
            workspace_root@.len() as int,
            source@.len() as int,
        ),
{
    if !starts_with(source, workspace_root) {
        return None;
    }
    let rest = source.substring_char(workspace_root.unicode_len(), source.unicode_len());
    let mut out = scratch_root.to_owned();
    out.append(rest);
    Some(out)
}

pub open spec fn manifest_file_of(dir: Seq<char>) -> Seq<char> {
    dir + "/Cargo.toml"@
}

pub open spec fn lock_file_of(dir: Seq<char>) -> Seq<char> {
    dir + "/Cargo.lock"@
}

/// The manifest file of a package directory.
pub fn manifest_file(dir: &str) -> (r: String)
    ensures
        r@ == manifest_file_of(dir@),
{
    let mut out = dir.to_owned();
    out.append("/Cargo.toml");
    out
}

/// The lock file of a package directory.
pub fn lock_file(dir: &str) -> (r: String)
    ensures
        r@ == lock_file_of(dir@),
{
    let mut out = dir.to_owned();
    out.append("/Cargo.lock");
    out
}

/// Whether a path, as the platform's path rules read it, ends in a file name.
pub uninterp spec fn has_file_name(s: Seq<char>) -> bool;

/// Relies on std::path::Path::file_name: whether the path has a final
/// component that names a file or directory (none when it ends in `..`).
#[verifier::external_body]
fn path_has_file_name(s: &str) -> (r: bool)
    ensures
        r == has_file_name(s@),
{
    std::path::Path::new(s).file_name().is_some()
}

pub open spec fn not_a_file_message(s: Seq<char>) -> Seq<char> {
    "'"@ + s + "' doesn't appear to be a valid file name"@
}

/// The answer to a manifest path `s` of which `named` tells whether it ends
/// in a file name: accepted, or refused with a message that quotes it.
pub fn check_file_name(s: &str, named: bool) -> (r: Result<(), String>)
    ensures
        r is Ok <==> named,
        r matches Err(msg) ==> msg@ == not_a_file_message(s@),
{
    if named {
        Ok(())
    } else {
        let mut msg = "'".to_owned();
        msg.append(s);
        msg.append("' doesn't appear to be a valid file name");
        Err(msg)
    }
}

/// Accepts a manifest path that ends in a file name; refuses any other with
/// a message that quotes it.
pub fn is_file(s: String) -> (r: Result<(), String>)
    ensures
        r is Ok <==> has_file_name(s@),
        r matches Err(msg) ==> msg@ == not_a_file_message(s@),
{
    let named = path_has_file_name(s.as_str());
    check_file_name(s.as_str(), named)
}

} // verus!
