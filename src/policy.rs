//! The version-resolution policies that rewrite a manifest: the compatible
//! policy makes every member buildable without its sources, the latest policy
//! also lifts every version constraint.
use vstd::prelude::*;
use crate::manifest::{
    Node, Error, Manifest, all_dep_specs, is_dep_spec, is_group_key, names_invalid_spec, opt_entries,
    opt_group_valid, str_of, table_of,
};

verus! {

pub open spec fn wildcard() -> Seq<char> {
    "*"@
}

pub open spec fn version_key() -> Seq<char> {
    "version"@
}

/// The attributes of a table specification after the latest policy: the
/// `version` entry becomes the wildcard, every other entry stays.
pub open spec fn attrs_rewritten(old: Seq<(String, Node)>, new: Seq<(String, Node)>) -> bool {
    &&& new.len() == old.len()
    &&& forall|i: int|
        0 <= i < old.len() ==> {
            &&& (#[trigger] new[i]).0 == old[i].0
            &&& if old[i].0@ == version_key() {
                str_of(new[i].1) == Some(wildcard())
            } else {
                new[i].1 == old[i].1
            }
        }
}

/// A dependency specification after the latest policy: a version string
/// becomes the wildcard, a table has its `version` entry rewritten.
pub open spec fn spec_rewritten(old: Node, new: Node) -> bool {
    match old {
        Node::Str(_) => str_of(new) == Some(wildcard()),
        Node::Table(t) => match new {
            Node::Table(t2) => attrs_rewritten(t@, t2@),
            _ => false,
        },
        _ => false,
    }
}

/// A dependency grouping after the latest policy: same names, same order,
/// each specification rewritten.
pub open spec fn group_rewritten(old: Seq<(String, Node)>, new: Seq<(String, Node)>) -> bool {
    &&& new.len() == old.len()
    &&& forall|i: int|
        0 <= i < old.len() ==> (#[trigger] new[i]).0 == old[i].0 && spec_rewritten(
            old[i].1,
            new[i].1,
        )
}

fn is_version_key(k: &String) -> (r: bool)
    ensures
        r == (k@ == version_key()),
{
    let v = "version".to_owned();
    proof {
        reveal_strlit("version");
    }
    *k == v
}

fn wildcard_node() -> (r: Node)
    ensures
        str_of(r) == Some(wildcard()),
{
    Node::Str("*".to_owned())
}

fn rewrite_attrs(attrs: Vec<(String, Node)>) -> (r: Vec<(String, Node)>)
    ensures
        attrs_rewritten(attrs@, r@),
{
    let ghost orig = attrs@;
    let mut src = attrs;
    let mut out: Vec<(String, Node)> = Vec::new();
    while src.len() > 0
        invariant
            out@.len() + src@.len() == orig.len(),
            src@ == orig.subrange(out@.len() as int, orig.len() as int),
            forall|i: int|
                0 <= i < out@.len() ==> {
                    &&& (#[trigger] out@[i]).0 == orig[i].0
                    &&& if orig[i].0@ == version_key() {
                        str_of(out@[i].1) == Some(wildcard())
                    } else {
                        out@[i].1 == orig[i].1
                    }
                },
        decreases src@.len(),
    {
        let ghost i = out@.len() as int;
        let (key, value) = src.remove(0);
        assert((key, value) == orig[i]);
        if is_version_key(&key) {
            out.push((key, wildcard_node()));
        } else {
            out.push((key, value));
        }
        assert(src@ =~= orig.subrange(out@.len() as int, orig.len() as int));
    }
    out
}

/// Lifts the version constraint of every dependency of a grouping: a version
/// string becomes `*`, and a table has its `version` entry, where there is
/// one, set to `*` with its other attributes kept. A specification of any
/// other shape leaves the grouping as it was and is reported by name.
pub fn replace_version_with_wildcard(dependencies: &mut Vec<(String, Node)>) -> (r: Result<
    (),
    Error,
>)
    ensures
        r is Ok <==> all_dep_specs(old(dependencies)@),
        r is Ok ==> group_rewritten(old(dependencies)@, final(dependencies)@),
        match r {
            Ok(_) => true,
            Err(e) => {
                &&& final(dependencies)@ == old(dependencies)@
                &&& e matches Error::InvalidPackageSpec(name)
                &&& exists|i: int|
                    0 <= i < old(dependencies)@.len() && (#[trigger] old(dependencies)@[i]).0@
                        == name@ && !is_dep_spec(old(dependencies)@[i].1)
            },
        },
{
    let mut i: usize = 0;
    while i < dependencies.len()
        invariant
            i <= dependencies@.len(),
            forall|j: int| 0 <= j < i ==> is_dep_spec(#[trigger] dependencies@[j].1),
        decreases dependencies@.len() - i,
    {
        match &dependencies[i].1 {
            Node::Str(_) => {},
            Node::Table(_) => {},
            _ => {
                let name = dependencies[i].0.clone();
                return Err(Error::InvalidPackageSpec(name));
            },
        }
        i = i + 1;
    }
    let ghost orig = dependencies@;
    let mut src: Vec<(String, Node)> = Vec::new();
    std::mem::swap(&mut src, dependencies);
    while src.len() > 0
        invariant
            all_dep_specs(orig),
            dependencies@.len() + src@.len() == orig.len(),
            src@ == orig.subrange(dependencies@.len() as int, orig.len() as int),
            forall|j: int|
                0 <= j < dependencies@.len() ==> (#[trigger] dependencies@[j]).0 == orig[j].0
                    && spec_rewritten(orig[j].1, dependencies@[j].1),
        decreases src@.len(),
    {
        let ghost j = dependencies@.len() as int;
        let (name, spec) = src.remove(0);
        assert((name, spec) == orig[j]);
        let rewritten = match spec {
            Node::Table(attrs) => Node::Table(rewrite_attrs(attrs)),
            _ => wildcard_node(),
        };
        dependencies.push((name, rewritten));
        assert(src@ =~= orig.subrange(dependencies@.len() as int, orig.len() as int));
    }
    Ok(())
}

/// The latest policy is idempotent: rewriting a rewritten grouping gives what
/// one rewrite of the original gives, the wildcard in every version field.
pub proof fn lemma_latest_rewrite_idempotent(
    a: Seq<(String, Node)>,
    b: Seq<(String, Node)>,
    c: Seq<(String, Node)>,
)
    requires
        group_rewritten(a, b),
        group_rewritten(b, c),
    ensures
        group_rewritten(a, c),
{
    assert forall|i: int| 0 <= i < a.len() implies (#[trigger] c[i]).0 == a[i].0 && spec_rewritten(
        a[i].1,
        c[i].1,
    ) by {
        assert(spec_rewritten(a[i].1, b[i].1));
        assert(spec_rewritten(b[i].1, c[i].1));
        match a[i].1 {
            Node::Table(t) => {
                let t2 = table_of(b[i].1);
                let t3 = table_of(c[i].1);
                assert(attrs_rewritten(t2, t3));
                assert forall|j: int| 0 <= j < t@.len() implies {
                    &&& (#[trigger] t3[j]).0 == t@[j].0
                    &&& if t@[j].0@ == version_key() {
                        str_of(t3[j].1) == Some(wildcard())
                    } else {
                        t3[j].1 == t@[j].1
                    }
                } by {
                    assert(t2[j].0 == t@[j].0);
                }
            },
            _ => {},
        }
    }
}

proof fn lemma_rewritten_specs(a: Seq<(String, Node)>, b: Seq<(String, Node)>)
    requires
        group_rewritten(a, b),
    ensures
        all_dep_specs(b),
{
    assert forall|i: int| 0 <= i < b.len() implies is_dep_spec(#[trigger] b[i].1) by {
        assert(spec_rewritten(a[i].1, b[i].1));
    }
}

pub open spec fn path_key() -> Seq<char> {
    "path"@
}

/// `new` is `old` with the string `val` under `key`: every entry of that key
/// takes the value, or, where there is none, one is added at the end.
pub open spec fn entry_set(
    old: Seq<(String, Node)>,
    new: Seq<(String, Node)>,
    key: Seq<char>,
    val: Seq<char>,
) -> bool {
    if exists|i: int| 0 <= i < old.len() && (#[trigger] old[i]).0@ == key {
        &&& new.len() == old.len()
        &&& forall|i: int|
            0 <= i < old.len() ==> {
                &&& (#[trigger] new[i]).0 == old[i].0
                &&& if old[i].0@ == key {
                    str_of(new[i].1) == Some(val)
                } else {
                    new[i].1 == old[i].1
                }
            }
    } else {
        &&& new.len() == old.len() + 1
        &&& new.subrange(0, old.len() as int) == old
        &&& new[old.len() as int].0@ == key
        &&& str_of(new[old.len() as int].1) == Some(val)
    }
}

fn set_str_entry(t: &mut Vec<(String, Node)>, key: &str, val: &str)
    ensures
        entry_set(old(t)@, final(t)@, key@, val@),
{
    let k = key.to_owned();
    let mut found = false;
    let ghost orig = t@;
    let mut src: Vec<(String, Node)> = Vec::new();
    std::mem::swap(&mut src, t);
    while src.len() > 0
        invariant
            t@.len() + src@.len() == orig.len(),
            k@ == key@,
            src@ == orig.subrange(t@.len() as int, orig.len() as int),
            found == exists|i: int| 0 <= i < t@.len() && (#[trigger] orig[i]).0@ == key@,
            forall|i: int|
                0 <= i < t@.len() ==> {
                    &&& (#[trigger] t@[i]).0 == orig[i].0
                    &&& if orig[i].0@ == key@ {
                        str_of(t@[i].1) == Some(val@)
                    } else {
                        t@[i].1 == orig[i].1
                    }
                },
        decreases src@.len(),
    {
        let ghost i = t@.len() as int;
        let (name, value) = src.remove(0);
        assert((name, value) == orig[i]);
        if name == k {
            found = true;
            t.push((name, Node::Str(val.to_owned())));
        } else {
            t.push((name, value));
        }
        assert(src@ =~= orig.subrange(t@.len() as int, orig.len() as int));
    }
    if !found {
        let ghost mid = t@;
        assert(mid =~= orig.subrange(0, orig.len() as int)) by {
            assert forall|i: int| 0 <= i < orig.len() implies mid[i] == orig[i] by {
                assert(orig[i].0@ != key@);
            }
        }
        t.push((k, Node::Str(val.to_owned())));
        assert(t@.subrange(0, orig.len() as int) =~= mid);
    }
}

pub open spec fn placeholder_bin(b: Seq<(String, Node)>) -> bool {
    &&& b.len() == 2
    &&& b[0].0@ == "name"@ && str_of(b[0].1) == Some("test"@)
    &&& b[1].0@ == "path"@ && str_of(b[1].1) == Some("test.rs"@)
}

/// The compatible policy applied to `old`: a single placeholder binary target,
/// a placeholder path for the library target, and nothing else changed.
pub open spec fn semver_applied(old: Manifest, new: Manifest) -> bool {
    &&& new.package == old.package
    &&& new.dependencies == old.dependencies
    &&& new.dev_dependencies == old.dev_dependencies
    &&& new.build_dependencies == old.build_dependencies
    &&& new.workspace == old.workspace
    &&& new.target == old.target
    &&& new.extra == old.extra
    &&& new.bin matches Some(bins) && bins@.len() == 1 && placeholder_bin(bins@[0]@)
    &&& match (old.lib, new.lib) {
        (None, None) => true,
        (Some(l0), Some(l1)) => entry_set(l0@, l1@, path_key(), "test_lib.rs"@),
        _ => false,
    }
}

fn placeholder_bin_table() -> (r: Vec<(String, Node)>)
    ensures
        placeholder_bin(r@),
{
    let mut b: Vec<(String, Node)> = Vec::new();
    b.push(("name".to_owned(), Node::Str("test".to_owned())));
    b.push(("path".to_owned(), Node::Str("test.rs".to_owned())));
    b
}

impl Manifest {
    /// Prepares the manifest for the compatible policy: the sources are not
    /// at hand, so the package gets one placeholder binary target and the
    /// library target, where there is one, a placeholder path. Version
    /// constraints are left as they are.
    pub fn write_manifest_semver(self) -> (r: Manifest)
        ensures
            semver_applied(self, r),
            self.wf() ==> r.wf(),
    {
        let mut m = self;
        let mut bins: Vec<Vec<(String, Node)>> = Vec::new();
        bins.push(placeholder_bin_table());
        m.bin = Some(bins);
        let lib = match m.lib {
            Some(l) => {
                let mut l = l;
                set_str_entry(&mut l, "path", "test_lib.rs");
                Some(l)
            },
            None => None,
        };
        m.lib = lib;
        m
    }
}

fn group_key(k: &String) -> (r: bool)
    ensures
        r == is_group_key(k@),
{
    proof {
        reveal_strlit("dependencies");
        reveal_strlit("dev-dependencies");
        reveal_strlit("build-dependencies");
    }
    *k == "dependencies".to_owned() || *k == "dev-dependencies".to_owned() || *k
        == "build-dependencies".to_owned()
}

/// Every grouping table of one platform's section holds only version
/// strings and tables.
pub open spec fn platform_valid(t: Seq<(String, Node)>) -> bool {
    forall|i: int|
        0 <= i < t.len() && is_group_key((#[trigger] t[i]).0@) && t[i].1 is Table ==> all_dep_specs(
            table_of(t[i].1),
        )
}

/// One platform's section after the latest policy: its grouping tables are
/// rewritten, every other entry stays.
pub open spec fn platform_rewritten(old: Seq<(String, Node)>, new: Seq<(String, Node)>) -> bool {
    &&& new.len() == old.len()
    &&& forall|i: int|
        0 <= i < old.len() ==> {
            &&& (#[trigger] new[i]).0 == old[i].0
            &&& if is_group_key(old[i].0@) && old[i].1 is Table {
                new[i].1 is Table && group_rewritten(table_of(old[i].1), table_of(new[i].1))
            } else {
                new[i].1 == old[i].1
            }
        }
}

pub open spec fn targets_valid(t: Seq<(String, Node)>) -> bool {
    forall|i: int| 0 <= i < t.len() && (#[trigger] t[i]).1 is Table ==> platform_valid(table_of(t[i].1))
}

/// The per-target section after the latest policy: every platform given as a
/// table is rewritten, every other entry stays.
pub open spec fn targets_rewritten(old: Seq<(String, Node)>, new: Seq<(String, Node)>) -> bool {
    &&& new.len() == old.len()
    &&& forall|i: int|
        0 <= i < old.len() ==> {
            &&& (#[trigger] new[i]).0 == old[i].0
            &&& if old[i].1 is Table {
                new[i].1 is Table && platform_rewritten(table_of(old[i].1), table_of(new[i].1))
            } else {
                new[i].1 == old[i].1
            }
        }
}

/// `name` is a dependency, in a grouping table of one platform's section,
/// whose specification is neither a version string nor a table.
pub open spec fn platform_names_invalid(t: Seq<(String, Node)>, name: Seq<char>) -> bool {
    exists|i: int|
        0 <= i < t.len() && is_group_key((#[trigger] t[i]).0@) && t[i].1 is Table
            && names_invalid_spec(table_of(t[i].1), name)
}

/// `name` is such a dependency in the section of some platform.
pub open spec fn targets_name_invalid(t: Seq<(String, Node)>, name: Seq<char>) -> bool {
    exists|i: int|
        0 <= i < t.len() && (#[trigger] t[i]).1 is Table && platform_names_invalid(
            table_of(t[i].1),
            name,
        )
}

pub open spec fn opt_group_names_invalid(g: Option<Seq<(String, Node)>>, name: Seq<char>) -> bool {
    match g {
        Some(t) => names_invalid_spec(t, name),
        None => false,
    }
}

/// `name` is a dependency, in one of the three groupings or in a per-target
/// grouping of `m`, whose specification is neither a version string nor a
/// table.
pub open spec fn latest_names_invalid(m: Manifest, name: Seq<char>) -> bool {
    ||| opt_group_names_invalid(opt_entries(m.dependencies), name)
    ||| opt_group_names_invalid(opt_entries(m.dev_dependencies), name)
    ||| opt_group_names_invalid(opt_entries(m.build_dependencies), name)
    ||| m.target matches Some(t) && targets_name_invalid(t@, name)
}

fn rewrite_platform(t: Vec<(String, Node)>) -> (r: Result<Vec<(String, Node)>, Error>)
    ensures
        r is Ok <==> platform_valid(t@),
        match r {
            Ok(v) => platform_rewritten(t@, v@),
            Err(e) => e matches Error::InvalidPackageSpec(n) && platform_names_invalid(t@, n@),
        },
{
    let ghost orig = t@;
    let mut src = t;
    let mut out: Vec<(String, Node)> = Vec::new();
    while src.len() > 0
        invariant
            orig == t@,
            out@.len() + src@.len() == orig.len(),
            src@ == orig.subrange(out@.len() as int, orig.len() as int),
            forall|i: int|
                0 <= i < out@.len() && is_group_key((#[trigger] orig[i]).0@) && orig[i].1 is Table
                    ==> all_dep_specs(table_of(orig[i].1)),
            forall|i: int|
                0 <= i < out@.len() ==> {
                    &&& (#[trigger] out@[i]).0 == orig[i].0
                    &&& if is_group_key(orig[i].0@) && orig[i].1 is Table {
                        out@[i].1 is Table && group_rewritten(
                            table_of(orig[i].1),
                            table_of(out@[i].1),
                        )
                    } else {
                        out@[i].1 == orig[i].1
                    }
                },
        decreases src@.len(),
    {
        let ghost i = out@.len() as int;
        let (key, value) = src.remove(0);
        assert((key, value) == orig[i]);
        let is_group = group_key(&key);
        let value = match value {
            Node::Table(g) => if is_group {
                let mut g = g;
                match replace_version_with_wildcard(&mut g) {
                    Ok(_) => Node::Table(g),
                    Err(e) => {
                        assert(is_group_key(orig[i].0@) && orig[i].1 is Table);
                        assert(!platform_valid(orig));
                        assert(table_of(orig[i].1) == g@);
                        assert(platform_names_invalid(orig, e->InvalidPackageSpec_0@));
                        return Err(e);
                    },
                }
            } else {
                Node::Table(g)
            },
            other => other,
        };
        out.push((key, value));
        assert(src@ =~= orig.subrange(out@.len() as int, orig.len() as int));
    }
    Ok(out)
}

fn rewrite_targets(t: Vec<(String, Node)>) -> (r: Result<Vec<(String, Node)>, Error>)
    ensures
        r is Ok <==> targets_valid(t@),
        match r {
            Ok(v) => targets_rewritten(t@, v@),
            Err(e) => e matches Error::InvalidPackageSpec(n) && targets_name_invalid(t@, n@),
        },
{
    let ghost orig = t@;
    let mut src = t;
    let mut out: Vec<(String, Node)> = Vec::new();
    while src.len() > 0
        invariant
            orig == t@,
            out@.len() + src@.len() == orig.len(),
            src@ == orig.subrange(out@.len() as int, orig.len() as int),
            forall|i: int|
                0 <= i < out@.len() && (#[trigger] orig[i]).1 is Table ==> platform_valid(
                    table_of(orig[i].1),
                ),
            forall|i: int|
                0 <= i < out@.len() ==> {
                    &&& (#[trigger] out@[i]).0 == orig[i].0
                    &&& if orig[i].1 is Table {
                        out@[i].1 is Table && platform_rewritten(
                            table_of(orig[i].1),
                            table_of(out@[i].1),
                        )
                    } else {
                        out@[i].1 == orig[i].1
                    }
                },
        decreases src@.len(),
    {
        let ghost i = out@.len() as int;
        let (key, value) = src.remove(0);
        assert((key, value) == orig[i]);
        let value = match value {
            Node::Table(p) => match rewrite_platform(p) {
                Ok(p2) => Node::Table(p2),
                Err(e) => {
                    assert(orig[i].1 is Table);
                    assert(!targets_valid(orig));
                    assert(targets_name_invalid(orig, e->InvalidPackageSpec_0@));
                    return Err(e);
                },
            },
            other => other,
        };
        out.push((key, value));
        assert(src@ =~= orig.subrange(out@.len() as int, orig.len() as int));
    }
    Ok(out)
}

pub open spec fn opt_group_rewritten(
    old: Option<Seq<(String, Node)>>,
    new: Option<Seq<(String, Node)>>,
) -> bool {
    match (old, new) {
        (None, None) => true,
        (Some(a), Some(b)) => group_rewritten(a, b),
        _ => false,
    }
}

fn rewrite_opt_group(g: Option<Vec<(String, Node)>>) -> (r: Result<Option<Vec<(String, Node)>>, Error>)
    ensures
        r is Ok <==> opt_group_valid(opt_entries(g)),
        match r {
            Ok(v) => opt_group_rewritten(opt_entries(g), opt_entries(v)),
            Err(e) => e matches Error::InvalidPackageSpec(n) && opt_group_names_invalid(
                opt_entries(g),
                n@,
            ),
        },
{
    match g {
        Some(t) => {
            let mut t = t;
            match replace_version_with_wildcard(&mut t) {
                Ok(_) => Ok(Some(t)),
                Err(e) => Err(e),
            }
        },
        None => Ok(None),
    }
}

/// Whether the latest policy can rewrite the manifest: every dependency
/// specification it would touch is a version string or a table.
pub open spec fn latest_valid(m: Manifest) -> bool {
    &&& opt_group_valid(opt_entries(m.dependencies))
    &&& opt_group_valid(opt_entries(m.dev_dependencies))
    &&& opt_group_valid(opt_entries(m.build_dependencies))
    &&& match m.target {
        Some(t) => targets_valid(t@),
        None => true,
    }
}

/// The latest policy applied to `old`: the compatible policy's changes, and
/// every version constraint of the three groupings and of the per-target
/// groupings lifted.
pub open spec fn latest_applied(old: Manifest, new: Manifest) -> bool {
    &&& new.package == old.package
    &&& new.workspace == old.workspace
    &&& new.extra == old.extra
    &&& new.bin matches Some(bins) && bins@.len() == 1 && placeholder_bin(bins@[0]@)
    &&& match (old.lib, new.lib) {
        (None, None) => true,
        (Some(l0), Some(l1)) => entry_set(l0@, l1@, path_key(), "test_lib.rs"@),
        _ => false,
    }
    &&& opt_group_rewritten(opt_entries(old.dependencies), opt_entries(new.dependencies))
    &&& opt_group_rewritten(opt_entries(old.dev_dependencies), opt_entries(new.dev_dependencies))
    &&& opt_group_rewritten(
        opt_entries(old.build_dependencies),
        opt_entries(new.build_dependencies),
    )
    &&& match (old.target, new.target) {
        (None, None) => true,
        (Some(t0), Some(t1)) => targets_rewritten(t0@, t1@),
        _ => false,
    }
}

impl Manifest {
    /// Prepares the manifest for the latest policy: the compatible policy's
    /// placeholders, and every explicit version constraint, in the three
    /// groupings and in every per-target grouping, replaced by `*`. Fails with
    /// `InvalidPackageSpec`, naming the dependency, when a specification it
    /// meets is neither a version string nor a table.
    pub fn write_manifest_latest(self) -> (r: Result<Manifest, Error>)
        ensures
            r is Ok <==> latest_valid(self),
            match r {
                Ok(m) => latest_applied(self, m) && (self.wf() ==> m.wf()),
                Err(e) => e matches Error::InvalidPackageSpec(n) && latest_names_invalid(self, n@),
            },
    {
        let ghost orig = self;
        let mut m = self.write_manifest_semver();
        let deps = rewrite_opt_group(m.dependencies);
        match deps {
            Ok(d) => m.dependencies = d,
            Err(e) => {
                return Err(e);
            },
        }
        let dev = rewrite_opt_group(m.dev_dependencies);
        match dev {
            Ok(d) => m.dev_dependencies = d,
            Err(e) => {
                return Err(e);
            },
        }
        let build = rewrite_opt_group(m.build_dependencies);
        match build {
            Ok(d) => m.build_dependencies = d,
            Err(e) => {
                return Err(e);
            },
        }
        let target = match m.target {
            Some(t) => match rewrite_targets(t) {
                Ok(t2) => Some(t2),
                Err(e) => {
                    return Err(e);
                },
            },
            None => None,
        };
        m.target = target;
        proof {
            if m.dependencies is Some {
                lemma_rewritten_specs(
                    opt_entries(orig.dependencies)->0,
                    opt_entries(m.dependencies)->0,
                );
            }
            if m.dev_dependencies is Some {
                lemma_rewritten_specs(
                    opt_entries(orig.dev_dependencies)->0,
                    opt_entries(m.dev_dependencies)->0,
                );
            }
            if m.build_dependencies is Some {
                lemma_rewritten_specs(
                    opt_entries(orig.build_dependencies)->0,
                    opt_entries(m.build_dependencies)->0,
                );
            }
        }
        Ok(m)
    }
}

} // verus!
