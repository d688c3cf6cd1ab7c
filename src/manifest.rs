//! The manifest document model: a generic document of keyed values, and a
//! typed view of a package manifest over it.
use vstd::prelude::*;
use vstd::string::*;

verus! {

/// `toml::Value`, the parsed document's own values: the library carries the
/// ones it does not model through unread.
#[verifier::external_type_specification]
#[verifier::external_body]
pub struct ExTomlValue(toml::Value);

/// A value of a manifest document. Strings, tables and arrays are what the
/// policies read and rewrite; every other value is carried through as it was
/// parsed.
#[derive(Debug, PartialEq)]
pub enum Node {
    Str(String),
    Table(Vec<(String, Node)>),
    Array(Vec<Node>),
    Other(toml::Value),
}

/// What can go wrong while reading or preparing a project.
#[derive(Debug, PartialEq, Eq)]
pub enum Error {
    /// The manifest lacks the package table, or a part of it has the wrong
    /// shape; the text names the part.
    MalformedManifest(String),
    /// A file could not be copied, created or read; the text says which.
    IoFailure(String),
    /// Refreshing the lock state failed; the text is the tool's diagnostic.
    UpdateFailed(String),
    /// A dependency specification is neither a version string nor a table;
    /// the text is the dependency's name.
    InvalidPackageSpec(String),
}

pub open spec fn str_of(n: Node) -> Option<Seq<char>> {
    match n {
        Node::Str(s) => Some(s@),
        _ => None,
    }
}

/// A dependency specification: a version string or a table of attributes.
pub open spec fn is_dep_spec(n: Node) -> bool {
    n is Str || n is Table
}

pub open spec fn table_of(n: Node) -> Seq<(String, Node)> {
    match n {
        Node::Table(t) => t@,
        _ => Seq::empty(),
    }
}

/// The typed view of a package manifest. Each dependency grouping maps a
/// dependency's name to its specification; `extra` holds, in document order,
/// every top-level entry that the model does not name.
#[derive(Debug)]
pub struct Manifest {
    pub package: Vec<(String, Node)>,
    pub dependencies: Option<Vec<(String, Node)>>,
    pub dev_dependencies: Option<Vec<(String, Node)>>,
    pub build_dependencies: Option<Vec<(String, Node)>>,
    pub lib: Option<Vec<(String, Node)>>,
    pub bin: Option<Vec<Vec<(String, Node)>>>,
    pub workspace: Option<Vec<(String, Node)>>,
    pub target: Option<Vec<(String, Node)>>,
    pub extra: Vec<(String, Node)>,
}

pub open spec fn opt_entries(t: Option<Vec<(String, Node)>>) -> Option<Seq<(String, Node)>> {
    match t {
        Some(v) => Some(v@),
        None => None,
    }
}

/// The value under `key` in a table; where the key repeats, the last entry
/// counts.
pub open spec fn lookup(t: Seq<(String, Node)>, key: Seq<char>) -> Option<Node>
    decreases t.len(),
{
    if t.len() == 0 {
        None
    } else if t.last().0@ == key {
        Some(t.last().1)
    } else {
        lookup(t.drop_last(), key)
    }
}

/// The top-level keys that the typed model names.
pub open spec fn is_model_key(k: Seq<char>) -> bool {
    ||| k == "package"@
    ||| k == "dependencies"@
    ||| k == "dev-dependencies"@
    ||| k == "build-dependencies"@
    ||| k == "lib"@
    ||| k == "bin"@
    ||| k == "workspace"@
    ||| k == "target"@
}

/// The entries of a document that the typed model does not name, in order.
pub open spec fn extra_of(t: Seq<(String, Node)>) -> Seq<(String, Node)>
    decreases t.len(),
{
    if t.len() == 0 {
        Seq::empty()
    } else if is_model_key(t.last().0@) {
        extra_of(t.drop_last())
    } else {
        extra_of(t.drop_last()).push(t.last())
    }
}

pub proof fn lemma_lookup_push(t: Seq<(String, Node)>, e: (String, Node))
    ensures
        forall|k: Seq<char>|
            #[trigger] lookup(t.push(e), k) == if e.0@ == k {
                Some(e.1)
            } else {
                lookup(t, k)
            },
        extra_of(t.push(e)) == if is_model_key(e.0@) {
            extra_of(t)
        } else {
            extra_of(t).push(e)
        },
{
    assert(t.push(e).drop_last() =~= t);
}

/// A dependency specification is a version string or a table.
pub open spec fn all_dep_specs(t: Seq<(String, Node)>) -> bool {
    forall|i: int| 0 <= i < t.len() ==> is_dep_spec(#[trigger] t[i].1)
}

/// The names of the three dependency groupings.
pub open spec fn is_group_key(k: Seq<char>) -> bool {
    k == "dependencies"@ || k == "dev-dependencies"@ || k == "build-dependencies"@
}

/// `name` is the name of an entry of `t` whose specification is neither a
/// version string nor a table.
pub open spec fn names_invalid_spec(t: Seq<(String, Node)>, name: Seq<char>) -> bool {
    exists|i: int| 0 <= i < t.len() && (#[trigger] t[i]).0@ == name && !is_dep_spec(t[i].1)
}

pub open spec fn table_field(v: Option<Node>) -> Option<Seq<(String, Node)>> {
    match v {
        Some(Node::Table(t)) => Some(t@),
        _ => None,
    }
}

pub open spec fn bin_field(v: Option<Node>) -> Option<Seq<Seq<(String, Node)>>> {
    match v {
        Some(Node::Array(a)) => Some(a@.map_values(|n: Node| table_of(n))),
        _ => None,
    }
}

pub open spec fn opt_bins(b: Option<Vec<Vec<(String, Node)>>>) -> Option<Seq<Seq<(String, Node)>>> {
    match b {
        Some(v) => Some(v@.map_values(|t: Vec<(String, Node)>| t@)),
        None => None,
    }
}

pub open spec fn table_ok(v: Option<Node>) -> bool {
    v is None || v->0 is Table
}

pub open spec fn group_ok(v: Option<Node>) -> bool {
    match v {
        None => true,
        Some(Node::Table(t)) => all_dep_specs(t@),
        _ => false,
    }
}

pub open spec fn bin_ok(v: Option<Node>) -> bool {
    match v {
        None => true,
        Some(Node::Array(a)) => forall|i: int| 0 <= i < a@.len() ==> (#[trigger] a@[i]) is Table,
        _ => false,
    }
}

/// A document that makes a manifest: the package is a table, each grouping a
/// table of version strings and tables, `lib`, `workspace` and `target`
/// tables, and `bin` an array of tables.
pub open spec fn document_valid(doc: Seq<(String, Node)>) -> bool {
    &&& lookup(doc, "package"@) matches Some(Node::Table(_))
    &&& group_ok(lookup(doc, "dependencies"@))
    &&& group_ok(lookup(doc, "dev-dependencies"@))
    &&& group_ok(lookup(doc, "build-dependencies"@))
    &&& table_ok(lookup(doc, "lib"@))
    &&& bin_ok(lookup(doc, "bin"@))
    &&& table_ok(lookup(doc, "workspace"@))
    &&& table_ok(lookup(doc, "target"@))
}

/// `m` holds what `doc` holds, field for field.
pub open spec fn parses_to(doc: Seq<(String, Node)>, m: Manifest) -> bool {
    &&& table_field(lookup(doc, "package"@)) == Some(m.package@)
    &&& table_field(lookup(doc, "dependencies"@)) == opt_entries(m.dependencies)
    &&& table_field(lookup(doc, "dev-dependencies"@)) == opt_entries(m.dev_dependencies)
    &&& table_field(lookup(doc, "build-dependencies"@)) == opt_entries(m.build_dependencies)
    &&& table_field(lookup(doc, "lib"@)) == opt_entries(m.lib)
    &&& bin_field(lookup(doc, "bin"@)) == opt_bins(m.bin)
    &&& table_field(lookup(doc, "workspace"@)) == opt_entries(m.workspace)
    &&& table_field(lookup(doc, "target"@)) == opt_entries(m.target)
    &&& m.extra@ == extra_of(doc)
}

pub open spec fn opt_group_valid(g: Option<Seq<(String, Node)>>) -> bool {
    match g {
        Some(t) => all_dep_specs(t),
        None => true,
    }
}

fn is_key(k: &String, lit: &str) -> (r: bool)
    ensures
        r == (k@ == lit@),
{
    *k == lit.to_owned()
}

/// What a grouping's value `v` under key `key` can be faulted for: not a
/// table (`part` is the key), or holding a dependency of another shape
/// (`part` is its name).
pub open spec fn group_fault(v: Option<Node>, key: Seq<char>, part: Seq<char>) -> bool {
    match v {
        Some(Node::Table(t)) => names_invalid_spec(t@, part),
        Some(_) => part == key,
        None => false,
    }
}

/// `part` names what makes `doc` no manifest: the package table missing or
/// of another shape, a top-level entry of the wrong shape, or a dependency
/// whose specification is neither a version string nor a table.
pub open spec fn malformed_part(doc: Seq<(String, Node)>, part: Seq<char>) -> bool {
    ||| part == "package"@ && !(lookup(doc, "package"@) matches Some(Node::Table(_)))
    ||| group_fault(lookup(doc, "dependencies"@), "dependencies"@, part)
    ||| group_fault(lookup(doc, "dev-dependencies"@), "dev-dependencies"@, part)
    ||| group_fault(lookup(doc, "build-dependencies"@), "build-dependencies"@, part)
    ||| (part == "lib"@ || part == "workspace"@ || part == "target"@) && !table_ok(
        lookup(doc, part),
    )
    ||| part == "bin"@ && !bin_ok(lookup(doc, "bin"@))
}

fn take_table(v: Option<Node>, what: &str) -> (r: Result<Option<Vec<(String, Node)>>, Error>)
    ensures
        r is Ok <==> table_ok(v),
        match r {
            Ok(t) => opt_entries(t) == table_field(v),
            Err(e) => e matches Error::MalformedManifest(p) && p@ == what@,
        },
{
    match v {
        None => Ok(None),
        Some(Node::Table(t)) => Ok(Some(t)),
        Some(_) => Err(Error::MalformedManifest(what.to_owned())),
    }
}

fn take_group(v: Option<Node>, what: &str) -> (r: Result<Option<Vec<(String, Node)>>, Error>)
    ensures
        r is Ok <==> group_ok(v),
        match r {
            Ok(t) => opt_entries(t) == table_field(v),
            Err(e) => e matches Error::MalformedManifest(p) && group_fault(v, what@, p@),
        },
{
    match v {
        None => Ok(None),
        Some(Node::Table(t)) => {
            let mut i: usize = 0;
            while i < t.len()
                invariant
                    v == Some(Node::Table(t)),
                    i <= t@.len(),
                    forall|j: int| 0 <= j < i ==> is_dep_spec(#[trigger] t@[j].1),
                decreases t@.len() - i,
            {
                match &t[i].1 {
                    Node::Str(_) => {},
                    Node::Table(_) => {},
                    _ => {
                        assert(!is_dep_spec(t@[i as int].1));
                        assert(!all_dep_specs(t@));
                        assert(names_invalid_spec(t@, t@[i as int].0@));
                        return Err(Error::MalformedManifest(t[i].0.clone()));
                    },
                }
                i = i + 1;
            }
            Ok(Some(t))
        },
        Some(_) => Err(Error::MalformedManifest(what.to_owned())),
    }
}

fn take_bins(v: Option<Node>) -> (r: Result<Option<Vec<Vec<(String, Node)>>>, Error>)
    ensures
        r is Ok <==> bin_ok(v),
        match r {
            Ok(b) => opt_bins(b) == bin_field(v),
            Err(e) => e matches Error::MalformedManifest(p) && p@ == "bin"@,
        },
{
    match v {
        None => Ok(None),
        Some(Node::Array(a)) => {
            let ghost orig = a@;
            let mut src = a;
            let mut out: Vec<Vec<(String, Node)>> = Vec::new();
            while src.len() > 0
                invariant
                    orig == a@,
                    v == Some(Node::Array(a)),
                    out@.len() + src@.len() == orig.len(),
                    src@ == orig.subrange(out@.len() as int, orig.len() as int),
                    forall|i: int| 0 <= i < out@.len() ==> (#[trigger] orig[i]) is Table,
                    forall|i: int| 0 <= i < out@.len() ==> (#[trigger] out@[i])@ == table_of(orig[i]),
                decreases src@.len(),
            {
                let ghost i = out@.len() as int;
                let n = src.remove(0);
                assert(n == orig[i]);
                match n {
                    Node::Table(t) => out.push(t),
                    _ => {
                        assert(!(orig[i] is Table));
                        return Err(Error::MalformedManifest("bin".to_owned()));
                    },
                }
                assert(src@ =~= orig.subrange(out@.len() as int, orig.len() as int));
            }
            assert(out@.map_values(|t: Vec<(String, Node)>| t@) =~= orig.map_values(
                |n: Node| table_of(n),
            ));
            Ok(Some(out))
        },
        Some(_) => Err(Error::MalformedManifest("bin".to_owned())),
    }
}

impl Manifest {
    /// The model is well formed: every grouping holds only version strings
    /// and tables, and no extra entry carries a key that the model names.
    pub open spec fn wf(self) -> bool {
        &&& opt_group_valid(opt_entries(self.dependencies))
        &&& opt_group_valid(opt_entries(self.dev_dependencies))
        &&& opt_group_valid(opt_entries(self.build_dependencies))
        &&& forall|i: int| 0 <= i < self.extra@.len() ==> !is_model_key((#[trigger] self.extra@[i]).0@)
    }

    /// Reads a manifest from a document's top-level entries. Fails with
    /// `MalformedManifest` when the package table is missing or any part of
    /// the document has the wrong shape, a dependency specification that is
    /// neither a version string nor a table included.
    pub fn from_document(doc: Vec<(String, Node)>) -> (r: Result<Manifest, Error>)
        ensures
            r is Ok <==> document_valid(doc@),
            match r {
                Ok(m) => parses_to(doc@, m) && m.wf(),
                Err(e) => e matches Error::MalformedManifest(part) && malformed_part(doc@, part@),
            },
    {
        let ghost orig = doc@;
        let mut src = doc;
        let mut seen: Vec<(String, Node)> = Vec::new();
        let mut package: Option<Node> = None;
        let mut dependencies: Option<Node> = None;
        let mut dev_dependencies: Option<Node> = None;
        let mut build_dependencies: Option<Node> = None;
        let mut lib: Option<Node> = None;
        let mut bin: Option<Node> = None;
        let mut workspace: Option<Node> = None;
        let mut target: Option<Node> = None;
        let mut extra: Vec<(String, Node)> = Vec::new();
        let ghost mut done: Seq<(String, Node)> = Seq::empty();
        while src.len() > 0
            invariant
                orig == doc@,
                done.len() + src@.len() == orig.len(),
                done == orig.subrange(0, done.len() as int),
                src@ == orig.subrange(done.len() as int, orig.len() as int),
                package == lookup(done, "package"@),
                dependencies == lookup(done, "dependencies"@),
                dev_dependencies == lookup(done, "dev-dependencies"@),
                build_dependencies == lookup(done, "build-dependencies"@),
                lib == lookup(done, "lib"@),
                bin == lookup(done, "bin"@),
                workspace == lookup(done, "workspace"@),
                target == lookup(done, "target"@),
                extra@ == extra_of(done),
            decreases src@.len(),
        {
            let ghost i = done.len() as int;
            let (key, value) = src.remove(0);
            assert((key, value) == orig[i]);
            proof {
                lemma_model_key_literals();
                lemma_lookup_push(done, (key, value));
                assert(orig.subrange(0, i + 1) =~= done.push((key, value)));
                done = done.push((key, value));
            }
            if is_key(&key, "package") {
                package = Some(value);
            } else if is_key(&key, "dependencies") {
                dependencies = Some(value);
            } else if is_key(&key, "dev-dependencies") {
                dev_dependencies = Some(value);
            } else if is_key(&key, "build-dependencies") {
                build_dependencies = Some(value);
            } else if is_key(&key, "lib") {
                lib = Some(value);
            } else if is_key(&key, "bin") {
                bin = Some(value);
            } else if is_key(&key, "workspace") {
                workspace = Some(value);
            } else if is_key(&key, "target") {
                target = Some(value);
            } else {
                extra.push((key, value));
            }
            assert(src@ =~= orig.subrange(done.len() as int, orig.len() as int));
        }
        assert(done =~= orig);
        proof {
            lemma_extra_of_unmodelled(orig);
        }
        let package = match package {
            Some(Node::Table(t)) => t,
            _ => {
                return Err(Error::MalformedManifest("package".to_owned()));
            },
        };
        let dependencies = match take_group(dependencies, "dependencies") {
            Ok(v) => v,
            Err(e) => {
                return Err(e);
            },
        };
        let dev_dependencies = match take_group(dev_dependencies, "dev-dependencies") {
            Ok(v) => v,
            Err(e) => {
                return Err(e);
            },
        };
        let build_dependencies = match take_group(build_dependencies, "build-dependencies") {
            Ok(v) => v,
            Err(e) => {
                return Err(e);
            },
        };
        let lib = match take_table(lib, "lib") {
            Ok(v) => v,
            Err(e) => {
                return Err(e);
            },
        };
        let bin = match take_bins(bin) {
            Ok(v) => v,
            Err(e) => {
                return Err(e);
            },
        };
        let workspace = match take_table(workspace, "workspace") {
            Ok(v) => v,
            Err(e) => {
                return Err(e);
            },
        };
        let target = match take_table(target, "target") {
            Ok(v) => v,
            Err(e) => {
                return Err(e);
            },
        };
        Ok(
            Manifest {
                package,
                dependencies,
                dev_dependencies,
                build_dependencies,
                lib,
                bin,
                workspace,
                target,
                extra,
            },
        )
    }
}

/// The keys that the model names are pairwise distinct.
proof fn lemma_model_key_literals()
    ensures
        "package"@.len() == 7,
        "dependencies"@.len() == 12,
        "dev-dependencies"@.len() == 16,
        "build-dependencies"@.len() == 18,
        "lib"@.len() == 3,
        "bin"@.len() == 3,
        "lib"@[0] != "bin"@[0],
        "workspace"@.len() == 9,
        "target"@.len() == 6,
{
    reveal_strlit("package");
    reveal_strlit("dependencies");
    reveal_strlit("dev-dependencies");
    reveal_strlit("build-dependencies");
    reveal_strlit("lib");
    reveal_strlit("bin");
    reveal_strlit("workspace");
    reveal_strlit("target");
}

proof fn lemma_extra_of_unmodelled(t: Seq<(String, Node)>)
    ensures
        forall|i: int|
            0 <= i < extra_of(t).len() ==> !is_model_key((#[trigger] extra_of(t)[i]).0@),
    decreases t.len(),
{
    if t.len() > 0 {
        lemma_extra_of_unmodelled(t.drop_last());
        let rest = extra_of(t.drop_last());
        if !is_model_key(t.last().0@) {
            assert forall|i: int| 0 <= i < extra_of(t).len() implies !is_model_key(
                (#[trigger] extra_of(t)[i]).0@,
            ) by {
                if i < rest.len() {
                    assert(extra_of(t)[i] == rest[i]);
                }
            }
        }
    }
}

proof fn lemma_unmodelled_keys(t: Seq<(String, Node)>)
    requires
        forall|i: int| 0 <= i < t.len() ==> !is_model_key((#[trigger] t[i]).0@),
    ensures
        extra_of(t) == t,
        forall|k: Seq<char>| is_model_key(k) ==> #[trigger] lookup(t, k) is None,
    decreases t.len(),
{
    if t.len() > 0 {
        lemma_unmodelled_keys(t.drop_last());
        assert(t.drop_last().push(t.last()) =~= t);
        assert(!is_model_key(t[t.len() - 1].0@));
        assert forall|k: Seq<char>| is_model_key(k) implies #[trigger] lookup(t, k) is None by {
            assert(t.last().0@ != k);
            assert(lookup(t.drop_last(), k) is None);
        }
    }
}

fn push_field(doc: &mut Vec<(String, Node)>, key: &str, v: Option<Node>)
    requires
        is_model_key(key@),
    ensures
        forall|k: Seq<char>|
            #[trigger] lookup(final(doc)@, k) == if k == key@ && v is Some {
                v
            } else {
                lookup(old(doc)@, k)
            },
        extra_of(final(doc)@) == extra_of(old(doc)@),
{
    match v {
        Some(n) => {
            let e = (key.to_owned(), n);
            proof {
                lemma_lookup_push(doc@, e);
            }
            doc.push(e);
        },
        None => {},
    }
}

fn table_node(t: Option<Vec<(String, Node)>>) -> (r: Option<Node>)
    ensures
        table_field(r) == opt_entries(t),
        r is Some <==> t is Some,
        r matches Some(n) ==> n is Table,
{
    match t {
        Some(t) => Some(Node::Table(t)),
        None => None,
    }
}

fn bins_node(b: Option<Vec<Vec<(String, Node)>>>) -> (r: Option<Node>)
    ensures
        bin_field(r) == opt_bins(b),
        bin_ok(r),
{
    match b {
        Some(b) => {
            let ghost orig = b@;
            let mut src = b;
            let mut out: Vec<Node> = Vec::new();
            while src.len() > 0
                invariant
                    out@.len() + src@.len() == orig.len(),
                    src@ == orig.subrange(out@.len() as int, orig.len() as int),
                    forall|i: int| 0 <= i < out@.len() ==> (#[trigger] out@[i]) is Table,
                    forall|i: int| 0 <= i < out@.len() ==> table_of(#[trigger] out@[i]) == orig[i]@,
                decreases src@.len(),
            {
                let ghost i = out@.len() as int;
                let t = src.remove(0);
                assert(t == orig[i]);
                out.push(Node::Table(t));
                assert(src@ =~= orig.subrange(out@.len() as int, orig.len() as int));
            }
            assert(out@.map_values(|n: Node| table_of(n)) =~= orig.map_values(
                |t: Vec<(String, Node)>| t@,
            ));
            Some(Node::Array(out))
        },
        None => None,
    }
}

impl Manifest {
    /// Renders the manifest as a document's top-level entries: the entries
    /// it does not model first, in their order, then each field that is
    /// present. A well-formed manifest renders to a document that reads back
    /// to it.
    pub fn to_document(self) -> (r: Vec<(String, Node)>)
        ensures
            self.wf() ==> document_valid(r@) && parses_to(r@, self),
    {
        let ghost m = self;
        let mut doc = self.extra;
        proof {
            lemma_model_key_literals();
            if m.wf() {
                lemma_unmodelled_keys(doc@);
            }
        }
        push_field(&mut doc, "package", Some(Node::Table(self.package)));
        push_field(&mut doc, "dependencies", table_node(self.dependencies));
        push_field(&mut doc, "dev-dependencies", table_node(self.dev_dependencies));
        push_field(&mut doc, "build-dependencies", table_node(self.build_dependencies));
        push_field(&mut doc, "lib", table_node(self.lib));
        push_field(&mut doc, "bin", bins_node(self.bin));
        push_field(&mut doc, "workspace", table_node(self.workspace));
        push_field(&mut doc, "target", table_node(self.target));
        doc
    }
}

/// Two manifests hold the same values, field for field.
pub open spec fn same_fields(a: Manifest, b: Manifest) -> bool {
    &&& a.package@ == b.package@
    &&& opt_entries(a.dependencies) == opt_entries(b.dependencies)
    &&& opt_entries(a.dev_dependencies) == opt_entries(b.dev_dependencies)
    &&& opt_entries(a.build_dependencies) == opt_entries(b.build_dependencies)
    &&& opt_entries(a.lib) == opt_entries(b.lib)
    &&& opt_bins(a.bin) == opt_bins(b.bin)
    &&& opt_entries(a.workspace) == opt_entries(b.workspace)
    &&& opt_entries(a.target) == opt_entries(b.target)
    &&& a.extra@ == b.extra@
}

/// Rendering a well-formed manifest and reading the document back gives the
/// manifest again: every manifest that the rendered document reads to has
/// the same fields.
pub proof fn lemma_document_round_trip(m: Manifest, doc: Seq<(String, Node)>, back: Manifest)
    requires
        m.wf(),
        document_valid(doc),
        parses_to(doc, m),
        parses_to(doc, back),
    ensures
        same_fields(m, back),
{
}

/// The error for a failed refresh of the lock state, quoting the tool's
/// diagnostic.
pub fn update_failed(diagnostic: &str) -> (r: Error)
    ensures
        r matches Error::UpdateFailed(msg) && msg@ == "Failed to run 'cargo update' with error '"@
            + diagnostic@ + "'"@,
{
    let mut msg = "Failed to run 'cargo update' with error '".to_owned();
    msg.append(diagnostic);
    msg.append("'");
    Error::UpdateFailed(msg)
}

} // verus!
