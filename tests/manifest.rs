use cargo_outdated::manifest::{update_failed, Error, Manifest, Node};
use cargo_outdated::policy::replace_version_with_wildcard;

fn s(v: &str) -> Node {
    Node::Str(v.to_string())
}

fn entry(k: &str, v: Node) -> (String, Node) {
    (k.to_string(), v)
}

fn package() -> Node {
    Node::Table(vec![entry("name", s("proj")), entry("version", s("0.1.0"))])
}

fn detailed_dep() -> Node {
    Node::Table(vec![
        entry("features", Node::Array(vec![s("x")])),
        entry("version", s("0.5")),
    ])
}

#[test]
fn scenario_table_spec_keeps_features() {
    let mut deps = vec![entry("dep", detailed_dep())];
    assert_eq!(replace_version_with_wildcard(&mut deps), Ok(()));
    assert_eq!(
        deps,
        vec![entry(
            "dep",
            Node::Table(vec![
                entry("features", Node::Array(vec![s("x")])),
                entry("version", s("*")),
            ])
        )]
    );
}

#[test]
fn wildcard_rewrite_of_strings_and_tables() {
    let mut deps = vec![
        entry("a", s("1.0.0")),
        entry("b", Node::Table(vec![entry("git", s("https://example.org/b"))])),
    ];
    assert_eq!(replace_version_with_wildcard(&mut deps), Ok(()));
    assert_eq!(
        deps,
        vec![
            entry("a", s("*")),
            entry("b", Node::Table(vec![entry("git", s("https://example.org/b"))])),
        ]
    );
}

#[test]
fn wildcard_rewrite_is_idempotent() {
    let mut once = vec![entry("a", s("^1.2")), entry("dep", detailed_dep())];
    replace_version_with_wildcard(&mut once).unwrap();
    let mut twice = vec![entry("a", s("^1.2")), entry("dep", detailed_dep())];
    replace_version_with_wildcard(&mut twice).unwrap();
    replace_version_with_wildcard(&mut twice).unwrap();
    assert_eq!(once, twice);
}

#[test]
fn wildcard_rewrite_refuses_other_spec() {
    let original = vec![entry("a", s("1.0")), entry("bad", Node::Other(toml::Value::Integer(3)))];
    let mut deps = vec![entry("a", s("1.0")), entry("bad", Node::Other(toml::Value::Integer(3)))];
    assert_eq!(
        replace_version_with_wildcard(&mut deps),
        Err(Error::InvalidPackageSpec("bad".to_string()))
    );
    assert_eq!(deps, original);
}

fn document() -> Vec<(String, Node)> {
    vec![
        entry("package", package()),
        entry("dependencies", Node::Table(vec![entry("foo", s("1.0.0")), entry("dep", detailed_dep())])),
        entry("lib", Node::Table(vec![entry("name", s("proj"))])),
        entry("features", Node::Table(vec![entry("default", Node::Array(vec![]))])),
        entry(
            "target",
            Node::Table(vec![entry(
                "cfg(unix)",
                Node::Table(vec![entry(
                    "dependencies",
                    Node::Table(vec![entry("libc", s("0.2"))]),
                )]),
            )]),
        ),
    ]
}

#[test]
fn document_round_trip() {
    let m = Manifest::from_document(document()).unwrap();
    assert_eq!(m.extra.len(), 1);
    assert_eq!(m.extra[0].0, "features");
    let doc = m.to_document();
    let back = Manifest::from_document(doc).unwrap();
    let again = Manifest::from_document(document()).unwrap();
    assert_eq!(back.package, again.package);
    assert_eq!(back.dependencies, again.dependencies);
    assert_eq!(back.lib, again.lib);
    assert_eq!(back.target, again.target);
    assert_eq!(back.extra, again.extra);
    assert!(back.bin.is_none());
    assert!(back.dev_dependencies.is_none());
}

#[test]
fn missing_package_is_malformed() {
    let doc = vec![entry("dependencies", Node::Table(vec![]))];
    assert!(matches!(Manifest::from_document(doc), Err(Error::MalformedManifest(_))));
    let doc = vec![entry("package", s("proj"))];
    assert!(matches!(Manifest::from_document(doc), Err(Error::MalformedManifest(_))));
}

#[test]
fn bad_dependency_spec_is_malformed() {
    let doc = vec![
        entry("package", package()),
        entry("dev-dependencies", Node::Table(vec![entry("x", Node::Other(toml::Value::Boolean(true)))])),
    ];
    assert_eq!(
        Manifest::from_document(doc).err(),
        Some(Error::MalformedManifest("x".to_string()))
    );
    let doc = vec![entry("package", package()), entry("bin", Node::Array(vec![s("x")]))];
    assert!(matches!(Manifest::from_document(doc), Err(Error::MalformedManifest(_))));
}

#[test]
fn semver_policy_sets_placeholders_only() {
    let m = Manifest::from_document(document()).unwrap().write_manifest_semver();
    assert_eq!(m.bin.as_ref().unwrap(), &vec![vec![entry("name", s("test")), entry("path", s("test.rs"))]]);
    assert_eq!(
        m.lib.as_ref().unwrap(),
        &vec![entry("name", s("proj")), entry("path", s("test_lib.rs"))]
    );
    assert_eq!(
        m.dependencies.as_ref().unwrap(),
        &vec![entry("foo", s("1.0.0")), entry("dep", detailed_dep())]
    );
}

#[test]
fn latest_policy_lifts_all_constraints() {
    let m = Manifest::from_document(document()).unwrap().write_manifest_latest().unwrap();
    assert_eq!(
        m.dependencies.as_ref().unwrap(),
        &vec![
            entry("foo", s("*")),
            entry(
                "dep",
                Node::Table(vec![
                    entry("features", Node::Array(vec![s("x")])),
                    entry("version", s("*")),
                ])
            ),
        ]
    );
    assert_eq!(
        m.target.as_ref().unwrap(),
        &vec![entry(
            "cfg(unix)",
            Node::Table(vec![entry("dependencies", Node::Table(vec![entry("libc", s("*"))]))]),
        )]
    );
    assert_eq!(m.lib.as_ref().unwrap()[1], entry("path", s("test_lib.rs")));
}

#[test]
fn latest_policy_refuses_bad_target_spec() {
    let mut doc = document();
    doc.push(entry(
        "target",
        Node::Table(vec![entry(
            "cfg(windows)",
            Node::Table(vec![entry(
                "build-dependencies",
                Node::Table(vec![entry("cc", Node::Other(toml::Value::Integer(1)))]),
            )]),
        )]),
    ));
    let m = Manifest::from_document(doc).unwrap();
    assert_eq!(m.write_manifest_latest().err(), Some(Error::InvalidPackageSpec("cc".to_string())));
}

#[test]
fn update_failure_quotes_diagnostic() {
    assert_eq!(
        update_failed("did not exit successfully"),
        Error::UpdateFailed(
            "Failed to run 'cargo update' with error 'did not exit successfully'".to_string()
        )
    );
}

#[test]
fn malformed_error_names_the_part() {
    let doc = vec![entry("dependencies", Node::Table(vec![]))];
    assert_eq!(
        Manifest::from_document(doc).err(),
        Some(Error::MalformedManifest("package".to_string()))
    );
    let doc = vec![entry("package", package()), entry("dependencies", s("1.0"))];
    assert_eq!(
        Manifest::from_document(doc).err(),
        Some(Error::MalformedManifest("dependencies".to_string()))
    );
    let doc = vec![entry("package", package()), entry("lib", s("x"))];
    assert_eq!(
        Manifest::from_document(doc).err(),
        Some(Error::MalformedManifest("lib".to_string()))
    );
    let doc = vec![entry("package", package()), entry("bin", Node::Array(vec![s("x")]))];
    assert_eq!(
        Manifest::from_document(doc).err(),
        Some(Error::MalformedManifest("bin".to_string()))
    );
}

#[test]
fn latest_policy_names_bad_dependency() {
    let doc = vec![
        entry("package", package()),
        entry("build-dependencies", Node::Table(vec![entry("foo", s("1"))])),
    ];
    let mut m = Manifest::from_document(doc).unwrap();
    m.build_dependencies
        .as_mut()
        .unwrap()
        .push(entry("bad", Node::Other(toml::Value::Integer(5))));
    assert_eq!(m.write_manifest_latest().err(), Some(Error::InvalidPackageSpec("bad".to_string())));
}
