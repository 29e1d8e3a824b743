//! The scanner that reads a manifest's dependency list.
//!
//! The engine is generic over every payload type, and the proof is the dependency list:
//! a crate that named a consumer's types would have to add the edge there.

use libpipeline::key::StageId;

/// Every dependency named by a manifest, across all dependency tables.
fn dependency_names(manifest: &str) -> Vec<String> {
    let mut names = Vec::new();
    let mut scanning_keys = false;
    for line in manifest.lines() {
        let line = line.trim();
        if line.starts_with('#') {
            continue;
        }
        if let Some(header) = line.strip_prefix('[').and_then(|l| l.strip_suffix(']')) {
            let header = header.trim_start_matches("target.");
            let tail = header.rsplit('.').next().unwrap_or(header);
            if matches!(
                tail,
                "dependencies" | "dev-dependencies" | "build-dependencies"
            ) {
                scanning_keys = true;
            } else {
                scanning_keys = false;
                let mut parts = header.rsplitn(2, '.');
                let last = parts.next().unwrap_or_default();
                let rest = parts.next().unwrap_or_default();
                if matches!(
                    rest.rsplit('.').next().unwrap_or(rest),
                    "dependencies" | "dev-dependencies" | "build-dependencies"
                ) {
                    names.push(last.to_string());
                }
            }
            continue;
        }
        if !scanning_keys {
            continue;
        }
        if let Some((key, _)) = line.split_once('=') {
            let key = key.trim().split('.').next().unwrap_or_default().trim();
            if !key.is_empty() {
                names.push(key.to_string());
            }
        }
    }
    names
}

/// Every `path = "..."` value in a manifest, wherever it appears.
fn path_dependency_values(manifest: &str) -> Vec<String> {
    let mut paths = Vec::new();
    for line in manifest.lines() {
        let line = line.trim();
        if line.starts_with('#') {
            continue;
        }
        let mut rest = line;
        while let Some(at) = rest.find("path") {
            rest = &rest[at + "path".len()..];
            let Some(eq) = rest.find('=') else { break };
            let after = rest[eq + 1..].trim_start();
            let Some(stripped) = after.strip_prefix('"') else {
                continue;
            };
            let Some(end) = stripped.find('"') else { break };
            paths.push(stripped[..end].to_string());
            rest = &stripped[end..];
        }
    }
    paths
}

/// A manifest with every spelling of the edge that is refused.
const A_MANIFEST_THAT_MUST_NOT_PASS: &str = r#"
[package]
name = "libpipeline"
# libtsx = "in a comment, which is not a dependency"

[dependencies]
libeffects = { path = "../libeffects" }
libpipelinedata = { path = "../libpipelinedata" }
libtsx = { path = "../libtsx", default-features = false }

[dev-dependencies]
highbay_data.workspace = true

[target.'cfg(unix)'.dependencies]
libhbui = "0.1"

[dependencies.hb_pack]
path = "../../crates/hb_pack"
features = ["publish"]
"#;

#[test]
fn the_scanner_catches_every_spelling_of_the_edge_it_refuses() {
    let names = dependency_names(A_MANIFEST_THAT_MUST_NOT_PASS);
    for (spelling, expected) in [
        ("a plain [dependencies] key", "libtsx"),
        ("a dotted workspace key in [dev-dependencies]", "highbay_data"),
        ("a target-specific dependency table", "libhbui"),
        ("the [dependencies.name] spelling", "hb_pack"),
    ] {
        assert!(
            names.iter().any(|n| n == expected),
            "the scanner missed {spelling} (`{expected}`): {names:?}",
        );
    }
    assert!(
        !names.iter().any(|n| n == "features"),
        "the scanner read option keys out of a [dependencies.name] body: {names:?}",
    );
    assert!(
        !names.iter().any(|n| n.contains("in a comment")),
        "the scanner read a comment: {names:?}",
    );

    let paths = path_dependency_values(A_MANIFEST_THAT_MUST_NOT_PASS);
    assert!(
        paths.iter().any(|p| p.contains("crates/")),
        "the path scanner missed the reach into the Core Repo: {paths:?}",
    );
}

#[test]
fn an_identity_names_nothing_but_a_position() {
    assert_eq!(StageId::at(3).index(), 3);
    assert_ne!(StageId::at(3), StageId::at(4));
}
