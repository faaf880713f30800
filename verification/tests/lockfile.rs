use wt_store::lockfile::{classify_lockfile, hash_lockfile, DependencySafety};

#[test]
fn classifies_pinned_npm_lockfile() {
    let lock = r#"{
  "name": "my-app",
  "version": "1.0.0",
  "lockfileVersion": 3,
  "packages": {
    "node_modules/express": {
      "version": "4.18.2",
      "resolved": "https://registry.npmjs.org/express/-/express-4.18.2.tgz",
      "integrity": "sha512-5/PsL6iVEkiFX9XO4gkU85AZvBpBSb676Zh22wwxIDtbXXubW761W9FSkPn4fZ45h4BuQWRT5NQCmwKn3YMYg=="
    }
  }
}"#;
    assert_eq!(classify_lockfile(lock), DependencySafety::Pinned);
}

#[test]
fn classifies_mutable_file_link_workspace_references() {
    let file_dep = r#"{
  "packages": {
    "node_modules/local": {
      "resolved": "file:../packages/local"
    }
  }
}"#;
    assert_eq!(classify_lockfile(file_dep), DependencySafety::Mutable);

    let link_dep = r#"packages:
  link-pkg:
    resolution: { directory: ../link-pkg }
    link: ../link-pkg
"#;
    assert_eq!(classify_lockfile(link_dep), DependencySafety::Mutable);

    let workspace_dep = r#"{
  "dependencies": {
    "core": "workspace:^1.0.0"
  }
}"#;
    assert_eq!(classify_lockfile(workspace_dep), DependencySafety::Mutable);
}

#[test]
fn classifies_git_references_pinned_vs_unpinned() {
    let unpinned_branch = r#"{
  "packages": {
    "node_modules/foo": {
      "resolved": "git+https://github.com/foo/bar.git#main"
    }
  }
}"#;
    assert_eq!(classify_lockfile(unpinned_branch), DependencySafety::Mutable);

    let pinned_sha = r#"{
  "packages": {
    "node_modules/foo": {
      "resolved": "git+https://github.com/foo/bar.git#a1b2c3d4e5f6a1b2c3d4e5f6a1b2c3d4e5f6a1b2"
    }
  }
}"#;
    assert_eq!(classify_lockfile(pinned_sha), DependencySafety::Pinned);

    let cargo_unpinned = r#"
[[package]]
name = "tokio"
source = "git+https://github.com/tokio-rs/tokio?branch=master"
"#;
    assert_eq!(classify_lockfile(cargo_unpinned), DependencySafety::Mutable);

    let cargo_pinned = r#"
[[package]]
name = "tokio"
source = "git+https://github.com/tokio-rs/tokio?branch=master#0123456789abcdef0123456789abcdef01234567"
"#;
    assert_eq!(classify_lockfile(cargo_pinned), DependencySafety::Pinned);
}

#[test]
fn comments_paths_and_commit_keys() {
    assert_eq!(classify_lockfile(""), DependencySafety::Pinned);
    assert_eq!(classify_lockfile("# file: not really\n// link: neither\n"), DependencySafety::Pinned);
    assert_eq!(classify_lockfile("  path = \"../local\"\n"), DependencySafety::Mutable);
    assert_eq!(
        classify_lockfile("path = \"x\" source = \"registry\"\n"),
        DependencySafety::Pinned
    );
    assert_eq!(
        classify_lockfile("git = \"https://example.org/r\" rev = \"0123456789abcdef0123456789abcdef01234567\"\n"),
        DependencySafety::Pinned
    );
    assert_eq!(
        classify_lockfile("git = \"https://example.org/r\" rev = \"v1.2\"\n"),
        DependencySafety::Mutable
    );
}

#[test]
fn lockfile_hash_is_sha256() {
    let h = hash_lockfile(b"");
    assert_eq!(
        h.to_string(),
        "e3b0c44298fc1c149afbf4c8996fb92427ae41e4649b934ca495991b7852b855"
    );
}
