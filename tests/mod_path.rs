use syn_inline_mod::mod_path::bytes_equal;
use syn_inline_mod::{is_mod_file, ModContext, ModSegment};

fn ident(name: &str) -> ModSegment {
    ModSegment::Ident(name.to_string())
}

fn path(value: &str) -> ModSegment {
    ModSegment::Path(value.to_string())
}

fn locations(list: &[&str]) -> Vec<Vec<u8>> {
    list.iter().map(|s| s.as_bytes().to_vec()).collect()
}

#[test]
fn relative_to_lib() {
    let ctx = ModContext::from(vec![ident("threads"), ident("local")]);

    assert_eq!(
        ctx.relative_to(&b"/src/lib.rs".to_vec(), true),
        locations(&["/src/threads/local.rs", "/src/threads/local/mod.rs"])
    );
}

#[test]
fn relative_to_mod() {
    let ctx = ModContext::from(vec![ident("threads"), ident("local")]);

    assert_eq!(
        ctx.relative_to(&b"/src/runner/mod.rs".to_vec(), false),
        locations(&["/src/runner/threads/local.rs", "/src/runner/threads/local/mod.rs"])
    );
}

/// Non-root modules and files not named `mod.rs` keep their file stem in the candidates.
#[test]
fn relative_to_2018_mod() {
    let ctx = ModContext::from(vec![ident("threads"), ident("local")]);

    assert_eq!(
        ctx.relative_to(&b"/src/runner.rs".to_vec(), false),
        locations(&["/src/runner/threads/local.rs", "/src/runner/threads/local/mod.rs"])
    );
}

/// A root file's stem is not part of the directory its children resolve in.
#[test]
fn relative_to_non_standard_root() {
    let ctx = ModContext::from(vec![ident("threads"), ident("local")]);

    assert_eq!(
        ctx.relative_to(&b"/src/runner.rs".to_vec(), true),
        locations(&["/src/threads/local.rs", "/src/threads/local/mod.rs"])
    );
}

/// A chain of explicit paths gives exactly one candidate.
#[test]
fn relative_to_paths() {
    let ctx = ModContext::from(vec![path("threads"), path("tls.rs")]);

    assert_eq!(
        ctx.relative_to(&b"/src/lib.rs".to_vec(), true),
        locations(&["/src/threads/tls.rs"])
    );
}

/// An explicit path is honored, and a name inside it still gives two candidates.
#[test]
fn relative_to_path_around_ident() {
    let ctx = ModContext::from(vec![path("threads"), ident("tls")]);

    assert_eq!(
        ctx.relative_to(&b"/src/lib.rs".to_vec(), true),
        locations(&["/src/threads/tls.rs", "/src/threads/tls/mod.rs"])
    );
}

#[test]
fn root_and_nested_bases_from_two_segments() {
    let ctx = ModContext::from(vec![ident("a"), ident("b")]);
    assert_eq!(
        ctx.relative_to(&b"/src/lib.ext".to_vec(), true),
        locations(&["/src/a/b.rs", "/src/a/b/mod.rs"])
    );
    assert_eq!(
        ctx.relative_to(&b"/src/runner.ext".to_vec(), false),
        locations(&["/src/runner/a/b.rs", "/src/runner/a/b/mod.rs"])
    );
}

#[test]
fn explicit_path_keeps_its_extension() {
    let ctx = ModContext::from(vec![ident("a"), path("b.txt")]);
    assert_eq!(
        ctx.relative_to(&b"/src/lib.rs".to_vec(), true),
        locations(&["/src/a/b.txt"])
    );
}

#[test]
fn absolute_explicit_path_replaces_directory() {
    let ctx = ModContext::from(vec![path("/elsewhere/m.rs")]);
    assert_eq!(
        ctx.relative_to(&b"/src/lib.rs".to_vec(), true),
        locations(&["/elsewhere/m.rs"])
    );
}

#[test]
fn non_utf8_location_is_kept() {
    let ctx = ModContext::from(vec![ident("m")]);
    let base = vec![b'/', b'd', 0xff, b'/', b'l', b'i', b'b', b'.', b'r', b's'];
    assert_eq!(
        ctx.relative_to(&base, true),
        vec![
            vec![b'/', b'd', 0xff, b'/', b'm', b'.', b'r', b's'],
            vec![b'/', b'd', 0xff, b'/', b'm', b'/', b'm', b'o', b'd', b'.', b'r', b's'],
        ]
    );
}

#[test]
fn push_and_pop_segments() {
    let mut ctx = ModContext::new();
    assert!(ctx.pop().is_none());
    ctx.push(ident("a"));
    ctx.push(path("b.rs"));
    assert_eq!(ctx.pop(), Some(path("b.rs")));
    assert_eq!(ctx.pop(), Some(ident("a")));
    assert!(ctx.pop().is_none());
}

#[test]
fn segment_kinds() {
    assert!(ident("a").is_ident());
    assert!(!ident("a").is_path());
    assert!(path("a.rs").is_path());
    assert!(!path("a.rs").is_ident());
    assert_eq!(path("a.rs").location(), b"a.rs".to_vec());
    assert_eq!(ident("a").location(), b"a".to_vec());
}

#[test]
fn mod_file_detection() {
    assert!(is_mod_file(&b"/src/runner/mod.rs".to_vec()));
    assert!(is_mod_file(&b"mod.rs".to_vec()));
    assert!(!is_mod_file(&b"/src/lib.rs".to_vec()));
    assert!(is_mod_file(&b"/src/mod.rs/".to_vec()));
    assert!(!is_mod_file(&b"/".to_vec()));
}

#[test]
fn byte_comparison() {
    assert!(bytes_equal(b"abc", b"abc"));
    assert!(!bytes_equal(b"abc", b"abd"));
    assert!(!bytes_equal(b"abc", b"ab"));
    assert!(bytes_equal(b"", b""));
}
