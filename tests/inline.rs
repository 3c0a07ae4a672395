use quote::ToTokens;
use syn_inline_mod::visitor::{select_candidate, splice_loaded};
use syn_inline_mod::{
    find_mod_path, FileResolver, InlinerBuilder, LoadError, Node, SourceFile, TestResolver,
    Visitor,
};

fn tokens_of(file: SourceFile) -> String {
    file.into_syn().into_token_stream().to_string()
}

fn expected_tokens(src: &str) -> String {
    syn::parse_file(src).unwrap().into_token_stream().to_string()
}

fn make_test_env() -> TestResolver {
    let mut env = TestResolver::new();
    env.register("src/lib.rs", "mod first;");
    env.register("src/first/mod.rs", "mod second;");
    env.register(
        "src/first/second.rs",
        r#"
            #[doc = " Documentation"]
            mod third {
                mod fourth;
            }

            pub fn sample() -> usize { 4 }
            "#,
    );
    env.register(
        "src/first/second/third/fourth.rs",
        "pub fn another_fn() -> bool { true }",
    );
    env
}

/// Run a full test, exercising the entirety of the functionality in this crate.
#[test]
fn happy_path() {
    let result = InlinerBuilder::default()
        .inline_with_resolver(&b"src/lib.rs".to_vec(), &mut make_test_env())
        .unwrap()
        .into_output_and_errors()
        .0;

    assert_eq!(
        tokens_of(result),
        expected_tokens(
            r#"
            mod first {
                mod second {
                    #[doc = " Documentation"]
                    mod third {
                        mod fourth {
                            pub fn another_fn() -> bool {
                                true
                            }
                        }
                    }

                    pub fn sample() -> usize {
                        4
                    }
                }
            }
            "#
        )
    );
}

/// Test case involving missing and invalid modules
#[test]
fn missing_module() {
    let mut env = TestResolver::new();
    env.register("src/lib.rs", "mod missing;\nmod invalid;");
    env.register("src/invalid.rs", "this-is-not-valid-rust!");

    let result = InlinerBuilder::default().inline_with_resolver(&b"src/lib.rs".to_vec(), &mut env);

    if let Ok(r) = result {
        let errors = r.errors();
        assert_eq!(errors.len(), 2, "expected 2 errors");

        let error = &errors[0];
        assert_eq!(error.src_path(), b"src/lib.rs", "correct source path");
        assert_eq!(error.module_name(), "missing");
        assert_eq!(error.src_span().start().line, 1);
        assert_eq!(error.src_span().start().column, 0);
        assert_eq!(error.src_span().end().line, 1);
        assert_eq!(error.src_span().end().column, 12);
        assert_eq!(error.path(), b"src/missing/mod.rs");
        let io_err = match error.kind() {
            LoadError::Io(err) => err,
            _ => panic!("expected ErrorKind::Io, found {}", error.kind().to_string()),
        };
        assert_eq!(io_err.kind(), std::io::ErrorKind::NotFound);

        let error = &errors[1];
        assert_eq!(error.src_path(), b"src/lib.rs", "correct source path");
        assert_eq!(error.module_name(), "invalid");
        assert_eq!(error.src_span().start().line, 2);
        assert_eq!(error.src_span().start().column, 0);
        assert_eq!(error.src_span().end().line, 2);
        assert_eq!(error.src_span().end().column, 12);
        assert_eq!(error.path(), b"src/invalid.rs");
        match error.kind() {
            LoadError::Parse(_) => {}
            _ => panic!("expected ErrorKind::Parse, found {}", error.kind().to_string()),
        }
    } else {
        unreachable!();
    }
}

/// `cfg_attr` is not evaluated, and no new items are inserted, so this expectation fails.
#[test]
#[should_panic]
fn cfg_attrs() {
    let mut env = TestResolver::new();
    env.register(
        "src/lib.rs",
        r#"
            #[cfg(feature = "m1")]
            mod m1;

            #[cfg_attr(feature = "m2", path = "m2.rs")]
            #[cfg_attr(not(feature = "m2"), path = "empty.rs")]
            mod placeholder;
        "#,
    );
    env.register("src/m1.rs", "struct M1;");
    env.register(
        "src/m2.rs",
        "
        //! module level doc comment

        struct M2;
        ",
    );
    env.register("src/empty.rs", "");

    let result = InlinerBuilder::default()
        .inline_with_resolver(&b"src/lib.rs".to_vec(), &mut env)
        .unwrap()
        .into_output_and_errors()
        .0;

    assert_eq!(
        tokens_of(result),
        expected_tokens(
            r#"
                #[cfg(feature = "m1")]
                mod m1 {
                    struct M1;
                }

                #[cfg(feature = "m2")]
                mod placeholder {
                    //! module level doc comment

                    struct M2;
                }

                #[cfg(not(feature = "m2"))]
                mod placeholder {

                }
            "#
        )
    )
}

#[test]
fn cfg_attrs_revised() {
    let mut env = TestResolver::new();
    env.register(
        "src/lib.rs",
        r#"
            #[cfg(feature = "m1")]
            mod m1;

            #[cfg(feature = "m2")]
            #[path = "m2.rs"]
            mod placeholder;

            #[cfg(not(feature = "m2"))]
            #[path = "empty.rs"]
            mod placeholder;
        "#,
    );
    env.register("src/m1.rs", "struct M1;");
    env.register(
        "src/m2.rs",
        r#"
            #![doc = " module level doc comment"]

            struct M2;
            "#,
    );
    env.register("src/empty.rs", "");

    let result = InlinerBuilder::default()
        .inline_with_resolver(&b"src/lib.rs".to_vec(), &mut env)
        .unwrap()
        .into_output_and_errors()
        .0;

    assert_eq!(
        tokens_of(result),
        expected_tokens(
            r#"
                #[cfg(feature = "m1")]
                mod m1 {
                    struct M1;
                }

                #[cfg(feature = "m2")]
                #[path = "m2.rs"]
                mod placeholder {
                    #![doc = " module level doc comment"]

                    struct M2;
                }

                #[cfg(not(feature = "m2"))]
                #[path = "empty.rs"]
                mod placeholder {

                }
            "#
        )
    )
}

/// A resolver that answers every location with a constant naming it.
struct PathCommentResolver;

impl FileResolver for PathCommentResolver {
    fn path_exists(&self, _path: &Vec<u8>) -> bool {
        true
    }

    fn resolve(&mut self, path: &Vec<u8>) -> Result<syn::File, LoadError> {
        let path = String::from_utf8(path.clone()).unwrap();
        syn::parse_file(&format!(r#"const PATH: &str = "{}";"#, path)).map_err(LoadError::Parse)
    }
}

#[test]
fn ident_in_lib() {
    let path = b"./lib.rs".to_vec();
    let mut resolver = PathCommentResolver;
    let mut visitor = Visitor::new(&path, true, false);
    let mut file = SourceFile::parse("mod c;").unwrap();
    visitor.visit_file_mut(&mut file, &mut resolver, &mut None);
    assert_eq!(
        tokens_of(file),
        expected_tokens(
            r#"
                mod c {
                    const PATH: &str = "./c.rs";
                }
            "#
        )
    );
}

#[test]
fn path_attr() {
    let path = b"./lib.rs".to_vec();
    let mut resolver = PathCommentResolver;
    let mut visitor = Visitor::new(&path, true, false);
    let mut file = SourceFile::parse(r#"#[path = "foo/bar.rs"] mod c;"#).unwrap();
    visitor.visit_file_mut(&mut file, &mut resolver, &mut None);
    assert_eq!(
        tokens_of(file),
        expected_tokens(
            r#"
                #[path = "foo/bar.rs"]
                mod c {
                    const PATH: &str = "./foo/bar.rs";
                }
            "#
        )
    );
}

/// A resolver over registered files that records every location it is asked to load.
struct RecordingResolver {
    files: TestResolver,
    loads: Vec<String>,
}

impl FileResolver for RecordingResolver {
    fn path_exists(&self, path: &Vec<u8>) -> bool {
        self.files.path_exists(path)
    }

    fn resolve(&mut self, path: &Vec<u8>) -> Result<syn::File, LoadError> {
        self.loads.push(String::from_utf8(path.clone()).unwrap());
        self.files.resolve(path)
    }
}

#[test]
fn loads_follow_source_order() {
    let mut files = TestResolver::new();
    files.register("src/lib.rs", "mod x; mod y; mod z;");
    files.register("src/x.rs", "mod inner;");
    files.register("src/x/inner.rs", "");
    files.register("src/z.rs", "");
    let mut resolver = RecordingResolver { files, loads: Vec::new() };
    let result = InlinerBuilder::new()
        .inline_with_resolver(&b"src/lib.rs".to_vec(), &mut resolver)
        .unwrap();
    assert_eq!(
        resolver.loads,
        vec!["src/lib.rs", "src/x.rs", "src/x/inner.rs", "src/y/mod.rs", "src/z.rs"]
    );
    assert_eq!(result.errors().len(), 1);
    assert_eq!(result.errors()[0].module_name(), "y");
}

#[test]
fn failures_do_not_stop_siblings() {
    let mut env = TestResolver::new();
    env.register("src/lib.rs", "mod gone; mod here; mod broken;");
    env.register("src/here.rs", "fn f() {}");
    env.register("src/broken.rs", "fn (");
    let result = InlinerBuilder::new()
        .inline_with_resolver(&b"src/lib.rs".to_vec(), &mut env)
        .unwrap();
    assert!(result.has_errors());
    let names: Vec<&str> = result.errors().iter().map(|e| e.module_name()).collect();
    assert_eq!(names, vec!["gone", "broken"]);
    let (output, _) = result.into_output_and_errors();
    assert_eq!(
        tokens_of(output),
        expected_tokens("mod gone; mod here { fn f() {} } mod broken;")
    );
}

#[test]
fn inlined_tree_is_not_loaded_again() {
    let once = |env: &mut TestResolver| {
        let result = InlinerBuilder::new()
            .inline_with_resolver(&b"src/lib.rs".to_vec(), env)
            .unwrap();
        assert!(!result.has_errors());
        result.into_output_and_errors().0
    };
    let mut env = make_test_env();
    let before = tokens_of(once(&mut env));
    let mut file = once(&mut env);
    let mut resolver = RecordingResolver { files: TestResolver::new(), loads: Vec::new() };
    let mut errors = Some(Vec::new());
    let mut visitor = Visitor::new(&b"src/lib.rs".to_vec(), true, false);
    visitor.visit_file_mut(&mut file, &mut resolver, &mut errors);
    assert!(resolver.loads.is_empty());
    assert_eq!(errors.unwrap().len(), 0);
    assert_eq!(tokens_of(file), before);
}

#[test]
fn provenance_marker_round_trips() {
    let mut env = TestResolver::new();
    env.register("src/lib.rs", "#[outer_attr] mod foo;");
    env.register("src/foo.rs", "#![inner_attr] mod bar;");
    env.register("src/foo/bar.rs", "");
    let mut builder = InlinerBuilder::new();
    builder.annotate_paths(true);
    let result = builder
        .inline_with_resolver(&b"src/lib.rs".to_vec(), &mut env)
        .unwrap();
    assert!(result.paths_annotated());
    let foo = match &result.output().items[0] {
        Node::Mod(m) => m,
        Node::Other(_) => panic!("expected a module"),
    };
    assert_eq!(foo.ident, "foo");
    let found = find_mod_path(&foo.attrs).expect("foo should be annotated with path");
    assert_eq!(found.path, b"src/foo.rs".to_vec());
    assert_eq!(found.outer_attributes.len(), 1);
    assert_eq!(found.inner_attributes.len(), 1);
    let bar = match &foo.content.as_ref().unwrap()[0] {
        Node::Mod(m) => m,
        Node::Other(_) => panic!("expected a module"),
    };
    let found = find_mod_path(&bar.attrs).expect("bar should be annotated with path");
    assert_eq!(found.path, b"src/foo/bar.rs".to_vec());
    assert_eq!(bar.location, Some(b"src/foo/bar.rs".to_vec()));
}

#[test]
fn provenance_marker_prints_as_byte_string() {
    let mut env = TestResolver::new();
    env.register("src/lib.rs", "mod foo;");
    env.register("src/foo.rs", "");
    let mut builder = InlinerBuilder::new();
    builder.annotate_paths(true);
    let result = builder
        .inline_with_resolver(&b"src/lib.rs".to_vec(), &mut env)
        .unwrap();
    let (output, _) = result.into_output_and_errors();
    let printed = tokens_of(output);
    assert_eq!(
        printed,
        expected_tokens(r#"#[syn_inline_mod_path(b"src/foo.rs")] mod foo {}"#)
    );
    let reparsed = SourceFile::parse(&printed).unwrap();
    let foo = match &reparsed.items[0] {
        Node::Mod(m) => m,
        Node::Other(_) => panic!("expected a module"),
    };
    assert_eq!(find_mod_path(&foo.attrs).unwrap().path, b"src/foo.rs".to_vec());
}

#[test]
fn no_marker_without_annotation() {
    let result = InlinerBuilder::new()
        .inline_with_resolver(&b"src/lib.rs".to_vec(), &mut make_test_env())
        .unwrap();
    assert!(!result.paths_annotated());
    let first = match &result.output().items[0] {
        Node::Mod(m) => m,
        Node::Other(_) => panic!("expected a module"),
    };
    assert!(find_mod_path(&first.attrs).is_none());
    assert_eq!(first.location, Some(b"src/first/mod.rs".to_vec()));
}

#[test]
fn self_including_module_stops() {
    let mut env = TestResolver::new();
    env.register("src/lib.rs", "mod m;");
    env.register("src/m/mod.rs", r#"#[path = "mod.rs"] mod again;"#);
    let result = InlinerBuilder::new()
        .inline_with_resolver(&b"src/lib.rs".to_vec(), &mut env)
        .unwrap();
    let errors = result.errors();
    assert_eq!(errors.len(), 1);
    assert!(matches!(errors[0].kind(), LoadError::NestingLimit));
    assert_eq!(errors[0].kind().to_string(), "nesting limit reached");
}

#[test]
fn missing_entry_file_is_fatal() {
    let mut env = TestResolver::new();
    let result = InlinerBuilder::new().inline_with_resolver(&b"src/lib.rs".to_vec(), &mut env);
    match result {
        Err(LoadError::Io(e)) => assert_eq!(e.kind(), std::io::ErrorKind::NotFound),
        _ => panic!("expected an IO error"),
    }
    env.register("src/lib.rs", "fn (");
    let result = InlinerBuilder::new().inline_with_resolver(&b"src/lib.rs".to_vec(), &mut env);
    match result {
        Err(e) => assert_eq!(e.to_string(), "parse error"),
        Ok(_) => panic!("expected a parse error"),
    }
}

#[test]
fn non_root_entry_nests_children() {
    let mut env = TestResolver::new();
    env.register("src/runner.rs", "mod a;");
    env.register("src/runner/a.rs", "fn in_runner() {}");
    env.register("src/a.rs", "fn beside_runner() {}");
    let mut builder = InlinerBuilder::new();
    builder.root(false);
    let result = builder
        .inline_with_resolver(&b"src/runner.rs".to_vec(), &mut env)
        .unwrap();
    assert_eq!(
        tokens_of(result.into_output_and_errors().0),
        expected_tokens("mod a { fn in_runner() {} }")
    );
    let result = InlinerBuilder::new()
        .inline_with_resolver(&b"src/runner.rs".to_vec(), &mut env)
        .unwrap();
    assert_eq!(
        tokens_of(result.into_output_and_errors().0),
        expected_tokens("mod a { fn beside_runner() {} }")
    );
}

#[test]
fn later_registration_replaces_earlier() {
    let mut env = TestResolver::new();
    env.register("src/lib.rs", "fn old() {}");
    env.register("src/lib.rs", "fn new() {}");
    assert!(env.path_exists(&b"src/lib.rs".to_vec()));
    assert!(!env.path_exists(&b"src/other.rs".to_vec()));
    let result = InlinerBuilder::new()
        .inline_with_resolver(&b"src/lib.rs".to_vec(), &mut env)
        .unwrap();
    assert_eq!(tokens_of(result.into_output_and_errors().0), expected_tokens("fn new() {}"));
}

#[test]
fn first_existing_candidate_is_chosen() {
    assert_eq!(select_candidate(&vec![true], 2), 0);
    assert_eq!(select_candidate(&vec![false, true], 2), 1);
    assert_eq!(select_candidate(&vec![false, false], 2), 1);
    assert_eq!(select_candidate(&vec![], 2), 1);
    assert_eq!(select_candidate(&vec![false], 3), 2);
    assert_eq!(select_candidate(&vec![true], 1), 0);
}

#[test]
fn file_form_wins_over_directory_form() {
    let mut env = TestResolver::new();
    env.register("src/lib.rs", "mod both;");
    env.register("src/both.rs", "fn file_form() {}");
    env.register("src/both/mod.rs", "fn directory_form() {}");
    let result = InlinerBuilder::new()
        .inline_with_resolver(&b"src/lib.rs".to_vec(), &mut env)
        .unwrap();
    assert_eq!(
        tokens_of(result.into_output_and_errors().0),
        expected_tokens("mod both { fn file_form() {} }")
    );
}

fn first_mod(file: SourceFile) -> syn_inline_mod::ModDecl {
    match file.items.into_iter().next() {
        Some(Node::Mod(m)) => m,
        _ => panic!("expected a module"),
    }
}

#[test]
fn splice_puts_marker_between_declaration_and_file_attributes() {
    let decl = first_mod(SourceFile::parse("#[outer] mod m;").unwrap());
    let loaded = SourceFile::parse("#![inner] fn f() {}").unwrap();
    let mut log = Some(Vec::new());
    let r = splice_loaded(decl, b"src/m.rs".to_vec(), Ok(loaded), true, &b"src/lib.rs".to_vec(), &mut log);
    assert_eq!(log.unwrap().len(), 0);
    assert_eq!(r.location, Some(b"src/m.rs".to_vec()));
    assert_eq!(r.attrs.len(), 3);
    assert!(r.attrs[0].mod_path.is_none());
    assert_eq!(r.attrs[1].mod_path, Some(b"src/m.rs".to_vec()));
    assert!(r.attrs[2].mod_path.is_none());
    assert_eq!(r.content.as_ref().unwrap().len(), 1);
    let printed = tokens_of(SourceFile { shebang: None, attrs: Vec::new(), items: vec![Node::Mod(r)] });
    assert_eq!(
        printed,
        expected_tokens(r#"#[outer] #[syn_inline_mod_path(b"src/m.rs")] mod m { #![inner] fn f() {} }"#)
    );
}

#[test]
fn splice_records_a_failure() {
    let decl = first_mod(SourceFile::parse("mod m;").unwrap());
    let mut log = Some(Vec::new());
    let r = splice_loaded(
        decl,
        b"src/m/mod.rs".to_vec(),
        Err(LoadError::NestingLimit),
        false,
        &b"src/lib.rs".to_vec(),
        &mut log,
    );
    assert!(r.content.is_none());
    assert_eq!(r.location, Some(b"src/m/mod.rs".to_vec()));
    let log = log.unwrap();
    assert_eq!(log.len(), 1);
    assert_eq!(log[0].src_path(), b"src/lib.rs");
    assert_eq!(log[0].module_name(), "m");
    assert_eq!(log[0].path(), b"src/m/mod.rs");
    assert!(matches!(log[0].kind(), LoadError::NestingLimit));
}

#[test]
fn visit_loaded_passes_the_error_on() {
    let mut visitor = Visitor::new(&b"src/lib.rs".to_vec(), true, false);
    let mut log = Some(Vec::new());
    let r = visitor.visit_loaded(Err(LoadError::NestingLimit), &mut TestResolver::new(), &mut log);
    assert!(matches!(r, Err(LoadError::NestingLimit)));
    let loaded = SourceFile::parse("#![inner] mod gone; fn kept() {}").unwrap();
    let r = visitor.visit_loaded(Ok(loaded), &mut TestResolver::new(), &mut log);
    let walked = r.unwrap();
    assert_eq!(walked.attrs.len(), 1);
    assert_eq!(walked.items.len(), 2);
    assert_eq!(log.unwrap()[0].module_name(), "gone");
}
