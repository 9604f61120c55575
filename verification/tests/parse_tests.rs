use fixture::error::FixtureError;
use fixture::fixture::Fixture;

#[test]
fn parse_fixture_gets_full_meta() {
    let (mini_core, parsed) = Fixture::parse(
        r#"
//- minicore: coerce_unsized
//- /lib.rs crate:foo deps:bar,baz cfg:foo=a,bar=b,atom env:OUTDIR=path/to,OTHER=foo
mod m;
"#,
    )
    .unwrap();
    assert_eq!(mini_core.unwrap().activated_flags, vec!["coerce_unsized".to_string()]);
    assert_eq!(1, parsed.len());

    let meta = &parsed[0];
    assert_eq!("mod m;\n", meta.text);

    assert_eq!("foo", meta.krate.as_ref().unwrap());
    assert_eq!("/lib.rs", meta.path);
    assert_eq!(2, meta.env.len());
}

#[test]
#[should_panic]
fn parse_fixture_checks_further_indented_metadata() {
    Fixture::parse(
        r"
        //- /lib.rs
          mod bar;

          fn foo() {}
          //- /bar.rs
          pub fn baz() {}
          ",
    )
    .unwrap();
}

#[test]
fn two_crates_with_dependency() {
    let (mini, parsed) = Fixture::parse(
        "//- /main.rs crate:a deps:b\nfn main(){}\n//- /lib.rs crate:b\npub fn f(){}\n",
    )
    .unwrap();
    assert!(mini.is_none());
    assert_eq!(2, parsed.len());
    assert_eq!("/main.rs", parsed[0].path);
    assert_eq!("a", parsed[0].krate.as_ref().unwrap());
    assert_eq!(vec!["b".to_string()], parsed[0].deps);
    assert_eq!("fn main(){}\n", parsed[0].text);
    assert_eq!("/lib.rs", parsed[1].path);
    assert_eq!("b", parsed[1].krate.as_ref().unwrap());
    assert_eq!("pub fn f(){}\n", parsed[1].text);
}

#[test]
fn no_marker_single_file() {
    let (mini, parsed) = Fixture::parse("fn main() {}\n").unwrap();
    assert!(mini.is_none());
    assert_eq!(1, parsed.len());
    assert_eq!("/main.rs", parsed[0].path);
    assert_eq!("fn main() {}\n", parsed[0].text);
}

#[test]
fn indented_fixture_normalized() {
    let (_, parsed) =
        Fixture::parse("\n            //- /lib.rs\n            fn f() {}\n            ").unwrap();
    assert_eq!(1, parsed.len());
    assert_eq!("fn f() {}\n", parsed[0].text);
}

#[test]
fn further_indented_body_is_fatal() {
    let r = Fixture::parse("//- /lib.rs\n  mod bar;\n  //- /bar.rs\n");
    match r {
        Err(FixtureError::IndentationMismatch { index, line }) => {
            assert_eq!(2, index);
            assert_eq!("  //- /bar.rs\n", line);
        }
        _ => panic!("expected an indentation error"),
    }
}

#[test]
fn cfg_entries_classified() {
    let (_, parsed) = Fixture::parse("//- /lib.rs cfg:foo=a,bar=b,atom\n").unwrap();
    let meta = &parsed[0];
    assert_eq!(vec!["atom".to_string()], meta.cfg_atoms);
    assert_eq!(
        vec![("foo".to_string(), "a".to_string()), ("bar".to_string(), "b".to_string())],
        meta.cfg_key_values
    );
}

#[test]
fn env_entries_parsed() {
    let (_, parsed) = Fixture::parse("//- /lib.rs env:A=1,B=2,skipme\n").unwrap();
    let meta = &parsed[0];
    assert_eq!(2, meta.env.len());
    assert_eq!("1", meta.env.get("A").unwrap());
    assert_eq!("2", meta.env.get("B").unwrap());
    assert!(meta.env.get("skipme").is_none());
}

#[test]
fn edition_and_new_source_root() {
    let (_, parsed) = Fixture::parse("//- /a.rs edition:2021 new_source_root:\n").unwrap();
    let meta = &parsed[0];
    assert_eq!("2021", meta.edition.as_ref().unwrap());
    assert!(meta.introduce_new_source_root);
}

#[test]
fn path_without_leading_slash_is_fatal() {
    match Fixture::parse("//- lib.rs\n") {
        Err(FixtureError::BadPath { path }) => assert_eq!("lib.rs", path),
        _ => panic!("expected a path error"),
    }
}

#[test]
fn unknown_key_is_fatal() {
    match Fixture::parse("//- /a.rs bogus:1\n") {
        Err(FixtureError::UnknownKey { token }) => assert_eq!("bogus:1", token),
        _ => panic!("expected an unknown-key error"),
    }
}

#[test]
fn token_without_colon_is_fatal() {
    match Fixture::parse("//- /a.rs nocolon\n") {
        Err(FixtureError::BadToken { line }) => assert_eq!("/a.rs nocolon", line),
        _ => panic!("expected a bad-token error"),
    }
}

#[test]
fn suspicious_body_line_is_fatal() {
    match Fixture::parse("//- /a.rs\n// looks: suspicious\n") {
        Err(FixtureError::SuspiciousLine { line }) => assert_eq!("// looks: suspicious\n", line),
        _ => panic!("expected a suspicious-line error"),
    }
}

#[test]
fn value_may_contain_colon() {
    let (_, parsed) = Fixture::parse("//- /a.rs env:URL=http://x\n").unwrap();
    assert_eq!("http://x", parsed[0].env.get("URL").unwrap());
}

#[test]
fn blank_body_lines_are_kept() {
    let (_, parsed) = Fixture::parse("//- /a.rs\nx\n\ny\n").unwrap();
    assert_eq!(1, parsed.len());
    assert_eq!("x\n\ny\n", parsed[0].text);
}

#[test]
fn duplicate_minicore_flag_is_fatal() {
    match Fixture::parse("//- minicore: a, a\n") {
        Err(FixtureError::DuplicateFlag { flag }) => assert_eq!("a", flag),
        _ => panic!("expected a duplicate-flag error"),
    }
}
