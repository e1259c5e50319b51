use ogham::breaking::{Level, Violation};
use ogham::workflow::{
    breaking_verdict, count_levels, is_schema_extension, parse_reference, plugin_binary, skips_dir,
    Reference,
};

fn v(level: Level) -> Violation {
    Violation { level, code: "B000", message: String::new(), context: String::new() }
}

#[test]
fn git_reference() {
    assert_eq!(parse_reference("git:main"), Ok(Reference::Git("main".to_string())));
    assert_eq!(parse_reference("git:v1.0.0"), Ok(Reference::Git("v1.0.0".to_string())));
    assert_eq!(parse_reference("git:"), Ok(Reference::Git(String::new())));
}

#[test]
fn directory_reference() {
    assert_eq!(parse_reference("./old/"), Ok(Reference::Dir("./old/".to_string())));
    assert_eq!(parse_reference("/abs/path"), Ok(Reference::Dir("/abs/path".to_string())));
}

#[test]
fn unsupported_reference() {
    assert_eq!(
        parse_reference("main"),
        Err("unsupported reference format: 'main'. Use git:<ref> or ./path/".to_string())
    );
    assert!(parse_reference("github.com/org/x@1.0").is_err());
    assert!(parse_reference("").is_err());
    assert!(parse_reference("gi:main").is_err());
}

#[test]
fn counts_by_level() {
    let vs = vec![v(Level::Error), v(Level::Info), v(Level::Warning), v(Level::Error)];
    assert_eq!(count_levels(&vs), (2, 1, 1));
    assert_eq!(count_levels(&[]), (0, 0, 0));
}

#[test]
fn verdict_force_never_blocks() {
    let vs = vec![v(Level::Error), v(Level::Warning)];
    assert!(breaking_verdict(&vs, true, false).is_ok());
}

#[test]
fn verdict_allow_blocks_only_errors() {
    let warn_only = vec![v(Level::Warning), v(Level::Info)];
    assert!(breaking_verdict(&warn_only, false, true).is_ok());
    let with_errors = vec![v(Level::Error), v(Level::Warning), v(Level::Error)];
    assert_eq!(
        breaking_verdict(&with_errors, false, true),
        Err("2 breaking change(s) detected".to_string())
    );
}

#[test]
fn verdict_default_blocks_errors_and_warnings() {
    let vs = vec![v(Level::Error), v(Level::Warning), v(Level::Info)];
    assert_eq!(
        breaking_verdict(&vs, false, false),
        Err("2 breaking change(s) detected (use --allow to ignore warnings, --force to ignore all)"
            .to_string())
    );
    let infos = vec![v(Level::Info)];
    assert!(breaking_verdict(&infos, false, false).is_ok());
    assert!(breaking_verdict(&[], false, false).is_ok());
}

#[test]
fn plugin_binary_names() {
    assert_eq!(plugin_binary("github.com/org/ogham-gen-go", None), "ogham-gen-go");
    assert_eq!(plugin_binary("github.com/org/go", None), "ogham-gen-go");
    assert_eq!(plugin_binary("ts", None), "ogham-gen-ts");
    assert_eq!(plugin_binary("github.com/org/go", Some("./bin/gen")), "./bin/gen");
    assert_eq!(plugin_binary("trailing/", None), "ogham-gen-");
}

#[test]
fn discovery_filters() {
    assert!(skips_dir(".git"));
    assert!(skips_dir("vendor"));
    assert!(skips_dir("node_modules"));
    assert!(skips_dir("target"));
    assert!(skips_dir("gen"));
    assert!(!skips_dir("schemas"));
    assert!(!skips_dir("generated"));
    assert!(!skips_dir(""));
    assert!(is_schema_extension("ogham"));
    assert!(!is_schema_extension("proto"));
    assert!(!is_schema_extension("OGHAM"));
}
