//! Module manifests.

use orchestrator_core::manifest::{
    parse_manifest_file, parse_py_literal, ManifestError, ModuleManifest, PyValue,
};

/// The manifest that a text holds.
fn read(src: &str, fallback: &str) -> ModuleManifest {
    let value = parse_py_literal(src).expect("should parse");
    let PyValue::Dict(entries) = value else { panic!("expected dict") };
    ModuleManifest::from_dict(&entries, fallback)
}

#[test]
fn parses_a_realistic_manifest() {
    let src = r#"
# -*- coding: utf-8 -*-
{
    'name': "Sale Management",
    'version': '17.0.1.0.0',
    'category': 'Sales/Sales',
    'summary': 'Send quotations, orders',
    'description': """
        Long multi-line
        description text.
    """,
    'depends': ['base', 'product', 'account'],
    'data': [
        'security/ir.model.access.csv',
        'views/sale_views.xml',
    ],
    'installable': True,
    'application': True,
    'auto_install': False,
    'license': 'LGPL-3',
}
"#;
    let manifest = read(src, "sale");
    assert_eq!(manifest.name, "Sale Management");
    assert_eq!(manifest.version.as_deref(), Some("17.0.1.0.0"));
    assert_eq!(manifest.category.as_deref(), Some("Sales/Sales"));
    assert_eq!(manifest.depends, vec!["base", "product", "account"]);
    assert!(manifest.installable);
    assert!(manifest.application);
    assert!(!manifest.auto_install_enabled);
}

#[test]
fn defaults_match_odoo_when_keys_are_absent() {
    let manifest = read("{'name': 'Minimal'}", "minimal");
    assert!(manifest.installable, "Odoo defaults installable to True when absent");
    assert!(!manifest.application);
    assert!(!manifest.auto_install_enabled);
    assert!(manifest.depends.is_empty());
}

#[test]
fn auto_install_as_a_list_counts_as_enabled() {
    let manifest = read("{'name': 'x', 'auto_install': ['a', 'b']}", "x");
    assert!(
        manifest.auto_install_enabled,
        "a non-empty conditional auto_install list still means enabled"
    );
}

#[test]
fn empty_auto_install_list_is_not_enabled() {
    let manifest = read("{'name': 'x', 'auto_install': []}", "x");
    assert!(!manifest.auto_install_enabled);
}

#[test]
fn tolerates_trailing_commas_and_nested_structures() {
    let src = r#"{
            'name': 'x',
            'external_dependencies': {'python': ['lxml',],},
            'depends': ['base',],
        }"#;
    let manifest = read(src, "x");
    assert_eq!(manifest.depends, vec!["base"]);
}

#[test]
fn adjacent_string_literals_concatenate() {
    let manifest = read("{'name': 'Long ' 'Name'}", "x");
    assert_eq!(manifest.name, "Long Name");
}

#[test]
fn rejects_non_dict_top_level() {
    let err = parse_py_literal("[1, 2, 3]");
    assert!(matches!(err, Ok(PyValue::List(_))), "parses fine as a value...");
}

#[test]
fn reports_line_and_column_on_malformed_input() {
    let err = parse_py_literal("{'name':\n  'x',\n  broken}").unwrap_err();
    assert_eq!(err.line, 3, "error should point at the actual bad line, not line 1");
}

#[test]
fn parse_manifest_file_rejects_non_dict() {
    let err = parse_manifest_file("/m/__manifest__.py", &Ok("[1, 2, 3]".to_string()), "whatever")
        .unwrap_err();
    assert!(matches!(err, ManifestError::NotADict { .. }));
    assert_eq!(
        err.message(),
        "/m/__manifest__.py: manifest must be a single {...} dict literal"
    );
}

#[test]
fn parse_manifest_file_reports_missing_file() {
    let missing = Err("No such file or directory (os error 2)".to_string());
    let err = parse_manifest_file("/does/not/exist/__manifest__.py", &missing, "x").unwrap_err();
    assert!(matches!(err, ManifestError::Io { .. }));
    assert_eq!(
        err.message(),
        "couldn't read /does/not/exist/__manifest__.py: No such file or directory (os error 2)"
    );
}

#[test]
fn a_manifest_that_does_not_parse_says_where() {
    let err = parse_manifest_file("/m/__manifest__.py", &Ok("{'a' 1}".to_string()), "x").unwrap_err();
    match &err {
        ManifestError::Parse { path, message } => {
            assert_eq!(path, "/m/__manifest__.py");
            assert!(message.starts_with("line 1, col "), "{message}");
        }
        _ => panic!("another error"),
    }
    assert!(err.message().starts_with("/m/__manifest__.py: line 1, col "));
}

#[test]
fn a_manifest_without_a_name_is_named_like_its_folder() {
    let m = parse_manifest_file("/m/__manifest__.py", &Ok("{}".to_string()), "sale").unwrap();
    assert_eq!(m.name, "sale");
}

#[test]
fn literals_of_every_kind_are_read() {
    let value = parse_py_literal("(None, True, False, -12, 3.5, 'a\\n\\'b', {'k': ()},)").unwrap();
    let PyValue::List(items) = value else { panic!("expected list") };
    assert_eq!(items.len(), 7);
    assert!(matches!(items[0], PyValue::Nil));
    assert!(matches!(items[1], PyValue::Bool(true)));
    assert!(matches!(items[2], PyValue::Bool(false)));
    assert!(matches!(items[3], PyValue::Int(-12)));
    match &items[4] {
        PyValue::Float(text) => assert_eq!(text, "3.5"),
        _ => panic!("expected a float"),
    }
    match &items[5] {
        PyValue::Str(text) => assert_eq!(text, "a\n'b"),
        _ => panic!("expected a string"),
    }
    match &items[6] {
        PyValue::Dict(entries) => {
            assert_eq!(entries.len(), 1);
            assert_eq!(entries[0].0, "k");
        }
        _ => panic!("expected a dict"),
    }
}

#[test]
fn what_is_no_literal_is_refused() {
    for src in ["", "{", "[1, 2", "'open", "{'a': }", "{1: 2}", "1 2", "name", "@"] {
        assert!(parse_py_literal(src).is_err(), "{src}");
    }
}

/// Line feeds and comments around a literal change nothing; a second value is refused.
#[test]
fn only_comments_may_stand_around_a_literal() {
    for src in ["{'name': 'A'}", "[1, -2]", "'a' 'b'", "7", "True  # yes", "\"\"\"x\"\"\""] {
        let plain = format!("{:?}", parse_py_literal(src).unwrap());
        let around = format!("\n{src}\n# that was 'all'");
        assert_eq!(format!("{:?}", parse_py_literal(&around).unwrap()), plain);
        assert!(parse_py_literal(&format!("{src}\n1")).is_err());
    }
}
