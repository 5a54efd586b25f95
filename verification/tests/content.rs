//! The fingerprint of a module.

use orchestrator_core::content::{content_hash, FileEntry, FileTree};

fn file(name: &str, contents: &str) -> FileEntry {
    FileEntry { name: name.to_string(), contents: Some(contents.as_bytes().to_vec()) }
}

fn tree(name: &str, files: Vec<FileEntry>, folders: Vec<FileTree>) -> FileTree {
    FileTree { name: name.to_string(), files, folders }
}

fn acme(order: &str) -> FileTree {
    tree(
        "acme_sales",
        vec![file("__manifest__.py", "{'name': 'Acme'}")],
        vec![tree("views", vec![file("order.xml", order)], vec![])],
    )
}

/// Contents count, times do not: a file has none here.
#[test]
fn a_modules_hash_follows_its_contents_and_ignores_its_timestamps() {
    let before = content_hash(&acme("<odoo/>")).unwrap();
    assert_eq!(
        content_hash(&acme("<odoo/>")).unwrap(),
        before,
        "identical bytes are not a change"
    );
    assert_ne!(content_hash(&acme("<odoo> </odoo>")).unwrap(), before);
}

#[test]
fn renaming_a_file_counts_as_a_change() {
    let with = |name: &str| {
        tree("acme_sales", vec![], vec![tree("data", vec![file(name, "<odoo/>")], vec![])])
    };
    assert_ne!(content_hash(&with("a.xml")).unwrap(), content_hash(&with("b.xml")).unwrap());
}

#[test]
fn compiled_python_and_dot_directories_do_not_count() {
    let plain = tree(
        "acme_sales",
        vec![file("__manifest__.py", "{'name': 'Acme'}")],
        vec![tree("__pycache__", vec![], vec![]), tree(".git", vec![], vec![])],
    );
    let before = content_hash(&plain).unwrap();
    let built = tree(
        "acme_sales",
        vec![file("__manifest__.py", "{'name': 'Acme'}"), file("models.pyc", "compiled")],
        vec![
            tree("__pycache__", vec![file("models.cpython-311.pyc", "compiled")], vec![]),
            tree(".git", vec![file("HEAD", "ref: refs/heads/other")], vec![]),
        ],
    );
    assert_eq!(content_hash(&built).unwrap(), before, "none of that is a change to the module");
}

#[test]
fn a_folder_with_nothing_in_it_has_no_hash() {
    assert!(content_hash(&tree("nothing_here", vec![], vec![])).is_none());
}

/// A file more or less, another name and another byte all show.
#[test]
fn the_fingerprint_tells_modules_apart() {
    let module = |files: &[(&str, &str)]| {
        let inner = files.iter().map(|(n, c)| file(n, c)).collect();
        content_hash(&tree("m", vec![], vec![tree("views", inner, vec![])])).unwrap()
    };
    let base = module(&[("a.xml", "x"), ("b.xml", "y")]);
    assert_eq!(base, module(&[("b.xml", "y"), ("a.xml", "x")]));
    for other in [
        module(&[("a.xml", "x")]),
        module(&[("a.xml", "x"), ("b.xml", "z")]),
        module(&[("a.xml", "x"), ("c.xml", "y")]),
        module(&[("a.xml", "y"), ("b.xml", "x")]),
        module(&[("a.xml", "x"), ("b.xml", "y"), ("c.xml", "")]),
    ] {
        assert_ne!(base, other);
    }
}

/// The order in which the files are found does not matter.
#[test]
fn the_order_of_the_files_does_not_matter() {
    let one = tree("m", vec![file("a", "1"), file("b", "2")], vec![]);
    let two = tree("m", vec![file("b", "2"), file("a", "1")], vec![]);
    assert_eq!(content_hash(&one), content_hash(&two));
}

/// The digest of the length of the path and the path, a one, and the length of the contents and
/// the contents.
#[test]
fn the_fingerprint_is_a_sha_256_in_hexadecimal() {
    let hash = content_hash(&tree("m", vec![file("a", "x")], vec![])).unwrap();
    assert_eq!(hash, "39118cb64bc9be2a203c78b7f8d838c4f934c84b47186fa0ad60359b0ada547f");
    let long = content_hash(&tree("m", vec![file("a", &"y".repeat(300))], vec![])).unwrap();
    assert_eq!(long, "0eaa47a1d521ed3551f0a2b70ddcb1a84d1da9658b62878e638969caeeb53184");
}

/// What one file holds cannot pass for another file.
#[test]
fn contents_do_not_pass_for_files() {
    let one = tree("m", vec![file("a", "x\0b\0y")], vec![]);
    let two = tree("m", vec![file("a", "x"), file("b", "y")], vec![]);
    assert_ne!(content_hash(&one), content_hash(&two));
    let framed = tree("m", vec![file("a", "x\x01b\x01\x01y")], vec![]);
    assert_ne!(content_hash(&framed), content_hash(&two));
}

/// A file that cannot be read differs from any that can.
#[test]
fn a_file_that_cannot_be_read_counts() {
    let unread = FileEntry { name: "a".to_string(), contents: None };
    let hash = content_hash(&tree("m", vec![unread], vec![])).unwrap();
    for contents in ["", "<unreadable>"] {
        assert_ne!(hash, content_hash(&tree("m", vec![file("a", contents)], vec![])).unwrap());
    }
}
