//! Moves between versions with OpenUpgrade.

use orchestrator_core::openupgrade::{
    cache_dir, clone_args, clone_outcome, hops, marker_file, OpenUpgradeError,
};

#[test]
fn a_single_step_is_one_hop() {
    assert_eq!(hops("16.0", "17.0"), Some(vec!["17.0".to_string()]));
}

/// OpenUpgrade cannot skip versions, so 15 to 18 is three migrations in order.
#[test]
fn skipping_versions_is_expanded_into_every_intermediate_hop() {
    assert_eq!(
        hops("15.0", "18.0"),
        Some(vec!["16.0".to_string(), "17.0".to_string(), "18.0".to_string()])
    );
}

#[test]
fn already_there_is_no_hops_rather_than_an_error() {
    assert_eq!(hops("17.0", "17.0"), Some(vec![]));
}

#[test]
fn going_backwards_is_refused() {
    assert_eq!(hops("17.0", "16.0"), None);
}

/// Where an intermediate version has no branch, the whole chain is impossible.
#[test]
fn a_chain_through_a_version_with_no_branch_is_refused() {
    assert_eq!(hops("12.0", "15.0"), None);
    assert_eq!(hops("13.0", "14.0"), Some(vec!["14.0".to_string()]));
}

#[test]
fn nonsense_versions_are_refused_rather_than_guessed() {
    assert_eq!(hops("not-a-version", "17.0"), None);
    assert_eq!(hops("16.0", "saas~17"), None);
}

#[test]
fn a_branch_has_a_folder_of_its_own() {
    assert_eq!(cache_dir("/app", "17.0"), "/app/openupgrade/17.0");
    assert_eq!(
        marker_file("/app/openupgrade/17.0"),
        "/app/openupgrade/17.0/openupgrade_framework/__manifest__.py"
    );
    assert_eq!(
        clone_args("17.0", "/app/openupgrade/17.0"),
        vec![
            "clone",
            "--depth",
            "1",
            "--single-branch",
            "--branch",
            "17.0",
            "--filter=blob:none",
            "https://github.com/OCA/OpenUpgrade.git",
            "/app/openupgrade/17.0",
        ]
    );
}

#[test]
fn a_failed_clone_says_what_git_said() {
    assert!(clone_outcome("17.0", true, "noise").is_ok());
    let e = clone_outcome("17.0", false, "  no such branch\n").unwrap_err();
    assert!(matches!(e, OpenUpgradeError::CommandFailed { .. }));
    assert_eq!(e.message(), "git clone OpenUpgrade 17.0 failed: no such branch");
    let e = OpenUpgradeError::Spawn { command: "git clone".to_string(), source: "gone".to_string() };
    assert_eq!(e.message(), "couldn't run git clone: gone");
    assert_eq!(OpenUpgradeError::Io("no space".to_string()).message(), "no space");
}

/// Every version after 12 up to the last is reached from the one before.
#[test]
fn the_versions_that_can_be_reached_are_these() {
    for major in 14u32..20 {
        assert_eq!(
            hops(&format!("{}.0", major - 1), &format!("{major}.0")),
            Some(vec![format!("{major}.0")])
        );
    }
    assert_eq!(hops("12.0", "13.0"), None);
    assert_eq!(hops("19.0", "20.0"), None);
}
