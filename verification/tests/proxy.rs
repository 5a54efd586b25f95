//! The front door: which database a host name leads to.

use orchestrator_core::databases::Route;
use orchestrator_core::proxy::{
    dropped_headers, error_page, find_route, forward_host, forward_target, handle, strip_port,
    unknown_host, unreachable_page, Reply,
};

fn route(host: &str, database: &str) -> Route {
    Route {
        host: host.to_string(),
        port: 8069,
        database: database.to_string(),
        server_id: 1,
        database_id: 2,
        running: true,
    }
}

#[test]
fn a_port_in_the_host_header_is_not_part_of_the_hostname() {
    assert_eq!(strip_port("acme.localhost:8080"), "acme.localhost");
    assert_eq!(strip_port("acme.localhost"), "acme.localhost");
    assert_eq!(strip_port(""), "");
}

#[test]
fn an_unknown_host_says_what_does_exist_instead_of_just_404ing() {
    let routes = vec![route("acme.localhost", "acme")];
    let res = unknown_host("typo.localhost", &routes);
    assert_eq!(res.status, 404);
    assert!(res.body.contains("acme.localhost"));
}

#[test]
fn a_default_address_answers_under_any_suffix() {
    let routes = vec![route("acme.localhost", "acme")];
    assert_eq!(find_route(&routes, "acme.localhost").unwrap().database, "acme");
    assert_eq!(find_route(&routes, "acme.test").unwrap().database, "acme");
    assert_eq!(find_route(&routes, "acme.internal").unwrap().database, "acme");
}

/// `acme_prod` was given the address `books.acme.localhost`: its own name is no second address.
#[test]
fn a_custom_domain_is_matched_exactly_and_never_by_its_database_name() {
    let routes = vec![route("books.acme.localhost", "acme_prod")];
    assert_eq!(find_route(&routes, "books.acme.localhost").unwrap().database, "acme_prod");
    assert!(find_route(&routes, "acme_prod.localhost").is_none());
    assert!(find_route(&routes, "acme_prod.test").is_none());
}

#[test]
fn a_bare_hostname_with_no_suffix_matches_nothing() {
    let routes = vec![route("acme.localhost", "acme")];
    assert!(find_route(&routes, "acme").is_none());
    assert!(find_route(&routes, "").is_none());
}

#[test]
fn an_unrelated_first_label_still_misses() {
    let routes = vec![route("acme.localhost", "acme")];
    assert!(find_route(&routes, "northwind.localhost").is_none());
}

#[test]
fn a_running_database_is_handed_on_whatever_the_case_of_its_host() {
    let routes = vec![route("acme.localhost", "acme")];
    match handle(Some("ACME.Localhost:8080"), &routes) {
        Reply::Forward(found) => assert_eq!(found.database, "acme"),
        Reply::Answer(_) => panic!("the host is known"),
    }
    assert_eq!(forward_target(&routes[0], Some("/web?x=1")), "http://127.0.0.1:8069/web?x=1");
    assert_eq!(forward_target(&routes[0], None), "http://127.0.0.1:8069/");
    assert_eq!(forward_host(&routes[0]), "acme.localhost");
}

/// The browser used a domain that has nothing to do with the database's name; Odoo is still told
/// the name that its filter selects the database by.
#[test]
fn odoo_is_told_the_name_of_the_database() {
    assert_eq!(forward_host(&route("books.acme.test", "acme_prod")), "acme_prod.localhost");
}

#[test]
fn a_sleeping_server_and_a_missing_host_are_answered_here() {
    let mut asleep = route("acme.localhost", "acme");
    asleep.running = false;
    let routes = vec![asleep];
    match handle(Some("acme.localhost"), &routes) {
        Reply::Answer(page) => {
            assert_eq!(page.status, 503);
            assert!(page.body.contains("isn't running"));
        }
        Reply::Forward(_) => panic!("nothing runs"),
    }
    match handle(None, &routes) {
        Reply::Answer(page) => assert_eq!(page.status, 404),
        Reply::Forward(_) => panic!("no host was asked for"),
    }
}

#[test]
fn headers_of_the_connection_are_not_handed_on() {
    let dropped = dropped_headers();
    assert!(dropped.contains(&"connection".to_string()));
    assert!(dropped.contains(&"transfer-encoding".to_string()));
}

#[test]
fn a_page_lists_what_exists() {
    let page = error_page(404, "No such thing", &vec!["a.localhost".to_string()]);
    assert_eq!(page.status, 404);
    assert!(page.body.contains("<h1 style=\"font-size:17px\">No such thing</h1>"));
    assert!(page.body.contains("<ul><li><code>a.localhost</code></li></ul>"));
    assert!(!error_page(404, "x", &vec![]).body.contains("<ul>"));
    let page = unreachable_page(&route("acme.localhost", "acme"), "refused");
    assert_eq!(page.status, 502);
    assert!(page.body.contains("refused"));
}
