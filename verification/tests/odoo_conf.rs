//! The `odoo.conf` of a server.

use orchestrator_core::odoo_conf::{render, OdooConfParams};

#[test]
fn renders_addons_path_in_given_order_comma_joined() {
    let out = render(&OdooConfParams {
        addons_path: vec!["/checkout/addons".to_string(), "/oca/repo".to_string()],
        db_host: "/app/pg/data".to_string(),
        db_port: 55432,
        db_user: "postgres".to_string(),
        http_port: 8069,
        data_dir: "/app/servers/1/filestore".to_string(),
    });
    assert!(out.contains("addons_path = /checkout/addons,/oca/repo"));
    assert!(out.contains("db_host = /app/pg/data"));
    assert!(out.contains("db_port = 55432"));
    assert!(out.contains("db_user = postgres"));
    assert!(out.contains("http_port = 8069"));
    assert!(out.contains("data_dir = /app/servers/1/filestore"));
    assert!(out.starts_with("[options]\n"));
}

#[test]
fn renders_a_single_addons_path_entry_without_a_trailing_comma() {
    let out = render(&OdooConfParams {
        addons_path: vec!["/only/one".to_string()],
        db_host: "/pg".to_string(),
        db_port: 5432,
        db_user: "postgres".to_string(),
        http_port: 8069,
        data_dir: "/data".to_string(),
    });
    assert!(out.contains("addons_path = /only/one\n"));
}

/// `acme.localhost:8069` opens the `acme` database without a database picker: that is one line of
/// the configuration.
#[test]
fn always_asks_odoo_to_route_by_the_first_label_of_the_host() {
    let out = render(&OdooConfParams {
        addons_path: vec!["/only/one".to_string()],
        db_host: "/pg".to_string(),
        db_port: 5432,
        db_user: "odoo".to_string(),
        http_port: 8069,
        data_dir: "/data".to_string(),
    });
    assert!(out.contains("\ndbfilter = ^%d$\n"), "generated conf was:\n{out}");
}

#[test]
fn the_whole_file_is_as_expected() {
    let out = render(&OdooConfParams {
        addons_path: vec![],
        db_host: "/pg".to_string(),
        db_port: 1,
        db_user: "u".to_string(),
        http_port: 65535,
        data_dir: "/d".to_string(),
    });
    assert_eq!(
        out,
        "[options]\naddons_path = \ndata_dir = /d\ndb_host = /pg\ndb_port = 1\ndb_user = u\n\
         db_password = False\nhttp_port = 65535\ndbfilter = ^%d$\nadmin_passwd = admin\n\
         without_demo = True\nlist_db = True\n"
    );
}
