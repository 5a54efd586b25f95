//! The `odoo.conf` that a server is started with.

use crate::text;
use vstd::prelude::*;
use vstd::string::*;

verus! {

/// What an `odoo.conf` depends on.
#[derive(Debug)]
pub struct OdooConfParams {
    pub addons_path: Vec<String>,
    pub db_host: String,
    pub db_port: u16,
    pub db_user: String,
    pub http_port: u16,
    pub data_dir: String,
}

/// The text of an `odoo.conf` for the given values. Odoo picks the database by the first label of
/// the host name.
pub open spec fn conf_for(
    addons_path: Seq<Seq<char>>,
    data_dir: Seq<char>,
    db_host: Seq<char>,
    db_port: u16,
    db_user: Seq<char>,
    http_port: u16,
) -> Seq<char> {
    "[options]\naddons_path = "@ + text::joined_with(addons_path, ","@) + "\ndata_dir = "@
        + data_dir + "\ndb_host = "@ + db_host + "\ndb_port = "@ + text::decimal_of(
        db_port as nat,
    ) + "\ndb_user = "@ + db_user + "\ndb_password = False\nhttp_port = "@ + text::decimal_of(
        http_port as nat,
    ) + "\ndbfilter = ^%d$\nadmin_passwd = admin\nwithout_demo = True\nlist_db = True\n"@
}

/// The text of an `odoo.conf`.
pub open spec fn conf_text(p: OdooConfParams) -> Seq<char> {
    conf_for(
        text::views(p.addons_path@),
        p.data_dir@,
        p.db_host@,
        p.db_port,
        p.db_user@,
        p.http_port,
    )
}

/// The text of an `odoo.conf`.
pub fn render(params: &OdooConfParams) -> (r: String)
    ensures
        r@ == conf_text(*params),
{
    let mut out = text::joined(
        "[options]\naddons_path = ",
        text::join(&params.addons_path, ",").as_str(),
    );
    out.append("\ndata_dir = ");
    out.append(params.data_dir.as_str());
    out.append("\ndb_host = ");
    out.append(params.db_host.as_str());
    out.append("\ndb_port = ");
    out.append(text::decimal(params.db_port as u64).as_str());
    out.append("\ndb_user = ");
    out.append(params.db_user.as_str());
    out.append("\ndb_password = False\nhttp_port = ");
    out.append(text::decimal(params.http_port as u64).as_str());
    out.append("\ndbfilter = ^%d$\nadmin_passwd = admin\nwithout_demo = True\nlist_db = True\n");
    out
}

/// Whatever the parameters, the text asks Odoo to pick the database by the host name.
pub proof fn law_routes_by_host(p: OdooConfParams)
    ensures
        text::has_part(conf_text(p), "\ndbfilter = ^%d$\n"@),
{
    let line = "\ndbfilter = ^%d$\n"@;
    let tail = "\ndbfilter = ^%d$\nadmin_passwd = admin\nwithout_demo = True\nlist_db = True\n"@;
    reveal_strlit("\ndbfilter = ^%d$\n");
    reveal_strlit("\ndbfilter = ^%d$\nadmin_passwd = admin\nwithout_demo = True\nlist_db = True\n");
    let conf = conf_text(p);
    let at = conf.len() - tail.len();
    assert(tail.subrange(0, line.len() as int) =~= line);
    assert(conf.skip(at) =~= tail);
    assert(conf.subrange(at, at + line.len()) =~= line) by {
        assert forall|i: int| 0 <= i < line.len() implies conf.subrange(at, at + line.len())[i]
            == line[i] by {
            assert(conf.skip(at)[i] == tail[i]);
            assert(tail.subrange(0, line.len() as int)[i] == tail[i]);
        }
    }
}

proof fn lemma_part_between(a: Seq<char>, part: Seq<char>, b: Seq<char>)
    ensures
        text::has_part(a + part + b, part),
{
    let whole = a + part + b;
    assert(whole.subrange(a.len() as int, a.len() as int + part.len()) =~= part);
}

/// What stands between a beginning and the next line is a line.
proof fn lemma_line(a: Seq<char>, key: Seq<char>, value: Seq<char>, b: Seq<char>)
    requires
        b.len() > 0,
        b[0] == '\n',
    ensures
        text::has_part(a + key + value + b, key + value + seq!['\n']),
{
    let part = key + value + seq!['\n'];
    assert(a + key + value + b =~= a + part + b.skip(1));
    lemma_part_between(a, part, b.skip(1));
}

proof fn lemma_line_feeds()
    ensures
        "\ndata_dir = "@.len() > 0 && "\ndata_dir = "@[0] == '\n',
        "\ndb_host = "@.len() > 0 && "\ndb_host = "@[0] == '\n',
        "\ndb_port = "@.len() > 0 && "\ndb_port = "@[0] == '\n',
        "\ndb_user = "@.len() > 0 && "\ndb_user = "@[0] == '\n',
{
    reveal_strlit("\ndata_dir = ");
    reveal_strlit("\ndb_host = ");
    reveal_strlit("\ndb_port = ");
    reveal_strlit("\ndb_user = ");
}

proof fn lemma_first_line()
    ensures
        "[options]\naddons_path = "@ == "[options]\naddons_path = "@.take(9) + "\naddons_path = "@,
{
    reveal_strlit("[options]\naddons_path = ");
    reveal_strlit("\naddons_path = ");
    assert("[options]\naddons_path = "@ =~= "[options]\naddons_path = "@.take(9)
        + "\naddons_path = "@);
}

proof fn lemma_two_lines()
    ensures
        "\ndb_password = False\nhttp_port = "@ == "\ndb_password = False"@ + "\nhttp_port = "@,
        "\ndb_password = False"@ + seq!['\n'] == "\ndb_password = False\n"@,
        "\nhttp_port = "@.len() > 0 && "\nhttp_port = "@[0] == '\n',
        "\ndb_password = False\nhttp_port = "@[0] == '\n',
        "\ndb_password = False\nhttp_port = "@.len() > 0,
{
    reveal_strlit("\ndb_password = False\nhttp_port = ");
    reveal_strlit("\ndb_password = False");
    reveal_strlit("\ndb_password = False\n");
    reveal_strlit("\nhttp_port = ");
    assert("\ndb_password = False\nhttp_port = "@ =~= "\ndb_password = False"@ + "\nhttp_port = "@);
    assert("\ndb_password = False"@ + seq!['\n'] =~= "\ndb_password = False\n"@);
}

pub open spec fn last_lines() -> Seq<char> {
    "\ndbfilter = ^%d$\nadmin_passwd = admin\nwithout_demo = True\nlist_db = True\n"@
}

proof fn lemma_last_lines()
    ensures
        last_lines().len() > 0,
        last_lines()[0] == '\n',
        exists|a: Seq<char>, b: Seq<char>|
            last_lines() == #[trigger] (a + "\nwithout_demo = True\n"@ + b),
        exists|a: Seq<char>, b: Seq<char>|
            last_lines() == #[trigger] (a + "\nlist_db = True\n"@ + b),
{
    reveal_strlit("\ndbfilter = ^%d$\nadmin_passwd = admin\nwithout_demo = True\nlist_db = True\n");
    reveal_strlit("\nlist_db = True\n");
    reveal_strlit("\nwithout_demo = True\n");
    let all = last_lines();
    let list = "\nlist_db = True\n"@;
    let demo = "\nwithout_demo = True\n"@;
    let n = all.len() - list.len();
    assert(all =~= all.take(n) + list + Seq::<char>::empty());
    let m = n + 1 - demo.len();
    assert(all =~= all.take(m) + demo + all.skip(n + 1));
}

/// The configuration says what it was given, over the plain values.
pub proof fn lemma_conf_says(
    addons_path: Seq<Seq<char>>,
    data_dir: Seq<char>,
    db_host: Seq<char>,
    db_port: u16,
    db_user: Seq<char>,
    http_port: u16,
)
    ensures
        text::has_part(
            conf_for(addons_path, data_dir, db_host, db_port, db_user, http_port),
            "\naddons_path = "@ + text::joined_with(addons_path, ","@) + seq!['\n'],
        ),
        text::has_part(conf_for(addons_path, data_dir, db_host, db_port, db_user, http_port), "\ndata_dir = "@ + data_dir + seq!['\n']),
        text::has_part(conf_for(addons_path, data_dir, db_host, db_port, db_user, http_port), "\ndb_host = "@ + db_host + seq!['\n']),
        text::has_part(
            conf_for(addons_path, data_dir, db_host, db_port, db_user, http_port),
            "\ndb_port = "@ + text::decimal_of(db_port as nat) + seq!['\n'],
        ),
        text::has_part(conf_for(addons_path, data_dir, db_host, db_port, db_user, http_port), "\ndb_user = "@ + db_user + seq!['\n']),
        text::has_part(
            conf_for(addons_path, data_dir, db_host, db_port, db_user, http_port),
            "\nhttp_port = "@ + text::decimal_of(http_port as nat) + seq!['\n'],
        ),
        text::has_part(conf_for(addons_path, data_dir, db_host, db_port, db_user, http_port), "\ndb_password = False\n"@),
        text::has_part(conf_for(addons_path, data_dir, db_host, db_port, db_user, http_port), "\nlist_db = True\n"@),
        text::has_part(conf_for(addons_path, data_dir, db_host, db_port, db_user, http_port), "\nwithout_demo = True\n"@),
{
    lemma_line_feeds();
    lemma_first_line();
    lemma_two_lines();
    lemma_last_lines();
    let conf = conf_for(addons_path, data_dir, db_host, db_port, db_user, http_port);
    let first = "[options]\naddons_path = "@;
    let addons = text::joined_with(addons_path, ","@);
    let db_digits = text::decimal_of(db_port as nat);
    let http_digits = text::decimal_of(http_port as nat);
    let from_http = "\ndb_password = False\nhttp_port = "@ + http_digits + last_lines();
    let from_user = "\ndb_user = "@ + db_user + from_http;
    let from_port = "\ndb_port = "@ + db_digits + from_user;
    let from_host = "\ndb_host = "@ + db_host + from_port;
    let from_data = "\ndata_dir = "@ + data_dir + from_host;
    let to_data = first + addons;
    let to_host = to_data + "\ndata_dir = "@ + data_dir;
    let to_port = to_host + "\ndb_host = "@ + db_host;
    let to_user = to_port + "\ndb_port = "@ + db_digits;
    let to_http = to_user + "\ndb_user = "@ + db_user;
    let to_last = to_http + "\ndb_password = False\nhttp_port = "@ + http_digits;
    assert(conf =~= to_last + last_lines());
    lemma_regroup(to_http, "\ndb_password = False\nhttp_port = "@, http_digits, last_lines());
    lemma_regroup(to_user, "\ndb_user = "@, db_user, from_http);
    lemma_regroup(to_port, "\ndb_port = "@, db_digits, from_user);
    lemma_regroup(to_host, "\ndb_host = "@, db_host, from_port);
    lemma_regroup(to_data, "\ndata_dir = "@, data_dir, from_host);
    assert(conf == to_data + from_data);
    lemma_line(to_data, "\ndata_dir = "@, data_dir, from_host);
    lemma_line(to_host, "\ndb_host = "@, db_host, from_port);
    lemma_line(to_port, "\ndb_port = "@, db_digits, from_user);
    lemma_line(to_user, "\ndb_user = "@, db_user, from_http);
    lemma_line(first.take(9), "\naddons_path = "@, addons, from_data);
    let none = Seq::<char>::empty();
    let from_serve = "\nhttp_port = "@ + http_digits + last_lines();
    assert(from_http =~= "\ndb_password = False"@ + from_serve);
    lemma_line(to_http, "\ndb_password = False"@, none, from_serve);
    assert(to_http + "\ndb_password = False"@ + none + from_serve =~= to_http + from_http);
    assert("\ndb_password = False"@ + none + seq!['\n'] =~= "\ndb_password = False\n"@);
    let to_serve = to_http + "\ndb_password = False"@;
    lemma_line(to_serve, "\nhttp_port = "@, http_digits, last_lines());
    assert(to_serve + "\nhttp_port = "@ + http_digits + last_lines() =~= to_http + from_http);
    let (a, b) = choose|a: Seq<char>, b: Seq<char>|
        last_lines() == #[trigger] (a + "\nwithout_demo = True\n"@ + b);
    lemma_part_between(to_last + a, "\nwithout_demo = True\n"@, b);
    assert(to_last + (a + "\nwithout_demo = True\n"@ + b) =~= to_last + a
        + "\nwithout_demo = True\n"@ + b);
    let (c, d) = choose|c: Seq<char>, d: Seq<char>|
        last_lines() == #[trigger] (c + "\nlist_db = True\n"@ + d);
    lemma_part_between(to_last + c, "\nlist_db = True\n"@, d);
    assert(to_last + (c + "\nlist_db = True\n"@ + d) =~= to_last + c + "\nlist_db = True\n"@ + d);
}

/// The configuration says, each on a line of its own, where modules and files are, how the
/// databases are reached, and on which port to serve.
pub proof fn law_a_configuration_says_what_it_was_given(p: OdooConfParams)
    ensures
        text::has_part(
            conf_text(p),
            "\naddons_path = "@ + text::joined_with(text::views(p.addons_path@), ","@) + seq!['\n'],
        ),
        text::has_part(conf_text(p), "\ndata_dir = "@ + p.data_dir@ + seq!['\n']),
        text::has_part(conf_text(p), "\ndb_host = "@ + p.db_host@ + seq!['\n']),
        text::has_part(
            conf_text(p),
            "\ndb_port = "@ + text::decimal_of(p.db_port as nat) + seq!['\n'],
        ),
        text::has_part(conf_text(p), "\ndb_user = "@ + p.db_user@ + seq!['\n']),
        text::has_part(
            conf_text(p),
            "\nhttp_port = "@ + text::decimal_of(p.http_port as nat) + seq!['\n'],
        ),
        text::has_part(conf_text(p), "\ndb_password = False\n"@),
        text::has_part(conf_text(p), "\nlist_db = True\n"@),
        text::has_part(conf_text(p), "\nwithout_demo = True\n"@),
{
    lemma_conf_says(
        text::views(p.addons_path@),
        p.data_dir@,
        p.db_host@,
        p.db_port,
        p.db_user@,
        p.http_port,
    );
}

proof fn lemma_regroup(a: Seq<char>, key: Seq<char>, value: Seq<char>, b: Seq<char>)
    ensures
        (a + key + value) + b == a + (key + value + b),
{
    assert((a + key + value) + b =~= a + (key + value + b));
}

} // verus!
