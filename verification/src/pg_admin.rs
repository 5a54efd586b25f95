//! The PostgreSQL commands that create, copy, query and drop databases, and what their output
//! means.

use crate::git::CommandOutput;
use crate::odoo;
use crate::order;
use crate::paths;
use crate::text;
use vstd::prelude::*;
use vstd::string::*;

verus! {

/// Why a PostgreSQL command failed.
#[derive(Debug)]
pub enum PgAdminError {
    Spawn { command: String, source: String },
    CommandFailed { command: String, exit_code: Option<i32>, stderr: String },
}

/// What is shown of an error.
pub open spec fn pg_error_text(e: PgAdminError) -> Seq<char> {
    match e {
        PgAdminError::Spawn { command, source } => "couldn't run "@ + command@ + ": "@ + source@,
        PgAdminError::CommandFailed { command, exit_code, stderr } => command@ + " exited with "@
            + odoo::exit_code_text(exit_code) + ": "@ + stderr@,
    }
}

impl PgAdminError {
    /// What is shown of the error.
    pub fn message(&self) -> (r: String)
        ensures
            r@ == pg_error_text(*self),
    {
        match self {
            PgAdminError::Spawn { command, source } => {
                let mut out = text::joined("couldn't run ", command.as_str());
                out.append(": ");
                out.append(source.as_str());
                out
            },
            PgAdminError::CommandFailed { command, exit_code, stderr } => {
                let mut out = text::joined(command.as_str(), " exited with ");
                out.append(odoo::show_exit_code(*exit_code).as_str());
                out.append(": ");
                out.append(stderr.as_str());
                out
            },
        }
    }
}

/// How to reach a cluster: where its programs are, its socket folder, its port and the user.
#[derive(Debug)]
pub struct PgConnInfo {
    pub bin_dir: String,
    pub host: String,
    pub port: u16,
    pub user: String,
}

impl PgConnInfo {
    /// A connection as the user `postgres`.
    pub fn new(bin_dir: String, host: String, port: u16) -> (r: Self)
        ensures
            r.bin_dir == bin_dir,
            r.host == host,
            r.port == port,
            r.user@ == "postgres"@,
    {
        PgConnInfo { bin_dir, host, port, user: "postgres".to_owned() }
    }

    /// The connection, as the user `odoo`.
    pub fn as_odoo(&self) -> (r: Self)
        ensures
            r.bin_dir == self.bin_dir,
            r.host == self.host,
            r.port == self.port,
            r.user@ == "odoo"@,
    {
        PgConnInfo {
            bin_dir: self.bin_dir.clone(),
            host: self.host.clone(),
            port: self.port,
            user: "odoo".to_owned(),
        }
    }
}

/// A command to run: its program, its arguments, and what it is called in errors.
#[derive(Debug)]
pub struct PgCommand {
    pub program: String,
    pub args: Vec<String>,
    pub label: String,
}

/// The arguments of a command: where to connect, then `rest`.
pub open spec fn args_with(conn: PgConnInfo, rest: Seq<Seq<char>>) -> Seq<Seq<char>> {
    seq!["-h"@, conn.host@, "-p"@, text::decimal_of(conn.port as nat), "-U"@, conn.user@] + rest
}

/// Whether `c` runs `program` of the cluster with the given arguments.
pub open spec fn runs(
    c: PgCommand,
    conn: PgConnInfo,
    program: Seq<char>,
    rest: Seq<Seq<char>>,
    label: Seq<char>,
) -> bool {
    &&& c.program@ == paths::under(conn.bin_dir@, program)
    &&& text::views(c.args@) == args_with(conn, rest)
    &&& c.label@ == label
}

/// The command that runs a program with the given arguments behind those that say where to
/// connect.
fn command(conn: &PgConnInfo, program: &str, rest: Vec<String>, label: &str) -> (r: PgCommand)
    ensures
        runs(r, *conn, program@, text::views(rest@), label@),
{
    let mut args: Vec<String> = Vec::new();
    args.push("-h".to_owned());
    args.push(conn.host.clone());
    args.push("-p".to_owned());
    args.push(text::decimal(conn.port as u64));
    args.push("-U".to_owned());
    args.push(conn.user.clone());
    let ghost more = text::views(rest@);
    let ghost common = text::views(args@);
    let mut rest = rest;
    args.append(&mut rest);
    assert(text::views(args@) =~= common + more);
    assert(text::views(args@) =~= args_with(*conn, more));
    PgCommand {
        program: paths::join(conn.bin_dir.as_str(), program),
        args,
        label: label.to_owned(),
    }
}

// --- quoting --------------------------------------------------------------

/// `s` with every `q` doubled.
pub open spec fn doubled(s: Seq<char>, q: char) -> Seq<char>
    decreases s.len(),
{
    if s.len() == 0 {
        Seq::empty()
    } else {
        let before = doubled(s.drop_last(), q);
        if s.last() == q {
            before.push(q).push(q)
        } else {
            before.push(s.last())
        }
    }
}

/// What PostgreSQL reads between two `q`: a doubled `q` stands for one, and a single one would
/// end the text.
pub open spec fn read_between(s: Seq<char>, q: char) -> Option<Seq<char>>
    decreases s.len(),
{
    if s.len() == 0 {
        Some(Seq::empty())
    } else if s.last() != q {
        match read_between(s.drop_last(), q) {
            Some(t) => Some(t.push(s.last())),
            None => None,
        }
    } else if s.len() >= 2 && s[s.len() - 2] == q {
        match read_between(s.take(s.len() - 2), q) {
            Some(t) => Some(t.push(q)),
            None => None,
        }
    } else {
        None
    }
}

/// Quoting loses nothing and ends nothing early: what is read between quotes is the text that was
/// put there.
pub proof fn law_quoting_reads_back(s: Seq<char>, q: char)
    ensures
        read_between(doubled(s, q), q) == Some(s),
    decreases s.len(),
{
    if s.len() > 0 {
        let before = doubled(s.drop_last(), q);
        law_quoting_reads_back(s.drop_last(), q);
        assert(s =~= s.drop_last().push(s.last()));
        let d = doubled(s, q);
        if s.last() == q {
            assert(d.take(d.len() - 2) =~= before);
        } else {
            assert(d.drop_last() =~= before);
        }
    }
}

/// `s` with every `q` doubled.
fn double(s: &str, q: char) -> (r: String)
    ensures
        r@ == doubled(s@, q),
{
    let v = text::chars_of(s);
    let mut out = String::new();
    let mut i: usize = 0;
    assert(out@ =~= doubled(v@.take(0), q));
    while i < v.len()
        invariant
            i <= v@.len(),
            out@ == doubled(v@.take(i as int), q),
        decreases v@.len() - i,
    {
        proof {
            assert(v@.take(i + 1).drop_last() =~= v@.take(i as int));
        }
        if v[i] == q {
            out.push(q);
            out.push(q);
        } else {
            out.push(v[i]);
        }
        i = i + 1;
    }
    assert(v@.take(i as int) =~= v@);
    out
}

/// A text as it stands between the quotes of an SQL literal.
pub fn escape_sql_literal(s: &str) -> (r: String)
    ensures
        r@ == doubled(s@, '\''),
{
    double(s, '\'')
}

/// A name as it stands between the quotes of an SQL identifier.
pub fn escape_identifier(s: &str) -> (r: String)
    ensures
        r@ == doubled(s@, '"'),
{
    double(s, '"')
}

// --- commands -------------------------------------------------------------

/// Asks for one value.
pub fn query_scalar(conn: &PgConnInfo, database: &str, sql: &str) -> (r: PgCommand)
    ensures
        runs(r, *conn, "psql"@, seq![database@, "-tAc"@, sql@], "psql (query_scalar)"@),
{
    let mut rest: Vec<String> = Vec::new();
    rest.push(database.to_owned());
    rest.push("-tAc".to_owned());
    rest.push(sql.to_owned());
    assert(text::views(rest@) =~= seq![database@, "-tAc"@, sql@]);
    command(conn, "psql", rest, "psql (query_scalar)")
}

/// Runs a statement.
pub fn execute(conn: &PgConnInfo, database: &str, sql: &str) -> (r: PgCommand)
    ensures
        runs(r, *conn, "psql"@, seq![database@, "-tAc"@, sql@], "psql (query_scalar)"@),
{
    query_scalar(conn, database, sql)
}

/// Asks for rows, with tabs between their columns.
pub fn query_rows(conn: &PgConnInfo, database: &str, sql: &str) -> (r: PgCommand)
    ensures
        runs(
            r,
            *conn,
            "psql"@,
            seq![database@, "-F"@, "\t"@, "-Atc"@, sql@],
            "psql (query_rows)"@,
        ),
{
    let mut rest: Vec<String> = Vec::new();
    rest.push(database.to_owned());
    rest.push("-F".to_owned());
    rest.push("\t".to_owned());
    rest.push("-Atc".to_owned());
    rest.push(sql.to_owned());
    assert(text::views(rest@) =~= seq![database@, "-F"@, "\t"@, "-Atc"@, sql@]);
    command(conn, "psql", rest, "psql (query_rows)")
}

/// Asks whether a database exists.
pub fn database_exists(conn: &PgConnInfo, name: &str) -> (r: PgCommand)
    ensures
        runs(
            r,
            *conn,
            "psql"@,
            seq![
                "-tAc"@,
                "SELECT 1 FROM pg_database WHERE datname = '"@ + doubled(name@, '\'') + "'"@,
                "postgres"@,
            ],
            "psql (database_exists)"@,
        ),
{
    let mut sql = text::joined(
        "SELECT 1 FROM pg_database WHERE datname = '",
        escape_sql_literal(name).as_str(),
    );
    sql.append("'");
    let ghost shown = sql@;
    let mut rest: Vec<String> = Vec::new();
    rest.push("-tAc".to_owned());
    rest.push(sql);
    rest.push("postgres".to_owned());
    assert(text::views(rest@) =~= seq!["-tAc"@, shown, "postgres"@]);
    command(conn, "psql", rest, "psql (database_exists)")
}

/// Creates an empty database.
pub fn create_database(conn: &PgConnInfo, name: &str) -> (r: PgCommand)
    ensures
        runs(
            r,
            *conn,
            "createdb"@,
            seq![
                "--encoding=UTF8"@,
                "--template=template0"@,
                "--lc-collate=C"@,
                "--lc-ctype=C"@,
                name@,
            ],
            "createdb"@,
        ),
{
    let mut rest: Vec<String> = Vec::new();
    rest.push("--encoding=UTF8".to_owned());
    rest.push("--template=template0".to_owned());
    rest.push("--lc-collate=C".to_owned());
    rest.push("--lc-ctype=C".to_owned());
    rest.push(name.to_owned());
    assert(text::views(rest@) =~= seq![
        "--encoding=UTF8"@,
        "--template=template0"@,
        "--lc-collate=C"@,
        "--lc-ctype=C"@,
        name@,
    ]);
    command(conn, "createdb", rest, "createdb")
}

/// Drops a database, where it is there.
pub fn drop_database(conn: &PgConnInfo, name: &str) -> (r: PgCommand)
    ensures
        runs(r, *conn, "dropdb"@, seq!["--if-exists"@, name@], "dropdb"@),
{
    let mut rest: Vec<String> = Vec::new();
    rest.push("--if-exists".to_owned());
    rest.push(name.to_owned());
    assert(text::views(rest@) =~= seq!["--if-exists"@, name@]);
    command(conn, "dropdb", rest, "dropdb")
}

/// Asks whether a role exists.
pub fn role_exists(conn: &PgConnInfo, role: &str) -> (r: PgCommand)
    ensures
        runs(
            r,
            *conn,
            "psql"@,
            seq![
                "-tAc"@,
                "SELECT 1 FROM pg_roles WHERE rolname = '"@ + doubled(role@, '\'') + "'"@,
                "postgres"@,
            ],
            "psql (role exists)"@,
        ),
{
    let mut sql = text::joined(
        "SELECT 1 FROM pg_roles WHERE rolname = '",
        escape_sql_literal(role).as_str(),
    );
    sql.append("'");
    let ghost shown = sql@;
    let mut rest: Vec<String> = Vec::new();
    rest.push("-tAc".to_owned());
    rest.push(sql);
    rest.push("postgres".to_owned());
    assert(text::views(rest@) =~= seq!["-tAc"@, shown, "postgres"@]);
    command(conn, "psql", rest, "psql (role exists)")
}

/// Makes sure that a role exists: given the answer to `role_exists`, the command that creates it,
/// where it has to be created.
pub fn ensure_role(conn: &PgConnInfo, role: &str, answer: &str) -> (r: Option<PgCommand>)
    ensures
        match r {
            None => text::trimmed(answer@) == "1"@,
            Some(c) => text::trimmed(answer@) != "1"@ && runs(
                c,
                *conn,
                "psql"@,
                seq![
                    "postgres"@,
                    "-c"@,
                    "CREATE ROLE \""@ + doubled(role@, '"') + "\" LOGIN CREATEDB"@,
                ],
                "psql (CREATE ROLE)"@,
            ),
        },
{
    if says_one(answer) {
        return None;
    }
    let mut sql = text::joined("CREATE ROLE \"", escape_identifier(role).as_str());
    sql.append("\" LOGIN CREATEDB");
    let ghost shown = sql@;
    let mut rest: Vec<String> = Vec::new();
    rest.push("postgres".to_owned());
    rest.push("-c".to_owned());
    rest.push(sql);
    assert(text::views(rest@) =~= seq!["postgres"@, "-c"@, shown]);
    Some(command(conn, "psql", rest, "psql (CREATE ROLE)"))
}

/// Gives a role every right on a database's public schema.
pub fn grant_schema_privileges(conn: &PgConnInfo, database: &str, role: &str) -> (r: PgCommand)
    ensures
        runs(
            r,
            *conn,
            "psql"@,
            seq![
                database@,
                "-c"@,
                "GRANT ALL ON SCHEMA public TO \""@ + doubled(role@, '"') + "\""@,
            ],
            "psql (GRANT ON SCHEMA public)"@,
        ),
{
    let mut sql = text::joined(
        "GRANT ALL ON SCHEMA public TO \"",
        escape_identifier(role).as_str(),
    );
    sql.append("\"");
    let ghost shown = sql@;
    let mut rest: Vec<String> = Vec::new();
    rest.push(database.to_owned());
    rest.push("-c".to_owned());
    rest.push(sql);
    assert(text::views(rest@) =~= seq![database@, "-c"@, shown]);
    command(conn, "psql", rest, "psql (GRANT ON SCHEMA public)")
}

/// Ends every other connection to a database.
pub fn terminate_backends(conn: &PgConnInfo, database: &str) -> (r: PgCommand)
    ensures
        runs(
            r,
            *conn,
            "psql"@,
            seq![
                "postgres"@,
                "-c"@,
                "SELECT pg_terminate_backend(pid) FROM pg_stat_activity WHERE datname = '"@
                    + doubled(database@, '\'') + "' AND pid <> pg_backend_pid()"@,
            ],
            "psql (terminate backends)"@,
        ),
{
    let mut sql = text::joined(
        "SELECT pg_terminate_backend(pid) FROM pg_stat_activity WHERE datname = '",
        escape_sql_literal(database).as_str(),
    );
    sql.append("' AND pid <> pg_backend_pid()");
    let ghost shown = sql@;
    let mut rest: Vec<String> = Vec::new();
    rest.push("postgres".to_owned());
    rest.push("-c".to_owned());
    rest.push(sql);
    assert(text::views(rest@) =~= seq!["postgres"@, "-c"@, shown]);
    command(conn, "psql", rest, "psql (terminate backends)")
}

/// Copies a database: ends the connections to it, then creates the copy from it.
pub fn duplicate_database(conn: &PgConnInfo, source: &str, target: &str) -> (r: (
    PgCommand,
    PgCommand,
))
    ensures
        runs(
            r.0,
            *conn,
            "psql"@,
            seq![
                "postgres"@,
                "-c"@,
                "SELECT pg_terminate_backend(pid) FROM pg_stat_activity WHERE datname = '"@
                    + doubled(source@, '\'') + "' AND pid <> pg_backend_pid()"@,
            ],
            "psql (terminate backends)"@,
        ),
        runs(
            r.1,
            *conn,
            "psql"@,
            seq![
                "postgres"@,
                "-c"@,
                "CREATE DATABASE \""@ + doubled(target@, '"') + "\" TEMPLATE \""@ + doubled(
                    source@,
                    '"',
                ) + "\""@,
            ],
            "psql (CREATE DATABASE ... TEMPLATE)"@,
        ),
{
    let first = terminate_backends(conn, source);
    let mut sql = text::joined("CREATE DATABASE \"", escape_identifier(target).as_str());
    sql.append("\" TEMPLATE \"");
    sql.append(escape_identifier(source).as_str());
    sql.append("\"");
    let ghost shown = sql@;
    let mut rest: Vec<String> = Vec::new();
    rest.push("postgres".to_owned());
    rest.push("-c".to_owned());
    rest.push(sql);
    assert(text::views(rest@) =~= seq!["postgres"@, "-c"@, shown]);
    (first, command(conn, "psql", rest, "psql (CREATE DATABASE ... TEMPLATE)"))
}

/// Writes a database to a file.
pub fn dump_database(conn: &PgConnInfo, name: &str, out_file: &str) -> (r: PgCommand)
    ensures
        runs(r, *conn, "pg_dump"@, seq!["--file"@, out_file@, name@], "pg_dump"@),
{
    let mut rest: Vec<String> = Vec::new();
    rest.push("--file".to_owned());
    rest.push(out_file.to_owned());
    rest.push(name.to_owned());
    assert(text::views(rest@) =~= seq!["--file"@, out_file@, name@]);
    command(conn, "pg_dump", rest, "pg_dump")
}

/// Reads a database from a file: creates it empty, then feeds it the file.
pub fn restore_database(conn: &PgConnInfo, name: &str) -> (r: (PgCommand, PgCommand))
    ensures
        runs(
            r.0,
            *conn,
            "createdb"@,
            seq![
                "--encoding=UTF8"@,
                "--template=template0"@,
                "--lc-collate=C"@,
                "--lc-ctype=C"@,
                name@,
            ],
            "createdb"@,
        ),
        runs(r.1, *conn, "psql"@, seq![name@], "psql (restore)"@),
{
    let first = create_database(conn, name);
    let mut rest: Vec<String> = Vec::new();
    rest.push(name.to_owned());
    assert(text::views(rest@) =~= seq![name@]);
    (first, command(conn, "psql", rest, "psql (restore)"))
}

// --- answers --------------------------------------------------------------

/// Whether a command succeeded; if not, what it complained.
pub fn check_success(output: &CommandOutput, name: &str) -> (r: Result<(), PgAdminError>)
    ensures
        match r {
            Ok(_) => output.success,
            Err(e) => {
                &&& !output.success
                &&& e matches PgAdminError::CommandFailed { command, exit_code, stderr }
                &&& command@ == name@
                &&& exit_code == output.exit_code
                &&& stderr@ == text::trimmed(output.stderr@)
            },
        },
{
    if output.success {
        Ok(())
    } else {
        Err(
            PgAdminError::CommandFailed {
                command: name.to_owned(),
                exit_code: output.exit_code,
                stderr: text::trim(output.stderr.as_str()),
            },
        )
    }
}

/// Whether an answer is `1`.
pub fn says_one(stdout: &str) -> (r: bool)
    ensures
        r == (text::trimmed(stdout@) == "1"@),
{
    text::same_text(text::trim(stdout).as_str(), "1")
}

/// The value that was asked for; none where the answer is empty.
pub fn scalar_of(stdout: &str) -> (r: Option<String>)
    ensures
        text::opt_view(r) == (if text::trimmed(stdout@).len() == 0 {
            None
        } else {
            Some(text::trimmed(stdout@))
        }),
{
    let value = text::trim(stdout);
    if value.as_str().is_empty() {
        None
    } else {
        Some(value)
    }
}

/// The rows that the lines of an answer hold: the columns between the tabs of each line that is
/// not empty.
pub open spec fn rows_in(lines: Seq<Seq<char>>) -> Seq<Seq<Seq<char>>>
    decreases lines.len(),
{
    if lines.len() == 0 {
        Seq::empty()
    } else {
        let before = rows_in(lines.drop_last());
        if lines.last().len() == 0 {
            before
        } else {
            before.push(text::split_on(lines.last(), '\t'))
        }
    }
}

/// What the rows hold.
pub open spec fn row_views(v: Seq<Vec<String>>) -> Seq<Seq<Seq<char>>> {
    v.map_values(|row: Vec<String>| text::views(row@))
}

/// The rows that an answer holds.
pub fn rows_of(stdout: &str) -> (r: Vec<Vec<String>>)
    ensures
        row_views(r@) == rows_in(text::lines_of(stdout@)),
{
    let lines = text::lines(stdout);
    let ghost all = text::views(lines@);
    let mut out: Vec<Vec<String>> = Vec::new();
    let mut i: usize = 0;
    assert(row_views(out@) =~= rows_in(all.take(0)));
    while i < lines.len()
        invariant
            i <= lines@.len(),
            all == text::views(lines@),
            row_views(out@) == rows_in(all.take(i as int)),
        decreases lines@.len() - i,
    {
        let ghost before = row_views(out@);
        proof {
            assert(all.take(i + 1).drop_last() =~= all.take(i as int));
            assert(all.take(i + 1).last() == lines@[i as int]@);
        }
        if !lines[i].as_str().is_empty() {
            let row = text::split(lines[i].as_str(), '\t');
            out.push(row);
            assert(row_views(out@) =~= before.push(text::views(row@)));
        }
        i = i + 1;
    }
    assert(all.take(i as int) =~= all);
    out
}

/// A command reaches the cluster over its folder and its port, as the user given, and hands on
/// the rest as it is.
pub proof fn law_a_command_reaches_its_cluster(
    c: PgCommand,
    conn: PgConnInfo,
    program: Seq<char>,
    rest: Seq<Seq<char>>,
    label: Seq<char>,
)
    requires
        runs(c, conn, program, rest, label),
    ensures
        c.program@ == paths::under(conn.bin_dir@, program),
        c.args@.len() == 6 + rest.len(),
        c.args@[0]@ == "-h"@ && c.args@[1]@ == conn.host@,
        c.args@[2]@ == "-p"@ && text::unsigned_of(c.args@[3]@, u16::MAX as nat) == Some(
            conn.port as nat,
        ),
        c.args@[4]@ == "-U"@ && c.args@[5]@ == conn.user@,
        text::views(c.args@).skip(6) == rest,
        c.label@ == label,
{
    let all = text::views(c.args@);
    assert(all.len() == c.args@.len());
    assert(all[0] == c.args@[0]@ && all[1] == c.args@[1]@ && all[2] == c.args@[2]@);
    assert(all[3] == c.args@[3]@ && all[4] == c.args@[4]@ && all[5] == c.args@[5]@);
    text::law_a_written_number_is_read_again(conn.port as nat, u16::MAX as nat);
    assert(all.skip(6) =~= rest);
}

/// Every line that is not empty is a row, in the order of the output, and its columns stand
/// between tabs.
pub proof fn law_every_line_is_a_row(lines: Seq<Seq<char>>)
    ensures
        rows_in(lines) == lines.filter(|line: Seq<char>| line.len() > 0).map_values(
            |line: Seq<char>| text::split_on(line, '\t'),
        ),
    decreases lines.len(),
{
    let pick = |line: Seq<char>| line.len() > 0;
    let turn = |line: Seq<char>| text::split_on(line, '\t');
    order::lemma_picked(lines, pick, turn);
    if lines.len() > 0 {
        law_every_line_is_a_row(lines.drop_last());
    }
}

/// Inside quotes a quote is doubled, and every other letter stays as it is.
pub proof fn law_quotes_are_doubled(s: Seq<char>, q: char, c: char)
    ensures
        doubled(s.push(q), q) == doubled(s, q).push(q).push(q),
        c != q ==> doubled(s.push(c), q) == doubled(s, q).push(c),
        !s.contains(q) ==> doubled(s, q) == s,
    decreases s.len(),
{
    assert(s.push(q).drop_last() =~= s);
    assert(s.push(c).drop_last() =~= s);
    if s.len() > 0 && !s.contains(q) {
        let rest = s.drop_last();
        assert(!rest.contains(q)) by {
            if rest.contains(q) {
                let i = choose|i: int| 0 <= i < rest.len() && rest[i] == q;
                assert(s[i] == q);
            }
        }
        assert(s.contains(s.last()));
        law_quotes_are_doubled(rest, q, c);
        assert(rest.push(s.last()) =~= s);
    } else if s.len() == 0 {
        assert(doubled(s, q) =~= s);
    }
}

} // verus!
