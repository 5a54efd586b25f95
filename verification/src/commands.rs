//! Commands that Odoo runs on a database, and what comes of them.

use crate::databases;
use crate::errors::CoreError;
use crate::events::{Event, EventEnvelope};
use crate::launch::Prepared;
use crate::model::Id;
use crate::modules::ModuleListing;
use crate::odoo::OneShotOutput;
use crate::paths;
use crate::pg_admin;
use crate::pg_admin::{PgAdminError, PgCommand};
use crate::records;
use crate::records::{Core, ModuleInstall, Stamp, State};
use crate::rows;
use crate::text;
use vstd::prelude::*;
use vstd::string::*;

verus! {

// --- what is run ----------------------------------------------------------

/// The arguments that install or update modules: `flag` is `-i` or `-u`.
pub open spec fn flag_args(
    checkout_root: Seq<char>,
    conf_path: Seq<char>,
    database: Seq<char>,
    flag: Seq<char>,
    modules: Seq<Seq<char>>,
) -> Seq<Seq<char>> {
    seq![
        paths::under(checkout_root, "odoo-bin"@),
        "-c"@,
        conf_path,
        "-d"@,
        database,
        flag,
        text::joined_with(modules, ","@),
        "--stop-after-init"@,
        "--no-http"@,
    ]
}

/// The arguments that install or update modules.
pub fn module_flag_args(
    prepared: &Prepared,
    checkout_root: &str,
    flag: &str,
    module_names: &Vec<String>,
) -> (r: Vec<String>)
    ensures
        text::views(r@) == flag_args(
            checkout_root@,
            prepared.conf_path@,
            prepared.database.name@,
            flag@,
            text::views(module_names@),
        ),
{
    let mut out: Vec<String> = Vec::new();
    out.push(paths::join(checkout_root, "odoo-bin"));
    out.push("-c".to_owned());
    out.push(prepared.conf_path.clone());
    out.push("-d".to_owned());
    out.push(prepared.database.name.clone());
    out.push(flag.to_owned());
    out.push(text::join(module_names, ","));
    out.push("--stop-after-init".to_owned());
    out.push("--no-http".to_owned());
    assert(text::views(out@) =~= flag_args(
        checkout_root@,
        prepared.conf_path@,
        prepared.database.name@,
        flag@,
        text::views(module_names@),
    ));
    out
}

/// A name as it stands between the quotes of a Python literal: quotes in it are escaped.
pub open spec fn escaped(name: Seq<char>) -> Seq<char>
    decreases name.len(),
{
    if name.len() == 0 {
        Seq::empty()
    } else {
        escaped(name.drop_last()) + if name.last() == '\'' {
            seq!['\\', '\'']
        } else {
            seq![name.last()]
        }
    }
}

fn escape(name: &str) -> (r: String)
    ensures
        r@ == escaped(name@),
{
    let chars = text::chars_of(name);
    let mut out = String::new();
    let mut i: usize = 0;
    assert(name@.take(0) =~= Seq::<char>::empty());
    assert(out@ =~= escaped(name@.take(0)));
    while i < chars.len()
        invariant
            i <= chars@.len(),
            chars@ == name@,
            out@ == escaped(name@.take(i as int)),
        decreases chars@.len() - i,
    {
        proof {
            assert(name@.take(i + 1).drop_last() =~= name@.take(i as int));
            assert(name@.take(i + 1).last() == chars@[i as int]);
        }
        if chars[i] == '\'' {
            out.push('\\');
        }
        out.push(chars[i]);
        assert(out@ =~= escaped(name@.take(i + 1)));
        i = i + 1;
    }
    assert(name@.take(i as int) =~= name@);
    out
}

/// The Python literals of names.
pub open spec fn literals(names: Seq<Seq<char>>) -> Seq<Seq<char>> {
    names.map_values(|n: Seq<char>| "'"@ + escaped(n) + "'"@)
}

/// The script that uninstalls modules.
pub open spec fn uninstall_text(modules: Seq<Seq<char>>) -> Seq<char> {
    "records = env['ir.module.module'].search([('name', 'in', ["@ + text::joined_with(
        literals(modules),
        ", "@,
    ) + "])])\nrecords.button_immediate_uninstall()\nenv.cr.commit()\n"@
}

/// The script that uninstalls modules.
pub fn uninstall_script(module_names: &Vec<String>) -> (r: String)
    ensures
        r@ == uninstall_text(text::views(module_names@)),
{
    let mut quoted: Vec<String> = Vec::new();
    let ghost names = text::views(module_names@);
    let mut i: usize = 0;
    while i < module_names.len()
        invariant
            i <= module_names@.len(),
            names == text::views(module_names@),
            quoted@.len() == i,
            forall|j: int| 0 <= j < i ==> (#[trigger] quoted@[j])@ == literals(names)[j],
        decreases module_names@.len() - i,
    {
        let mut literal = text::joined("'", escape(module_names[i].as_str()).as_str());
        literal.append("'");
        assert(literal@ == literals(names)[i as int]);
        quoted.push(literal);
        i = i + 1;
    }
    assert(text::views(quoted@) =~= literals(names));
    let mut out = text::joined(
        "records = env['ir.module.module'].search([('name', 'in', [",
        text::join(&quoted, ", ").as_str(),
    );
    out.append("])])\nrecords.button_immediate_uninstall()\nenv.cr.commit()\n");
    out
}

/// The arguments of the shell that the script is fed to.
pub fn uninstall_args(prepared: &Prepared, checkout_root: &str) -> (r: Vec<String>)
    ensures
        text::views(r@) == seq![
            paths::under(checkout_root@, "odoo-bin"@),
            "shell"@,
            "-c"@,
            prepared.conf_path@,
            "-d"@,
            prepared.database.name@,
            "--no-http"@,
        ],
{
    let mut out: Vec<String> = Vec::new();
    out.push(paths::join(checkout_root, "odoo-bin"));
    out.push("shell".to_owned());
    out.push("-c".to_owned());
    out.push(prepared.conf_path.clone());
    out.push("-d".to_owned());
    out.push(prepared.database.name.clone());
    out.push("--no-http".to_owned());
    assert(text::views(out@) =~= seq![
        paths::under(checkout_root@, "odoo-bin"@),
        "shell"@,
        "-c"@,
        prepared.conf_path@,
        "-d"@,
        prepared.database.name@,
        "--no-http"@,
    ]);
    out
}

/// What asks whether a database holds the tables of Odoo.
pub const HAS_TABLES_QUERY: &'static str =
    "SELECT to_regclass('public.ir_module_module') IS NOT NULL";

/// Whether the answer says that a database holds the tables of Odoo; a database that cannot be
/// asked does not.
pub fn holds_odoo_tables(answer: &Result<Option<String>, PgAdminError>) -> (r: bool)
    ensures
        r == (answer matches Ok(Some(value)) && value@ == "t"@),
{
    match answer {
        Ok(Some(value)) => text::same_text(value.as_str(), "t"),
        _ => false,
    }
}

/// The arguments that neutralize a database.
pub fn neutralize_args(prepared: &Prepared, checkout_root: &str) -> (r: Vec<String>)
    ensures
        text::views(r@) == seq![
            paths::under(checkout_root@, "odoo-bin"@),
            "neutralize"@,
            "-c"@,
            prepared.conf_path@,
            "-d"@,
            prepared.database.name@,
        ],
{
    let mut out: Vec<String> = Vec::new();
    out.push(paths::join(checkout_root, "odoo-bin"));
    out.push("neutralize".to_owned());
    out.push("-c".to_owned());
    out.push(prepared.conf_path.clone());
    out.push("-d".to_owned());
    out.push(prepared.database.name.clone());
    assert(text::views(out@) =~= seq![
        paths::under(checkout_root@, "odoo-bin"@),
        "neutralize"@,
        "-c"@,
        prepared.conf_path@,
        "-d"@,
        prepared.database.name@,
    ]);
    out
}

/// Asks for the version of a module on a database.
pub fn version_query(prepared: &Prepared, module_name: &str) -> (r: PgCommand)
    ensures
        pg_admin::runs(
            r,
            prepared.conn,
            "psql"@,
            seq![
                prepared.database.name@,
                "-tAc"@,
                "SELECT latest_version FROM ir_module_module WHERE name = '"@ + pg_admin::doubled(
                    module_name@,
                    '\'',
                ) + "'"@,
            ],
            "psql (query_scalar)"@,
        ),
{
    let mut sql = text::joined(
        "SELECT latest_version FROM ir_module_module WHERE name = '",
        pg_admin::escape_sql_literal(module_name).as_str(),
    );
    sql.append("'");
    pg_admin::query_scalar(&prepared.conn, prepared.database.name.as_str(), sql.as_str())
}

// --- what comes of it -----------------------------------------------------

/// Whether an error says that a command on a database failed, and what it printed.
pub open spec fn is_failure(
    e: CoreError,
    database: Seq<char>,
    action: Seq<char>,
    output: OneShotOutput,
) -> bool {
    &&& e matches CoreError::ModuleCommandFailed { database: d, action: a, stdout, stderr }
    &&& d@ == database
    &&& a@ == action
    &&& stdout == output.stdout
    &&& stderr == output.stderr
}

/// Whether a command succeeded; if not, what it printed.
pub fn command_outcome(database: &str, action: &str, output: OneShotOutput) -> (r: Result<
    (),
    CoreError,
>)
    ensures
        match r {
            Ok(_) => output.success,
            Err(e) => !output.success && is_failure(e, database@, action@, output),
        },
{
    if output.success {
        Ok(())
    } else {
        Err(
            CoreError::ModuleCommandFailed {
                database: database.to_owned(),
                action: action.to_owned(),
                stdout: output.stdout,
                stderr: output.stderr,
            },
        )
    }
}

/// The records of events.
pub open spec fn envelopes(stamps: Seq<Stamp>, events: Seq<Event>) -> Seq<EventEnvelope> {
    Seq::new(
        events.len(),
        |i: int|
            EventEnvelope {
                id: stamps[i].event_id,
                occurred_at: stamps[i].now,
                duration_ms: None,
                event: events[i],
            },
    )
}

/// What happens when modules are installed.
pub open spec fn installed_events(database_id: Id, names: Seq<String>) -> Seq<Event> {
    names.map_values(|name: String| Event::ModuleInstalled { database_id, technical_name: name })
}

/// What happens when modules are uninstalled.
pub open spec fn uninstalled_events(database_id: Id, names: Seq<String>) -> Seq<Event> {
    names.map_values(|name: String| Event::ModuleUninstalled { database_id, technical_name: name })
}

/// What comes of the request to record events of modules once a command ran.
pub open spec fn modules_told(
    before: State,
    after: State,
    r: Result<(), CoreError>,
    database: Seq<char>,
    action: Seq<char>,
    output: OneShotOutput,
    more: Seq<EventEnvelope>,
) -> bool {
    match r {
        Ok(_) => {
            &&& output.success
            &&& rows::all_fit(before.events, more)
            &&& after == (State { events: before.events + more, ..before })
        },
        Err(e) => if !output.success {
            is_failure(e, database, action, output) && after == before
        } else {
            &&& !rows::all_fit(before.events, more)
            &&& rows::is_taken_error(e, "events"@)
            &&& after == (State { events: rows::with_fitting(before.events, more), ..before })
        },
    }
}

/// The first of the modules with the name.
pub open spec fn module_at(modules: Seq<ModuleListing>, name: Seq<char>) -> nat
    decreases modules.len(),
{
    if modules.len() == 0 || modules[0].technical_name@ == name {
        0
    } else {
        1 + module_at(modules.skip(1), name)
    }
}

/// The first of the modules with the name, if there is one.
pub fn find_module<'a>(modules: &'a Vec<ModuleListing>, name: &str) -> (r: Option<&'a ModuleListing>)
    ensures
        match r {
            Some(found) => module_at(modules@, name@) < modules@.len() && *found
                == modules@[module_at(modules@, name@) as int],
            None => module_at(modules@, name@) >= modules@.len(),
        },
{
    let mut i: usize = 0;
    assert(modules@.skip(0) =~= modules@);
    while i < modules.len()
        invariant
            i <= modules@.len(),
            module_at(modules@, name@) == i + module_at(modules@.skip(i as int), name@),
        decreases modules@.len() - i,
    {
        assert(modules@.skip(i as int)[0] == modules@[i as int]);
        if text::same_text(modules[i].technical_name.as_str(), name) {
            return Some(&modules[i]);
        }
        assert(modules@.skip(i as int).skip(1) =~= modules@.skip(i + 1));
        i = i + 1;
    }
    None
}

/// The last hash that is given for a module of the name.
pub open spec fn last_hash(
    names: Seq<Seq<char>>,
    hashes: Seq<Option<Seq<char>>>,
    name: Seq<char>,
) -> Option<Seq<char>>
    decreases names.len(),
{
    if names.len() == 0 {
        None
    } else if names.last() == name && hashes[names.len() - 1] is Some {
        hashes[names.len() - 1]
    } else {
        last_hash(names.drop_last(), hashes, name)
    }
}

/// Whether what is read of each module on each database is what was given for it, and where
/// nothing was given, what was read before.
pub open spec fn remembered(
    before: Seq<ModuleInstall>,
    after: Seq<ModuleInstall>,
    database_id: Id,
    names: Seq<Seq<char>>,
    hashes: Seq<Option<Seq<char>>>,
) -> bool {
    forall|d: Id, name: Seq<char>| #[trigger]
        databases::recorded_hash(after, d, name) == (if d == database_id && last_hash(
            names,
            hashes,
            name,
        ) is Some {
            last_hash(names, hashes, name)
        } else {
            databases::recorded_hash(before, d, name)
        })
}

/// Optional texts.
pub open spec fn opt_views(v: Seq<Option<String>>) -> Seq<Option<Seq<char>>> {
    v.map_values(|o: Option<String>| text::opt_view(o))
}

impl Core {
    /// Records events one after another, until one comes whose identifier is taken.
    fn record_all(&mut self, events: Vec<Event>, stamps: &Vec<Stamp>) -> (r: Result<(), CoreError>)
        requires
            stamps@.len() >= events@.len(),
        ensures
            match r {
                Ok(_) => {
                    &&& rows::all_fit(old(self)@.events, envelopes(stamps@, events@))
                    &&& final(self)@ == (State {
                        events: old(self)@.events + envelopes(stamps@, events@),
                        ..old(self)@
                    })
                },
                Err(e) => {
                    &&& !rows::all_fit(old(self)@.events, envelopes(stamps@, events@))
                    &&& rows::is_taken_error(e, "events"@)
                    &&& final(self)@ == (State {
                        events: rows::with_fitting(
                            old(self)@.events,
                            envelopes(stamps@, events@),
                        ),
                        ..old(self)@
                    })
                },
            },
            records::sound(old(self)@) ==> records::sound(final(self)@),
    {
        let ghost all = events@;
        let mut rest = events;
        let mut more: Vec<EventEnvelope> = Vec::new();
        let mut i: usize = 0;
        let count: usize = rest.len();
        while i < count
            invariant
                i <= count == all.len(),
                count <= stamps@.len(),
                rest@ == all.skip(i as int),
                more@.len() == i,
                forall|j: int|
                    0 <= j < i ==> #[trigger] more@[j] == envelopes(stamps@, all)[j],
            decreases count - i,
        {
            let event = rest.remove(0);
            assert(event == all[i as int]);
            assert(rest@ =~= all.skip(i + 1));
            more.push(
                EventEnvelope {
                    id: stamps[i].event_id,
                    occurred_at: stamps[i].now,
                    duration_ms: None,
                    event,
                },
            );
            i = i + 1;
        }
        assert(more@ =~= envelopes(stamps@, all));
        proof {
            let fits = rows::fitting(self@.events, more@) as int;
            rows::lemma_fitting(self@.events, more@);
            rows::lemma_added(self@.events, more@.take(fits));
            assert(more@.take(more@.len() as int) =~= more@);
        }
        rows::insert_all(&mut self.events, more, "events")
    }

    /// Notes that modules were installed on a database, if the command succeeded.
    pub fn install_modules(
        &mut self,
        database_id: Id,
        database_name: &str,
        module_names: &Vec<String>,
        output: OneShotOutput,
        stamps: &Vec<Stamp>,
    ) -> (r: Result<(), CoreError>)
        requires
            stamps@.len() >= module_names@.len(),
        ensures
            modules_told(
                old(self)@,
                final(self)@,
                r,
                database_name@,
                "install"@,
                output,
                envelopes(stamps@, installed_events(database_id, module_names@)),
            ),
            records::sound(old(self)@) ==> records::sound(final(self)@),
    {
        if let Err(e) = command_outcome(database_name, "install", output) {
            return Err(e);
        }
        let mut events: Vec<Event> = Vec::new();
        let mut i: usize = 0;
        while i < module_names.len()
            invariant
                i <= module_names@.len(),
                events@.len() == i,
                forall|j: int|
                    0 <= j < i ==> #[trigger] events@[j] == (Event::ModuleInstalled {
                        database_id,
                        technical_name: module_names@[j],
                    }),
            decreases module_names@.len() - i,
        {
            events.push(
                Event::ModuleInstalled { database_id, technical_name: module_names[i].clone() },
            );
            i = i + 1;
        }
        assert(events@ =~= installed_events(database_id, module_names@));
        self.record_all(events, stamps)
    }

    /// Notes that modules were uninstalled from a database, if the command succeeded.
    pub fn uninstall_modules(
        &mut self,
        database_id: Id,
        database_name: &str,
        module_names: &Vec<String>,
        output: OneShotOutput,
        stamps: &Vec<Stamp>,
    ) -> (r: Result<(), CoreError>)
        requires
            stamps@.len() >= module_names@.len(),
        ensures
            modules_told(
                old(self)@,
                final(self)@,
                r,
                database_name@,
                "uninstall"@,
                output,
                envelopes(stamps@, uninstalled_events(database_id, module_names@)),
            ),
            records::sound(old(self)@) ==> records::sound(final(self)@),
    {
        if let Err(e) = command_outcome(database_name, "uninstall", output) {
            return Err(e);
        }
        let mut events: Vec<Event> = Vec::new();
        let mut i: usize = 0;
        while i < module_names.len()
            invariant
                i <= module_names@.len(),
                events@.len() == i,
                forall|j: int|
                    0 <= j < i ==> #[trigger] events@[j] == (Event::ModuleUninstalled {
                        database_id,
                        technical_name: module_names@[j],
                    }),
            decreases module_names@.len() - i,
        {
            events.push(
                Event::ModuleUninstalled { database_id, technical_name: module_names[i].clone() },
            );
            i = i + 1;
        }
        assert(events@ =~= uninstalled_events(database_id, module_names@));
        self.record_all(events, stamps)
    }

    /// Notes that a module was updated on a database: `answer` is the version that it has now, or
    /// why there is no telling.
    pub fn upgrade_module(
        &mut self,
        database_id: Id,
        module_name: String,
        answer: Result<Option<String>, CoreError>,
        stamp: &Stamp,
    ) -> (r: Result<(), CoreError>)
        ensures
            match answer {
                Err(e) => r == Err::<(), CoreError>(e) && final(self)@ == old(self)@,
                Ok(version) => match r {
                    Ok(_) => {
                        &&& records::may_tell(old(self)@, *stamp)
                        &&& exists|to_version: String|
                            {
                                &&& match version {
                                    Some(v) => to_version == v,
                                    None => to_version@ == "unknown"@,
                                }
                                &&& final(self)@ == #[trigger] records::told(
                                    old(self)@,
                                    *stamp,
                                    None,
                                    Event::ModuleUpgraded {
                                        database_id,
                                        technical_name: module_name,
                                        to_version,
                                    },
                                )
                            }
                    },
                    Err(e) => {
                        &&& !records::may_tell(old(self)@, *stamp)
                        &&& final(self)@ == old(self)@
                        &&& rows::is_taken_error(e, "events"@)
                    },
                },
            },
            records::sound(old(self)@) ==> records::sound(final(self)@),
    {
        let to_version = match answer {
            Err(e) => {
                return Err(e);
            },
            Ok(Some(version)) => version,
            Ok(None) => "unknown".to_owned(),
        };
        if let Err(e) = self.can_record(stamp) {
            return Err(e);
        }
        self.record(
            stamp,
            None,
            Event::ModuleUpgraded { database_id, technical_name: module_name, to_version },
        );
        Ok(())
    }

    /// Notes that a database was neutralized, if the command succeeded.
    pub fn neutralize_database(
        &mut self,
        database_id: Id,
        database_name: &str,
        output: OneShotOutput,
        took_ms: u64,
        stamp: &Stamp,
    ) -> (r: Result<(), CoreError>)
        ensures
            match r {
                Ok(_) => {
                    &&& output.success
                    &&& records::may_tell(old(self)@, *stamp)
                    &&& final(self)@ == records::told(
                        old(self)@,
                        *stamp,
                        Some(took_ms),
                        Event::DatabaseNeutralized { database_id },
                    )
                },
                Err(e) => {
                    &&& final(self)@ == old(self)@
                    &&& if !output.success {
                        is_failure(e, database_name@, "neutralize"@, output)
                    } else {
                        !records::may_tell(old(self)@, *stamp) && rows::is_taken_error(
                            e,
                            "events"@,
                        )
                    }
                },
            },
            records::sound(old(self)@) ==> records::sound(final(self)@),
    {
        if let Err(e) = command_outcome(database_name, "neutralize", output) {
            return Err(e);
        }
        if let Err(e) = self.can_record(stamp) {
            return Err(e);
        }
        self.record(stamp, Some(took_ms), Event::DatabaseNeutralized { database_id });
        Ok(())
    }

    /// Records what the files of modules came to when they were put on a database: a module whose
    /// hash is not given is passed over.
    pub fn remember_module_contents(
        &mut self,
        database_id: Id,
        module_names: &Vec<String>,
        hashes: &Vec<Option<String>>,
    )
        requires
            hashes@.len() >= module_names@.len(),
        ensures
            remembered(
                old(self)@.installs,
                final(self)@.installs,
                database_id,
                text::views(module_names@),
                opt_views(hashes@),
            ),
            final(self)@ == (State { installs: final(self)@.installs, ..old(self)@ }),
            records::sound(old(self)@) ==> records::sound(final(self)@),
    {
        let ghost before = self@;
        let ghost names = text::views(module_names@);
        let ghost all = opt_views(hashes@);
        let mut i: usize = 0;
        assert(names.take(0) =~= Seq::<Seq<char>>::empty());
        while i < module_names.len()
            invariant
                i <= module_names@.len() <= hashes@.len(),
                names == text::views(module_names@),
                all == opt_views(hashes@),
                remembered(
                    before.installs,
                    self@.installs,
                    database_id,
                    names.take(i as int),
                    all,
                ),
                self@ == (State { installs: self@.installs, ..before }),
                records::sound(before) ==> records::sound(self@),
            decreases module_names@.len() - i,
        {
            let ghost middle = self@.installs;
            let ghost upto = names.take(i + 1);
            proof {
                assert(upto.drop_last() =~= names.take(i as int));
                assert(upto.last() == module_names@[i as int]@);
                assert(all[i as int] == text::opt_view(hashes@[i as int]));
            }
            if let Some(hash) = &hashes[i] {
                self.record_module_install(
                    database_id,
                    module_names[i].as_str(),
                    hash.as_str(),
                );
                proof {
                    let install = choose|install: ModuleInstall|
                        {
                            &&& install.database_id == database_id
                            &&& install.technical_name@ == upto.last()
                            &&& install.content_hash@ == hash@
                            &&& self@ == (State {
                                installs: (#[trigger] databases::without_install(
                                    middle,
                                    install.database_id,
                                    install.technical_name@,
                                )).push(install),
                                ..(State { installs: middle, ..before })
                            })
                        };
                    assert forall|d: Id, name: Seq<char>| #[trigger]
                        databases::recorded_hash(self@.installs, d, name) == (if d == database_id
                            && last_hash(upto, all, name) is Some {
                            last_hash(upto, all, name)
                        } else {
                            databases::recorded_hash(before.installs, d, name)
                        }) by {
                        databases::law_a_recorded_install_is_read(middle, install, d, name);
                        assert(databases::recorded_hash(middle, d, name) == (if d == database_id
                            && last_hash(names.take(i as int), all, name) is Some {
                            last_hash(names.take(i as int), all, name)
                        } else {
                            databases::recorded_hash(before.installs, d, name)
                        }));
                    }
                }
            }
            assert(remembered(before.installs, self@.installs, database_id, upto, all));
            i = i + 1;
        }
        assert(names.take(i as int) =~= names);
    }
}

/// A name is escaped letter by letter: a quote gets a backslash before it, and every other letter
/// stays as it is.
pub proof fn law_names_are_escaped_letter_by_letter(a: Seq<char>, c: char)
    ensures
        escaped(a + seq!['\'']) == escaped(a) + seq!['\\', '\''],
        c != '\'' ==> escaped(a + seq![c]) == escaped(a) + seq![c],
        !a.contains('\'') ==> escaped(a) == a,
    decreases a.len(),
{
    assert((a + seq!['\'']).drop_last() =~= a);
    assert((a + seq![c]).drop_last() =~= a);
    if a.len() > 0 && !a.contains('\'') {
        let rest = a.drop_last();
        assert(!rest.contains('\'')) by {
            if rest.contains('\'') {
                let i = choose|i: int| 0 <= i < rest.len() && rest[i] == '\'';
                assert(a[i] == '\'');
            }
        }
        assert(a.contains(a.last()));
        law_names_are_escaped_letter_by_letter(rest, c);
        assert(rest + seq![a.last()] =~= a);
    } else if a.len() == 0 {
        assert(escaped(a) =~= a);
    }
}

/// The script names every module that is to go, quoted and in the order given.
pub proof fn law_the_script_names_every_module(modules: Seq<Seq<char>>, i: int)
    requires
        0 <= i < modules.len(),
    ensures
        literals(modules).len() == modules.len(),
        literals(modules)[i] == "'"@ + escaped(modules[i]) + "'"@,
        text::has_part(uninstall_text(modules), "'"@ + escaped(modules[i]) + "'"@),
        text::has_part(uninstall_text(modules), text::joined_with(literals(modules), ", "@)),
{
    let all = literals(modules);
    let joined = text::joined_with(all, ", "@);
    let head = "records = env['ir.module.module'].search([('name', 'in', ["@;
    let tail = "])])\nrecords.button_immediate_uninstall()\nenv.cr.commit()\n"@;
    let whole = uninstall_text(modules);
    let n = head.len() as int;
    assert(whole.subrange(n, n + joined.len()) =~= joined);
    let at = lemma_part_of_joined(all, ", "@, i);
    assert(whole.subrange(n + at, n + at + all[i].len()) =~= joined.subrange(
        at,
        at + all[i].len(),
    ));
}

proof fn lemma_part_of_joined(parts: Seq<Seq<char>>, sep: Seq<char>, i: int) -> (at: int)
    requires
        0 <= i < parts.len(),
    ensures
        0 <= at <= text::joined_with(parts, sep).len() - parts[i].len(),
        text::joined_with(parts, sep).subrange(at, at + parts[i].len()) == parts[i],
    decreases parts.len(),
{
    let joined = text::joined_with(parts, sep);
    if parts.len() == 1 {
        assert(joined.subrange(0, parts[i].len() as int) =~= parts[i]);
        0
    } else if i < parts.len() - 1 {
        let rest = parts.drop_last();
        let at = lemma_part_of_joined(rest, sep, i);
        let before = text::joined_with(rest, sep);
        assert(joined.subrange(at, at + parts[i].len()) =~= before.subrange(at, at + parts[i].len()));
        at
    } else {
        let at = joined.len() - parts[i].len();
        assert(joined.subrange(at, at + parts[i].len()) =~= parts[i]);
        at
    }
}

/// A command on modules is about the database and the configuration given, and about all the
/// modules given; it ends by itself and serves nobody.
pub proof fn law_a_command_is_about_its_modules(
    checkout_root: Seq<char>,
    conf_path: Seq<char>,
    database: Seq<char>,
    flag: Seq<char>,
    modules: Seq<Seq<char>>,
)
    ensures
        ({
            let args = flag_args(checkout_root, conf_path, database, flag, modules);
            &&& args[0] == paths::under(checkout_root, "odoo-bin"@)
            &&& exists|i: int|
                0 <= i < args.len() - 1 && #[trigger] args[i] == "-c"@ && args[i + 1] == conf_path
            &&& exists|i: int|
                0 <= i < args.len() - 1 && #[trigger] args[i] == "-d"@ && args[i + 1] == database
            &&& exists|i: int|
                0 <= i < args.len() - 1 && #[trigger] args[i] == flag && args[i + 1]
                    == text::joined_with(modules, ","@)
            &&& args.contains("--stop-after-init"@)
            &&& args.contains("--no-http"@)
            &&& args.len() == 9
        }),
{
    let args = flag_args(checkout_root, conf_path, database, flag, modules);
    assert(args[1] == "-c"@ && args[2] == conf_path);
    assert(args[3] == "-d"@ && args[4] == database);
    assert(args[5] == flag);
    assert(args[7] == "--stop-after-init"@);
    assert(args[8] == "--no-http"@);
}

/// Where a command succeeded, each of its modules is told of, in their order, each with its own
/// stamp.
pub proof fn law_every_module_is_told_of(
    before: State,
    after: State,
    r: Result<(), CoreError>,
    database: Seq<char>,
    action: Seq<char>,
    output: OneShotOutput,
    stamps: Seq<Stamp>,
    events: Seq<Event>,
    i: int,
)
    requires
        modules_told(before, after, r, database, action, output, envelopes(stamps, events)),
        stamps.len() >= events.len(),
    ensures
        r is Ok ==> output.success && after.events.len() == before.events.len() + events.len(),
        r is Ok && 0 <= i < before.events.len() ==> after.events[i] == before.events[i],
        r is Ok && 0 <= i < events.len() ==> {
            &&& after.events[before.events.len() + i].event == events[i]
            &&& after.events[before.events.len() + i].id == stamps[i].event_id
            &&& after.events[before.events.len() + i].occurred_at == stamps[i].now
            &&& after.events[before.events.len() + i].duration_ms is None
        },
        !output.success ==> r is Err && after == before,
        output.success && rows::addable(before.events, envelopes(stamps, events)) ==> r is Ok,
        after.databases == before.databases && after.installs == before.installs,
{
    if output.success && rows::addable(before.events, envelopes(stamps, events)) {
        let more = envelopes(stamps, events);
        assert(more.take(more.len() as int) =~= more);
        rows::law_records_are_added_up_to_the_first_in_use(before.events, more, more.len() as int);
    }
}

/// The events of an installation name its modules one by one, and so do those of a removal.
pub proof fn law_events_name_their_modules(database_id: Id, names: Seq<String>, i: int)
    requires
        0 <= i < names.len(),
    ensures
        installed_events(database_id, names).len() == names.len(),
        installed_events(database_id, names)[i] == (Event::ModuleInstalled {
            database_id,
            technical_name: names[i],
        }),
        uninstalled_events(database_id, names).len() == names.len(),
        uninstalled_events(database_id, names)[i] == (Event::ModuleUninstalled {
            database_id,
            technical_name: names[i],
        }),
{
}

/// A module is found at the first place where one of its name is listed.
pub proof fn law_a_module_is_found_by_its_name(modules: Seq<ModuleListing>, name: Seq<char>, k: int)
    ensures
        0 <= k < modules.len() && modules[k].technical_name@ == name && (forall|i: int|
            0 <= i < k ==> (#[trigger] modules[i]).technical_name@ != name) ==> module_at(
            modules,
            name,
        ) == k,
        (forall|i: int| 0 <= i < modules.len() ==> (#[trigger] modules[i]).technical_name@ != name)
            ==> module_at(modules, name) >= modules.len(),
    decreases modules.len(),
{
    if modules.len() > 0 {
        let rest = modules.skip(1);
        law_a_module_is_found_by_its_name(rest, name, k - 1);
        assert(forall|i: int| 0 <= i < rest.len() ==> rest[i] == modules[i + 1]);
    }
}

/// What is remembered of a module is the last hash given for it in that database; of a module
/// without one, and in every other database, all stays as it was.
pub proof fn law_the_last_hash_is_remembered(
    before: Seq<ModuleInstall>,
    after: Seq<ModuleInstall>,
    database_id: Id,
    names: Seq<Seq<char>>,
    hashes: Seq<Option<Seq<char>>>,
    k: int,
    other: Id,
    name: Seq<char>,
)
    requires
        remembered(before, after, database_id, names, hashes),
        names.len() <= hashes.len(),
    ensures
        0 <= k < names.len() && names[k] == name && hashes[k] is Some && (forall|i: int|
            k < i < names.len() ==> #[trigger] names[i] != name || hashes[i] is None)
            ==> databases::recorded_hash(after, database_id, name) == hashes[k],
        (forall|i: int| 0 <= i < names.len() ==> #[trigger] names[i] != name || hashes[i] is None)
            ==> databases::recorded_hash(after, database_id, name) == databases::recorded_hash(
            before,
            database_id,
            name,
        ),
        other != database_id ==> databases::recorded_hash(after, other, name)
            == databases::recorded_hash(before, other, name),
{
    lemma_last_hash(names, hashes, name, k);
}

proof fn lemma_last_hash(
    names: Seq<Seq<char>>,
    hashes: Seq<Option<Seq<char>>>,
    name: Seq<char>,
    k: int,
)
    ensures
        0 <= k < names.len() && names[k] == name && hashes[k] is Some && (forall|i: int|
            k < i < names.len() ==> #[trigger] names[i] != name || hashes[i] is None) ==> last_hash(
            names,
            hashes,
            name,
        ) == hashes[k],
        (forall|i: int| 0 <= i < names.len() ==> #[trigger] names[i] != name || hashes[i] is None)
            ==> last_hash(names, hashes, name) is None,
    decreases names.len(),
{
    if names.len() > 0 {
        let rest = names.drop_last();
        lemma_last_hash(rest, hashes, name, k);
        assert(forall|i: int| 0 <= i < rest.len() ==> rest[i] == names[i]);
        assert(names[names.len() - 1] == names.last());
    }
}

} // verus!
