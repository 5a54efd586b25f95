//! Starting servers: their configuration, what they are started with, and what comes of it.

use crate::codec;
use crate::databases;
use crate::environment;
use crate::environment::Environment;
use crate::errors::CoreError;
use crate::events::Event;
use crate::model::{AddonsSource, Database, Id, OdooServer, PostgresInstance, ServerState};
use crate::odoo::{LogStream, OdooConfig, OdooState};
use crate::odoo_conf;
use crate::odoo_conf::OdooConfParams;
use crate::order;
use crate::paths;
use crate::pg_admin::PgConnInfo;
use crate::postgres::PgState;
use crate::records;
use crate::records::{Core, Stamp, State};
use crate::rows;
use crate::rows::Row;
use crate::servers;
use crate::servers::Surroundings;
use crate::text;
use vstd::prelude::*;
use vstd::string::*;

verus! {

// --- what a server is started with ----------------------------------------

/// The folders that modules are loaded from.
pub open spec fn paths_of(sources: Seq<AddonsSource>) -> Seq<Seq<char>> {
    sources.map_values(|s: AddonsSource| s.path_or_url@)
}

/// The folders that a server loads modules from, the first to load first.
pub open spec fn addons_of(s: State, server_id: Id) -> Seq<Seq<char>> {
    paths_of(rows::listing(s.sources, Some(server_id)))
}

/// What a server would be started with.
#[derive(Debug)]
pub struct StartupPreview {
    pub conf: String,
    pub command: String,
}

/// The folder that is shown while no folder of the application is set.
pub open spec fn preview_folder(env: Environment, server_id: Id) -> Seq<char> {
    match env.data_dir {
        Some(d) => environment::default_filestore(d@, server_id),
        None => "(no data folder configured yet)"@,
    }
}

/// The command that is shown.
pub open spec fn preview_command(server: OdooServer) -> Seq<char> {
    if server.reload.reload_python {
        "odoo-bin -c odoo.conf --dev=reload,qweb,xml"@
    } else {
        "odoo-bin -c odoo.conf"@
    }
}

/// What there is to do to start a server: once the role `odoo` is there, make the folder, write
/// the configuration, and start the process.
#[derive(Debug)]
pub struct Launch {
    pub conn: PgConnInfo,
    pub filestore_dir: String,
    pub conf_path: String,
    pub conf: String,
    pub config: OdooConfig,
}

/// What a server is started with.
pub open spec fn launch_args(server: OdooServer, checkout_root: Seq<char>, conf_path: Seq<char>) -> Seq<
    Seq<char>,
> {
    let plain = seq![paths::under(checkout_root, "odoo-bin"@), "-c"@, conf_path];
    if server.reload.reload_python {
        plain.push("--dev=reload,qweb,xml"@)
    } else {
        plain
    }
}

/// Where a server that is run in the given folder keeps its configuration.
pub open spec fn conf_path_of(run_dir: Seq<char>, server_id: Id) -> Seq<char> {
    paths::under(environment::server_dir(run_dir, server_id), "odoo.conf"@)
}

/// Where a server that is run in the given folder keeps its files.
pub open spec fn run_filestore(run_dir: Seq<char>, server_id: Id) -> Seq<char> {
    paths::under(environment::server_dir(run_dir, server_id), "filestore"@)
}

/// The configuration of a server that is run in the given folder: it connects as `odoo`.
pub open spec fn run_conf(
    s: State,
    server: OdooServer,
    instance_host: Seq<char>,
    instance_port: u16,
    run_dir: Seq<char>,
) -> Seq<char> {
    odoo_conf::conf_for(
        addons_of(s, server.id),
        run_filestore(run_dir, server.id),
        instance_host,
        instance_port,
        "odoo"@,
        server.port,
    )
}

/// What there is to do before a command is run on a database: once the role `odoo` is there and
/// may use it, make the folder and write the configuration.
#[derive(Debug)]
pub struct Prepared {
    pub database: Database,
    pub conn: PgConnInfo,
    pub filestore_dir: String,
    pub conf_path: String,
    pub conf: String,
}

// --- where to store databases ---------------------------------------------

/// Which cluster new databases go to.
#[derive(Debug)]
pub enum Storage {
    /// One that runs.
    Ready(Id),
    /// One that has to be started first.
    Start(Id),
    /// A new one, in this folder.
    Create { data_dir: String },
}

// --- modules from elsewhere -----------------------------------------------

/// Where databases are to be stored, and what that asks for.
pub open spec fn is_storage(
    r: Result<Storage, CoreError>,
    s: State,
    env: Environment,
    around: Surroundings,
) -> bool {
    let instances = rows::listing(s.instances, None);
    if instances.len() > 0 {
        if servers::doing(around, instances[0].id) is Running {
            r matches Ok(Storage::Ready(id)) && id == instances[0].id
        } else {
            r matches Ok(Storage::Start(id)) && id == instances[0].id
        }
    } else {
        match env.data_dir {
            Some(d) => {
                &&& r matches Ok(Storage::Create { data_dir })
                &&& data_dir@ == paths::under(d@, "databases"@)
            },
            None => r matches Err(CoreError::NotConfigured(m)) && m@
                == "no data folder is configured for this app"@,
        }
    }
}

/// Whether a text is the address of a git repository.
pub open spec fn is_git_url(value: Seq<char>) -> bool {
    let v = text::trimmed(value);
    "https://"@.is_prefix_of(v) || "http://"@.is_prefix_of(v) || "git@"@.is_prefix_of(v)
        || "ssh://"@.is_prefix_of(v)
}

/// Whether a text is the address of a git repository.
pub fn looks_like_git_url(value: &str) -> (r: bool)
    ensures
        r == is_git_url(value@),
{
    let v = text::trim(value);
    text::starts_with(v.as_str(), "https://") || text::starts_with(v.as_str(), "http://")
        || text::starts_with(v.as_str(), "git@") || text::starts_with(v.as_str(), "ssh://")
}

/// A text with `-` in place of everything but letters and digits.
pub open spec fn hyphenated(s: Seq<char>) -> Seq<char> {
    s.map_values(
        |c: char|
            if text::is_ascii_alphanumeric(c) {
                c
            } else {
                '-'
            },
    )
}

/// The name of a folder for a label.
pub open spec fn slug_of(value: Seq<char>) -> Seq<char> {
    let slug = text::trimmed_char(
        hyphenated(text::lowercase_of(text::trimmed(value))),
        '-',
    );
    if slug.len() == 0 {
        "modules"@
    } else {
        slug
    }
}

/// The name of a folder for a label. It is `modules` where the label in lower case holds no ASCII
/// letter or digit.
pub fn slugify(value: &str) -> (r: String)
    ensures
        r@ == slug_of(value@),
        !text::holds_ascii_alphanumeric(text::lowercase_of(value@)) ==> r@ == "modules"@,
{
    let lowered = text::lowercase(text::trim(value).as_str());
    proof {
        let whole = text::lowercase_of(value@);
        text::lemma_trimmed_is_a_part(value@);
        if !text::holds_ascii_alphanumeric(whole) {
            assert forall|i: int| 0 <= i < lowered@.len() implies !text::is_ascii_alphanumeric(
                #[trigger] lowered@[i],
            ) by {
                let c = lowered@[i];
                assert(lowered@.contains(c));
                if text::is_ascii_alphanumeric(c) {
                    assert(whole.contains(c));
                }
            }
            law_a_label_without_letters_is_modules(value@);
        }
    }
    let chars = text::chars_of(lowered.as_str());
    let mut out = String::new();
    let mut i: usize = 0;
    assert(out@ =~= hyphenated(lowered@.take(0)));
    while i < chars.len()
        invariant
            i <= chars@.len(),
            chars@ == lowered@,
            out@ == hyphenated(lowered@.take(i as int)),
        decreases chars@.len() - i,
    {
        let c = chars[i];
        let keep = ('a' <= c && c <= 'z') || ('A' <= c && c <= 'Z') || ('0' <= c && c <= '9');
        assert(keep == text::is_ascii_alphanumeric(c));
        out.push(
            if keep {
                c
            } else {
                '-'
            },
        );
        assert(out@ =~= hyphenated(lowered@.take(i + 1)));
        i = i + 1;
    }
    assert(lowered@.take(i as int) =~= lowered@);
    let slug = text::trim_char(out.as_str(), '-');
    if slug.as_str().is_empty() {
        "modules".to_owned()
    } else {
        slug
    }
}

proof fn lemma_trim_start_part(s: Seq<char>, c: char)
    ensures
        forall|i: int|
            0 <= i < text::trim_start_char(s, c).len() ==> s.contains(
                #[trigger] text::trim_start_char(s, c)[i],
            ),
        text::trim_start_char(s, c).len() > 0 ==> text::trim_start_char(s, c)[0] != c,
    decreases s.len(),
{
    if s.len() > 0 && s[0] == c {
        let rest = s.drop_first();
        lemma_trim_start_part(rest, c);
        assert forall|i: int| 0 <= i < text::trim_start_char(s, c).len() implies s.contains(
            #[trigger] text::trim_start_char(s, c)[i],
        ) by {
            let x = text::trim_start_char(rest, c)[i];
            assert(rest.contains(x));
            let k = choose|k: int| 0 <= k < rest.len() && rest[k] == x;
            assert(s[k + 1] == x);
        }
    } else {
        assert forall|i: int| 0 <= i < s.len() implies s.contains(#[trigger] s[i]) by {}
    }
}

proof fn lemma_trim_end_part(s: Seq<char>, c: char)
    ensures
        text::trim_end_char(s, c).len() <= s.len(),
        text::trim_end_char(s, c) == s.take(text::trim_end_char(s, c).len() as int),
        text::trim_end_char(s, c).len() > 0 ==> text::trim_end_char(s, c).last() != c,
    decreases s.len(),
{
    if s.len() > 0 && s.last() == c {
        lemma_trim_end_part(s.drop_last(), c);
        let n = text::trim_end_char(s, c).len() as int;
        assert(s.drop_last().take(n) =~= s.take(n));
    } else {
        assert(s.take(s.len() as int) =~= s);
    }
}

/// Whether a character is a lower-case ASCII letter, a digit or a hyphen.
pub open spec fn is_name_char(c: char) -> bool {
    ('a' <= c <= 'z') || text::is_digit(c) || c == '-'
}

/// Whether a text can name a folder: it is not empty, holds only lower-case letters, digits and
/// hyphens, and neither starts nor ends with a hyphen.
pub open spec fn is_folder_name(s: Seq<char>) -> bool {
    &&& s.len() > 0
    &&& forall|i: int| 0 <= i < s.len() ==> is_name_char(#[trigger] s[i])
    &&& s[0] != '-'
    &&& s.last() != '-'
}

/// The name of a folder for a label is never empty, holds only lower-case letters, digits and
/// hyphens, and neither starts nor ends with a hyphen.
pub proof fn law_a_slug_is_a_name(value: Seq<char>)
    ensures
        is_folder_name(slug_of(value)),
{
    reveal_strlit("modules");
    let lowered = text::lowercase_of(text::trimmed(value));
    let all = hyphenated(lowered);
    let begun = text::trim_start_char(all, '-');
    let slug = text::trimmed_char(all, '-');
    lemma_trim_start_part(all, '-');
    lemma_trim_end_part(begun, '-');
    assert forall|i: int| 0 <= i < all.len() implies is_name_char(#[trigger] all[i]) by {
        let from = if text::all_ascii(text::trimmed(value)) {
            text::trimmed(value)
        } else {
            text::unicode_lowercase(text::trimmed(value))
        };
        assert(lowered[i] == text::ascii_lower(from[i]));
    }
    if slug.len() > 0 {
        assert(slug[0] == begun[0]);
        assert forall|i: int| 0 <= i < slug.len() implies is_name_char(#[trigger] slug[i]) by {
            assert(slug[i] == begun[i]);
            assert(all.contains(begun[i]));
        }
    } else {
        assert(slug_of(value) =~= "modules"@);
        assert forall|i: int| 0 <= i < "modules"@.len() implies is_name_char(
            #[trigger] "modules"@[i],
        ) by {}
    }
}

/// A name of a folder is its own slug; so slugging a slug changes nothing.
pub proof fn law_a_slug_stays_as_it_is(value: Seq<char>)
    ensures
        is_folder_name(value) ==> slug_of(value) == value,
        slug_of(slug_of(value)) == slug_of(value),
{
    if is_folder_name(value) {
        lemma_a_name_is_its_slug(value);
    }
    law_a_slug_is_a_name(value);
    lemma_a_name_is_its_slug(slug_of(value));
}

proof fn lemma_a_name_is_its_slug(name: Seq<char>)
    requires
        is_folder_name(name),
    ensures
        slug_of(name) == name,
{
    assert(is_name_char(name[0]));
    assert(is_name_char(name[name.len() - 1]));
    assert(text::trimmed(name) == name);
    assert forall|i: int| 0 <= i < name.len() implies #[trigger] name[i] <= '\u{7f}' by {
        assert(is_name_char(name[i]));
    }
    assert(text::lowercase_of(name) =~= name) by {
        assert forall|i: int| 0 <= i < name.len() implies #[trigger] text::lowercase_of(name)[i]
            == name[i] by {
            assert(is_name_char(name[i]));
        }
    }
    assert(hyphenated(name) =~= name) by {
        assert forall|i: int| 0 <= i < name.len() implies #[trigger] hyphenated(name)[i]
            == name[i] by {
            assert(is_name_char(name[i]));
        }
    }
    assert(text::trimmed_char(name, '-') == name);
}

/// A label without letters and digits gets the name `modules`.
pub proof fn law_a_label_without_letters_is_modules(value: Seq<char>)
    requires
        forall|i: int|
            0 <= i < text::lowercase_of(text::trimmed(value)).len() ==> !text::is_ascii_alphanumeric(
                #[trigger] text::lowercase_of(text::trimmed(value))[i],
            ),
    ensures
        slug_of(value) == "modules"@,
{
    let lowered = text::lowercase_of(text::trimmed(value));
    let all = hyphenated(lowered);
    let begun = text::trim_start_char(all, '-');
    lemma_trim_start_part(all, '-');
    assert forall|i: int| 0 <= i < all.len() implies #[trigger] all[i] == '-' by {
        assert(!text::is_ascii_alphanumeric(lowered[i]));
    }
    if begun.len() > 0 {
        assert(all.contains(begun[0]));
    }
    lemma_trim_end_part(begun, '-');
}

/// Where the modules of a source are: in a folder, or in a repository that has to be fetched to
/// one first.
#[derive(Debug)]
pub enum ModulesFrom {
    Folder(String),
    Clone { url: String, dest: String },
}

/// The folder that a repository of modules is fetched to.
pub open spec fn modules_folder(data_dir: Seq<char>, server_id: Id, label: Seq<char>) -> Seq<char> {
    paths::under(
        paths::under(paths::under(data_dir, "modules"@), codec::uuid_text(server_id)),
        slug_of(label),
    )
}

/// Where the modules of a source are.
pub fn modules_from(env: &Environment, server_id: Id, label: &str, path_or_url: String) -> (r:
    Result<ModulesFrom, CoreError>)
    ensures
        if !is_git_url(path_or_url@) {
            r matches Ok(ModulesFrom::Folder(path)) && path == path_or_url
        } else {
            match env.data_dir {
                Some(d) => {
                    &&& r matches Ok(ModulesFrom::Clone { url, dest })
                    &&& url == path_or_url
                    &&& dest@ == modules_folder(d@, server_id, label@)
                },
                None => r matches Err(CoreError::NotConfigured(m)) && m@
                    == "no data folder is configured for this app"@,
            }
        },
{
    if !looks_like_git_url(path_or_url.as_str()) {
        return Ok(ModulesFrom::Folder(path_or_url));
    }
    match env.app_dir() {
        Ok(d) => {
            let modules = paths::join(d.as_str(), "modules");
            let own = paths::join(modules.as_str(), codec::id_text(server_id).as_str());
            let dest = paths::join(own.as_str(), slugify(label).as_str());
            Ok(ModulesFrom::Clone { url: path_or_url, dest })
        },
        Err(e) => Err(e),
    }
}

// --- Python ---------------------------------------------------------------

/// The requirement that a line names: without its comment and the white space around it.
pub open spec fn requirement_in(line: Seq<char>) -> Seq<char> {
    text::trimmed(text::before_first(line, '#'))
}

/// The requirements that lines name.
pub open spec fn requirements_in(lines: Seq<Seq<char>>) -> Seq<Seq<char>>
    decreases lines.len(),
{
    if lines.len() == 0 {
        Seq::empty()
    } else {
        let before = requirements_in(lines.drop_last());
        let named = requirement_in(lines.last());
        if named.len() == 0 {
            before
        } else {
            before.push(named)
        }
    }
}

/// The requirements that a `requirements.txt` names.
pub fn requirements(content: &str) -> (r: Vec<String>)
    ensures
        text::views(r@) == requirements_in(text::lines_of(content@)),
{
    let lines = text::lines(content);
    let ghost all = text::views(lines@);
    let mut out: Vec<String> = Vec::new();
    let mut i: usize = 0;
    assert(all.take(0) =~= Seq::<Seq<char>>::empty());
    assert(text::views(out@) =~= requirements_in(all.take(0)));
    while i < lines.len()
        invariant
            i <= lines@.len(),
            all == text::views(lines@),
            text::views(out@) == requirements_in(all.take(i as int)),
        decreases lines@.len() - i,
    {
        let ghost before = text::views(out@);
        proof {
            assert(all.take(i + 1).drop_last() =~= all.take(i as int));
            assert(all.take(i + 1).last() == lines@[i as int]@);
        }
        let named = text::trim(text::part_before(lines[i].as_str(), '#').as_str());
        let ghost shown = named@;
        if !named.as_str().is_empty() {
            out.push(named);
            assert(text::views(out@) =~= before.push(shown));
        }
        i = i + 1;
    }
    assert(all.take(i as int) =~= all);
    out
}

/// The interpreter that this application makes for a version of Odoo.
pub fn venv_folder(app_dir: &str, version: &str) -> (r: String)
    ensures
        r@ == paths::under(paths::under(app_dir@, "venvs"@), version@),
{
    paths::join(paths::join(app_dir, "venvs").as_str(), version)
}

/// The version of Python that Odoo is run with.
pub const PYTHON_VERSION: &'static str = "3.11";

/// What Odoo still needs of a package that later versions of it left out.
pub const PINNED_PACKAGE: &'static str = "setuptools<81";

/// The package that a server needs to notice changed code.
pub const WATCHDOG_PACKAGE: &'static str = "watchdog";

/// A step towards an interpreter that Odoo can be run with.
#[derive(Debug)]
pub enum PythonStep {
    /// Install a version of Python.
    InstallPython { version: String },
    /// Make an environment with it.
    MakeEnvironment { version: String, folder: String },
    /// Install what the checkout asks for.
    InstallRequirements,
    /// Install a package.
    Install { package: String },
}

/// What leads to an interpreter in a folder, in order: one that is there is used as it is.
pub open spec fn leads_to_python(steps: Seq<PythonStep>, folder: Seq<char>, there: bool) -> bool {
    if there {
        steps.len() == 0
    } else {
        &&& steps.len() == 4
        &&& steps[0] matches PythonStep::InstallPython { version } && version@ == PYTHON_VERSION@
        &&& steps[1] matches PythonStep::MakeEnvironment { version, folder: f } && version@
            == PYTHON_VERSION@ && f@ == folder
        &&& steps[2] is InstallRequirements
        &&& steps[3] matches PythonStep::Install { package } && package@ == PINNED_PACKAGE@
    }
}

/// What leads to an interpreter in a folder. The pinned package comes last, so that nothing that
/// the checkout asks for undoes it.
pub fn python_steps(folder: &str, there: bool) -> (r: Vec<PythonStep>)
    ensures
        leads_to_python(r@, folder@, there),
{
    let mut out: Vec<PythonStep> = Vec::new();
    if there {
        return out;
    }
    out.push(PythonStep::InstallPython { version: PYTHON_VERSION.to_owned() });
    out.push(
        PythonStep::MakeEnvironment {
            version: PYTHON_VERSION.to_owned(),
            folder: folder.to_owned(),
        },
    );
    out.push(PythonStep::InstallRequirements);
    out.push(PythonStep::Install { package: PINNED_PACKAGE.to_owned() });
    out
}

// --- what supervisors say -------------------------------------------------

/// What comes of the request to start a server.
pub open spec fn is_launch(
    r: Result<Launch, CoreError>,
    s: State,
    around: Surroundings,
    server_id: Id,
    checkout_root: String,
    venv_python: String,
    runtime_dir: Seq<char>,
) -> bool {
    match r {
        Ok(launch) => {
            let server = rows::row_of(s.servers, server_id);
            let instance = rows::row_of(s.instances, server.postgres_instance_id);
            let conf_path = conf_path_of(runtime_dir, server_id);
            &&& rows::taken(s.servers, server_id)
            &&& servers::reachable(s, around, server.postgres_instance_id)
            &&& servers::connects(
                s,
                around,
                server.postgres_instance_id,
                launch.conn,
            )
            &&& launch.filestore_dir@ == run_filestore(runtime_dir, server_id)
            &&& launch.conf_path@ == conf_path
            &&& launch.conf@ == run_conf(
                s,
                server,
                instance.data_dir@,
                instance.port,
                runtime_dir,
            )
            &&& launch.config.python_bin == venv_python
            &&& launch.config.working_dir == checkout_root
            &&& text::views(launch.config.args@) == launch_args(
                server,
                checkout_root@,
                conf_path,
            )
            &&& launch.config.env@.len() == 0
            &&& launch.config.port == server.port
            &&& launch.config.startup_timeout_ms == 120_000
            &&& launch.config.shutdown_timeout_ms == 15_000
            &&& launch.config.health_check_interval_ms == 300
        },
        Err(e) => servers::server_is_out_of_reach(s, around, server_id, e),
    }
}

/// What comes of the request to prepare a command on a database.
pub open spec fn is_prepared(
    r: Result<Prepared, CoreError>,
    s: State,
    around: Surroundings,
    database_id: Id,
    runtime_dir: Seq<char>,
) -> bool {
    match r {
        Ok(prepared) => {
            let database = rows::row_of(s.databases, database_id);
            let server = rows::row_of(s.servers, database.server_id);
            let instance = rows::row_of(s.instances, server.postgres_instance_id);
            &&& rows::taken(s.databases, database_id)
            &&& rows::taken(s.servers, database.server_id)
            &&& servers::reachable(s, around, server.postgres_instance_id)
            &&& servers::connects(
                s,
                around,
                server.postgres_instance_id,
                prepared.conn,
            )
            &&& prepared.database == database
            &&& prepared.filestore_dir@ == run_filestore(runtime_dir, server.id)
            &&& prepared.conf_path@ == conf_path_of(runtime_dir, server.id)
            &&& prepared.conf@ == run_conf(
                s,
                server,
                instance.data_dir@,
                instance.port,
                runtime_dir,
            )
        },
        Err(e) => databases::database_is_out_of_reach(s, around, database_id, e),
    }
}

/// What a server is doing, by what its process is doing.
pub open spec fn server_state_of(state: OdooState) -> ServerState {
    match state {
        OdooState::Stopped => ServerState::Stopped,
        OdooState::Starting => ServerState::Starting,
        OdooState::Running { .. } => ServerState::Running,
        OdooState::Stopping => ServerState::Stopping,
        OdooState::Crashed { exit_code } => ServerState::Crashed {
            exit_code: match exit_code {
                Some(n) => n,
                None => -1i32,
            },
        },
    }
}

/// What is recorded of a process, if anything.
pub open spec fn server_event_of(state: OdooState, server_id: Id) -> Option<Event> {
    match server_state_of(state) {
        ServerState::Running => Some(Event::ServerStarted { server_id }),
        ServerState::Stopped => Some(Event::ServerStopped { server_id }),
        ServerState::Crashed { exit_code } => Some(Event::ServerCrashed { server_id, exit_code }),
        _ => None,
    }
}

/// What is recorded of a cluster.
pub open spec fn postgres_event_of(state: PgState, instance_id: Id) -> Event {
    match state {
        PgState::Stopped => Event::PostgresStopped { instance_id },
        PgState::Starting => Event::PostgresStarting { instance_id },
        PgState::Running { pid } => Event::PostgresRunning { instance_id, pid },
        PgState::Stopping => Event::PostgresStopping { instance_id },
        PgState::Crashed { exit_code } => Event::PostgresCrashed { instance_id, exit_code },
    }
}

/// The name of a stream of output.
pub open spec fn stream_text(stream: LogStream) -> Seq<char> {
    match stream {
        LogStream::Stdout => "stdout"@,
        LogStream::Stderr => "stderr"@,
    }
}

/// The name of a stream of output.
pub fn stream_name(stream: LogStream) -> (r: &'static str)
    ensures
        r@ == stream_text(stream),
{
    match stream {
        LogStream::Stdout => "stdout",
        LogStream::Stderr => "stderr",
    }
}

/// What is known once a process did something: its server's state and, where it is recorded and
/// can be, the event.
pub open spec fn after_odoo(s: State, server_id: Id, state: OdooState, stamp: Stamp) -> State {
    let noted = if rows::taken(s.servers, server_id) {
        let before = rows::row_of(s.servers, server_id);
        let now = server_state_of(state);
        State {
            servers: s.servers.update(
                rows::place_of(s.servers, server_id) as int,
                OdooServer {
                    state: now,
                    started_at: servers::started_when(now, before.started_at, stamp.now),
                    ..before
                },
            ),
            ..s
        }
    } else {
        s
    };
    match server_event_of(state, server_id) {
        Some(event) => if records::may_tell(s, stamp) {
            records::told(noted, stamp, None, event)
        } else {
            noted
        },
        None => noted,
    }
}

impl Core {
    /// The folders that a server loads modules from, the first to load first.
    pub fn addons_path(&self, server_id: Id) -> (r: Vec<String>)
        ensures
            text::views(r@) == addons_of(self@, server_id),
    {
        let sources = self.list_addons_sources(server_id);
        let mut out: Vec<String> = Vec::new();
        let mut i: usize = 0;
        while i < sources.len()
            invariant
                i <= sources@.len(),
                out@.len() == i,
                forall|j: int| 0 <= j < i ==> (#[trigger] out@[j])@ == sources@[j].path_or_url@,
            decreases sources@.len() - i,
        {
            out.push(sources[i].path_or_url.clone());
            i = i + 1;
        }
        assert(text::views(out@) =~= paths_of(order::owned(sources@)));
        out
    }

    /// What a server would be started with.
    pub fn preview_odoo_conf(&self, server_id: Id, env: &Environment) -> (r: Result<
        StartupPreview,
        CoreError,
    >)
        ensures
            match r {
                Ok(preview) => {
                    let server = rows::row_of(self@.servers, server_id);
                    let instance = rows::row_of(self@.instances, server.postgres_instance_id);
                    &&& rows::taken(self@.servers, server_id)
                    &&& rows::taken(self@.instances, server.postgres_instance_id)
                    &&& preview.conf@ == odoo_conf::conf_for(
                        addons_of(self@, server_id),
                        preview_folder(*env, server_id),
                        instance.data_dir@,
                        instance.port,
                        "odoo"@,
                        server.port,
                    )
                    &&& preview.command@ == preview_command(server)
                },
                Err(e) => if !rows::taken(self@.servers, server_id) {
                    records::is_missing(e, "server "@, server_id)
                } else {
                    let id = rows::row_of(self@.servers, server_id).postgres_instance_id;
                    !rows::taken(self@.instances, id) && records::is_missing(
                        e,
                        "postgres instance "@,
                        id,
                    )
                },
            },
    {
        let server = match self.get_server(server_id) {
            Ok(server) => server,
            Err(e) => {
                return Err(e);
            },
        };
        let instance = match self.get_postgres_instance(server.postgres_instance_id) {
            Ok(instance) => instance,
            Err(e) => {
                return Err(e);
            },
        };
        let data_dir = match &env.data_dir {
            Some(d) => {
                let run = paths::join(d.as_str(), "run");
                paths::join(
                    environment::server_folder(run.as_str(), server_id).as_str(),
                    "filestore",
                )
            },
            None => "(no data folder configured yet)".to_owned(),
        };
        let conf = odoo_conf::render(
            &OdooConfParams {
                addons_path: self.addons_path(server_id),
                db_host: instance.data_dir,
                db_port: instance.port,
                db_user: "odoo".to_owned(),
                http_port: server.port,
                data_dir,
            },
        );
        let command = if server.reload.reload_python {
            "odoo-bin -c odoo.conf --dev=reload,qweb,xml".to_owned()
        } else {
            "odoo-bin -c odoo.conf".to_owned()
        };
        Ok(StartupPreview { conf, command })
    }

    /// Plans the start of a server from a checkout.
    pub fn start_server(
        &self,
        server_id: Id,
        checkout_root: String,
        venv_python: String,
        runtime_dir: &str,
        around: &Surroundings,
    ) -> (r: Result<Launch, CoreError>)
        ensures
            is_launch(r, self@, *around, server_id, checkout_root, venv_python, runtime_dir@),
    {
        let (server, conn) = match self.server_connection(server_id, around) {
            Ok(found) => found,
            Err(e) => {
                return Err(e);
            },
        };
        proof {
            rows::lemma_place_of(self@.servers, server_id);
        }
        let own = environment::server_folder(runtime_dir, server_id);
        let filestore_dir = paths::join(own.as_str(), "filestore");
        let conf_path = paths::join(own.as_str(), "odoo.conf");
        let conf = odoo_conf::render(
            &OdooConfParams {
                addons_path: self.addons_path(server_id),
                db_host: conn.host.clone(),
                db_port: conn.port,
                db_user: "odoo".to_owned(),
                http_port: server.port,
                data_dir: filestore_dir.clone(),
            },
        );
        let mut args: Vec<String> = Vec::new();
        args.push(paths::join(checkout_root.as_str(), "odoo-bin"));
        args.push("-c".to_owned());
        args.push(conf_path.clone());
        if server.reload.reload_python {
            args.push("--dev=reload,qweb,xml".to_owned());
        }
        assert(text::views(args@) =~= launch_args(server, checkout_root@, conf_path@));
        let mut config = OdooConfig::new(venv_python, checkout_root, args, server.port);
        config.startup_timeout_ms = 120_000;
        Ok(Launch { conn, filestore_dir, conf_path, conf, config })
    }

    /// Plans what comes before a command on a database.
    pub fn prepare_odoo_runtime_for_database(
        &self,
        database_id: Id,
        runtime_dir: &str,
        around: &Surroundings,
    ) -> (r: Result<Prepared, CoreError>)
        ensures
            is_prepared(r, self@, *around, database_id, runtime_dir@),
    {
        let (database, server, conn) = match self.database_connection(database_id, around) {
            Ok(found) => found,
            Err(e) => {
                return Err(e);
            },
        };
        let own = environment::server_folder(runtime_dir, server.id);
        let filestore_dir = paths::join(own.as_str(), "filestore");
        let conf_path = paths::join(own.as_str(), "odoo.conf");
        let conf = odoo_conf::render(
            &OdooConfParams {
                addons_path: self.addons_path(server.id),
                db_host: conn.host.clone(),
                db_port: conn.port,
                db_user: "odoo".to_owned(),
                http_port: server.port,
                data_dir: filestore_dir.clone(),
            },
        );
        Ok(Prepared { database, conn, filestore_dir, conf_path, conf })
    }

    /// Which cluster new databases go to: the first that is known, or a new one.
    pub fn ensure_storage(&self, env: &Environment, around: &Surroundings) -> (r: Result<
        Storage,
        CoreError,
    >)
        ensures
            is_storage(r, self@, *env, *around),
    {
        let instances = self.list_postgres_instances();
        assert(instances@.len() == order::owned(instances@).len());
        if instances.len() > 0 {
            let first = instances[0];
            assert(order::owned(instances@)[0] == *first);
            return match servers::supervised_state(&around.supervised, first.id) {
                Some(PgState::Running { .. }) => Ok(Storage::Ready(first.id)),
                _ => Ok(Storage::Start(first.id)),
            };
        }
        match env.app_dir() {
            Ok(d) => Ok(Storage::Create { data_dir: paths::join(d.as_str(), "databases") }),
            Err(e) => Err(e),
        }
    }

    /// Notes what the process of a server did.
    pub fn on_odoo_state(&mut self, server_id: Id, state: OdooState, stamp: &Stamp)
        ensures
            final(self)@ == after_odoo(old(self)@, server_id, state, *stamp),
            records::sound(old(self)@) ==> records::sound(final(self)@),
    {
        let now = match state {
            OdooState::Stopped => ServerState::Stopped,
            OdooState::Starting => ServerState::Starting,
            OdooState::Running { .. } => ServerState::Running,
            OdooState::Stopping => ServerState::Stopping,
            OdooState::Crashed { exit_code } => ServerState::Crashed {
                exit_code: exit_code.unwrap_or(-1),
            },
        };
        self.update_server_state(server_id, now, stamp.now);
        let event = match now {
            ServerState::Running => Some(Event::ServerStarted { server_id }),
            ServerState::Stopped => Some(Event::ServerStopped { server_id }),
            ServerState::Crashed { exit_code } => Some(
                Event::ServerCrashed { server_id, exit_code },
            ),
            _ => None,
        };
        if let Some(event) = event {
            if self.can_record(stamp).is_ok() {
                self.record(stamp, None, event);
            }
        }
    }

    /// Notes what a cluster did; an event that cannot be recorded is passed over.
    pub fn on_postgres_state(&mut self, instance_id: Id, state: PgState, stamp: &Stamp)
        ensures
            final(self)@ == (if records::may_tell(old(self)@, *stamp) {
                records::told(
                    old(self)@,
                    *stamp,
                    None,
                    postgres_event_of(state, instance_id),
                )
            } else {
                old(self)@
            }),
            records::sound(old(self)@) ==> records::sound(final(self)@),
    {
        let event = match state {
            PgState::Stopped => Event::PostgresStopped { instance_id },
            PgState::Starting => Event::PostgresStarting { instance_id },
            PgState::Running { pid } => Event::PostgresRunning { instance_id, pid },
            PgState::Stopping => Event::PostgresStopping { instance_id },
            PgState::Crashed { exit_code } => Event::PostgresCrashed { instance_id, exit_code },
        };
        if self.can_record(stamp).is_ok() {
            self.record(stamp, None, event);
        }
    }
}

/// What is shown of a start in the folder of the application is the configuration that such a
/// start writes.
pub proof fn law_the_preview_is_what_runs(
    s: State,
    server: OdooServer,
    host: Seq<char>,
    port: u16,
    env: Environment,
)
    requires
        env.data_dir is Some,
    ensures
        odoo_conf::conf_for(
            addons_of(s, server.id),
            preview_folder(env, server.id),
            host,
            port,
            "odoo"@,
            server.port,
        ) == run_conf(s, server, host, port, paths::under((env.data_dir->0)@, "run"@)),
{
}

/// Modules are searched for in every source of the server, and nowhere else, the lowest rank
/// first.
pub proof fn law_modules_are_searched_by_rank(s: State, server_id: Id, path: Seq<char>, i: int)
    ensures
        addons_of(s, server_id).contains(path) <==> exists|k: int|
            0 <= k < s.sources.len() && (#[trigger] s.sources[k]).server_id == server_id
                && s.sources[k].path_or_url@ == path,
        addons_of(s, server_id).len() == rows::listing(s.sources, Some(server_id)).len(),
        0 <= i < addons_of(s, server_id).len() ==> addons_of(s, server_id)[i] == rows::listing(
            s.sources,
            Some(server_id),
        )[i].path_or_url@,
{
    let listed = rows::listing(s.sources, Some(server_id));
    let all = addons_of(s, server_id);
    if all.contains(path) {
        let n = choose|n: int| 0 <= n < all.len() && all[n] == path;
        assert(listed.contains(listed[n]));
        rows::lemma_listed_is_there(s.sources, server_id, listed[n]);
        let k = choose|k: int| 0 <= k < s.sources.len() && s.sources[k] == listed[n];
        assert(s.sources[k].server_id == server_id);
    }
    if exists|k: int|
        0 <= k < s.sources.len() && (#[trigger] s.sources[k]).server_id == server_id
            && s.sources[k].path_or_url@ == path {
        let k = choose|k: int|
            0 <= k < s.sources.len() && (#[trigger] s.sources[k]).server_id == server_id
                && s.sources[k].path_or_url@ == path;
        assert(s.sources.contains(s.sources[k]));
        rows::lemma_is_listed(s.sources, server_id, s.sources[k]);
        let n = choose|n: int| 0 <= n < listed.len() && listed[n] == s.sources[k];
        assert(all[n] == path);
    }
}

/// A server is started with its own configuration, and reloads its code exactly where that is
/// asked for; the preview shows the same.
pub proof fn law_a_server_is_started_as_it_is_set(
    server: OdooServer,
    checkout_root: Seq<char>,
    conf_path: Seq<char>,
)
    ensures
        launch_args(server, checkout_root, conf_path)[0] == paths::under(
            checkout_root,
            "odoo-bin"@,
        ),
        launch_args(server, checkout_root, conf_path)[1] == "-c"@,
        launch_args(server, checkout_root, conf_path)[2] == conf_path,
        server.reload.reload_python ==> launch_args(server, checkout_root, conf_path).len() == 4
            && launch_args(server, checkout_root, conf_path)[3] == "--dev=reload,qweb,xml"@,
        !server.reload.reload_python ==> launch_args(server, checkout_root, conf_path).len() == 3,
        server.reload.reload_python <==> " --dev=reload,qweb,xml"@.is_suffix_of(
            preview_command(server),
        ),
        "odoo-bin -c odoo.conf"@.is_prefix_of(preview_command(server)),
{
    reveal_strlit("odoo-bin -c odoo.conf --dev=reload,qweb,xml");
    reveal_strlit("odoo-bin -c odoo.conf");
    reveal_strlit(" --dev=reload,qweb,xml");
    let long = "odoo-bin -c odoo.conf --dev=reload,qweb,xml"@;
    let short = "odoo-bin -c odoo.conf"@;
    let dev = " --dev=reload,qweb,xml"@;
    assert(long =~= short + dev);
    assert((short + dev).subrange(0, short.len() as int) =~= short);
    assert((short + dev).subrange(short.len() as int, long.len() as int) =~= dev);
    assert(short.subrange(0, short.len() as int) =~= short);
}

/// What a server is started with lies in its own folder under the folder given: no two servers
/// share a place.
pub proof fn law_a_server_runs_in_its_own_folder(run_dir: Seq<char>, server_id: Id)
    requires
        run_dir.len() == 0 || run_dir.last() != '/',
        paths::is_name(codec::uuid_text(server_id)),
    ensures
        paths::parts_of(conf_path_of(run_dir, server_id)) == paths::parts_of(run_dir) + seq![
            codec::uuid_text(server_id),
            "odoo.conf"@,
        ],
        paths::parts_of(run_filestore(run_dir, server_id)) == paths::parts_of(run_dir) + seq![
            codec::uuid_text(server_id),
            "filestore"@,
        ],
{
    let id = codec::uuid_text(server_id);
    let own = environment::server_dir(run_dir, server_id);
    reveal_strlit("odoo.conf");
    reveal_strlit("filestore");
    reveal_strlit(".");
    reveal_strlit("..");
    assert(paths::is_name("odoo.conf"@));
    assert(paths::is_name("filestore"@));
    assert(id[0] != '/' && id.last() != '/') by {
        assert(id.contains(id[0]));
        assert(id.contains(id.last()));
    }
    paths::law_a_path_lies_under_its_folder(run_dir, id);
    assert(own.last() == id.last());
    paths::law_a_path_lies_under_its_folder(own, "odoo.conf"@);
    paths::law_a_path_lies_under_its_folder(own, "filestore"@);
    assert(paths::parts_of(run_dir).push(id).push("odoo.conf"@) =~= paths::parts_of(run_dir) + seq![
        id,
        "odoo.conf"@,
    ]);
    assert(paths::parts_of(run_dir).push(id).push("filestore"@) =~= paths::parts_of(run_dir) + seq![
        id,
        "filestore"@,
    ]);
}

/// A requirement is what stands before the comment of its line, without the white space round it;
/// every line that names one counts, in the order of the file, and no other.
pub proof fn law_every_line_names_a_requirement(lines: Seq<Seq<char>>)
    ensures
        requirements_in(lines) == lines.filter(|line: Seq<char>| requirement_in(line).len() > 0).map_values(
            |line: Seq<char>| requirement_in(line),
        ),
    decreases lines.len(),
{
    let pick = |line: Seq<char>| requirement_in(line).len() > 0;
    let turn = |line: Seq<char>| requirement_in(line);
    order::lemma_picked(lines, pick, turn);
    if lines.len() > 0 {
        law_every_line_names_a_requirement(lines.drop_last());
    }
}

/// A comment and white space name nothing.
pub proof fn law_a_comment_names_nothing(
    a: Seq<char>,
    named: Seq<char>,
    b: Seq<char>,
    comment: Seq<char>,
)
    requires
        forall|i: int| 0 <= i < a.len() ==> text::is_white(#[trigger] a[i]),
        forall|i: int| 0 <= i < b.len() ==> text::is_white(#[trigger] b[i]),
        named.len() > 0 ==> !text::is_white(named[0]) && !text::is_white(named.last()),
        !named.contains('#'),
    ensures
        requirement_in((a + named + b).push('#') + comment) == named,
        requirement_in(a + named + b) == named,
{
    let line = a + named + b;
    assert(!line.contains('#')) by {
        if line.contains('#') {
            let i = choose|i: int| 0 <= i < line.len() && line[i] == '#';
            if i < a.len() {
                assert(text::is_white(a[i]));
            } else if i < a.len() + named.len() {
                assert(named[i - a.len()] == '#');
            } else {
                assert(text::is_white(b[i - a.len() - named.len()]));
            }
        }
    }
    text::law_text_parts_at_the_first_mark(line, comment, '#');
    text::law_trimming_takes_off_white_space(a, named, b);
}

/// What begins like an address on the network is fetched with git; what does not is a folder.
pub proof fn law_an_address_begins_like_one(rest: Seq<char>)
    requires
        rest.len() > 0,
        !text::is_white(rest[0]),
        !text::is_white(rest.last()),
    ensures
        is_git_url("https://"@ + rest),
        is_git_url("http://"@ + rest),
        is_git_url("git@"@ + rest),
        is_git_url("ssh://"@ + rest),
        rest[0] != 'h' && rest[0] != 'g' && rest[0] != 's' ==> !is_git_url(rest),
{
    reveal_strlit("https://");
    reveal_strlit("http://");
    reveal_strlit("git@");
    reveal_strlit("ssh://");
    lemma_trimmed_already("https://"@, rest);
    lemma_trimmed_already("http://"@, rest);
    lemma_trimmed_already("git@"@, rest);
    lemma_trimmed_already("ssh://"@, rest);
    lemma_trimmed_already(Seq::empty(), rest);
    assert(Seq::<char>::empty() + rest =~= rest);
    if "https://"@.is_prefix_of(rest) {
        assert(rest.subrange(0, 8)[0] == 'h');
    }
    if "http://"@.is_prefix_of(rest) {
        assert(rest.subrange(0, 7)[0] == 'h');
    }
    if "git@"@.is_prefix_of(rest) {
        assert(rest.subrange(0, 4)[0] == 'g');
    }
    if "ssh://"@.is_prefix_of(rest) {
        assert(rest.subrange(0, 6)[0] == 's');
    }
}

proof fn lemma_trimmed_already(start: Seq<char>, rest: Seq<char>)
    requires
        start.len() > 0 ==> !text::is_white(start[0]),
        rest.len() > 0,
        !text::is_white(rest[0]),
        !text::is_white(rest.last()),
    ensures
        text::trimmed(start + rest) == start + rest,
        start.is_prefix_of(start + rest),
{
    let none = Seq::<char>::empty();
    text::law_trimming_takes_off_white_space(none, start + rest, none);
    assert(none + (start + rest) + none =~= start + rest);
    assert((start + rest).subrange(0, start.len() as int) =~= start);
}

/// What a process does is what its server does; a crash without a code counts as minus one. What
/// has begun to run, stopped or crashed is told of, and nothing else is.
pub proof fn law_a_server_does_what_its_process_does(state: OdooState, server_id: Id)
    ensures
        state is Running <==> server_state_of(state) is Running,
        state is Stopped <==> server_state_of(state) is Stopped,
        state is Starting <==> server_state_of(state) is Starting,
        state is Stopping <==> server_state_of(state) is Stopping,
        state matches OdooState::Crashed { exit_code: Some(n) } ==> server_state_of(state) == (
        ServerState::Crashed { exit_code: n }),
        state matches OdooState::Crashed { exit_code: None } ==> server_state_of(state) == (
        ServerState::Crashed { exit_code: -1i32 }),
        server_event_of(state, server_id) is None <==> state is Starting || state is Stopping,
        state is Running ==> server_event_of(state, server_id) == Some(
            Event::ServerStarted { server_id },
        ),
        state is Stopped ==> server_event_of(state, server_id) == Some(
            Event::ServerStopped { server_id },
        ),
        state matches OdooState::Crashed { exit_code: Some(n) } ==> server_event_of(
            state,
            server_id,
        ) == Some(Event::ServerCrashed { server_id, exit_code: n }),
{
}

/// What a cluster does is told of as what it does.
pub proof fn law_a_cluster_is_told_of(state: PgState, instance_id: Id)
    ensures
        state is Stopped <==> postgres_event_of(state, instance_id) == (Event::PostgresStopped {
            instance_id,
        }),
        state is Starting <==> postgres_event_of(state, instance_id) == (Event::PostgresStarting {
            instance_id,
        }),
        state is Stopping <==> postgres_event_of(state, instance_id) == (Event::PostgresStopping {
            instance_id,
        }),
        state matches PgState::Running { pid } ==> postgres_event_of(state, instance_id) == (
        Event::PostgresRunning { instance_id, pid }),
        state matches PgState::Crashed { exit_code } ==> postgres_event_of(state, instance_id) == (
        Event::PostgresCrashed { instance_id, exit_code }),
{
}

/// News of a process changes the state and the time of its own server and of no other, and is told
/// of at most once.
pub proof fn law_news_reaches_its_own_server(
    s: State,
    server_id: Id,
    state: OdooState,
    stamp: Stamp,
    i: int,
)
    requires
        rows::distinct(s.servers),
        0 <= i < s.servers.len(),
    ensures
        ({
            let after = after_odoo(s, server_id, state, stamp);
            &&& after.servers.len() == s.servers.len()
            &&& s.servers[i].id != server_id ==> after.servers[i] == s.servers[i]
            &&& s.servers[i].id == server_id ==> {
                &&& after.servers[i].state == server_state_of(state)
                &&& state is Running ==> after.servers[i].started_at == Some(stamp.now)
                &&& state is Stopped || state is Crashed ==> after.servers[i].started_at is None
                &&& state is Starting || state is Stopping ==> after.servers[i].started_at
                    == s.servers[i].started_at
                &&& after.servers[i].port == s.servers[i].port
                &&& after.servers[i].name == s.servers[i].name
                &&& after.servers[i].project_id == s.servers[i].project_id
                &&& after.servers[i].reload == s.servers[i].reload
            }
            &&& after.databases == s.databases
            &&& after.events.len() <= s.events.len() + 1
            &&& after.events.len() > s.events.len() ==> Some(after.events.last().event)
                == server_event_of(state, server_id) && after.events.drop_last() == s.events
            &&& server_event_of(state, server_id) is Some && (forall|k: int|
                0 <= k < s.events.len() ==> (#[trigger] s.events[k]).id != stamp.event_id)
                ==> after.events.len() == s.events.len() + 1
        }),
{
    if rows::taken(s.servers, server_id) {
        rows::lemma_place_of(s.servers, server_id);
        let k = rows::place_of(s.servers, server_id) as int;
        assert(s.servers[k].id == server_id);
        if i < k {
            assert(s.servers[i].row_id() != s.servers[k].row_id());
        } else if k < i {
            assert(s.servers[k].row_id() != s.servers[i].row_id());
        }
    } else {
        assert(s.servers[i].row_id() != server_id);
    }
    if rows::taken(s.events, stamp.event_id) {
        rows::lemma_place_of(s.events, stamp.event_id);
        assert(rows::row_of(s.events, stamp.event_id).id == stamp.event_id);
    }
}

/// Databases are stored in the oldest cluster, which is started where it does not run; where there
/// is none, one is made among the data.
pub proof fn law_databases_are_stored_in_the_oldest_cluster(
    r: Result<Storage, CoreError>,
    s: State,
    env: Environment,
    around: Surroundings,
    i: int,
)
    requires
        is_storage(r, s, env, around),
    ensures
        s.instances.len() > 0 ==> exists|k: int|
            {
                &&& 0 <= k < s.instances.len()
                &&& 0 <= i < s.instances.len() ==> (#[trigger] s.instances[k]).created_at
                    <= s.instances[i].created_at
                &&& servers::doing(around, s.instances[k].id) is Running ==> r == Ok::<
                    Storage,
                    CoreError,
                >(Storage::Ready(s.instances[k].id))
                &&& !(servers::doing(around, s.instances[k].id) is Running) ==> r == Ok::<
                    Storage,
                    CoreError,
                >(Storage::Start(s.instances[k].id))
            },
        s.instances.len() == 0 && env.data_dir is Some ==> (r matches Ok(Storage::Create {
            data_dir,
        }) && data_dir@ == paths::under((env.data_dir->0)@, "databases"@)),
        s.instances.len() == 0 && env.data_dir is None ==> r is Err,
{
    let listed = rows::listing(s.instances, None);
    rows::law_projects_and_clusters_are_listed_oldest_first(Seq::empty(), s.instances, 0, 0);
    if s.instances.len() > 0 {
        let first = listed[0];
        assert(listed.contains(first));
        rows::law_a_listing_is_complete(s.instances, 0, first);
        let k = choose|k: int| 0 <= k < s.instances.len() && s.instances[k] == first;
        if 0 <= i < s.instances.len() {
            let other = s.instances[i];
            assert(s.instances.contains(other));
            rows::law_a_listing_is_complete(s.instances, 0, other);
            let n = choose|n: int| 0 <= n < listed.len() && listed[n] == other;
            rows::law_projects_and_clusters_are_listed_oldest_first(
                Seq::empty(),
                s.instances,
                0,
                n,
            );
        }
        assert(s.instances[k] == first);
    }
}

/// A server is started from its checkout with its interpreter, on its own port and with its own
/// configuration, against its own cluster.
pub proof fn law_a_launch_is_of_its_server(
    r: Result<Launch, CoreError>,
    s: State,
    around: Surroundings,
    server: OdooServer,
    instance: PostgresInstance,
    checkout_root: String,
    venv_python: String,
    runtime_dir: Seq<char>,
)
    requires
        is_launch(r, s, around, server.id, checkout_root, venv_python, runtime_dir),
        rows::distinct(s.servers),
        rows::distinct(s.instances),
        s.servers.contains(server),
        s.instances.contains(instance),
        server.postgres_instance_id == instance.id,
    ensures
        r is Ok <==> servers::doing(around, instance.id) is Running && around.bin_dir is Some,
        r matches Ok(launch) ==> {
            &&& launch.config.port == server.port
            &&& launch.config.python_bin == venv_python
            &&& launch.config.working_dir == checkout_root
            &&& launch.config.args@[2]@ == launch.conf_path@
            &&& launch.conn.port == instance.port
            &&& launch.conn.host == instance.data_dir
            &&& text::has_part(
                launch.conf@,
                "\nhttp_port = "@ + text::decimal_of(server.port as nat) + seq!['\n'],
            )
            &&& text::has_part(
                launch.conf@,
                "\ndb_port = "@ + text::decimal_of(instance.port as nat) + seq!['\n'],
            )
            &&& text::has_part(launch.conf@, "\ndb_host = "@ + instance.data_dir@ + seq!['\n'])
            &&& text::has_part(
                launch.conf@,
                "\ndata_dir = "@ + launch.filestore_dir@ + seq!['\n'],
            )
            &&& launch.conf_path@ == conf_path_of(runtime_dir, server.id)
            &&& launch.config.startup_timeout_ms == 120_000
        },
{
    rows::law_a_record_is_found_by_its_identifier(s.servers, server, server.id);
    rows::law_a_record_is_found_by_its_identifier(s.instances, instance, instance.id);
    if let Ok(launch) = r {
        let args = text::views(launch.config.args@);
        law_a_server_is_started_as_it_is_set(server, checkout_root@, launch.conf_path@);
        assert(args == launch_args(server, checkout_root@, launch.conf_path@));
        assert(launch.config.args@.len() == args.len());
        assert(args[2] == launch.config.args@[2]@);
        odoo_conf::lemma_conf_says(
            addons_of(s, server.id),
            run_filestore(runtime_dir, server.id),
            instance.data_dir@,
            instance.port,
            "odoo"@,
            server.port,
        );
    }
}

/// A command on a database is prepared for that database, with the configuration of the server
/// that it is on.
pub proof fn law_a_command_is_prepared_for_its_database(
    r: Result<Prepared, CoreError>,
    s: State,
    around: Surroundings,
    database: Database,
    server: OdooServer,
    runtime_dir: Seq<char>,
)
    requires
        is_prepared(r, s, around, database.id, runtime_dir),
        rows::distinct(s.databases),
        rows::distinct(s.servers),
        s.databases.contains(database),
        s.servers.contains(server),
        database.server_id == server.id,
    ensures
        r matches Ok(prepared) ==> {
            &&& prepared.database == database
            &&& prepared.conf_path@ == conf_path_of(runtime_dir, server.id)
            &&& prepared.filestore_dir@ == run_filestore(runtime_dir, server.id)
            &&& text::has_part(
                prepared.conf@,
                "\nhttp_port = "@ + text::decimal_of(server.port as nat) + seq!['\n'],
            )
            &&& text::has_part(
                prepared.conf@,
                "\ndata_dir = "@ + prepared.filestore_dir@ + seq!['\n'],
            )
        },
{
    rows::law_a_record_is_found_by_its_identifier(s.databases, database, database.id);
    rows::law_a_record_is_found_by_its_identifier(s.servers, server, server.id);
    if let Ok(prepared) = r {
        let instance = rows::row_of(s.instances, server.postgres_instance_id);
        odoo_conf::lemma_conf_says(
            addons_of(s, server.id),
            run_filestore(runtime_dir, server.id),
            instance.data_dir@,
            instance.port,
            "odoo"@,
            server.port,
        );
    }
}

} // verus!
