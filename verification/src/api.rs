//! The rules of the HTTP interface: who may ask, what an error is answered with, and what is
//! assumed where a request does not say.

use crate::discovery::DiscoveredRoot;
use crate::errors::CoreError;
use crate::odoo::OdooError;
use crate::odoo_runtime::RuntimeSource;
use crate::postgres::PgError;
use crate::text;
use rand::Rng;
use vstd::prelude::*;
use vstd::string::*;

verus! {

// --- who may ask ----------------------------------------------------------

/// The characters of a token.
pub const TOKEN_CHARS: &'static str =
    "abcdefghijklmnopqrstuvwxyzABCDEFGHIJKLMNOPQRSTUVWXYZ0123456789";

/// How many characters a token has.
pub const TOKEN_LENGTH: usize = 32;

/// The token that random picks spell.
pub fn token_from(picks: &Vec<usize>) -> (r: String)
    requires
        forall|i: int| 0 <= i < picks@.len() ==> (#[trigger] picks@[i]) < 62,
    ensures
        r@ == picks@.map_values(|p: usize| TOKEN_CHARS@[p as int]),
{
    let chars = text::chars_of(TOKEN_CHARS);
    proof {
        reveal_strlit("abcdefghijklmnopqrstuvwxyzABCDEFGHIJKLMNOPQRSTUVWXYZ0123456789");
        assert(chars@.len() == 62);
    }
    let ghost spelled = picks@.map_values(|p: usize| TOKEN_CHARS@[p as int]);
    let mut out = String::new();
    let mut i: usize = 0;
    assert(out@ =~= spelled.take(0));
    while i < picks.len()
        invariant
            i <= picks@.len(),
            chars@.len() == 62,
            chars@ == TOKEN_CHARS@,
            spelled == picks@.map_values(|p: usize| TOKEN_CHARS@[p as int]),
            forall|j: int| 0 <= j < picks@.len() ==> (#[trigger] picks@[j]) < 62,
            out@ == spelled.take(i as int),
        decreases picks@.len() - i,
    {
        out.push(chars[picks[i]]);
        assert(out@ =~= spelled.take(i + 1));
        i = i + 1;
    }
    assert(spelled.take(i as int) =~= spelled);
    out
}

/// `rand`'s `Rng::gen_range` of the numbers below `n`, from `rand::thread_rng`: which of them comes
/// is left to chance.
#[verifier::external_body]
fn random_below(n: usize) -> (r: usize)
    requires
        n > 0,
    ensures
        r < n,
{
    rand::thread_rng().gen_range(0..n)
}

/// A new token: characters that chance picks.
pub fn generate_token() -> (r: String)
    ensures
        r@.len() == TOKEN_LENGTH,
        forall|i: int| 0 <= i < r@.len() ==> TOKEN_CHARS@.contains(#[trigger] r@[i]),
{
    let mut picks: Vec<usize> = Vec::new();
    while picks.len() < TOKEN_LENGTH
        invariant
            picks@.len() <= TOKEN_LENGTH,
            forall|i: int| 0 <= i < picks@.len() ==> (#[trigger] picks@[i]) < 62,
        decreases TOKEN_LENGTH - picks@.len(),
    {
        picks.push(random_below(62));
    }
    proof {
        reveal_strlit("abcdefghijklmnopqrstuvwxyzABCDEFGHIJKLMNOPQRSTUVWXYZ0123456789");
    }
    token_from(&picks)
}

/// Whether a path is open to everybody here: the sockets ask for the token themselves.
pub open spec fn is_open(path: Seq<char>) -> bool {
    path == "/health"@ || path == "/ws/events"@ || path == "/ws/logs"@
}

/// Whether a request may pass.
pub open spec fn may_pass(path: Seq<char>, authorization: Option<Seq<char>>, token: Seq<char>) -> bool {
    is_open(path) || (match authorization {
        Some(header) => text::without_prefix(header, "Bearer "@) == Some(token),
        None => false,
    })
}

/// Whether a request may pass: to a path that is open, or with the token in its header.
pub fn require_token(path: &str, authorization: Option<&str>, token: &str) -> (r: bool)
    ensures
        r == may_pass(
            path@,
            match authorization {
                Some(header) => Some(header@),
                None => None,
            },
            token@,
        ),
{
    if text::same_text(path, "/health") || text::same_text(path, "/ws/events")
        || text::same_text(path, "/ws/logs") {
        return true;
    }
    match authorization {
        Some(header) => match text::strip_prefix(header, "Bearer ") {
            Some(provided) => text::same_text(provided.as_str(), token),
            None => false,
        },
        None => false,
    }
}

/// Only the token itself, behind the word that announces it, opens a path that is not open.
pub proof fn law_only_the_token_opens(path: Seq<char>, header: Seq<char>, token: Seq<char>)
    requires
        !is_open(path),
    ensures
        may_pass(path, Some(header), token) <==> header == "Bearer "@ + token,
        !may_pass(path, None, token),
{
    let word = "Bearer "@;
    if may_pass(path, Some(header), token) {
        assert(header =~= word + token);
    }
    if header == word + token {
        assert(header.subrange(0, word.len() as int) =~= word);
        assert(header.skip(word.len() as int) =~= token);
    }
}

/// Whether a socket may be opened: with the token in the address.
pub fn may_open_socket(asked: Option<&str>, token: &str) -> (r: bool)
    ensures
        r == (asked matches Some(given) && given@ == token@),
{
    match asked {
        Some(given) => text::same_text(given, token),
        None => false,
    }
}

// --- what an error is answered with ---------------------------------------

/// The status that an error is answered with.
pub open spec fn status_of(e: CoreError) -> u16 {
    match e {
        CoreError::NotFound(_) => 404,
        CoreError::Postgres(PgError::AlreadyRunning) => 409,
        CoreError::Postgres(PgError::NotRunning) => 409,
        CoreError::PostgresInstanceNotRunning { .. } => 409,
        CoreError::SnapshotNotForDatabase { .. } => 422,
        CoreError::SnapshotHasNoFilestore { .. } => 422,
        CoreError::Odoo(OdooError::AlreadyRunning) => 409,
        CoreError::Odoo(OdooError::PortInUse { .. }) => 409,
        CoreError::ProjectNotEmpty { .. } => 409,
        CoreError::DomainTaken { .. } => 409,
        _ => 500,
    }
}

/// The status that an error is answered with.
pub fn core_error_to_status(e: &CoreError) -> (r: u16)
    ensures
        r == status_of(*e),
{
    match e {
        CoreError::NotFound(_) => 404,
        CoreError::Postgres(PgError::AlreadyRunning) => 409,
        CoreError::Postgres(PgError::NotRunning) => 409,
        CoreError::PostgresInstanceNotRunning { .. } => 409,
        CoreError::SnapshotNotForDatabase { .. } => 422,
        CoreError::SnapshotHasNoFilestore { .. } => 422,
        CoreError::Odoo(OdooError::AlreadyRunning) => 409,
        CoreError::Odoo(OdooError::PortInUse { .. }) => 409,
        CoreError::ProjectNotEmpty { .. } => 409,
        CoreError::DomainTaken { .. } => 409,
        _ => 500,
    }
}

/// The status that an error of a plan is answered with: a way that does not exist is no failure
/// of the server.
pub fn plan_error_to_status(e: &CoreError) -> (r: u16)
    ensures
        r == (if e is NotConfigured {
            422
        } else {
            status_of(*e)
        }),
{
    match e {
        CoreError::NotConfigured(_) => 422,
        _ => core_error_to_status(e),
    }
}

// --- what is assumed ------------------------------------------------------

/// How many lines of log are sent where a request does not say.
pub fn default_log_limit() -> (r: usize)
    ensures
        r == 1000,
{
    1000
}

/// How many lines of a log are shown.
pub open spec fn lines_shown(asked: Option<usize>) -> usize {
    let wanted = match asked {
        Some(n) => n,
        None => 1000,
    };
    if wanted < 5000 {
        wanted
    } else {
        5000
    }
}

/// How many lines of log are sent.
pub fn log_limit(asked: Option<usize>) -> (r: usize)
    ensures
        r == lines_shown(asked),
{
    let wanted: usize = match asked {
        Some(n) => n,
        None => default_log_limit(),
    };
    if wanted < 5000 {
        wanted
    } else {
        5000
    }
}

/// How many events are sent.
pub fn events_limit(asked: Option<u32>) -> (r: u32)
    ensures
        r == (match asked {
            Some(n) => n,
            None => 50,
        }),
{
    match asked {
        Some(n) => n,
        None => 50,
    }
}

/// Whether a database is neutralized after it was restored, where a request does not say.
pub fn default_true() -> (r: bool)
    ensures
        r,
{
    true
}

/// The checkout, the interpreter and the folder to run in that a request names: all three, or it
/// names none.
pub fn explicit_paths(
    checkout_root: &Option<String>,
    venv_python: &Option<String>,
    runtime_dir: &Option<String>,
) -> (r: Option<(String, String, String)>)
    ensures
        r == (match (*checkout_root, *venv_python, *runtime_dir) {
            (Some(root), Some(python), Some(run)) => Some((root, python, run)),
            _ => None,
        }),
{
    match (checkout_root, venv_python, runtime_dir) {
        (Some(root), Some(python), Some(run)) => Some((root.clone(), python.clone(), run.clone())),
        _ => None,
    }
}

/// Whether the paths that a request names hold the path.
pub open spec fn names_path(paths: Seq<Seq<char>>, path: Seq<char>) -> bool {
    paths.contains(path)
}

/// The places of the addons folders that a request names.
pub open spec fn chosen_at(roots: Seq<DiscoveredRoot>, paths: Seq<Seq<char>>) -> Seq<int>
    decreases roots.len(),
{
    if roots.len() == 0 {
        Seq::empty()
    } else {
        let before = chosen_at(roots.drop_last(), paths);
        if names_path(paths, roots.last().path@) {
            before.push(roots.len() - 1)
        } else {
            before
        }
    }
}

/// The addons folders that a request names, among those that were found.
pub fn chosen_roots(roots: Vec<DiscoveredRoot>, paths: &Vec<String>) -> (r: Vec<DiscoveredRoot>)
    ensures
        r@ == chosen_at(roots@, text::views(paths@)).map_values(|p: int| roots@[p]),
{
    let ghost all = roots@;
    let ghost wanted = text::views(paths@);
    let mut rest = roots;
    let count: usize = rest.len();
    let mut out: Vec<DiscoveredRoot> = Vec::new();
    let mut i: usize = 0;
    assert(all.take(0) =~= Seq::<DiscoveredRoot>::empty());
    assert(out@ =~= chosen_at(all.take(0), wanted).map_values(|p: int| all[p]));
    assert(rest@ =~= all.skip(0));
    while i < count
        invariant
            i <= count == all.len(),
            wanted == text::views(paths@),
            rest@ == all.skip(i as int),
            out@ == chosen_at(all.take(i as int), wanted).map_values(|p: int| all[p]),
        decreases count - i,
    {
        let ghost before = out@;
        let root = rest.remove(0);
        proof {
            assert(root == all[i as int]);
            assert(rest@ =~= all.skip(i + 1));
            assert(all.take(i + 1).drop_last() =~= all.take(i as int));
            assert(all.take(i + 1).last() == root);
        }
        if text::contains_text(paths, root.path.as_str()) {
            out.push(root);
        }
        assert(out@ =~= chosen_at(all.take(i + 1), wanted).map_values(|p: int| all[p]));
        i = i + 1;
    }
    assert(all.take(i as int) =~= all);
    out
}

/// What is told of where a checkout comes from.
pub fn source_name(source: RuntimeSource) -> (r: &'static str)
    ensures
        r@ == (match source {
            RuntimeSource::Cache => "cache"@,
            RuntimeSource::Adopted => "adopted"@,
            RuntimeSource::Fetched => "fetched"@,
        }),
{
    match source {
        RuntimeSource::Cache => "cache",
        RuntimeSource::Adopted => "adopted",
        RuntimeSource::Fetched => "fetched",
    }
}

/// What a window of logs is told that could not keep up.
pub fn lag_notice(skipped: u64) -> (r: String)
    ensures
        r@ == "… "@ + text::decimal_of(skipped as nat)
            + " lines dropped: output arrived faster than this window could read it"@,
{
    let mut out = text::joined("… ", text::decimal(skipped).as_str());
    out.append(" lines dropped: output arrived faster than this window could read it");
    out
}

/// The address that an interface is reached at.
pub fn base_url(address: &str) -> (r: String)
    ensures
        r@ == "http://"@ + address@,
{
    text::joined("http://", address)
}

/// Chosen are the folders that the request names, in the order in which they were found.
pub proof fn law_every_named_folder_is_chosen(roots: Seq<DiscoveredRoot>, paths: Seq<Seq<char>>)
    ensures
        chosen_at(roots, paths).map_values(|p: int| roots[p]) == roots.filter(
            |root: DiscoveredRoot| paths.contains(root.path@),
        ),
    decreases roots.len(),
{
    reveal(Seq::filter);
    let pick = |p: int| roots[p];
    if roots.len() > 0 {
        let rest = roots.drop_last();
        law_every_named_folder_is_chosen(rest, paths);
        lemma_chosen_are_there(rest, paths);
        let before = chosen_at(rest, paths);
        assert(before.map_values(pick) =~= before.map_values(|p: int| rest[p]));
        if paths.contains(roots.last().path@) {
            assert(before.push(roots.len() - 1).map_values(pick) =~= before.map_values(pick).push(
                roots.last(),
            ));
        }
    } else {
        assert(chosen_at(roots, paths).map_values(pick) =~= roots.filter(
            |root: DiscoveredRoot| paths.contains(root.path@),
        ));
    }
}

proof fn lemma_chosen_are_there(roots: Seq<DiscoveredRoot>, paths: Seq<Seq<char>>)
    ensures
        forall|i: int|
            0 <= i < chosen_at(roots, paths).len() ==> 0 <= #[trigger] chosen_at(roots, paths)[i]
                < roots.len(),
    decreases roots.len(),
{
    if roots.len() > 0 {
        lemma_chosen_are_there(roots.drop_last(), paths);
        let before = chosen_at(roots.drop_last(), paths);
        let all = chosen_at(roots, paths);
        assert forall|i: int| 0 <= i < all.len() implies 0 <= #[trigger] all[i] < roots.len() by {
            if i < before.len() {
                assert(all[i] == before[i]);
            }
        }
    }
}

/// Open to everybody are the sign of life and the two streams, which ask for the token themselves;
/// everything else asks for it.
pub proof fn law_everything_else_asks_for_the_token(path: Seq<char>, token: Seq<char>)
    ensures
        may_pass(path, None, token) ==> path == "/health"@ || path == "/ws/events"@ || path
            == "/ws/logs"@,
        may_pass("/health"@, None, token),
        may_pass("/ws/events"@, None, token),
        may_pass("/ws/logs"@, None, token),
        may_pass(path, Some("Bearer "@ + token), token),
{
    if !is_open(path) {
        law_only_the_token_opens(path, "Bearer "@ + token, token);
    }
}

/// What is not there is answered with 404, what is in the way with 409, what does not fit together
/// with 422, and every other failure with 500.
pub proof fn law_an_error_has_its_status(e: CoreError)
    ensures
        status_of(e) == 404 <==> e is NotFound,
        status_of(e) == 422 <==> e is SnapshotNotForDatabase || e is SnapshotHasNoFilestore,
        status_of(e) == 409 <==> {
            ||| e == CoreError::Postgres(PgError::AlreadyRunning)
            ||| e == CoreError::Postgres(PgError::NotRunning)
            ||| e is PostgresInstanceNotRunning
            ||| e == CoreError::Odoo(OdooError::AlreadyRunning)
            ||| e matches CoreError::Odoo(why) && why is PortInUse
            ||| e is ProjectNotEmpty
            ||| e is DomainTaken
        },
        status_of(e) == 404 || status_of(e) == 409 || status_of(e) == 422 || status_of(e) == 500,
{
}

/// As many lines are shown as are asked for, but never more than a server keeps.
pub proof fn law_no_more_lines_are_shown_than_are_kept(asked: usize)
    ensures
        lines_shown(Some(asked)) <= asked,
        lines_shown(Some(asked)) <= crate::logs::LOG_BUFFER_LINES,
        asked <= crate::logs::LOG_BUFFER_LINES ==> lines_shown(Some(asked)) == asked,
        lines_shown(None) == lines_shown(Some(1000)),
{
}

} // verus!
