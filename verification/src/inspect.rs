//! What databases say of themselves: whether they are neutralized, and what is installed.

use crate::errors::CoreError;
use crate::model::{Database, Id};
use crate::order;
use crate::pg_admin::PgAdminError;
use crate::records::{Core, State};
use crate::rows;
use crate::text;
use vstd::prelude::*;
use vstd::string::*;

verus! {

// --- neutralization -------------------------------------------------------

/// Whether a database can still reach the outside world.
#[derive(Debug, Clone, Copy, PartialEq, Eq, Structural)]
pub enum NeutralizationState {
    Neutralized,
    Live,
    NotOdoo,
    Unknown,
}

/// What asks a database whether it is neutralized.
pub const NEUTRALIZED_QUERY: &'static str =
    "SELECT value FROM ir_config_parameter WHERE key = 'database.is_neutralized'";

/// Whether two texts are the same up to the case of ASCII letters.
pub open spec fn same_ignoring_case(a: Seq<char>, b: Seq<char>) -> bool {
    a.map_values(|c: char| text::ascii_lower(c)) == b.map_values(|c: char| text::ascii_lower(c))
}

fn lower(c: char) -> (r: char)
    ensures
        r == text::ascii_lower(c),
{
    match c {
        'A' => 'a',
        'B' => 'b',
        'C' => 'c',
        'D' => 'd',
        'E' => 'e',
        'F' => 'f',
        'G' => 'g',
        'H' => 'h',
        'I' => 'i',
        'J' => 'j',
        'K' => 'k',
        'L' => 'l',
        'M' => 'm',
        'N' => 'n',
        'O' => 'o',
        'P' => 'p',
        'Q' => 'q',
        'R' => 'r',
        'S' => 's',
        'T' => 't',
        'U' => 'u',
        'V' => 'v',
        'W' => 'w',
        'X' => 'x',
        'Y' => 'y',
        'Z' => 'z',
        _ => c,
    }
}

/// Whether two texts are the same up to the case of ASCII letters.
pub fn eq_ignore_case(a: &str, b: &str) -> (r: bool)
    ensures
        r == same_ignoring_case(a@, b@),
{
    let x = text::chars_of(a);
    let y = text::chars_of(b);
    let ghost la = a@.map_values(|c: char| text::ascii_lower(c));
    let ghost lb = b@.map_values(|c: char| text::ascii_lower(c));
    if x.len() != y.len() {
        assert(la.len() != lb.len());
        return false;
    }
    let mut i: usize = 0;
    while i < x.len()
        invariant
            i <= x@.len() == y@.len(),
            x@ == a@,
            y@ == b@,
            la == a@.map_values(|c: char| text::ascii_lower(c)),
            lb == b@.map_values(|c: char| text::ascii_lower(c)),
            forall|j: int| 0 <= j < i ==> #[trigger] la[j] == lb[j],
        decreases x@.len() - i,
    {
        if lower(x[i]) != lower(y[i]) {
            assert(la[i as int] != lb[i as int]);
            return false;
        }
        assert(la[i as int] == lb[i as int]);
        i = i + 1;
    }
    assert(la =~= lb);
    true
}

/// What a database answered when it was asked whether it is neutralized; nothing where its
/// cluster could not be asked.
#[derive(Debug)]
pub struct NeutralizationAnswer {
    pub database_id: Id,
    pub said: Option<Result<Option<String>, PgAdminError>>,
}

/// Whether a complaint says that there is no table with the given name.
pub open spec fn misses_table(e: PgAdminError, table: Seq<char>) -> bool {
    e matches PgAdminError::CommandFailed { command, exit_code, stderr } && text::has_part(
        stderr@,
        table,
    ) && text::has_part(stderr@, "does not exist"@)
}

/// Whether a complaint says that there is no table with the given name.
fn says_no_table(e: &PgAdminError, table: &str) -> (r: bool)
    ensures
        r == misses_table(*e, table@),
{
    match e {
        PgAdminError::CommandFailed { command: _, exit_code: _, stderr } => {
            text::contains_part(stderr.as_str(), table) && text::contains_part(
                stderr.as_str(),
                "does not exist",
            )
        },
        _ => false,
    }
}

/// What an answer says: one that could not be asked for says nothing, and neither does an error,
/// but for the one that there is no table of parameters; then this is no database of Odoo.
pub open spec fn neutralized_as(said: Option<Result<Option<String>, PgAdminError>>) -> NeutralizationState {
    match said {
        None => NeutralizationState::Unknown,
        Some(Err(e)) => if misses_table(e, "ir_config_parameter"@) {
            NeutralizationState::NotOdoo
        } else {
            NeutralizationState::Unknown
        },
        Some(Ok(Some(value))) => if same_ignoring_case(value@, "true"@) {
            NeutralizationState::Neutralized
        } else {
            NeutralizationState::Live
        },
        Some(Ok(None)) => NeutralizationState::Live,
    }
}

/// What could not be found out is never called live, nor no database of Odoo: an answer is unknown
/// exactly where nobody could ask or the question failed, unless it failed because Odoo's table is
/// not there. Only a database that says so is neutralized.
pub proof fn law_not_asked_is_not_live(said: Option<Result<Option<String>, PgAdminError>>)
    ensures
        neutralized_as(said) is Unknown <==> said is None || (said matches Some(Err(e))
            && !misses_table(e, "ir_config_parameter"@)),
        neutralized_as(said) is NotOdoo <==> (said matches Some(Err(e)) && misses_table(
            e,
            "ir_config_parameter"@,
        )),
        neutralized_as(said) is Neutralized ==> (said matches Some(Ok(Some(value)))
            && same_ignoring_case(value@, "true"@)),
{
}

/// What an answer says.
pub fn neutralization_state(said: &Option<Result<Option<String>, PgAdminError>>) -> (r:
    NeutralizationState)
    ensures
        r == neutralized_as(*said),
{
    match said {
        None => NeutralizationState::Unknown,
        Some(Err(e)) => {
            if says_no_table(e, "ir_config_parameter") {
                NeutralizationState::NotOdoo
            } else {
                NeutralizationState::Unknown
            }
        },
        Some(Ok(Some(value))) => {
            if eq_ignore_case(value.as_str(), "true") {
                NeutralizationState::Neutralized
            } else {
                NeutralizationState::Live
            }
        },
        Some(Ok(None)) => NeutralizationState::Live,
    }
}

/// What a database answered; one that did not answer could not be asked.
pub open spec fn answer_for(answers: Seq<NeutralizationAnswer>, id: Id) -> NeutralizationState
    decreases answers.len(),
{
    if answers.len() == 0 {
        NeutralizationState::Unknown
    } else if answers[0].database_id == id {
        neutralized_as(answers[0].said)
    } else {
        answer_for(answers.skip(1), id)
    }
}

/// What is said of the databases whose servers are there.
pub open spec fn states_of(
    databases: Seq<Database>,
    s: State,
    answers: Seq<NeutralizationAnswer>,
) -> Seq<(Id, NeutralizationState)>
    decreases databases.len(),
{
    if databases.len() == 0 {
        Seq::empty()
    } else {
        let before = states_of(databases.drop_last(), s, answers);
        let d = databases.last();
        if rows::taken(s.servers, d.server_id) {
            before.push((d.id, answer_for(answers, d.id)))
        } else {
            before
        }
    }
}

fn state_said(answers: &Vec<NeutralizationAnswer>, id: Id) -> (r: NeutralizationState)
    ensures
        r == answer_for(answers@, id),
{
    let mut i: usize = 0;
    assert(answers@.skip(0) =~= answers@);
    while i < answers.len()
        invariant
            i <= answers@.len(),
            answer_for(answers@, id) == answer_for(answers@.skip(i as int), id),
        decreases answers@.len() - i,
    {
        assert(answers@.skip(i as int)[0] == answers@[i as int]);
        if answers[i].database_id == id {
            return neutralization_state(&answers[i].said);
        }
        assert(answers@.skip(i as int).skip(1) =~= answers@.skip(i + 1));
        i = i + 1;
    }
    NeutralizationState::Unknown
}

impl Core {
    /// What is said of the databases whose servers are there.
    pub fn neutralization_states(&self, answers: &Vec<NeutralizationAnswer>) -> (r: Vec<
        (Id, NeutralizationState),
    >)
        ensures
            r@ == states_of(rows::listing(self@.databases, None), self@, answers@),
    {
        let databases = self.list_databases(None);
        let ghost all = order::owned(databases@);
        let mut out: Vec<(Id, NeutralizationState)> = Vec::new();
        let mut i: usize = 0;
        assert(all.take(0) =~= Seq::<Database>::empty());
        while i < databases.len()
            invariant
                i <= databases@.len(),
                all == order::owned(databases@),
                out@ == states_of(all.take(i as int), self@, answers@),
            decreases databases@.len() - i,
        {
            let d = databases[i];
            proof {
                assert(all.take(i + 1).drop_last() =~= all.take(i as int));
                assert(all.take(i + 1).last() == *d);
            }
            if rows::find(&self.servers, d.server_id).is_some() {
                out.push((d.id, state_said(answers, d.id)));
            }
            i = i + 1;
        }
        assert(all.take(i as int) =~= all);
        out
    }
}

// --- what is installed ----------------------------------------------------

/// A module of a database, as the database says.
#[derive(Debug)]
pub struct DatabaseModuleState {
    pub technical_name: String,
    pub state: String,
    pub installed_version: Option<String>,
}

/// What asks a database for its modules.
pub const MODULES_QUERY: &'static str =
    "SELECT name, state, latest_version FROM ir_module_module ORDER BY name";

/// The module that a row of three columns says; a row of another length says none, an empty
/// version is none.
pub open spec fn module_in(row: Seq<String>) -> Option<DatabaseModuleState> {
    if row.len() != 3 {
        None
    } else {
        Some(
            DatabaseModuleState {
                technical_name: row[0],
                state: row[1],
                installed_version: if row[2]@.len() == 0 {
                    None
                } else {
                    Some(row[2])
                },
            },
        )
    }
}

/// The modules that rows say.
pub open spec fn modules_in(answer: Seq<Vec<String>>) -> Seq<DatabaseModuleState>
    decreases answer.len(),
{
    if answer.len() == 0 {
        Seq::empty()
    } else {
        let before = modules_in(answer.drop_last());
        match module_in(answer.last()@) {
            Some(m) => before.push(m),
            None => before,
        }
    }
}

/// The modules of a database: `answer` is what it said when it was asked.
pub fn database_module_states(answer: Result<Vec<Vec<String>>, PgAdminError>) -> (r: Result<
    Vec<DatabaseModuleState>,
    CoreError,
>)
    ensures
        match answer {
            Ok(found) => r matches Ok(states) && states@ == modules_in(found@),
            Err(e) => if misses_table(e, "ir_module_module"@) {
                r matches Ok(states) && states@.len() == 0
            } else {
                r == Err::<Vec<DatabaseModuleState>, CoreError>(CoreError::PgAdmin(e))
            },
        },
{
    let found = match answer {
        Ok(found) => found,
        Err(e) => {
            let none = says_no_table(&e, "ir_module_module");
            if none {
                return Ok(Vec::new());
            }
            return Err(CoreError::PgAdmin(e));
        },
    };
    let mut out: Vec<DatabaseModuleState> = Vec::new();
    let mut i: usize = 0;
    assert(found@.take(0) =~= Seq::<Vec<String>>::empty());
    while i < found.len()
        invariant
            i <= found@.len(),
            out@ == modules_in(found@.take(i as int)),
        decreases found@.len() - i,
    {
        proof {
            assert(found@.take(i + 1).drop_last() =~= found@.take(i as int));
            assert(found@.take(i + 1).last() == found@[i as int]);
        }
        let row = &found[i];
        if row.len() == 3 {
            let installed_version = if row[2].as_str().is_empty() {
                None
            } else {
                Some(row[2].clone())
            };
            out.push(
                DatabaseModuleState {
                    technical_name: row[0].clone(),
                    state: row[1].clone(),
                    installed_version,
                },
            );
        }
        i = i + 1;
    }
    assert(found@.take(i as int) =~= found@);
    Ok(out)
}

/// The modules among those that changed that are installed.
pub open spec fn to_update(states: Seq<DatabaseModuleState>, changed: Seq<Seq<char>>) -> Seq<
    Seq<char>,
>
    decreases states.len(),
{
    if states.len() == 0 {
        Seq::empty()
    } else {
        let before = to_update(states.drop_last(), changed);
        let s = states.last();
        if s.state@ == "installed"@ && changed.contains(s.technical_name@) {
            before.push(s.technical_name@)
        } else {
            before
        }
    }
}

/// The modules that are updated on a database after data files of modules changed: those among
/// them that are installed there.
pub fn modules_to_update(states: &Vec<DatabaseModuleState>, changed: &Vec<String>) -> (r: Vec<
    String,
>)
    ensures
        text::views(r@) == to_update(states@, text::views(changed@)),
{
    let mut out: Vec<String> = Vec::new();
    let mut i: usize = 0;
    assert(states@.take(0) =~= Seq::<DatabaseModuleState>::empty());
    assert(text::views(out@) =~= to_update(states@.take(0), text::views(changed@)));
    while i < states.len()
        invariant
            i <= states@.len(),
            text::views(out@) == to_update(states@.take(i as int), text::views(changed@)),
        decreases states@.len() - i,
    {
        let ghost before = text::views(out@);
        proof {
            assert(states@.take(i + 1).drop_last() =~= states@.take(i as int));
            assert(states@.take(i + 1).last() == states@[i as int]);
        }
        let s = &states[i];
        if text::same_text(s.state.as_str(), "installed") && text::contains_text(
            changed,
            s.technical_name.as_str(),
        ) {
            out.push(s.technical_name.clone());
            assert(text::views(out@) =~= before.push(s.technical_name@));
        }
        i = i + 1;
    }
    assert(states@.take(i as int) =~= states@);
    out
}

/// A database that says it is neutralized is: whatever the case of the letters. One that says
/// anything else, or nothing, is live.
pub proof fn law_a_database_says_whether_it_is_neutralized(
    said: Option<Result<Option<String>, PgAdminError>>,
)
    ensures
        said matches Some(Ok(value)) ==> (neutralized_as(said) is Neutralized <==> value is Some
            && value->0@.len() == 4 && text::ascii_lower(value->0@[0]) == 't'
            && text::ascii_lower(value->0@[1]) == 'r' && text::ascii_lower(value->0@[2]) == 'u'
            && text::ascii_lower(value->0@[3]) == 'e'),
        said matches Some(Ok(value)) ==> neutralized_as(said) is Neutralized || neutralized_as(
            said,
        ) is Live,
{
    reveal_strlit("true");
    if let Some(Ok(Some(value))) = said {
        let low = value@.map_values(|c: char| text::ascii_lower(c));
        let word = "true"@.map_values(|c: char| text::ascii_lower(c));
        assert(word.len() == 4);
        assert(word[0] == 't' && word[1] == 'r' && word[2] == 'u' && word[3] == 'e');
        if low == word {
            assert(low[0] == text::ascii_lower(value@[0]));
            assert(low[1] == text::ascii_lower(value@[1]));
            assert(low[2] == text::ascii_lower(value@[2]));
            assert(low[3] == text::ascii_lower(value@[3]));
        }
        if value@.len() == 4 && text::ascii_lower(value@[0]) == 't' && text::ascii_lower(value@[1])
            == 'r' && text::ascii_lower(value@[2]) == 'u' && text::ascii_lower(value@[3]) == 'e' {
            assert(low =~= word);
        }
    }
}

/// The answer that counts is the first one given for the database.
pub proof fn law_the_first_answer_counts(answers: Seq<NeutralizationAnswer>, id: Id, k: int)
    ensures
        0 <= k < answers.len() && answers[k].database_id == id && (forall|i: int|
            0 <= i < k ==> (#[trigger] answers[i]).database_id != id) ==> answer_for(answers, id)
            == neutralized_as(answers[k].said),
        (forall|i: int| 0 <= i < answers.len() ==> (#[trigger] answers[i]).database_id != id)
            ==> answer_for(answers, id) is Unknown,
    decreases answers.len(),
{
    if answers.len() > 0 {
        let rest = answers.skip(1);
        law_the_first_answer_counts(rest, id, k - 1);
        assert(forall|i: int| 0 <= i < rest.len() ==> rest[i] == answers[i + 1]);
    }
}

/// Every database whose server is known is told of, once and in the order of the list, with what
/// was said of it; no other is.
pub proof fn law_every_database_is_told_of(
    databases: Seq<Database>,
    s: State,
    answers: Seq<NeutralizationAnswer>,
)
    ensures
        states_of(databases, s, answers) == databases.filter(
            |d: Database|
                exists|k: int|
                    0 <= k < s.servers.len() && (#[trigger] s.servers[k]).id == d.server_id,
        ).map_values(|d: Database| (d.id, answer_for(answers, d.id))),
    decreases databases.len(),
{
    let pick = |d: Database|
        exists|k: int| 0 <= k < s.servers.len() && (#[trigger] s.servers[k]).id == d.server_id;
    let turn = |d: Database| (d.id, answer_for(answers, d.id));
    order::lemma_picked(databases, pick, turn);
    if databases.len() > 0 {
        law_every_database_is_told_of(databases.drop_last(), s, answers);
        let d = databases.last();
        if rows::taken(s.servers, d.server_id) {
            rows::lemma_place_of(s.servers, d.server_id);
            assert(rows::row_of(s.servers, d.server_id).id == d.server_id);
        }
        if pick(d) {
            let k = choose|k: int|
                0 <= k < s.servers.len() && (#[trigger] s.servers[k]).id == d.server_id;
            rows::law_a_record_is_found_by_its_identifier(s.servers, s.servers[k], 0);
            assert(s.servers.contains(s.servers[k]));
        }
    }
}

/// Every row of three columns is a module, in the order of the answer: its name, its state, and
/// its version where that is not empty.
pub proof fn law_every_full_row_is_a_module(answer: Seq<Vec<String>>)
    ensures
        modules_in(answer) == answer.filter(|row: Vec<String>| row@.len() == 3).map_values(
            |row: Vec<String>|
                DatabaseModuleState {
                    technical_name: row@[0],
                    state: row@[1],
                    installed_version: if row@[2]@.len() > 0 {
                        Some(row@[2])
                    } else {
                        None
                    },
                },
        ),
    decreases answer.len(),
{
    let pick = |row: Vec<String>| row@.len() == 3;
    let turn = |row: Vec<String>|
        DatabaseModuleState {
            technical_name: row@[0],
            state: row@[1],
            installed_version: if row@[2]@.len() > 0 {
                Some(row@[2])
            } else {
                None
            },
        };
    order::lemma_picked(answer, pick, turn);
    if answer.len() > 0 {
        law_every_full_row_is_a_module(answer.drop_last());
    }
}

/// Updated is every installed module whose code changed, and no other, in the order of the list.
pub proof fn law_every_changed_module_is_updated(
    states: Seq<DatabaseModuleState>,
    changed: Seq<Seq<char>>,
)
    ensures
        to_update(states, changed) == states.filter(
            |m: DatabaseModuleState|
                m.state@ == "installed"@ && changed.contains(m.technical_name@),
        ).map_values(|m: DatabaseModuleState| m.technical_name@),
    decreases states.len(),
{
    let pick = |m: DatabaseModuleState|
        m.state@ == "installed"@ && changed.contains(m.technical_name@);
    let turn = |m: DatabaseModuleState| m.technical_name@;
    order::lemma_picked(states, pick, turn);
    if states.len() > 0 {
        law_every_changed_module_is_updated(states.drop_last(), changed);
    }
}

/// A database without the table says so: the complaint names the table and says that it does not
/// exist. Only a command that failed can say that.
pub proof fn law_a_missing_table_is_named(
    e: PgAdminError,
    table: Seq<char>,
    a: Seq<char>,
    b: Seq<char>,
    c: Seq<char>,
)
    ensures
        e matches PgAdminError::CommandFailed { command, exit_code, stderr } ==> (stderr@ == a + table
            + b + "does not exist"@ + c ==> misses_table(e, table)),
        misses_table(e, table) ==> e is CommandFailed,
        e matches PgAdminError::CommandFailed { command, exit_code, stderr } ==> (misses_table(
            e,
            table,
        ) ==> text::has_part(stderr@, table) && text::has_part(stderr@, "does not exist"@)),
{
    let words = "does not exist"@;
    let whole = a + table + b + words + c;
    let n = a.len() as int;
    let m = (a + table + b).len() as int;
    assert(whole.subrange(n, n + table.len()) =~= table);
    assert(whole.subrange(m, m + words.len()) =~= words);
}

} // verus!
