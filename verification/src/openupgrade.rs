//! Migrations from one Odoo version to another with OCA's OpenUpgrade, which knows one major
//! version at a time.

use crate::paths;
use crate::text;
use vstd::prelude::*;
use vstd::string::*;

verus! {

/// The versions that OpenUpgrade can migrate to, newest first.
pub const MIGRATABLE_TO: [&'static str; 6] = ["19.0", "18.0", "17.0", "16.0", "15.0", "14.0"];

/// Why fetching OpenUpgrade failed.
#[derive(Debug)]
pub enum OpenUpgradeError {
    Spawn { command: String, source: String },
    CommandFailed { command: String, stderr: String },
    Io(String),
}

/// What is shown of an error.
pub open spec fn openupgrade_error_text(e: OpenUpgradeError) -> Seq<char> {
    match e {
        OpenUpgradeError::Spawn { command, source } => "couldn't run "@ + command@ + ": "@
            + source@,
        OpenUpgradeError::CommandFailed { command, stderr } => command@ + " failed: "@ + stderr@,
        OpenUpgradeError::Io(source) => source@,
    }
}

impl OpenUpgradeError {
    /// What is shown of the error.
    pub fn message(&self) -> (r: String)
        ensures
            r@ == openupgrade_error_text(*self),
    {
        match self {
            OpenUpgradeError::Spawn { command, source } => {
                let mut out = text::joined("couldn't run ", command.as_str());
                out.append(": ");
                out.append(source.as_str());
                out
            },
            OpenUpgradeError::CommandFailed { command, stderr } => {
                let mut out = text::joined(command.as_str(), " failed: ");
                out.append(stderr.as_str());
                out
            },
            OpenUpgradeError::Io(source) => source.clone(),
        }
    }
}

/// The major version: the number before the first dot.
pub open spec fn major_in(version: Seq<char>) -> Option<nat> {
    text::unsigned_of(text::before_first(version, '.'), u32::MAX as nat)
}

/// The version text of a major version.
pub open spec fn version_text(major: nat) -> Seq<char> {
    text::decimal_of(major) + ".0"@
}

/// Whether OpenUpgrade can migrate to a major version.
pub open spec fn is_migratable(major: nat) -> bool {
    14 <= major <= 19
}

/// The versions from behind `from` up to `to`.
pub open spec fn versions_between(from: nat, to: nat) -> Seq<Seq<char>> {
    Seq::new((to - from) as nat, |i: int| version_text((from + 1 + i) as nat))
}

/// The steps of a migration: every major version behind `from` up to `to`. None where either is
/// no version, where it goes backwards, or where OpenUpgrade cannot take one of the steps.
pub open spec fn hops_between(from: Seq<char>, to: Seq<char>) -> Option<Seq<Seq<char>>> {
    match (major_in(from), major_in(to)) {
        (Some(a), Some(b)) => if a <= b && (forall|m: nat|
            a < m <= b ==> #[trigger] is_migratable(m)) {
            Some(versions_between(a, b))
        } else {
            None
        },
        _ => None,
    }
}

/// The major version of a version text.
fn major_of(version: &str) -> (r: Option<u32>)
    ensures
        match r {
            Some(n) => major_in(version@) == Some(n as nat),
            None => major_in(version@) is None,
        },
{
    match text::parse_unsigned(text::part_before(version, '.').as_str(), u32::MAX as u64) {
        Some(n) => Some(n as u32),
        None => None,
    }
}

/// The steps of a migration.
pub fn hops(from: &str, to: &str) -> (r: Option<Vec<String>>)
    ensures
        match r {
            Some(v) => hops_between(from@, to@) == Some(text::views(v@)),
            None => hops_between(from@, to@) is None,
        },
{
    let a = match major_of(from) {
        Some(n) => n,
        None => {
            return None;
        },
    };
    let b = match major_of(to) {
        Some(n) => n,
        None => {
            return None;
        },
    };
    if b < a {
        return None;
    }
    let mut out: Vec<String> = Vec::new();
    let mut m: u32 = a;
    while m < b
        invariant
            a <= m <= b,
            major_in(from@) == Some(a as nat),
            major_in(to@) == Some(b as nat),
            forall|k: nat| a < k <= m ==> #[trigger] is_migratable(k),
            text::views(out@) == versions_between(a as nat, m as nat),
        decreases b - m,
    {
        m = m + 1;
        if m < 14 || m > 19 {
            assert(!is_migratable(m as nat));
            return None;
        }
        let ghost before = text::views(out@);
        let version = text::joined(text::decimal(m as u64).as_str(), ".0");
        out.push(version);
        assert(text::views(out@) =~= before.push(version@));
        assert(text::views(out@) =~= versions_between(a as nat, m as nat));
    }
    Some(out)
}

/// A migration goes through every major version in turn: the first step is the version behind
/// `from`, each step the version behind the one before, and the last is `to`; there are no steps
/// exactly where the version is already reached.
pub proof fn law_no_version_is_skipped(from: Seq<char>, to: Seq<char>, i: int)
    requires
        hops_between(from, to) is Some,
        0 <= i < hops_between(from, to)->0.len(),
    ensures
        hops_between(from, to)->0.len() == major_in(to)->0 - major_in(from)->0,
        hops_between(from, to)->0[i] == version_text((major_in(from)->0 + 1 + i) as nat),
        hops_between(from, to)->0.last() == version_text(major_in(to)->0),
{
}

/// Where the version is already reached, there is nothing to do, and that is no error.
pub proof fn law_already_there_is_no_steps(version: Seq<char>)
    requires
        major_in(version) is Some,
    ensures
        hops_between(version, version) == Some(Seq::<Seq<char>>::empty()),
{
    assert(versions_between(major_in(version)->0, major_in(version)->0) =~= Seq::<
        Seq<char>,
    >::empty());
}

/// The listed versions are exactly the ones that can be migrated to.
pub proof fn law_the_list_is_complete(i: int, major: nat)
    requires
        0 <= i < 6,
    ensures
        MIGRATABLE_TO@[i]@ == version_text((19 - i) as nat),
        is_migratable((19 - i) as nat),
        is_migratable(major) ==> MIGRATABLE_TO@[19 - major]@ == version_text(major),
{
    lemma_listed(i);
    if is_migratable(major) {
        lemma_listed(19 - major);
    }
}

/// Different versions have different texts.
pub proof fn lemma_versions_differ(m: nat, n: nat)
    requires
        is_migratable(m),
        is_migratable(n),
        m != n,
    ensures
        version_text(m) != version_text(n),
{
    lemma_listed(19 - m);
    lemma_listed(19 - n);
    reveal_strlit("19.0");
    reveal_strlit("18.0");
    reveal_strlit("17.0");
    reveal_strlit("16.0");
    reveal_strlit("15.0");
    reveal_strlit("14.0");
    assert(MIGRATABLE_TO@[19 - m]@[1] != MIGRATABLE_TO@[19 - n]@[1]);
}

/// The major version of a listed version is the number that it begins with.
pub proof fn lemma_major_of_listed(i: int)
    requires
        0 <= i < 6,
    ensures
        major_in(MIGRATABLE_TO@[i]@) == Some((19 - i) as nat),
{
    let v = MIGRATABLE_TO@[i]@;
    reveal_strlit("19.0");
    reveal_strlit("18.0");
    reveal_strlit("17.0");
    reveal_strlit("16.0");
    reveal_strlit("15.0");
    reveal_strlit("14.0");
    text::lemma_first_at_is(v, '.', 2);
    let digits = text::before_first(v, '.');
    assert(digits.len() == 2);
    reveal_with_fuel(text::number_of, 3);
    assert(digits.drop_last().drop_last() =~= Seq::<char>::empty());
    assert(text::number_of(digits) == 19 - i);
}

/// A way between two listed versions goes through every listed version between them, in rising
/// order, and ends at the version that is asked for; there is none back.
pub proof fn law_a_way_is_every_version_between(i: int, j: int)
    requires
        0 <= i < 6,
        0 <= j < 6,
    ensures
        hops_between(MIGRATABLE_TO@[i]@, MIGRATABLE_TO@[j]@) is Some <==> j <= i,
        j <= i ==> hops_between(MIGRATABLE_TO@[i]@, MIGRATABLE_TO@[j]@)->0.len() == i - j,
        forall|k: int|
            0 <= k < i - j ==> (#[trigger] hops_between(
                MIGRATABLE_TO@[i]@,
                MIGRATABLE_TO@[j]@,
            )->0[k]) == MIGRATABLE_TO@[i - 1 - k]@,
{
    lemma_major_of_listed(i);
    lemma_major_of_listed(j);
    if j <= i {
        assert forall|m: nat| (19 - i) < m <= 19 - j implies #[trigger] is_migratable(m) by {}
        assert forall|k: int| 0 <= k < i - j implies (#[trigger] hops_between(
            MIGRATABLE_TO@[i]@,
            MIGRATABLE_TO@[j]@,
        )->0[k]) == MIGRATABLE_TO@[i - 1 - k]@ by {
            lemma_listed(i - 1 - k);
        }
    }
}

proof fn lemma_listed(i: int)
    requires
        0 <= i < 6,
    ensures
        MIGRATABLE_TO@[i]@ == version_text((19 - i) as nat),
{
    reveal_with_fuel(text::decimal_of, 3);
    reveal_strlit("19.0");
    reveal_strlit("18.0");
    reveal_strlit("17.0");
    reveal_strlit("16.0");
    reveal_strlit("15.0");
    reveal_strlit("14.0");
    reveal_strlit(".0");
    assert(MIGRATABLE_TO@[i]@ =~= version_text((19 - i) as nat));
}

/// Where OpenUpgrade of a version is kept.
pub fn cache_dir(root: &str, version: &str) -> (r: String)
    ensures
        r@ == paths::under(paths::under(root@, "openupgrade"@), version@),
{
    paths::join(paths::join(root, "openupgrade").as_str(), version)
}

/// The file that shows that OpenUpgrade was fetched to `target`.
pub fn marker_file(target: &str) -> (r: String)
    ensures
        r@ == paths::under(
            paths::under(target@, "openupgrade_framework"@),
            "__manifest__.py"@,
        ),
{
    paths::join(paths::join(target, "openupgrade_framework").as_str(), "__manifest__.py")
}

/// What `git` is run with to fetch OpenUpgrade of a version to `target`.
pub fn clone_args(version: &str, target: &str) -> (r: Vec<String>)
    ensures
        text::views(r@) == seq![
            "clone"@,
            "--depth"@,
            "1"@,
            "--single-branch"@,
            "--branch"@,
            version@,
            "--filter=blob:none"@,
            "https://github.com/OCA/OpenUpgrade.git"@,
            target@,
        ],
{
    let mut out: Vec<String> = Vec::new();
    out.push("clone".to_owned());
    out.push("--depth".to_owned());
    out.push("1".to_owned());
    out.push("--single-branch".to_owned());
    out.push("--branch".to_owned());
    out.push(version.to_owned());
    out.push("--filter=blob:none".to_owned());
    out.push("https://github.com/OCA/OpenUpgrade.git".to_owned());
    out.push(target.to_owned());
    assert(text::views(out@) =~= seq![
        "clone"@,
        "--depth"@,
        "1"@,
        "--single-branch"@,
        "--branch"@,
        version@,
        "--filter=blob:none"@,
        "https://github.com/OCA/OpenUpgrade.git"@,
        target@,
    ]);
    out
}

/// What a run of `git` that was to fetch OpenUpgrade comes to.
pub fn clone_outcome(version: &str, success: bool, stderr: &str) -> (r: Result<(), OpenUpgradeError>)
    ensures
        match r {
            Ok(_) => success,
            Err(e) => {
                &&& !success
                &&& e matches OpenUpgradeError::CommandFailed { command, stderr: shown }
                &&& command@ == "git clone OpenUpgrade "@ + version@
                &&& shown@ == text::trimmed(stderr@)
            },
        },
{
    if success {
        Ok(())
    } else {
        Err(
            OpenUpgradeError::CommandFailed {
                command: text::joined("git clone OpenUpgrade ", version),
                stderr: text::trim(stderr),
            },
        )
    }
}

/// One step of a migration, and whether what it needs is already here.
#[derive(Debug)]
pub struct Hop {
    pub from: String,
    pub to: String,
    pub odoo_ready: bool,
    pub openupgrade_ready: bool,
}

/// A way leads from each version to every later one that OpenUpgrade knows, whatever stands behind
/// the dot: through every major version above the first, each once, up to the last.
pub proof fn law_a_way_leads_upwards(
    a: nat,
    x: Seq<char>,
    b: nat,
    y: Seq<char>,
    i: int,
)
    requires
        a <= u32::MAX,
        b <= u32::MAX,
    ensures
        ({
            let from = text::decimal_of(a).push('.') + x;
            let to = text::decimal_of(b).push('.') + y;
            let way = hops_between(from, to);
            &&& way is Some <==> a == b || (13 <= a < b <= 19)
            &&& way is Some ==> way->0.len() == b - a
            &&& way is Some && 0 <= i < way->0.len() ==> major_in(way->0[i]) == Some(
                (a + 1 + i) as nat,
            )
        }),
{
    let from = text::decimal_of(a).push('.') + x;
    let to = text::decimal_of(b).push('.') + y;
    lemma_major(a, x);
    lemma_major(b, y);
    if a < b && 13 <= a && b <= 19 {
        assert(forall|m: nat| a < m <= b ==> #[trigger] is_migratable(m));
    } else if a < b {
        if a < 13 {
            assert(!is_migratable((a + 1) as nat));
        } else {
            assert(!is_migratable(b));
        }
    }
    let way = hops_between(from, to);
    if way is Some && 0 <= i < way->0.len() {
        let m = (a + 1 + i) as nat;
        reveal_strlit(".0");
        assert(version_text(m) =~= text::decimal_of(m).push('.') + seq!['0']);
        lemma_major(m, seq!['0']);
    }
}

proof fn lemma_major(major: nat, rest: Seq<char>)
    requires
        major <= u32::MAX,
    ensures
        major_in(text::decimal_of(major).push('.') + rest) == Some(major),
{
    let digits = text::decimal_of(major);
    text::law_a_written_number_is_read_again(major, u32::MAX as nat);
    assert(!digits.contains('.')) by {
        if digits.contains('.') {
            let i = choose|i: int| 0 <= i < digits.len() && digits[i] == '.';
            assert(text::is_digit(digits[i]));
        }
    }
    text::law_text_parts_at_the_first_mark(digits, rest, '.');
}

} // verus!
