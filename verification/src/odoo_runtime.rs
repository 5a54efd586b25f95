//! Which Odoo checkout runs a version: the application's own copy, or one that is already on the
//! machine.

use crate::paths;
use crate::text;
use vstd::prelude::*;
use vstd::string::*;

verus! {

/// Why a checkout cannot be used or removed.
#[derive(Debug)]
pub enum OdooRuntimeError {
    Spawn { command: String, source: String },
    CommandFailed { command: String, stderr: String },
    Io(String),
    WrongVersion { path: String, found: String, wanted: String },
    NotInCache { path: String },
}

/// What is shown of an error.
pub open spec fn runtime_error_text(e: OdooRuntimeError) -> Seq<char> {
    match e {
        OdooRuntimeError::Spawn { command, source } => "couldn't run "@ + command@ + ": "@
            + source@,
        OdooRuntimeError::CommandFailed { command, stderr } => command@ + " failed: "@ + stderr@,
        OdooRuntimeError::Io(source) => "filesystem error: "@ + source@,
        OdooRuntimeError::WrongVersion { path, found, wanted } => path@ + " looks like Odoo "@
            + found@ + ", not "@ + wanted@,
        OdooRuntimeError::NotInCache { path } => path@
            + " isn't a copy this app downloaded, so it isn't this app's to delete"@,
    }
}

impl OdooRuntimeError {
    /// What is shown of the error.
    pub fn message(&self) -> (r: String)
        ensures
            r@ == runtime_error_text(*self),
    {
        match self {
            OdooRuntimeError::Spawn { command, source } => {
                let mut out = text::joined("couldn't run ", command.as_str());
                out.append(": ");
                out.append(source.as_str());
                out
            },
            OdooRuntimeError::CommandFailed { command, stderr } => {
                let mut out = text::joined(command.as_str(), " failed: ");
                out.append(stderr.as_str());
                out
            },
            OdooRuntimeError::Io(source) => text::joined("filesystem error: ", source.as_str()),
            OdooRuntimeError::WrongVersion { path, found, wanted } => {
                let mut out = text::joined(path.as_str(), " looks like Odoo ");
                out.append(found.as_str());
                out.append(", not ");
                out.append(wanted.as_str());
                out
            },
            OdooRuntimeError::NotInCache { path } => text::joined(
                path.as_str(),
                " isn't a copy this app downloaded, so it isn't this app's to delete",
            ),
        }
    }
}

/// A folder that may be an Odoo checkout: whether it holds `odoo-bin` and `odoo/release.py`, the
/// text of the latter where it can be read, and the Python interpreters in it, as paths under it.
#[derive(Debug)]
pub struct Checkout {
    pub path: String,
    pub has_odoo_bin: bool,
    pub has_release: bool,
    pub release: Option<String>,
    pub interpreters: Vec<String>,
}

/// Where a checkout comes from.
#[derive(Debug, Clone, Copy, PartialEq, Eq, Structural)]
pub enum RuntimeSource {
    Cache,
    Adopted,
    Fetched,
}

/// A checkout that runs a version.
#[derive(Debug)]
pub struct OdooRuntime {
    pub version: String,
    pub checkout_root: String,
    pub venv_python: Option<String>,
    pub source: RuntimeSource,
}

/// A copy that the application downloaded.
#[derive(Debug)]
pub struct CachedRuntime {
    pub version: String,
    pub folder: String,
    pub path: String,
    pub size_bytes: u64,
    pub has_venv: bool,
}

// --- reading a checkout ---------------------------------------------------

/// Whether a folder is an Odoo checkout: `odoo-bin` alone does not make it one.
pub fn is_odoo_checkout(c: &Checkout) -> (r: bool)
    ensures
        r == is_checkout(*c),
{
    c.has_odoo_bin && c.has_release
}

/// Whether a folder is an Odoo checkout.
pub open spec fn is_checkout(c: Checkout) -> bool {
    c.has_odoo_bin && c.has_release
}

/// A text without quotes of either sort around it.
pub open spec fn unquoted(s: Seq<char>) -> Seq<char> {
    text::trimmed_char(text::trimmed_char(s, '\''), '"')
}

/// What the version tuple behind its opening bracket says: its first two fields.
pub open spec fn tuple_says(inner: Seq<char>) -> Option<Seq<char>> {
    let fields = text::split_on(inner, ',');
    if fields.len() < 2 {
        None
    } else {
        let major = unquoted(text::trimmed(fields[0]));
        let minor = unquoted(text::trimmed(fields[1]));
        let a = text::unsigned_of(major, u32::MAX as nat);
        let b = text::unsigned_of(minor, u32::MAX as nat);
        if "saas"@.is_prefix_of(major) {
            Some(major + "."@ + minor)
        } else if a is Some && b is Some {
            Some(text::decimal_of(a->0) + "."@ + text::decimal_of(b->0))
        } else {
            None
        }
    }
}

/// What an assignment to `key` says: a value that begins with a digit is the version.
pub open spec fn assignment_says(line: Seq<char>, key: Seq<char>) -> Option<Seq<char>> {
    match text::without_prefix(line, key) {
        None => None,
        Some(rest) => match text::after_first(rest, '=') {
            None => None,
            Some(value) => {
                let v = unquoted(text::trimmed(value));
                if v.len() > 0 && text::is_digit(v[0]) {
                    Some(v)
                } else {
                    None
                }
            },
        },
    }
}

/// What a line says, without white space around it.
pub open spec fn line_says(line: Seq<char>) -> Option<Seq<char>> {
    let tuple = match text::without_prefix(line, "version_info"@) {
        None => None,
        Some(rest) => match text::after_first(rest, '(') {
            None => None,
            Some(inner) => tuple_says(inner),
        },
    };
    if tuple is Some {
        tuple
    } else if assignment_says(line, "series"@) is Some {
        assignment_says(line, "series"@)
    } else {
        assignment_says(line, "major_version"@)
    }
}

/// The version that the lines of `release.py` say, from line `i` on.
pub open spec fn series_in_lines(lines: Seq<Seq<char>>, i: int) -> Option<Seq<char>>
    decreases lines.len() - i,
{
    if !(0 <= i < lines.len()) {
        None
    } else {
        match line_says(text::trimmed(lines[i])) {
            Some(s) => Some(s),
            None => series_in_lines(lines, i + 1),
        }
    }
}

/// The version that a checkout says it is, whatever its folder is called.
pub open spec fn series_in(c: Checkout) -> Option<Seq<char>> {
    match c.release {
        Some(release) => series_in_lines(text::lines_of(release@), 0),
        None => None,
    }
}

fn unquote(s: &str) -> (r: String)
    ensures
        r@ == unquoted(s@),
{
    text::trim_char(text::trim_char(s, '\'').as_str(), '"')
}

fn read_tuple(inner: &str) -> (r: Option<String>)
    ensures
        text::opt_view(r) == tuple_says(inner@),
{
    let fields = text::split(inner, ',');
    assert(text::views(fields@).len() == fields@.len());
    if fields.len() < 2 {
        return None;
    }
    assert(text::views(fields@)[0] == fields@[0]@);
    assert(text::views(fields@)[1] == fields@[1]@);
    let major = unquote(text::trim(fields[0].as_str()).as_str());
    let minor = unquote(text::trim(fields[1].as_str()).as_str());
    if text::starts_with(major.as_str(), "saas") {
        let mut out = text::joined(major.as_str(), ".");
        out.append(minor.as_str());
        return Some(out);
    }
    match (
        text::parse_unsigned(major.as_str(), u32::MAX as u64),
        text::parse_unsigned(minor.as_str(), u32::MAX as u64),
    ) {
        (Some(a), Some(b)) => {
            let mut out = text::joined(text::decimal(a).as_str(), ".");
            out.append(text::decimal(b).as_str());
            Some(out)
        },
        _ => None,
    }
}

fn read_assignment(line: &str, key: &str) -> (r: Option<String>)
    ensures
        text::opt_view(r) == assignment_says(line@, key@),
{
    let rest = match text::strip_prefix(line, key) {
        Some(rest) => rest,
        None => {
            return None;
        },
    };
    let value = match text::part_after(rest.as_str(), '=') {
        Some(value) => value,
        None => {
            return None;
        },
    };
    let v = unquote(text::trim(value.as_str()).as_str());
    let chars = text::chars_of(v.as_str());
    if chars.len() > 0 && chars[0] >= '0' && chars[0] <= '9' {
        Some(v)
    } else {
        None
    }
}

fn read_line(line: &str) -> (r: Option<String>)
    ensures
        text::opt_view(r) == line_says(line@),
{
    if let Some(rest) = text::strip_prefix(line, "version_info") {
        if let Some(inner) = text::part_after(rest.as_str(), '(') {
            match read_tuple(inner.as_str()) {
                None => {},
                other => {
                    return other;
                },
            }
        }
    }
    match read_assignment(line, "series") {
        None => read_assignment(line, "major_version"),
        other => other,
    }
}

/// The version that a checkout says it is.
pub fn series_of(c: &Checkout) -> (r: Option<String>)
    ensures
        text::opt_view(r) == series_in(*c),
{
    let release = match &c.release {
        Some(release) => release,
        None => {
            return None;
        },
    };
    let lines = text::lines(release.as_str());
    let ghost all = text::lines_of(release@);
    let mut i: usize = 0;
    while i < lines.len()
        invariant
            i <= lines@.len(),
            text::views(lines@) == all,
            all == text::lines_of(release@),
            c.release == Some(*release),
            series_in(*c) == series_in_lines(all, i as int),
        decreases lines@.len() - i,
    {
        assert(all[i as int] == lines@[i as int]@);
        if let Some(s) = read_line(text::trim(lines[i].as_str()).as_str()) {
            return Some(s);
        }
        i = i + 1;
    }
    assert(all.len() == lines@.len());
    None
}

/// The interpreters that are looked for, in order.
pub open spec fn interpreter_paths() -> Seq<Seq<char>> {
    seq![
        ".venv/bin/python"@,
        ".venv/bin/python3"@,
        ".venv/Scripts/python.exe"@,
        "venv/bin/python"@,
        "venv/bin/python3"@,
        "venv/Scripts/python.exe"@,
    ]
}

/// The first of the looked-for interpreters, from number `i` on, that is there.
pub open spec fn interpreter_from(c: Checkout, i: int) -> Option<Seq<char>>
    decreases interpreter_paths().len() - i,
{
    if !(0 <= i < interpreter_paths().len()) {
        None
    } else if text::views(c.interpreters@).contains(interpreter_paths()[i]) {
        Some(paths::under(c.path@, interpreter_paths()[i]))
    } else {
        interpreter_from(c, i + 1)
    }
}

/// The interpreter of a checkout's virtual environment.
pub open spec fn interpreter_in(c: Checkout) -> Option<Seq<char>> {
    interpreter_from(c, 0)
}

/// The interpreter of a checkout's virtual environment.
pub fn venv_python_in(c: &Checkout) -> (r: Option<String>)
    ensures
        text::opt_view(r) == interpreter_in(*c),
{
    let mut looked: Vec<String> = Vec::new();
    looked.push(".venv/bin/python".to_owned());
    looked.push(".venv/bin/python3".to_owned());
    looked.push(".venv/Scripts/python.exe".to_owned());
    looked.push("venv/bin/python".to_owned());
    looked.push("venv/bin/python3".to_owned());
    looked.push("venv/Scripts/python.exe".to_owned());
    assert(text::views(looked@) =~= interpreter_paths());
    let mut i: usize = 0;
    while i < looked.len()
        invariant
            i <= looked@.len(),
            text::views(looked@) == interpreter_paths(),
            interpreter_in(*c) == interpreter_from(*c, i as int),
        decreases looked@.len() - i,
    {
        assert(interpreter_paths()[i as int] == looked@[i as int]@);
        if text::contains_text(&c.interpreters, looked[i].as_str()) {
            return Some(paths::join(c.path.as_str(), looked[i].as_str()));
        }
        i = i + 1;
    }
    assert(interpreter_paths().len() == looked@.len());
    None
}

// --- choosing a checkout --------------------------------------------------

/// Whether a checkout is of the wanted version.
pub open spec fn is_match(c: Checkout, version: Seq<char>) -> bool {
    is_checkout(c) && series_in(c) == Some(version)
}

/// The number of the matching checkout whose path comes first, among the first `k`.
pub open spec fn first_match(found: Seq<Checkout>, version: Seq<char>, k: nat) -> Option<int>
    decreases k,
{
    if k == 0 {
        None
    } else {
        let before = first_match(found, version, (k - 1) as nat);
        let c = found[k - 1];
        if !is_match(c, version) {
            before
        } else {
            match before {
                Some(b) => if paths::path_less(c.path@, found[b].path@) {
                    Some(k - 1)
                } else {
                    Some(b)
                },
                None => Some(k - 1),
            }
        }
    }
}

/// Whether `r` is the runtime of a checkout.
pub open spec fn runs_from(
    r: OdooRuntime,
    version: Seq<char>,
    c: Checkout,
    source: RuntimeSource,
) -> bool {
    &&& r.version@ == version
    &&& r.checkout_root@ == c.path@
    &&& text::opt_view(r.venv_python) == interpreter_in(c)
    &&& r.source == source
}

/// The search path, from number `i` on, that holds a matching checkout first.
pub open spec fn first_search(found: Seq<Vec<Checkout>>, version: Seq<char>, i: int) -> Option<int>
    decreases found.len() - i,
{
    if !(0 <= i < found.len()) {
        None
    } else if first_match(found[i]@, version, found[i]@.len()) is Some {
        Some(i)
    } else {
        first_search(found, version, i + 1)
    }
}

fn find_match(found: &Vec<Checkout>, version: &str) -> (r: Option<usize>)
    ensures
        match r {
            Some(i) => i < found@.len() && first_match(found@, version@, found@.len()) == Some(
                i as int,
            ),
            None => first_match(found@, version@, found@.len()) is None,
        },
{
    let mut best: Option<usize> = None;
    let mut k: usize = 0;
    while k < found.len()
        invariant
            k <= found@.len(),
            match best {
                Some(b) => b < k && first_match(found@, version@, k as nat) == Some(b as int),
                None => first_match(found@, version@, k as nat) is None,
            },
        decreases found@.len() - k,
    {
        if is_odoo_checkout(&found[k]) {
            let matches = match series_of(&found[k]) {
                Some(series) => text::same_text(series.as_str(), version),
                None => false,
            };
            if matches {
                best = match best {
                    Some(b) => {
                        if paths::path_before(found[k].path.as_str(), found[b].path.as_str()) {
                            Some(k)
                        } else {
                            Some(b)
                        }
                    },
                    None => Some(k),
                };
            }
        }
        k = k + 1;
    }
    best
}

/// The application's own copies, and where else to look.
#[derive(Debug)]
pub struct RuntimeStore {
    pub root: String,
    pub search_paths: Vec<String>,
}

/// Builds the runtime of a checkout.
pub fn runtime_from(version: &str, c: &Checkout, source: RuntimeSource) -> (r: OdooRuntime)
    ensures
        runs_from(r, version@, *c, source),
{
    OdooRuntime {
        version: version.to_owned(),
        checkout_root: c.path.clone(),
        venv_python: venv_python_in(c),
        source,
    }
}

impl RuntimeStore {
    /// A store that looks nowhere else.
    pub fn new(root: String) -> (r: Self)
        ensures
            r.root == root,
            r.search_paths@.len() == 0,
    {
        RuntimeStore { root, search_paths: Vec::new() }
    }

    /// The store, looking under the given paths.
    pub fn searching(self, paths: Vec<String>) -> (r: Self)
        ensures
            r == (RuntimeStore { search_paths: paths, ..self }),
    {
        let mut store = self;
        store.search_paths = paths;
        store
    }

    /// Where the application's own copy of a version is kept.
    pub fn cache_dir(&self, version: &str) -> (r: String)
        ensures
            r@ == paths::under(self.root@, version@),
    {
        paths::join(self.root.as_str(), version)
    }

    /// The checkout that runs a version: the application's own copy where there is one, else the
    /// first that the search paths hold. `cached` is the folder at `cache_dir`; `found` are, for
    /// each search path, the folders at it and directly under it.
    pub fn resolve(&self, version: &str, cached: &Checkout, found: &Vec<Vec<Checkout>>) -> (r: Option<
        OdooRuntime,
    >)
        ensures
            if is_checkout(*cached) {
                r matches Some(rt) && runs_from(rt, version@, *cached, RuntimeSource::Cache)
            } else {
                match first_search(found@, version@, 0) {
                    Some(i) => {
                        let c = found@[i]@[first_match(found@[i]@, version@, found@[i]@.len())->0];
                        r matches Some(rt) && runs_from(rt, version@, c, RuntimeSource::Adopted)
                    },
                    None => r is None,
                }
            },
    {
        if is_odoo_checkout(cached) {
            return Some(runtime_from(version, cached, RuntimeSource::Cache));
        }
        let mut i: usize = 0;
        while i < found.len()
            invariant
                i <= found@.len(),
                !is_checkout(*cached),
                first_search(found@, version@, 0) == first_search(found@, version@, i as int),
            decreases found@.len() - i,
        {
            if let Some(k) = find_match(&found[i], version) {
                return Some(runtime_from(version, &found[i][k], RuntimeSource::Adopted));
            }
            i = i + 1;
        }
        None
    }

    /// Takes a checkout that the user points at, where it is of the wanted version.
    pub fn adopt(&self, version: &str, c: &Checkout) -> (r: Result<OdooRuntime, OdooRuntimeError>)
        ensures
            r is Ok <==> series_in(*c) == Some(version@),
            match r {
                Ok(rt) => runs_from(rt, version@, *c, RuntimeSource::Adopted),
                Err(e) => {
                    &&& e matches OdooRuntimeError::WrongVersion { path, found, wanted }
                    &&& path@ == c.path@
                    &&& found@ == (match series_in(*c) {
                        Some(s) => s,
                        None => "something that isn't Odoo"@,
                    })
                    &&& wanted@ == version@
                },
            },
    {
        let found = match series_of(c) {
            Some(s) => {
                if text::same_text(s.as_str(), version) {
                    return Ok(runtime_from(version, c, RuntimeSource::Adopted));
                }
                s
            },
            None => "something that isn't Odoo".to_owned(),
        };
        Err(
            OdooRuntimeError::WrongVersion {
                path: c.path.clone(),
                found,
                wanted: version.to_owned(),
            },
        )
    }

    /// Whether the folder that a request names may be removed: only a folder directly in the
    /// store. Both paths are given with all links resolved.
    pub fn check_removable(&self, folder: &str, real_root: &str, real_target: &str) -> (r: Result<
        (),
        OdooRuntimeError,
    >)
        ensures
            match r {
                Ok(_) => is_directly_in(real_target@, real_root@),
                Err(e) => {
                    &&& !is_directly_in(real_target@, real_root@)
                    &&& e matches OdooRuntimeError::NotInCache { path }
                    &&& path@ == paths::under(self.root@, folder@)
                },
            },
    {
        let target = paths::parts(real_target);
        let root = paths::parts(real_root);
        let ghost t = text::views(target@);
        let ghost b = text::views(root@);
        assert(t.len() == target@.len());
        assert(b.len() == root@.len());
        let mut inside = target.len() > 0 && target.len() - 1 == root.len();
        if inside {
            let mut i: usize = 0;
            assert(t.drop_last().take(0) =~= b.take(0));
            while i < root.len()
                invariant
                    i <= root@.len(),
                    target@.len() == root@.len() + 1,
                    t == text::views(target@),
                    b == text::views(root@),
                    inside == (t.drop_last().take(i as int) == b.take(i as int)),
                decreases root@.len() - i,
            {
                assert(t[i as int] == target@[i as int]@);
                assert(b[i as int] == root@[i as int]@);
                let same = text::same_text(target[i].as_str(), root[i].as_str());
                proof {
                    let x = t.drop_last().take(i as int);
                    let y = b.take(i as int);
                    let x2 = t.drop_last().take(i + 1);
                    let y2 = b.take(i + 1);
                    assert(x2 =~= x.push(t[i as int]));
                    assert(y2 =~= y.push(b[i as int]));
                    if x2 == y2 {
                        assert(x =~= x2.drop_last());
                        assert(y =~= y2.drop_last());
                        assert(x2.last() == y2.last());
                    }
                }
                inside = inside && same;
                i = i + 1;
            }
            assert(t.drop_last().take(i as int) =~= t.drop_last());
            assert(b.take(i as int) =~= b);
        }
        if inside {
            Ok(())
        } else {
            Err(OdooRuntimeError::NotInCache { path: paths::join(self.root.as_str(), folder) })
        }
    }
}

/// Whether a path names something directly in the folder at `root`.
pub open spec fn is_directly_in(target: Seq<char>, root: Seq<char>) -> bool {
    paths::parts_of(target).len() > 0 && paths::parts_of(target).drop_last() == paths::parts_of(
        root,
    )
}

/// The application's own copy is preferred over any checkout on the machine, and what is adopted
/// says itself that it is of the wanted version.
pub proof fn law_only_the_wanted_version_is_adopted(
    found: Seq<Checkout>,
    version: Seq<char>,
    k: nat,
)
    requires
        k <= found.len(),
    ensures
        first_match(found, version, k) matches Some(i) ==> 0 <= i < k && is_match(found[i], version),
        first_match(found, version, k) is None ==> forall|i: int|
            0 <= i < k ==> !is_match(#[trigger] found[i], version),
    decreases k,
{
    if k > 0 {
        law_only_the_wanted_version_is_adopted(found, version, (k - 1) as nat);
    }
}

// --- the application's own copies -----------------------------------------

/// An entry of the store's folder: its name, the checkout it may be, and its size.
#[derive(Debug)]
pub struct StoreEntry {
    pub folder: String,
    pub checkout: Checkout,
    pub size_bytes: u64,
}

/// What is said of a copy.
pub struct KeptCopy {
    pub version: Seq<char>,
    pub folder: Seq<char>,
    pub path: Seq<char>,
    pub size_bytes: u64,
    pub has_venv: bool,
}

impl View for CachedRuntime {
    type V = KeptCopy;

    open spec fn view(&self) -> KeptCopy {
        KeptCopy {
            version: self.version@,
            folder: self.folder@,
            path: self.path@,
            size_bytes: self.size_bytes,
            has_venv: self.has_venv,
        }
    }
}

/// What is said of the copies.
pub open spec fn copies(v: Seq<CachedRuntime>) -> Seq<KeptCopy> {
    v.map_values(|c: CachedRuntime| c@)
}

/// What is said of an entry that is a checkout.
pub open spec fn copy_of(e: StoreEntry) -> KeptCopy {
    KeptCopy {
        version: match series_in(e.checkout) {
            Some(s) => s,
            None => e.folder@,
        },
        folder: e.folder@,
        path: e.checkout.path@,
        size_bytes: e.size_bytes,
        has_venv: interpreter_in(e.checkout) is Some,
    }
}

/// How many copies at the front are not of a later version.
pub open spec fn version_place(sorted: Seq<KeptCopy>, c: KeptCopy) -> nat
    decreases sorted.len(),
{
    if sorted.len() == 0 || text::text_less(c.version, sorted[0].version) {
        0
    } else {
        1 + version_place(sorted.drop_first(), c)
    }
}

/// The copies among the entries, by version.
pub open spec fn copies_in(entries: Seq<StoreEntry>) -> Seq<KeptCopy>
    decreases entries.len(),
{
    if entries.len() == 0 {
        Seq::empty()
    } else {
        let before = copies_in(entries.drop_last());
        let e = entries.last();
        if is_checkout(e.checkout) {
            before.insert(version_place(before, copy_of(e)) as int, copy_of(e))
        } else {
            before
        }
    }
}

/// The copies that the application downloaded, by version.
pub fn cached(entries: &Vec<StoreEntry>) -> (r: Vec<CachedRuntime>)
    ensures
        copies(r@) == copies_in(entries@),
{
    let mut out: Vec<CachedRuntime> = Vec::new();
    let mut i: usize = 0;
    assert(copies(out@) =~= copies_in(entries@.take(0)));
    while i < entries.len()
        invariant
            i <= entries@.len(),
            copies(out@) == copies_in(entries@.take(i as int)),
        decreases entries@.len() - i,
    {
        let e = &entries[i];
        proof {
            assert(entries@.take(i + 1).drop_last() =~= entries@.take(i as int));
            assert(entries@.take(i + 1).last() == *e);
        }
        if is_odoo_checkout(&e.checkout) {
            let one = CachedRuntime {
                version: match series_of(&e.checkout) {
                    Some(s) => s,
                    None => e.folder.clone(),
                },
                folder: e.folder.clone(),
                path: e.checkout.path.clone(),
                size_bytes: e.size_bytes,
                has_venv: venv_python_in(&e.checkout).is_some(),
            };
            assert(one@ == copy_of(*e));
            let ghost done = copies(out@);
            let mut k: usize = 0;
            assert(done.skip(0) =~= done);
            while k < out.len() && !text::comes_before(
                one.version.as_str(),
                out[k].version.as_str(),
            )
                invariant
                    k <= out@.len(),
                    done == copies(out@),
                    version_place(done, one@) == k + version_place(done.skip(k as int), one@),
                decreases out@.len() - k,
            {
                assert(done.skip(k as int)[0] == out@[k as int]@);
                assert(done.skip(k as int).drop_first() =~= done.skip(k + 1));
                k = k + 1;
            }
            proof {
                if k < out@.len() {
                    assert(done.skip(k as int)[0] == out@[k as int]@);
                }
                assert(version_place(done, one@) == k);
            }
            out.insert(k, one);
            assert(copies(out@) =~= done.insert(k as int, one@));
        }
        i = i + 1;
    }
    assert(entries@.take(i as int) =~= entries@);
    out
}

// --- sizes ----------------------------------------------------------------

/// A folder as far as its size goes: the sizes of its files and its folders. Links are not in it.
#[derive(Debug)]
pub struct SizedFolder {
    pub files: Vec<u64>,
    pub folders: Vec<SizedFolder>,
}

/// The sum of some sizes.
pub open spec fn sum_of(sizes: Seq<u64>) -> nat
    decreases sizes.len(),
{
    if sizes.len() == 0 {
        0
    } else {
        sum_of(sizes.drop_last()) + sizes.last() as nat
    }
}

/// The size of everything in a folder.
pub open spec fn size_of_folder(f: SizedFolder) -> nat
    decreases f, f.folders@.len() + 1,
{
    sum_of(f.files@) + size_below(f, f.folders@.len())
}

/// The size of everything in the first `k` folders of a folder.
pub open spec fn size_below(f: SizedFolder, k: nat) -> nat
    decreases f, k,
{
    if k == 0 || k > f.folders@.len() {
        0
    } else {
        size_below(f, (k - 1) as nat) + size_of_folder(f.folders@[k - 1])
    }
}

proof fn lemma_sum_grows(sizes: Seq<u64>, k: int)
    requires
        0 <= k <= sizes.len(),
    ensures
        sum_of(sizes.take(k)) <= sum_of(sizes),
    decreases sizes.len(),
{
    if k == sizes.len() {
        assert(sizes.take(k) =~= sizes);
    } else {
        lemma_sum_grows(sizes.drop_last(), k);
        assert(sizes.drop_last().take(k) =~= sizes.take(k));
    }
}

proof fn lemma_size_below_grows(f: SizedFolder, k: nat, m: nat)
    requires
        k <= m <= f.folders@.len(),
    ensures
        size_below(f, k) <= size_below(f, m),
    decreases m,
{
    if k < m {
        lemma_size_below_grows(f, k, (m - 1) as nat);
    }
}

/// The size of everything in a folder; a folder that is not there is empty.
pub fn directory_size(folder: &Option<SizedFolder>) -> (r: u64)
    requires
        *folder matches Some(f) ==> size_of_folder(f) <= u64::MAX,
    ensures
        r == (match *folder {
            Some(f) => size_of_folder(f),
            None => 0,
        }),
{
    match folder {
        Some(f) => folder_size(f),
        None => 0,
    }
}

fn folder_size(f: &SizedFolder) -> (r: u64)
    requires
        size_of_folder(*f) <= u64::MAX,
    ensures
        r == size_of_folder(*f),
    decreases f,
{
    let mut total: u64 = 0;
    let mut i: usize = 0;
    assert(f.files@.take(0) =~= Seq::<u64>::empty());
    while i < f.files.len()
        invariant
            i <= f.files@.len(),
            size_of_folder(*f) <= u64::MAX,
            total == sum_of(f.files@.take(i as int)),
        decreases f.files@.len() - i,
    {
        proof {
            lemma_sum_grows(f.files@, i + 1);
            assert(f.files@.take(i + 1).drop_last() =~= f.files@.take(i as int));
        }
        total = total + f.files[i];
        i = i + 1;
    }
    assert(f.files@.take(i as int) =~= f.files@);
    let mut k: usize = 0;
    while k < f.folders.len()
        invariant
            k <= f.folders@.len(),
            size_of_folder(*f) <= u64::MAX,
            total == sum_of(f.files@) + size_below(*f, k as nat),
        decreases f.folders@.len() - k,
    {
        proof {
            lemma_size_below_grows(*f, (k + 1) as nat, f.folders@.len());
        }
        assert(decreases_to!(f => f.folders@[k as int]));
        total = total + folder_size(&f.folders[k]);
        k = k + 1;
    }
    total
}

// --- fetching -------------------------------------------------------------

/// What `git` is run with to fetch a version of Odoo to `target`.
pub fn clone_args(version: &str, target: &str) -> (r: Vec<String>)
    ensures
        text::views(r@) == seq![
            "clone"@,
            "--depth"@,
            "1"@,
            "--single-branch"@,
            "--branch"@,
            version@,
            "https://github.com/odoo/odoo.git"@,
            target@,
        ],
{
    let mut out: Vec<String> = Vec::new();
    out.push("clone".to_owned());
    out.push("--depth".to_owned());
    out.push("1".to_owned());
    out.push("--single-branch".to_owned());
    out.push("--branch".to_owned());
    out.push(version.to_owned());
    out.push("https://github.com/odoo/odoo.git".to_owned());
    out.push(target.to_owned());
    assert(text::views(out@) =~= seq![
        "clone"@,
        "--depth"@,
        "1"@,
        "--single-branch"@,
        "--branch"@,
        version@,
        "https://github.com/odoo/odoo.git"@,
        target@,
    ]);
    out
}

/// What a run of `git` that was to fetch Odoo comes to.
pub fn clone_outcome(success: bool, stderr: &str) -> (r: Result<(), OdooRuntimeError>)
    ensures
        match r {
            Ok(_) => success,
            Err(e) => {
                &&& !success
                &&& e matches OdooRuntimeError::CommandFailed { command, stderr: shown }
                &&& command@ == "git clone"@
                &&& shown@ == text::trimmed(stderr@)
            },
        },
{
    if success {
        Ok(())
    } else {
        Err(
            OdooRuntimeError::CommandFailed {
                command: "git clone".to_owned(),
                stderr: text::trim(stderr),
            },
        )
    }
}

/// The version that a checkout says is what the first line says that says any.
pub proof fn law_the_first_telling_line_counts(lines: Seq<Seq<char>>, i: int, k: int)
    requires
        0 <= i <= k <= lines.len(),
        forall|j: int| i <= j < k ==> line_says(text::trimmed(#[trigger] lines[j])) is None,
        k < lines.len() ==> line_says(text::trimmed(lines[k])) is Some,
    ensures
        series_in_lines(lines, i) == (if k < lines.len() {
            line_says(text::trimmed(lines[k]))
        } else {
            None
        }),
    decreases k - i,
{
    if i < k {
        law_the_first_telling_line_counts(lines, i + 1, k);
    }
}

/// A line that gives the version as numbers says the first two of them.
pub proof fn law_a_tuple_says_its_first_two_numbers(
    mid: Seq<char>,
    major: nat,
    minor: nat,
    rest: Seq<char>,
)
    requires
        !mid.contains('('),
        major <= u32::MAX,
        minor <= u32::MAX,
    ensures
        line_says(
            "version_info"@ + (mid.push('(') + (text::decimal_of(major).push(',') + ((seq![' ']
                + text::decimal_of(minor)).push(',') + rest))),
        ) == Some(text::decimal_of(major) + "."@ + text::decimal_of(minor)),
{
    let a = text::decimal_of(major);
    let b = text::decimal_of(minor);
    let second = seq![' '] + b;
    let behind = second.push(',') + rest;
    let inner = a.push(',') + behind;
    let after = mid.push('(') + inner;
    text::law_what_is_taken_off_can_be_put_back(after, "version_info"@);
    text::law_text_parts_at_the_first_mark(mid, inner, '(');
    text::law_a_written_number_is_read_again(major, u32::MAX as nat);
    text::law_a_written_number_is_read_again(minor, u32::MAX as nat);
    assert(!a.contains(',')) by {
        if a.contains(',') {
            let i = choose|i: int| 0 <= i < a.len() && a[i] == ',';
            assert(text::is_digit(a[i]));
        }
    }
    assert(!second.contains(',')) by {
        if second.contains(',') {
            let i = choose|i: int| 0 <= i < second.len() && second[i] == ',';
            if i > 0 {
                assert(text::is_digit(b[i - 1]));
            }
        }
    }
    text::law_splitting_goes_from_mark_to_mark(a, behind, ',');
    text::law_splitting_goes_from_mark_to_mark(second, rest, ',');
    let fields = text::split_on(inner, ',');
    assert(fields[0] == a);
    assert(fields[1] == second);
    lemma_bare_number(a, Seq::empty());
    lemma_bare_number(b, seq![' ']);
    assert(Seq::<char>::empty() + a =~= a);
    reveal_strlit("saas");
    assert(!("saas"@.is_prefix_of(a))) by {
        if "saas"@.is_prefix_of(a) {
            assert(a.subrange(0, 4)[0] == 's');
            assert(text::is_digit(a[0]));
        }
    }
}

proof fn lemma_bare_number(digits: Seq<char>, space: Seq<char>)
    requires
        text::all_digits(digits),
        forall|i: int| 0 <= i < space.len() ==> text::is_white(#[trigger] space[i]),
    ensures
        unquoted(text::trimmed(space + digits)) == digits,
{
    let none = Seq::<char>::empty();
    assert(text::is_digit(digits[0]) && text::is_digit(digits[digits.len() - 1]));
    text::law_trimming_takes_off_white_space(space, digits, none);
    assert(space + digits + none =~= space + digits);
}

/// A line that assigns a version in quotes says that version.
pub proof fn law_an_assignment_says_its_value(key: Seq<char>, mid: Seq<char>, value: Seq<char>)
    requires
        !mid.contains('='),
        text::all_digits(seq![value[0]]),
        value.len() > 0,
        text::is_digit(value.last()),
    ensures
        assignment_says(key + (mid.push('=') + (seq![' ', '\''] + value + seq!['\''])), key) == Some(
            value,
        ),
{
    let said = seq![' ', '\''] + value + seq!['\''];
    let after = mid.push('=') + said;
    text::law_what_is_taken_off_can_be_put_back(after, key);
    text::law_text_parts_at_the_first_mark(mid, said, '=');
    let quoted = seq!['\''] + value + seq!['\''];
    let none = Seq::<char>::empty();
    text::law_trimming_takes_off_white_space(seq![' '], quoted, none);
    assert(seq![' '] + quoted + none =~= said);
    assert(text::is_digit(seq![value[0]][0]));
    assert(quoted.drop_first() =~= value + seq!['\'']);
    let open = value + seq!['\''];
    assert(open[0] == value[0]);
    assert(text::trim_start_char(quoted, '\'') == open) by {
        assert(quoted[0] == '\'');
        assert(text::trim_start_char(open, '\'') == open);
    }
    assert(open.drop_last() =~= value);
    assert(text::trim_end_char(open, '\'') == value) by {
        assert(open.last() == '\'');
        assert(text::trim_end_char(value, '\'') == value);
    }
    assert(text::trim_start_char(value, '"') == value);
    assert(text::trim_end_char(value, '"') == value);
}

/// The interpreter of a checkout is the first that is there of those that it may have.
pub proof fn law_the_first_interpreter_there_is_taken(c: Checkout, k: int)
    requires
        0 <= k <= 6,
        forall|j: int|
            0 <= j < k ==> !text::views(c.interpreters@).contains(#[trigger] interpreter_paths()[j]),
        k < 6 ==> text::views(c.interpreters@).contains(interpreter_paths()[k]),
    ensures
        interpreter_in(c) == (if k < 6 {
            Some(paths::under(c.path@, interpreter_paths()[k]))
        } else {
            None
        }),
{
    lemma_interpreter(c, 0, k);
}

proof fn lemma_interpreter(c: Checkout, i: int, k: int)
    requires
        0 <= i <= k <= 6,
        forall|j: int|
            i <= j < k ==> !text::views(c.interpreters@).contains(#[trigger] interpreter_paths()[j]),
        k < 6 ==> text::views(c.interpreters@).contains(interpreter_paths()[k]),
    ensures
        interpreter_from(c, i) == (if k < 6 {
            Some(paths::under(c.path@, interpreter_paths()[k]))
        } else {
            None
        }),
    decreases k - i,
{
    if i < k {
        assert(!text::views(c.interpreters@).contains(interpreter_paths()[i]));
        lemma_interpreter(c, i + 1, k);
    }
}

/// Of the checkouts of a version the one with the least path is taken, of the first search that
/// found any.
pub proof fn law_the_least_path_is_adopted(
    found: Seq<Checkout>,
    version: Seq<char>,
    k: nat,
    j: int,
)
    requires
        k <= found.len(),
        0 <= j < k,
        found[j].has_odoo_bin && found[j].has_release,
        series_in(found[j]) == Some(version),
    ensures
        first_match(found, version, k) matches Some(i) && 0 <= i < k && !paths::path_less(
            found[j].path@,
            found[i].path@,
        ),
    decreases k,
{
    law_only_the_wanted_version_is_adopted(found, version, k);
    assert(is_match(found[j], version));
    let before = first_match(found, version, (k - 1) as nat);
    let c = found[k - 1];
    law_only_the_wanted_version_is_adopted(found, version, (k - 1) as nat);
    if j < k - 1 {
        law_the_least_path_is_adopted(found, version, (k - 1) as nat, j);
        let b = before->0;
        if is_match(c, version) && paths::path_less(c.path@, found[b].path@) {
            if paths::path_less(found[j].path@, c.path@) {
                paths::lemma_path_order(found[j].path@, c.path@, found[b].path@);
            }
        }
    } else {
        paths::lemma_path_order(c.path@, c.path@, c.path@);
    }
}

/// The search that counts is the first that found the version.
pub proof fn law_the_first_search_counts(
    found: Seq<Vec<Checkout>>,
    version: Seq<char>,
    i: int,
    k: int,
)
    requires
        0 <= i <= k <= found.len(),
        forall|j: int, n: int|
            i <= j < k && 0 <= n < found[j]@.len() ==> !is_match(
                #[trigger] found[j]@[n],
                version,
            ),
        k < found.len() ==> exists|n: int|
            0 <= n < found[k]@.len() && is_match(#[trigger] found[k]@[n], version),
    ensures
        first_search(found, version, i) == (if k < found.len() {
            Some(k)
        } else {
            None
        }),
    decreases k - i,
{
    if i < found.len() {
        law_only_the_wanted_version_is_adopted(found[i]@, version, found[i]@.len());
        if i < k {
            if let Some(n) = first_match(found[i]@, version, found[i]@.len()) {
                assert(!is_match(found[i]@[n], version));
            }
            law_the_first_search_counts(found, version, i + 1, k);
        }
    }
}

/// A folder may be removed where it lies right in the store: neither the store itself nor what
/// lies deeper.
pub proof fn law_only_what_lies_in_the_store_is_removed(
    root: Seq<char>,
    name: Seq<char>,
    deeper: Seq<char>,
)
    requires
        root.len() == 0 || root.last() != '/',
        paths::is_name(name),
        paths::is_name(deeper),
    ensures
        is_directly_in(paths::under(root, name), root),
        !is_directly_in(root, root),
        !is_directly_in(paths::under(paths::under(root, name), deeper), root),
{
    let inside = paths::under(root, name);
    assert(name[0] != '/' && name.last() != '/') by {
        assert(name.contains(name[0]));
        assert(name.contains(name.last()));
    }
    paths::law_a_path_lies_under_its_folder(root, name);
    assert(inside.last() == name.last());
    paths::law_a_path_lies_under_its_folder(inside, deeper);
    assert(paths::parts_of(root).push(name).drop_last() =~= paths::parts_of(root));
    let parts = paths::parts_of(paths::under(inside, deeper));
    assert(parts.drop_last().len() == paths::parts_of(root).len() + 1);
    if is_directly_in(root, root) {
        assert(paths::parts_of(root).drop_last().len() == paths::parts_of(root).len() - 1);
    }
}

proof fn lemma_version_place_fits(sorted: Seq<KeptCopy>, c: KeptCopy)
    ensures
        version_place(sorted, c) <= sorted.len(),
        forall|i: int|
            0 <= i < version_place(sorted, c) ==> !text::text_less(
                c.version,
                (#[trigger] sorted[i]).version,
            ),
        version_place(sorted, c) < sorted.len() ==> text::text_less(
            c.version,
            sorted[version_place(sorted, c) as int].version,
        ),
    decreases sorted.len(),
{
    if sorted.len() > 0 && !text::text_less(c.version, sorted[0].version) {
        let rest = sorted.drop_first();
        lemma_version_place_fits(rest, c);
        assert forall|i: int| 0 <= i < version_place(sorted, c) implies !text::text_less(
            c.version,
            (#[trigger] sorted[i]).version,
        ) by {
            if i > 0 {
                assert(sorted[i] == rest[i - 1]);
            }
        }
    }
}

proof fn lemma_copies_by_version(entries: Seq<StoreEntry>)
    ensures
        forall|i: int, j: int|
            0 <= i < j < copies_in(entries).len() ==> !text::text_less(
                (#[trigger] copies_in(entries)[j]).version,
                (#[trigger] copies_in(entries)[i]).version,
            ),
    decreases entries.len(),
{
    if entries.len() > 0 && is_checkout(entries.last().checkout) {
        lemma_copies_by_version(entries.drop_last());
        let before = copies_in(entries.drop_last());
        let out = copies_in(entries);
        let c = copy_of(entries.last());
        let at = version_place(before, c) as int;
        lemma_version_place_fits(before, c);
        assert forall|i: int, j: int| 0 <= i < j < out.len() implies !text::text_less(
            (#[trigger] out[j]).version,
            (#[trigger] out[i]).version,
        ) by {
            if i < at && j == at {
                assert(out[i] == before[i]);
            } else if i == at {
                assert(out[j] == before[j - 1]);
                if text::text_less(before[j - 1].version, c.version) {
                    text::lemma_text_less_transitive(
                        before[j - 1].version,
                        c.version,
                        before[at].version,
                    );
                    if at < j - 1 {
                        assert(!text::text_less(before[j - 1].version, before[at].version));
                    } else {
                        text::lemma_text_less_irreflexive(before[at].version);
                    }
                }
            } else {
                assert(out[i] == before[if i < at {
                    i
                } else {
                    i - 1
                }]);
                assert(out[j] == before[if j < at {
                    j
                } else {
                    j - 1
                }]);
            }
        }
    } else if entries.len() > 0 {
        lemma_copies_by_version(entries.drop_last());
        assert(copies_in(entries) == copies_in(entries.drop_last()));
    }
}

spec fn is_copy_of_one(entries: Seq<StoreEntry>, c: KeptCopy) -> bool {
    exists|k: int|
        0 <= k < entries.len() && is_checkout((#[trigger] entries[k]).checkout) && c == copy_of(
            entries[k],
        )
}

proof fn lemma_copies_hold(entries: Seq<StoreEntry>, c: KeptCopy)
    ensures
        copies_in(entries).len() == entries.filter(
            |e: StoreEntry| e.checkout.has_odoo_bin && e.checkout.has_release,
        ).len(),
        copies_in(entries).contains(c) <==> is_copy_of_one(entries, c),
    decreases entries.len(),
{
    reveal(Seq::filter);
    if entries.len() > 0 {
        let rest = entries.drop_last();
        let e = entries.last();
        lemma_copies_hold(rest, c);
        let before = copies_in(rest);
        let out = copies_in(entries);
        let at = version_place(before, copy_of(e)) as int;
        lemma_version_place_fits(before, copy_of(e));
        assert(entries[entries.len() - 1] == e);
        if is_checkout(e.checkout) {
            assert(out[at] == copy_of(e));
            if before.contains(c) {
                let n = choose|n: int| 0 <= n < before.len() && before[n] == c;
                assert(out[if n < at {
                    n
                } else {
                    n + 1
                }] == c);
            }
            if out.contains(c) {
                let n = choose|n: int| 0 <= n < out.len() && out[n] == c;
                if n != at {
                    assert(before[if n < at {
                        n
                    } else {
                        n - 1
                    }] == c);
                    assert(before.contains(c));
                }
            }
        }
        if is_copy_of_one(rest, c) {
            let k = choose|k: int|
                0 <= k < rest.len() && is_checkout((#[trigger] rest[k]).checkout) && c == copy_of(
                    rest[k],
                );
            assert(entries[k] == rest[k]);
        }
        if is_copy_of_one(entries, c) {
            let k = choose|k: int|
                0 <= k < entries.len() && is_checkout((#[trigger] entries[k]).checkout) && c
                    == copy_of(entries[k]);
            if k < rest.len() {
                assert(rest[k] == entries[k]);
            }
        }
    }
}

/// Every copy of Odoo in the store is listed, once and by version, with its size, and as having an
/// environment where it has an interpreter; nothing else is listed.
pub proof fn law_every_copy_is_listed(entries: Seq<StoreEntry>, n: int)
    ensures
        copies_in(entries).len() == entries.filter(
            |e: StoreEntry| e.checkout.has_odoo_bin && e.checkout.has_release,
        ).len(),
        forall|i: int, j: int|
            0 <= i < j < copies_in(entries).len() ==> !text::text_less(
                (#[trigger] copies_in(entries)[j]).version,
                (#[trigger] copies_in(entries)[i]).version,
            ),
        forall|k: int|
            0 <= k < entries.len() && (#[trigger] entries[k]).checkout.has_odoo_bin
                && entries[k].checkout.has_release ==> exists|n: int|
                {
                    &&& 0 <= n < copies_in(entries).len()
                    &&& (#[trigger] copies_in(entries)[n]).path == entries[k].checkout.path@
                    &&& copies_in(entries)[n].folder == entries[k].folder@
                    &&& copies_in(entries)[n].size_bytes == entries[k].size_bytes
                    &&& copies_in(entries)[n].version == (if series_in(entries[k].checkout) is Some {
                        series_in(entries[k].checkout)->0
                    } else {
                        entries[k].folder@
                    })
                    &&& copies_in(entries)[n].has_venv <==> interpreter_in(entries[k].checkout) is Some
                },
        0 <= n < copies_in(entries).len() ==> exists|k: int|
            {
                &&& 0 <= k < entries.len()
                &&& (#[trigger] entries[k]).checkout.has_odoo_bin
                &&& entries[k].checkout.has_release
                &&& entries[k].checkout.path@ == copies_in(entries)[n].path
            },
{
    lemma_copies_by_version(entries);
    let out = copies_in(entries);
    lemma_copies_hold(entries, arbitrary());
    assert forall|k: int|
        0 <= k < entries.len() && (#[trigger] entries[k]).checkout.has_odoo_bin
            && entries[k].checkout.has_release implies exists|n: int|
        {
            &&& 0 <= n < out.len()
            &&& (#[trigger] out[n]).path == entries[k].checkout.path@
            &&& out[n].folder == entries[k].folder@
            &&& out[n].size_bytes == entries[k].size_bytes
            &&& out[n].version == (if series_in(entries[k].checkout) is Some {
                series_in(entries[k].checkout)->0
            } else {
                entries[k].folder@
            })
            &&& out[n].has_venv <==> interpreter_in(entries[k].checkout) is Some
        } by {
        let c = copy_of(entries[k]);
        lemma_copies_hold(entries, c);
        assert(is_copy_of_one(entries, c));
        let n = choose|n: int| 0 <= n < out.len() && out[n] == c;
        assert(out[n].path == entries[k].checkout.path@);
    }
    if 0 <= n < out.len() {
        lemma_copies_hold(entries, out[n]);
        assert(out.contains(out[n]));
        let k = choose|k: int|
            0 <= k < entries.len() && is_checkout((#[trigger] entries[k]).checkout) && out[n]
                == copy_of(entries[k]);
        assert(entries[k].checkout.path@ == out[n].path);
    }
}

/// The size of a folder is the sum of the sizes of its files and of its folders.
pub proof fn law_a_size_is_a_sum(f: SizedFolder)
    ensures
        size_of_folder(f) == f.files@.fold_left(0nat, |sum: nat, size: u64| sum + size as nat)
            + f.folders@.fold_left(0nat, |sum: nat, below: SizedFolder| sum + size_of_folder(below)),
{
    lemma_sum(f.files@);
    lemma_below(f, f.folders@.len());
    assert(f.folders@.take(f.folders@.len() as int) =~= f.folders@);
}

proof fn lemma_sum(sizes: Seq<u64>)
    ensures
        sum_of(sizes) == sizes.fold_left(0nat, |sum: nat, size: u64| sum + size as nat),
    decreases sizes.len(),
{
    reveal_with_fuel(Seq::fold_left, 2);
    if sizes.len() > 0 {
        lemma_sum(sizes.drop_last());
    }
}

proof fn lemma_below(f: SizedFolder, k: nat)
    requires
        k <= f.folders@.len(),
    ensures
        size_below(f, k) == f.folders@.take(k as int).fold_left(
            0nat,
            |sum: nat, below: SizedFolder| sum + size_of_folder(below),
        ),
    decreases k,
{
    reveal_with_fuel(Seq::fold_left, 2);
    if k > 0 {
        lemma_below(f, (k - 1) as nat);
        assert(f.folders@.take(k as int).drop_last() =~= f.folders@.take(k - 1));
    }
}

} // verus!
