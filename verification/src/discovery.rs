//! Finds the addons folders under a folder and proposes in which order to load them: your own
//! code, then OCA's, then Odoo's.

use crate::model::SourceKind;
use crate::order;
use crate::paths;
use crate::text;
use vstd::prelude::*;
use vstd::string::*;

verus! {

/// A folder: its name, the names of its files, and its folders.
#[derive(Debug)]
pub struct Folder {
    pub name: String,
    pub files: Vec<String>,
    pub folders: Vec<Folder>,
}

/// What is looked at in a folder on the way to another. The topmost folder has no name.
#[derive(Debug)]
pub struct Step {
    pub name: Option<String>,
    pub has_odoo_bin: bool,
    pub has_addons: bool,
    pub has_git: bool,
}

/// What a step says.
pub struct Place {
    pub name: Option<Seq<char>>,
    pub has_odoo_bin: bool,
    pub has_addons: bool,
    pub has_git: bool,
}

impl View for Step {
    type V = Place;

    open spec fn view(&self) -> Place {
        Place {
            name: text::opt_view(self.name),
            has_odoo_bin: self.has_odoo_bin,
            has_addons: self.has_addons,
            has_git: self.has_git,
        }
    }
}

/// What the steps say.
pub open spec fn places(v: Seq<Step>) -> Seq<Place> {
    v.map_values(|s: Step| s@)
}

/// The names of the folders in a folder.
pub open spec fn folder_names(f: Folder) -> Seq<Seq<char>> {
    f.folders@.map_values(|c: Folder| c.name@)
}

/// Whether a folder holds a file of this name.
pub open spec fn has_file(f: Folder, name: Seq<char>) -> bool {
    text::views(f.files@).contains(name)
}

/// Whether a folder holds a folder of this name.
pub open spec fn has_folder(f: Folder, name: Seq<char>) -> bool {
    folder_names(f).contains(name)
}

/// What is looked at in a folder. An empty name is none.
pub open spec fn place_of(f: Folder) -> Place {
    Place {
        name: if f.name@.len() == 0 {
            None
        } else {
            Some(f.name@)
        },
        has_odoo_bin: has_file(f, "odoo-bin"@),
        has_addons: has_folder(f, "addons"@),
        has_git: has_file(f, ".git"@) || has_folder(f, ".git"@),
    }
}

/// Whether a folder is a module: it holds a manifest.
pub open spec fn is_module(f: Folder) -> bool {
    has_file(f, "__manifest__.py"@) || has_file(f, "__openerp__.py"@)
}

/// Whether a folder is never looked into.
pub open spec fn is_noise(name: Seq<char>) -> bool {
    ||| name.len() > 0 && name[0] == '.'
    ||| name == "node_modules"@
    ||| name == "__pycache__"@
    ||| name == "venv"@
    ||| name == "site-packages"@
}

fn holds_file(f: &Folder, name: &str) -> (r: bool)
    ensures
        r == has_file(*f, name@),
{
    text::contains_text(&f.files, name)
}

fn holds_folder(f: &Folder, name: &str) -> (r: bool)
    ensures
        r == has_folder(*f, name@),
{
    let mut i: usize = 0;
    while i < f.folders.len()
        invariant
            i <= f.folders@.len(),
            forall|j: int| 0 <= j < i ==> (#[trigger] f.folders@[j]).name@ != name@,
        decreases f.folders@.len() - i,
    {
        if text::same_text(f.folders[i].name.as_str(), name) {
            assert(folder_names(*f)[i as int] == name@);
            return true;
        }
        i = i + 1;
    }
    assert(!folder_names(*f).contains(name@)) by {
        if folder_names(*f).contains(name@) {
            let j = choose|j: int|
                0 <= j < folder_names(*f).len() && folder_names(*f)[j] == name@;
            assert(f.folders@[j].name@ == name@);
        }
    }
    false
}

fn step_of(f: &Folder) -> (r: Step)
    ensures
        r@ == place_of(*f),
{
    let name = if f.name.as_str().is_empty() {
        None
    } else {
        Some(f.name.clone())
    };
    Step {
        name,
        has_odoo_bin: holds_file(f, "odoo-bin"),
        has_addons: holds_folder(f, "addons"),
        has_git: holds_file(f, ".git") || holds_folder(f, ".git"),
    }
}

fn noisy(name: &str) -> (r: bool)
    ensures
        r == is_noise(name@),
{
    let hidden = text::starts_with(name, ".");
    proof {
        reveal_strlit(".");
        if name@.len() > 0 {
            assert(name@.subrange(0, 1)[0] == name@[0]);
            if name@[0] == '.' {
                assert("."@ =~= name@.subrange(0, 1));
            }
        }
    }
    hidden || text::same_text(name, "node_modules") || text::same_text(name, "__pycache__")
        || text::same_text(name, "venv") || text::same_text(name, "site-packages")
}

// --- classification -------------------------------------------------------

/// Where in a chain of folders (outermost first) the `n` innermost begin.
pub open spec fn innermost(chain: Seq<Place>, n: int) -> int {
    if chain.len() > n {
        chain.len() - n
    } else {
        0
    }
}

/// Whether a folder marks an Odoo checkout: it holds `odoo-bin`, or is called `odoo` and holds
/// `addons`.
pub open spec fn marks_checkout(p: Place) -> bool {
    p.has_odoo_bin || (p.name == Some("odoo"@) && p.has_addons)
}

/// Whether the innermost folder is in an Odoo checkout: it, its parent or the folder above marks
/// one.
pub open spec fn in_checkout(chain: Seq<Place>) -> bool {
    exists|i: int| innermost(chain, 3) <= i < chain.len() && marks_checkout(#[trigger] chain[i])
}

/// Whether the innermost folder is an `addons` in an `odoo`.
pub open spec fn is_base_addons(chain: Seq<Place>) -> bool {
    chain.len() >= 2 && chain[chain.len() - 1].name == Some("addons"@) && chain[chain.len()
        - 2].name == Some("odoo"@)
}

/// The path from folder `from` of the chain to the innermost one.
pub open spec fn relative(chain: Seq<Place>, from: int) -> Seq<char> {
    text::joined_with(
        chain.skip(from + 1).map_values(|p: Place| p.name.unwrap_or(Seq::empty())),
        "/"@,
    )
}

/// The segments of a path, at slashes of either kind.
pub open spec fn segments(path: Seq<char>) -> Seq<Seq<char>> {
    text::split_on(path.map_values(|c: char| if c == '\\' { '/' } else { c }), '/')
}

/// Whether a path leads through a folder named for OCA.
pub open spec fn names_oca(path: Seq<char>) -> bool {
    let s = segments(text::lowercase_of(path));
    exists|i: int| 0 <= i < s.len() && (#[trigger] s[i] == "oca"@ || "oca-"@.is_prefix_of(s[i]))
}

/// Whether a folder has the layout of OCA's repositories: a `setup` folder that holds one of its
/// modules.
pub open spec fn has_oca_setup(f: Folder, modules: Seq<Seq<char>>) -> bool {
    exists|i: int, m: int|
        0 <= i < f.folders@.len() && (#[trigger] f.folders@[i]).name@ == "setup"@ && 0 <= m
            < modules.len() && has_folder(f.folders@[i], #[trigger] modules[m])
}

/// What sort of code a folder holds, and why that is thought.
pub open spec fn classified(
    chain: Seq<Place>,
    root_at: int,
    f: Folder,
    modules: Seq<Seq<char>>,
) -> (SourceKind, Seq<char>) {
    if in_checkout(chain) {
        (
            SourceKind::Core,
            "inside an Odoo checkout — "@ + if is_base_addons(chain) {
                "Odoo's own base modules"@
            } else {
                "Odoo's bundled addons"@
            },
        )
    } else if names_oca(relative(chain, root_at)) {
        (SourceKind::Oca, "in a folder named OCA"@)
    } else if has_oca_setup(f, modules) {
        (SourceKind::Oca, "has OCA's setup/ layout"@)
    } else {
        (SourceKind::Private, "not inside an Odoo checkout, so treated as your own code"@)
    }
}

/// The innermost of the chain's last four folders that is a repository and has a name.
pub open spec fn repository_at(chain: Seq<Place>, from: int) -> Option<int>
    decreases chain.len() - from,
{
    if from < innermost(chain, 4) || from >= chain.len() {
        None
    } else {
        match repository_at(chain, from + 1) {
            Some(i) => Some(i),
            None => if chain[from].has_git && chain[from].name is Some {
                Some(from)
            } else {
                None
            },
        }
    }
}

/// What a folder is called: by its repository and the path in it, else by its path under the
/// root, else by its name.
pub open spec fn label_of(chain: Seq<Place>, root_at: int, path: Seq<char>) -> Seq<char> {
    match repository_at(chain, innermost(chain, 4)) {
        Some(i) => {
            let rest = relative(chain, i);
            if rest.len() == 0 {
                chain[i].name->0
            } else {
                chain[i].name->0 + "/"@ + rest
            }
        },
        None => {
            let rest = relative(chain, root_at);
            if rest.len() > 0 {
                rest
            } else {
                match chain.last().name {
                    Some(name) => name,
                    None => path,
                }
            }
        },
    }
}

fn relative_path(chain: &Vec<Step>, from: usize) -> (r: String)
    requires
        from < chain@.len(),
    ensures
        r@ == relative(places(chain@), from as int),
{
    let ghost all = places(chain@);
    let ghost naming = |p: Place| p.name.unwrap_or(Seq::<char>::empty());
    let mut names: Vec<String> = Vec::new();
    let count: usize = chain.len();
    let mut i: usize = from + 1;
    assert(text::views(names@) =~= all.subrange(from + 1, i as int).map_values(naming));
    while i < chain.len()
        invariant
            from < i <= chain@.len(),
            all == places(chain@),
            naming == (|p: Place| p.name.unwrap_or(Seq::<char>::empty())),
            text::views(names@) == all.subrange(from + 1, i as int).map_values(naming),
        decreases chain@.len() - i,
    {
        let ghost before = text::views(names@);
        let name = match &chain[i].name {
            Some(n) => n.clone(),
            None => String::new(),
        };
        assert(all[i as int] == chain@[i as int]@);
        assert(name@ == naming(all[i as int]));
        names.push(name);
        assert(text::views(names@) =~= before.push(name@));
        assert(text::views(names@) =~= all.subrange(from + 1, i + 1).map_values(naming));
        i = i + 1;
    }
    assert(all.subrange(from + 1, all.len() as int) =~= all.skip(from + 1));
    text::join(&names, "/")
}

fn start_of_innermost(chain: &Vec<Step>, n: usize) -> (r: usize)
    ensures
        r == innermost(places(chain@), n as int),
        r <= chain@.len(),
{
    if chain.len() > n {
        chain.len() - n
    } else {
        0
    }
}

fn is_called(step: &Step, name: &str) -> (r: bool)
    ensures
        r == (step@.name == Some(name@)),
{
    match &step.name {
        Some(n) => text::same_text(n.as_str(), name),
        None => false,
    }
}

fn leads_through_oca(path: &str) -> (r: bool)
    ensures
        r == names_oca(path@),
{
    let low = text::lowercase(path);
    let chars = text::chars_of(low.as_str());
    let ghost unify = |c: char| if c == '\\' { '/' } else { c };
    let mut slashed = String::new();
    let mut i: usize = 0;
    assert(slashed@ =~= chars@.take(0).map_values(unify));
    while i < chars.len()
        invariant
            i <= chars@.len(),
            unify == (|c: char| if c == '\\' { '/' } else { c }),
            slashed@ == chars@.take(i as int).map_values(unify),
        decreases chars@.len() - i,
    {
        let c = chars[i];
        slashed.push(
            if c == '\\' {
                '/'
            } else {
                c
            },
        );
        assert(slashed@ =~= chars@.take(i + 1).map_values(unify));
        i = i + 1;
    }
    assert(chars@.take(i as int) =~= chars@);
    let pieces = text::split(slashed.as_str(), '/');
    let ghost s = segments(text::lowercase_of(path@));
    assert(text::views(pieces@) == s);
    let mut k: usize = 0;
    while k < pieces.len()
        invariant
            k <= pieces@.len(),
            text::views(pieces@) == s,
            s == segments(text::lowercase_of(path@)),
            forall|j: int|
                0 <= j < k ==> !(#[trigger] s[j] == "oca"@ || "oca-"@.is_prefix_of(s[j])),
        decreases pieces@.len() - k,
    {
        assert(s[k as int] == pieces@[k as int]@);
        if text::same_text(pieces[k].as_str(), "oca") || text::starts_with(
            pieces[k].as_str(),
            "oca-",
        ) {
            return true;
        }
        k = k + 1;
    }
    false
}

fn follows_oca_setup(f: &Folder, modules: &Vec<String>) -> (r: bool)
    ensures
        r == has_oca_setup(*f, text::views(modules@)),
{
    let ghost ms = text::views(modules@);
    let mut i: usize = 0;
    while i < f.folders.len()
        invariant
            i <= f.folders@.len(),
            ms == text::views(modules@),
            forall|a: int, m: int|
                0 <= a < i && (#[trigger] f.folders@[a]).name@ == "setup"@ && 0 <= m < ms.len()
                    ==> !has_folder(f.folders@[a], #[trigger] ms[m]),
        decreases f.folders@.len() - i,
    {
        if text::same_text(f.folders[i].name.as_str(), "setup") {
            let mut m: usize = 0;
            while m < modules.len()
                invariant
                    i < f.folders@.len(),
                    m <= modules@.len(),
                    ms == text::views(modules@),
                    f.folders@[i as int].name@ == "setup"@,
                    forall|k: int|
                        0 <= k < m ==> !has_folder(f.folders@[i as int], #[trigger] ms[k]),
                decreases modules@.len() - m,
            {
                assert(ms[m as int] == modules@[m as int]@);
                if holds_folder(&f.folders[i], modules[m].as_str()) {
                    return true;
                }
                m = m + 1;
            }
        }
        i = i + 1;
    }
    false
}

/// What sort of code a folder holds, and why that is thought.
fn classify(chain: &Vec<Step>, root_at: usize, f: &Folder, modules: &Vec<String>) -> (r: (
    SourceKind,
    String,
))
    requires
        root_at < chain@.len(),
    ensures
        r.0 == classified(places(chain@), root_at as int, *f, text::views(modules@)).0,
        r.1@ == classified(places(chain@), root_at as int, *f, text::views(modules@)).1,
{
    let ghost all = places(chain@);
    let mut i: usize = start_of_innermost(chain, 3);
    while i < chain.len()
        invariant
            innermost(all, 3) <= i <= chain@.len(),
            root_at < chain@.len(),
            all == places(chain@),
            forall|j: int| innermost(all, 3) <= j < i ==> !marks_checkout(#[trigger] all[j]),
        decreases chain@.len() - i,
    {
        assert(all[i as int] == chain@[i as int]@);
        if chain[i].has_odoo_bin || (chain[i].has_addons && is_called(&chain[i], "odoo")) {
            assert(marks_checkout(all[i as int]));
            let n: usize = chain.len();
            proof {
                if n >= 2 {
                    assert(all[n - 1] == chain@[n - 1]@);
                    assert(all[n - 2] == chain@[n - 2]@);
                }
            }
            let which = if n >= 2 && is_called(&chain[n - 1], "addons") && is_called(
                &chain[n - 2],
                "odoo",
            ) {
                "Odoo's own base modules"
            } else {
                "Odoo's bundled addons"
            };
            return (SourceKind::Core, text::joined("inside an Odoo checkout — ", which));
        }
        i = i + 1;
    }
    let path = relative_path(chain, root_at);
    if leads_through_oca(path.as_str()) {
        return (SourceKind::Oca, "in a folder named OCA".to_owned());
    }
    if follows_oca_setup(f, modules) {
        return (SourceKind::Oca, "has OCA's setup/ layout".to_owned());
    }
    (
        SourceKind::Private,
        "not inside an Odoo checkout, so treated as your own code".to_owned(),
    )
}

proof fn lemma_repository_at(chain: Seq<Place>, from: int, found: int)
    requires
        innermost(chain, 4) <= from <= chain.len(),
        from <= found <= chain.len(),
        forall|j: int|
            found < j < chain.len() ==> !((#[trigger] chain[j]).has_git && chain[j].name is Some),
        found < chain.len() ==> chain[found].has_git && chain[found].name is Some,
    ensures
        found < chain.len() ==> repository_at(chain, from) == Some(found),
    decreases chain.len() - from,
{
    if from < found {
        lemma_repository_at(chain, from + 1, found);
    } else if from < chain.len() {
        lemma_no_repository(chain, from + 1);
    }
}

proof fn lemma_no_repository(chain: Seq<Place>, from: int)
    requires
        innermost(chain, 4) <= from <= chain.len(),
        forall|j: int|
            from <= j < chain.len() ==> !((#[trigger] chain[j]).has_git && chain[j].name is Some),
    ensures
        repository_at(chain, from) is None,
    decreases chain.len() - from,
{
    if from < chain.len() {
        lemma_no_repository(chain, from + 1);
    }
}

/// What a folder is called.
fn label_for(chain: &Vec<Step>, root_at: usize, path: &str) -> (r: String)
    requires
        root_at < chain@.len(),
    ensures
        r@ == label_of(places(chain@), root_at as int, path@),
{
    let ghost all = places(chain@);
    let start: usize = start_of_innermost(chain, 4);
    let mut i: usize = chain.len();
    while i > start
        invariant
            start == innermost(all, 4),
            start <= i <= chain@.len(),
            root_at < chain@.len(),
            all == places(chain@),
            forall|j: int|
                i <= j < all.len() ==> !((#[trigger] all[j]).has_git && all[j].name is Some),
        decreases i,
    {
        i = i - 1;
        assert(all[i as int] == chain@[i as int]@);
        if chain[i].has_git {
            if let Some(repo) = &chain[i].name {
                proof {
                    lemma_repository_at(all, start as int, i as int);
                }
                let rest = relative_path(chain, i);
                if rest.as_str().is_empty() {
                    return repo.clone();
                }
                let mut out = text::joined(repo.as_str(), "/");
                out.append(rest.as_str());
                return out;
            }
        }
    }
    proof {
        lemma_no_repository(all, start as int);
    }
    let rest = relative_path(chain, root_at);
    if !rest.as_str().is_empty() {
        return rest;
    }
    assert(all.last() == chain@[chain@.len() - 1]@);
    match &chain[chain.len() - 1].name {
        Some(name) => name.clone(),
        None => path.to_owned(),
    }
}

// --- the walk -------------------------------------------------------------

/// An addons folder that was found.
#[derive(Debug)]
pub struct DiscoveredRoot {
    pub path: String,
    pub label: String,
    pub kind: SourceKind,
    pub module_count: usize,
    pub sample: Vec<String>,
    pub why: String,
}

/// What is said of an addons folder.
pub struct Discovered {
    pub path: Seq<char>,
    pub label: Seq<char>,
    pub kind: SourceKind,
    pub module_count: int,
    pub sample: Seq<Seq<char>>,
    pub why: Seq<char>,
}

impl View for DiscoveredRoot {
    type V = Discovered;

    open spec fn view(&self) -> Discovered {
        Discovered {
            path: self.path@,
            label: self.label@,
            kind: self.kind,
            module_count: self.module_count as int,
            sample: text::views(self.sample@),
            why: self.why@,
        }
    }
}

/// What is said of the addons folders.
pub open spec fn discoveries(v: Seq<DiscoveredRoot>) -> Seq<Discovered> {
    v.map_values(|d: DiscoveredRoot| d@)
}

/// The modules among the first `k` folders of a folder.
pub open spec fn modules_among(f: Folder, k: nat) -> Seq<Seq<char>>
    decreases k,
{
    if k == 0 {
        Seq::empty()
    } else {
        let before = modules_among(f, (k - 1) as nat);
        let c = f.folders@[k - 1];
        if !is_noise(c.name@) && is_module(c) {
            before.push(c.name@)
        } else {
            before
        }
    }
}

/// How many modules are shown as a sample.
pub const SAMPLE_SIZE: usize = 4;

/// The first few of some words.
pub open spec fn sample_of(words: Seq<Seq<char>>) -> Seq<Seq<char>> {
    if words.len() > SAMPLE_SIZE {
        words.take(SAMPLE_SIZE as int)
    } else {
        words
    }
}

/// What is said of a folder that holds modules; nothing of one that holds none.
pub open spec fn root_at_folder(f: Folder, path: Seq<char>, chain: Seq<Place>, root_at: int) -> Seq<
    Discovered,
> {
    let modules = text::sorted_words(modules_among(f, f.folders@.len()));
    if modules.len() == 0 {
        Seq::empty()
    } else {
        seq![
            Discovered {
                path,
                label: label_of(chain, root_at, path),
                kind: classified(chain, root_at, f, modules).0,
                module_count: modules.len() as int,
                sample: sample_of(modules),
                why: classified(chain, root_at, f, modules).1,
            },
        ]
    }
}

/// The addons folders at or under a folder, at most `depth` levels down; `chain` leads to the
/// folder and ends with it. A module, and a folder that is noise, is not looked into.
pub open spec fn roots_in(
    f: Folder,
    path: Seq<char>,
    chain: Seq<Place>,
    root_at: int,
    depth: nat,
) -> Seq<Discovered>
    decreases depth, f.folders@.len() + 1,
{
    root_at_folder(f, path, chain, root_at) + roots_below(
        f,
        path,
        chain,
        root_at,
        depth,
        f.folders@.len(),
    )
}

/// The addons folders at or under the first `k` folders of a folder.
pub open spec fn roots_below(
    f: Folder,
    path: Seq<char>,
    chain: Seq<Place>,
    root_at: int,
    depth: nat,
    k: nat,
) -> Seq<Discovered>
    decreases depth, k,
{
    if k == 0 || depth == 0 {
        Seq::empty()
    } else {
        let before = roots_below(f, path, chain, root_at, depth, (k - 1) as nat);
        let c = f.folders@[k - 1];
        if is_noise(c.name@) || is_module(c) {
            before
        } else {
            before + roots_in(
                c,
                paths::under(path, c.name@),
                chain.push(place_of(c)),
                root_at,
                (depth - 1) as nat,
            )
        }
    }
}

fn holds_manifest(f: &Folder) -> (r: bool)
    ensures
        r == is_module(*f),
{
    holds_file(f, "__manifest__.py") || holds_file(f, "__openerp__.py")
}

fn module_names(f: &Folder) -> (r: Vec<String>)
    ensures
        text::views(r@) == modules_among(*f, f.folders@.len()),
{
    let mut out: Vec<String> = Vec::new();
    let mut i: usize = 0;
    assert(text::views(out@) =~= Seq::<Seq<char>>::empty());
    while i < f.folders.len()
        invariant
            i <= f.folders@.len(),
            text::views(out@) == modules_among(*f, i as nat),
        decreases f.folders@.len() - i,
    {
        let ghost before = text::views(out@);
        let c = &f.folders[i];
        if !noisy(c.name.as_str()) && holds_manifest(c) {
            let name = c.name.clone();
            out.push(name);
            assert(text::views(out@) =~= before.push(name@));
        }
        i = i + 1;
    }
    out
}

fn first_few(words: &Vec<String>) -> (r: Vec<String>)
    ensures
        text::views(r@) == sample_of(text::views(words@)),
{
    let mut out: Vec<String> = Vec::new();
    let mut i: usize = 0;
    let ghost all = text::views(words@);
    while i < words.len() && i < SAMPLE_SIZE
        invariant
            i <= words@.len(),
            i <= SAMPLE_SIZE,
            all == text::views(words@),
            text::views(out@) == all.take(i as int),
        decreases words@.len() - i,
    {
        let ghost before = text::views(out@);
        let w = words[i].clone();
        out.push(w);
        assert(text::views(out@) =~= before.push(w@));
        assert(text::views(out@) =~= all.take(i + 1));
        i = i + 1;
    }
    proof {
        if words@.len() <= SAMPLE_SIZE {
            assert(all.take(i as int) =~= all);
        }
    }
    out
}

/// Adds the addons folders at or under `dir` to `into`.
fn walk_for_addons(
    dir: &Folder,
    path: &str,
    chain: &mut Vec<Step>,
    root_at: usize,
    depth_left: usize,
    into: &mut Vec<DiscoveredRoot>,
)
    requires
        root_at < old(chain)@.len(),
    ensures
        places(final(chain)@) == places(old(chain)@),
        discoveries(final(into)@) == discoveries(old(into)@) + roots_in(
            *dir,
            path@,
            places(old(chain)@),
            root_at as int,
            depth_left as nat,
        ),
    decreases depth_left,
{
    let ghost trail = places(chain@);
    let ghost start = discoveries(into@);
    let found = module_names(dir);
    let modules = text::sort_words(&found);
    let ghost own = root_at_folder(*dir, path@, trail, root_at as int);
    assert(text::views(modules@).len() == modules@.len());
    if modules.len() > 0 {
        let (kind, why) = classify(&*chain, root_at, dir, &modules);
        let root = DiscoveredRoot {
            label: label_for(&*chain, root_at, path),
            path: path.to_owned(),
            kind,
            module_count: modules.len(),
            sample: first_few(&modules),
            why,
        };
        into.push(root);
        assert(own =~= seq![root@]);
    }
    assert(discoveries(into@) =~= start + own);
    if depth_left == 0 {
        assert(roots_below(*dir, path@, trail, root_at as int, 0, dir.folders@.len()) =~= Seq::<
            Discovered,
        >::empty());
        assert(discoveries(into@) =~= start + (own + Seq::<Discovered>::empty()));
        return ;
    }
    let mut i: usize = 0;
    assert(discoveries(into@) =~= start + own + roots_below(
        *dir,
        path@,
        trail,
        root_at as int,
        depth_left as nat,
        0,
    ));
    while i < dir.folders.len()
        invariant
            i <= dir.folders@.len(),
            depth_left > 0,
            root_at < trail.len(),
            places(chain@) == trail,
            own == root_at_folder(*dir, path@, trail, root_at as int),
            discoveries(into@) == start + own + roots_below(
                *dir,
                path@,
                trail,
                root_at as int,
                depth_left as nat,
                i as nat,
            ),
        decreases dir.folders@.len() - i,
    {
        let child = &dir.folders[i];
        if !noisy(child.name.as_str()) && !holds_manifest(child) {
            let child_path = paths::join(path, child.name.as_str());
            let ghost before = discoveries(into@);
            let step = step_of(child);
            chain.push(step);
            assert(places(chain@) =~= trail.push(place_of(*child)));
            walk_for_addons(child, child_path.as_str(), chain, root_at, depth_left - 1, into);
            assert(places(chain@).len() == chain@.len());
            let ghost deeper = places(chain@);
            let _ = chain.pop();
            assert(places(chain@) =~= deeper.drop_last());
            assert(places(chain@) =~= trail);
            assert(discoveries(into@) =~= start + own + roots_below(
                *dir,
                path@,
                trail,
                root_at as int,
                depth_left as nat,
                (i + 1) as nat,
            ));
        }
        i = i + 1;
    }
    assert(discoveries(into@) =~= start + roots_in(
        *dir,
        path@,
        trail,
        root_at as int,
        depth_left as nat,
    ));
}

/// In which order sources of a kind are loaded.
pub open spec fn load_rank(kind: SourceKind) -> int {
    match kind {
        SourceKind::Private => 0,
        SourceKind::Oca => 1,
        SourceKind::Core => 2,
    }
}

fn kind_rank(kind: SourceKind) -> (r: u8)
    ensures
        r == load_rank(kind),
{
    match kind {
        SourceKind::Private => 0,
        SourceKind::Oca => 1,
        SourceKind::Core => 2,
    }
}

/// By kind, then by path.
pub open spec fn loads_before(a: Discovered, b: Discovered) -> bool {
    load_rank(a.kind) < load_rank(b.kind) || (load_rank(a.kind) == load_rank(b.kind)
        && paths::path_less(a.path, b.path))
}

/// How many at the front do not load behind `d`.
pub open spec fn load_place(sorted: Seq<Discovered>, d: Discovered) -> nat
    decreases sorted.len(),
{
    if sorted.len() == 0 || loads_before(d, sorted[0]) {
        0
    } else {
        1 + load_place(sorted.drop_first(), d)
    }
}

/// In load order.
pub open spec fn load_order(found: Seq<Discovered>) -> Seq<Discovered>
    decreases found.len(),
{
    if found.len() == 0 {
        Seq::empty()
    } else {
        let before = load_order(found.drop_last());
        before.insert(load_place(before, found.last()) as int, found.last())
    }
}

proof fn lemma_load_place(sorted: Seq<Discovered>, d: Discovered)
    ensures
        load_place(sorted, d) <= sorted.len(),
        forall|i: int| 0 <= i < load_place(sorted, d) ==> !loads_before(d, #[trigger] sorted[i]),
        load_place(sorted, d) < sorted.len() ==> loads_before(
            d,
            sorted[load_place(sorted, d) as int],
        ),
    decreases sorted.len(),
{
    if sorted.len() > 0 && !loads_before(d, sorted[0]) {
        let rest = sorted.drop_first();
        lemma_load_place(rest, d);
        assert forall|i: int| 0 <= i < load_place(sorted, d) implies !loads_before(
            d,
            #[trigger] sorted[i],
        ) by {
            if i > 0 {
                assert(rest[i - 1] == sorted[i]);
            }
        }
    }
}

/// What is proposed holds everything that was found, and of any two folders the one of the
/// earlier kind first: your own code before OCA's before Odoo's. Within one kind the paths rise.
pub proof fn law_your_own_code_loads_first(found: Seq<Discovered>)
    ensures
        load_order(found).to_multiset() == found.to_multiset(),
        forall|i: int, j: int|
            0 <= i < j < load_order(found).len() ==> load_rank((#[trigger] load_order(found)[i]).kind)
                <= load_rank((#[trigger] load_order(found)[j]).kind),
        forall|i: int, j: int|
            0 <= i < j < load_order(found).len() && (#[trigger] load_order(found)[i]).kind == (
            #[trigger] load_order(found)[j]).kind ==> !paths::path_less(
                load_order(found)[j].path,
                load_order(found)[i].path,
            ),
{
    lemma_load_order(found);
    let r = load_order(found);
    assert forall|i: int, j: int| 0 <= i < j < r.len() implies load_rank((#[trigger] r[i]).kind)
        <= load_rank((#[trigger] r[j]).kind) by {
        assert(!loads_before(r[j], r[i]));
    }
    assert forall|i: int, j: int|
        0 <= i < j < r.len() && (#[trigger] r[i]).kind == (
        #[trigger] r[j]).kind implies !paths::path_less(r[j].path, r[i].path) by {
        assert(!loads_before(r[j], r[i]));
    }
}

proof fn lemma_load_order(found: Seq<Discovered>)
    ensures
        load_order(found).to_multiset() == found.to_multiset(),
        forall|i: int, j: int|
            0 <= i < j < load_order(found).len() ==> !loads_before(
                #[trigger] load_order(found)[j],
                #[trigger] load_order(found)[i],
            ),
    decreases found.len(),
{
    if found.len() > 0 {
        let before = load_order(found.drop_last());
        let d = found.last();
        let k = load_place(before, d) as int;
        let r = before.insert(k, d);
        lemma_load_order(found.drop_last());
        lemma_load_place(before, d);
        broadcast use vstd::seq_lib::group_to_multiset_ensures;

        assert(found =~= found.drop_last().push(d));
        assert(r.to_multiset() =~= found.to_multiset());
        assert forall|i: int, j: int| 0 <= i < j < r.len() implies !loads_before(
            #[trigger] r[j],
            #[trigger] r[i],
        ) by {
            if j < k {
                assert(r[i] == before[i] && r[j] == before[j]);
            } else if j == k {
                assert(r[i] == before[i]);
            } else if i < k {
                assert(r[i] == before[i] && r[j] == before[j - 1]);
            } else if i == k {
                assert(r[j] == before[j - 1]);
                assert(loads_before(d, before[k]));
                paths::lemma_path_order(before[j - 1].path, d.path, before[k].path);
                if j - 1 > k {
                    assert(!loads_before(before[j - 1], before[k]));
                }
                paths::lemma_path_order(d.path, before[k].path, d.path);
            } else {
                assert(r[i] == before[i - 1] && r[j] == before[j - 1]);
            }
        }
    } else {
        assert(load_order(found) =~= found);
    }
}

/// The addons folders at or under `root`, at most `max_depth` levels down, in the order in which
/// they should be loaded. `path` is the path of `root`; `above` are the folders above it,
/// outermost first.
pub fn discover_addons_roots(root: &Folder, path: &str, above: Vec<Step>, max_depth: usize) -> (r: Vec<
    DiscoveredRoot,
>)
    ensures
        discoveries(r@) == load_order(
            roots_in(
                *root,
                path@,
                places(above@).push(place_of(*root)),
                above@.len() as int,
                max_depth as nat,
            ),
        ),
{
    let root_at: usize = above.len();
    let mut chain = above;
    let step = step_of(root);
    let ghost outer = places(chain@);
    chain.push(step);
    assert(places(chain@) =~= outer.push(place_of(*root)));
    let mut found: Vec<DiscoveredRoot> = Vec::new();
    assert(discoveries(found@) =~= Seq::<Discovered>::empty());
    walk_for_addons(root, path, &mut chain, root_at, max_depth, &mut found);
    let ghost all = discoveries(found@);
    assert(all =~= roots_in(
        *root,
        path@,
        outer.push(place_of(*root)),
        root_at as int,
        max_depth as nat,
    ));
    let mut sorted: Vec<DiscoveredRoot> = Vec::new();
    let count: usize = found.len();
    let mut i: usize = 0;
    assert(all.skip(0) =~= all);
    assert(discoveries(sorted@) =~= load_order(all.take(0)));
    while i < count
        invariant
            i <= count == all.len(),
            discoveries(found@) == all.skip(i as int),
            discoveries(sorted@) == load_order(all.take(i as int)),
        decreases count - i,
    {
        let ghost rest = discoveries(found@);
        assert(rest.len() == found@.len());
        assert(rest[0] == found@[0]@);
        let one = found.remove(0);
        assert(discoveries(found@) =~= rest.drop_first());
        assert(discoveries(found@) =~= all.skip(i + 1));
        let ghost done = discoveries(sorted@);
        let mut k: usize = 0;
        assert(done.skip(0) =~= done);
        while k < sorted.len() && !(kind_rank(one.kind) < kind_rank(sorted[k].kind) || (kind_rank(
            one.kind,
        ) == kind_rank(sorted[k].kind) && paths::path_before(
            one.path.as_str(),
            sorted[k].path.as_str(),
        )))
            invariant
                k <= sorted@.len(),
                done == discoveries(sorted@),
                load_place(done, one@) == k + load_place(done.skip(k as int), one@),
            decreases sorted@.len() - k,
        {
            assert(done.skip(k as int)[0] == sorted@[k as int]@);
            assert(done.skip(k as int).drop_first() =~= done.skip(k + 1));
            k = k + 1;
        }
        proof {
            if k < sorted@.len() {
                assert(done.skip(k as int)[0] == sorted@[k as int]@);
            }
            assert(load_place(done, one@) == k);
            assert(all.take(i + 1).drop_last() =~= all.take(i as int));
            assert(all.take(i + 1).last() == one@);
        }
        sorted.insert(k, one);
        assert(discoveries(sorted@) =~= done.insert(k as int, one@));
        i = i + 1;
    }
    assert(all.take(i as int) =~= all);
    sorted
}

/// The modules in a folder are the folders right under it that hold a manifest and are not noise,
/// in their order.
pub proof fn law_a_module_is_a_folder_with_a_manifest(f: Folder, k: nat)
    requires
        k <= f.folders@.len(),
    ensures
        modules_among(f, k) == f.folders@.take(k as int).filter(
            |c: Folder|
                !is_noise(c.name@) && (text::views(c.files@).contains("__manifest__.py"@)
                    || text::views(c.files@).contains("__openerp__.py"@)),
        ).map_values(|c: Folder| c.name@),
    decreases k,
{
    let pick = |c: Folder|
        !is_noise(c.name@) && (text::views(c.files@).contains("__manifest__.py"@) || text::views(
            c.files@,
        ).contains("__openerp__.py"@));
    let turn = |c: Folder| c.name@;
    let all = f.folders@.take(k as int);
    order::lemma_picked(all, pick, turn);
    if k > 0 {
        law_a_module_is_a_folder_with_a_manifest(f, (k - 1) as nat);
        assert(all.drop_last() =~= f.folders@.take(k - 1));
        assert(all.last() == f.folders@[k - 1]);
    } else {
        assert(all =~= Seq::<Folder>::empty());
    }
}

/// A folder that holds modules is one source, told of with their number and a few of their names;
/// a folder that holds none is no source.
pub proof fn law_a_folder_of_modules_is_one_source(
    f: Folder,
    path: Seq<char>,
    chain: Seq<Place>,
    root_at: int,
    i: int,
)
    ensures
        ({
            let modules = modules_among(f, f.folders@.len());
            let roots = root_at_folder(f, path, chain, root_at);
            &&& modules.len() == 0 <==> roots.len() == 0
            &&& modules.len() > 0 ==> {
                &&& roots.len() == 1
                &&& roots[0].path == path
                &&& roots[0].module_count == modules.len()
                &&& roots[0].sample.len() == if modules.len() < 4 {
                    modules.len()
                } else {
                    4
                }
                &&& 0 <= i < roots[0].sample.len() ==> modules.contains(roots[0].sample[i])
                &&& 0 < i < roots[0].sample.len() ==> !text::text_less(
                    roots[0].sample[i],
                    roots[0].sample[i - 1],
                )
            }
        }),
{
    let modules = modules_among(f, f.folders@.len());
    let sorted = text::sorted_words(modules);
    text::lemma_sorted_words(modules);
    assert(sorted.to_multiset() == modules.to_multiset());
    sorted.to_multiset_ensures();
    modules.to_multiset_ensures();
    if modules.len() > 0 {
        let roots = root_at_folder(f, path, chain, root_at);
        if 0 <= i < roots[0].sample.len() {
            assert(roots[0].sample[i] == sorted[i]);
            assert(sorted.contains(sorted[i]));
            assert(sorted.to_multiset().count(sorted[i]) > 0);
            assert(modules.contains(sorted[i]));
        }
    }
}

/// What is found in a folder is the folder itself, where it holds modules, and what is found in
/// the folders under it as deep as is asked for: in all of them but modules and noise.
pub proof fn law_every_folder_is_searched(
    f: Folder,
    path: Seq<char>,
    chain: Seq<Place>,
    root_at: int,
    depth: nat,
    d: Discovered,
)
    ensures
        roots_in(f, path, chain, root_at, depth).contains(d) <==> {
            ||| root_at_folder(f, path, chain, root_at).contains(d)
            ||| depth > 0 && exists|k: int|
                {
                    &&& 0 <= k < f.folders@.len()
                    &&& !is_noise((#[trigger] f.folders@[k]).name@)
                    &&& !is_module(f.folders@[k])
                    &&& roots_in(
                        f.folders@[k],
                        paths::under(path, f.folders@[k].name@),
                        chain.push(place_of(f.folders@[k])),
                        root_at,
                        (depth - 1) as nat,
                    ).contains(d)
                }
        },
{
    let own = root_at_folder(f, path, chain, root_at);
    let below = roots_below(f, path, chain, root_at, depth, f.folders@.len());
    vstd::seq_lib::lemma_seq_concat_contains_all_elements(own, below, d);
    lemma_found_below(f, path, chain, root_at, depth, f.folders@.len(), d);
}

proof fn lemma_found_below(
    f: Folder,
    path: Seq<char>,
    chain: Seq<Place>,
    root_at: int,
    depth: nat,
    n: nat,
    d: Discovered,
)
    requires
        n <= f.folders@.len(),
    ensures
        roots_below(f, path, chain, root_at, depth, n).contains(d) <==> depth > 0 && exists|k: int|
            {
                &&& 0 <= k < n
                &&& !is_noise((#[trigger] f.folders@[k]).name@)
                &&& !is_module(f.folders@[k])
                &&& roots_in(
                    f.folders@[k],
                    paths::under(path, f.folders@[k].name@),
                    chain.push(place_of(f.folders@[k])),
                    root_at,
                    (depth - 1) as nat,
                ).contains(d)
            },
    decreases n,
{
    if n > 0 && depth > 0 {
        lemma_found_below(f, path, chain, root_at, depth, (n - 1) as nat, d);
        let before = roots_below(f, path, chain, root_at, depth, (n - 1) as nat);
        let c = f.folders@[n - 1];
        if !is_noise(c.name@) && !is_module(c) {
            vstd::seq_lib::lemma_seq_concat_contains_all_elements(
                before,
                roots_in(
                    c,
                    paths::under(path, c.name@),
                    chain.push(place_of(c)),
                    root_at,
                    (depth - 1) as nat,
                ),
                d,
            );
        }
    }
}

/// A folder is Odoo's own where one of the innermost three folders is a checkout of Odoo: it has
/// `odoo-bin`, or is called `odoo` and holds `addons`. Otherwise it is OCA's where its path under
/// the root says so or it has the layout of OCA, and otherwise your own.
pub proof fn law_a_folder_is_whose_it_looks(
    chain: Seq<Place>,
    root_at: int,
    f: Folder,
    modules: Seq<Seq<char>>,
)
    ensures
        ({
            let kind = classified(chain, root_at, f, modules).0;
            let theirs = exists|i: int|
                {
                    &&& 0 <= i < chain.len()
                    &&& chain.len() - i <= 3
                    &&& (#[trigger] chain[i]).has_odoo_bin || (chain[i].name == Some("odoo"@)
                        && chain[i].has_addons)
                };
            &&& kind is Core <==> theirs
            &&& kind is Oca <==> !theirs && (names_oca(relative(chain, root_at)) || has_oca_setup(
                f,
                modules,
            ))
        }),
{
    if in_checkout(chain) {
        let i = choose|i: int|
            innermost(chain, 3) <= i < chain.len() && marks_checkout(#[trigger] chain[i]);
        assert(chain[i].has_odoo_bin || (chain[i].name == Some("odoo"@) && chain[i].has_addons));
    }
    assert forall|i: int|
        0 <= i < chain.len() && chain.len() - i <= 3 && ((#[trigger] chain[i]).has_odoo_bin || (
        chain[i].name == Some("odoo"@) && chain[i].has_addons)) implies in_checkout(chain) by {
        assert(marks_checkout(chain[i]));
    }
}

/// A folder in a repository is labelled by the way from the innermost repository to it, where that
/// is among the innermost four folders.
pub proof fn law_a_label_leads_from_the_repository(
    chain: Seq<Place>,
    root_at: int,
    path: Seq<char>,
    i: int,
)
    requires
        0 <= i < chain.len(),
        chain.len() - i <= 4,
        chain[i].has_git,
        chain[i].name is Some,
        forall|j: int|
            i < j < chain.len() ==> !((#[trigger] chain[j]).has_git && chain[j].name is Some),
        forall|j: int|
            i < j < chain.len() ==> (#[trigger] chain[j]).name is Some && chain[j].name->0.len() > 0,
    ensures
        label_of(chain, root_at, path) == text::joined_with(
            chain.skip(i).map_values(|p: Place| p.name->0),
            "/"@,
        ),
{
    let from = innermost(chain, 4);
    lemma_repository_at(chain, from, i);
    let names = chain.skip(i).map_values(|p: Place| p.name->0);
    let behind = chain.skip(i + 1).map_values(|p: Place| p.name.unwrap_or(Seq::empty()));
    assert(names =~= seq![chain[i].name->0] + behind);
    text::law_joining_puts_the_separator_between(chain[i].name->0, behind, "/"@);
    if behind.len() > 0 {
        let rest = relative(chain, i);
        assert(behind[0] == chain[i + 1].name->0);
        assert(rest.len() > 0) by {
            let others = behind.drop_first();
            assert(seq![behind[0]] + others =~= behind);
            text::law_joining_puts_the_separator_between(behind[0], others, "/"@);
            if others.len() == 0 {
                assert(behind =~= seq![behind[0]]);
            }
        }
    } else {
        assert(names =~= seq![chain[i].name->0]);
        assert(behind =~= Seq::<Seq<char>>::empty());
    }
}

/// A path names OCA where one of its parts is `oca` or begins with `oca-`, in any case of the
/// letters.
pub proof fn law_oca_is_named_by_a_part(before: Seq<char>, part: Seq<char>)
    requires
        text::all_ascii(before),
        text::all_ascii(part),
        !part.contains('/'),
        !part.contains('\\'),
        part.len() >= 3,
        text::ascii_lower(part[0]) == 'o',
        text::ascii_lower(part[1]) == 'c',
        text::ascii_lower(part[2]) == 'a',
    ensures
        part.len() == 3 || part[3] == '-' ==> names_oca(before.push('/') + part),
{
    let path = before.push('/') + part;
    assert(text::all_ascii(path));
    let low = text::lowercase_of(path);
    let clean = low.map_values(|c: char| if c == '\\' { '/' } else { c });
    let last = clean.skip(before.len() as int + 1);
    let s = segments(low);
    assert(last.len() == part.len());
    assert forall|i: int| 0 <= i < part.len() implies last[i] == text::ascii_lower(part[i])
        && last[i] != '/' by {
        assert(part.contains(part[i]));
        assert(low[before.len() + 1 + i] == text::ascii_lower(part[i]));
    }
    let head = clean.take(before.len() as int);
    assert(clean =~= head.push('/') + last);
    assert(!last.contains('/'));
    lemma_last_piece(head, last);
    let n = s.len() - 1;
    assert(s[n] == last);
    reveal_strlit("oca");
    reveal_strlit("oca-");
    if part.len() == 3 {
        assert(last =~= "oca"@);
    } else if part[3] == '-' {
        assert("oca-"@.is_prefix_of(last)) by {
            assert(last.subrange(0, 4) =~= "oca-"@);
        }
    }
    assert(s[n] == "oca"@ || "oca-"@.is_prefix_of(s[n]) || (part.len() != 3 && part[3] != '-'));
}

proof fn lemma_last_piece(head: Seq<char>, last: Seq<char>)
    requires
        !last.contains('/'),
    ensures
        text::split_on(head.push('/') + last, '/').len() > 0,
        text::split_on(head.push('/') + last, '/').last() == last,
    decreases head.len(),
{
    let whole = head.push('/') + last;
    let n = text::first_at(head, '/') as int;
    text::lemma_first_at(head, '/');
    text::law_splitting_goes_from_mark_to_mark(last, last, '/');
    if n < head.len() {
        let a = head.take(n);
        let rest = head.skip(n + 1);
        assert(!a.contains('/')) by {
            if a.contains('/') {
                let i = choose|i: int| 0 <= i < a.len() && a[i] == '/';
                assert(head[i] == '/');
            }
        }
        assert(whole =~= a.push('/') + (rest.push('/') + last));
        text::law_splitting_goes_from_mark_to_mark(a, rest.push('/') + last, '/');
        lemma_last_piece(rest, last);
    } else {
        assert(!head.contains('/')) by {
            if head.contains('/') {
                let i = choose|i: int| 0 <= i < head.len() && head[i] == '/';
                assert(head[i] == '/');
            }
        }
        text::law_splitting_goes_from_mark_to_mark(head, last, '/');
    }
}

/// Hidden folders and folders of tools are not searched, and every other folder is.
pub proof fn law_hidden_folders_are_noise(name: Seq<char>)
    ensures
        "."@.is_prefix_of(name) ==> is_noise(name),
        is_noise("node_modules"@) && is_noise("__pycache__"@) && is_noise("venv"@) && is_noise(
            "site-packages"@,
        ),
        is_noise(name) && !("."@.is_prefix_of(name)) ==> name == "node_modules"@ || name
            == "__pycache__"@ || name == "venv"@ || name == "site-packages"@,
{
    reveal_strlit(".");
    if name.len() > 0 && name[0] == '.' {
        assert("."@.is_prefix_of(name)) by {
            assert(name.subrange(0, 1) =~= "."@);
        }
    }
    if "."@.is_prefix_of(name) {
        assert(name.subrange(0, 1)[0] == '.');
        assert(name[0] == '.');
    }
}

/// Whatever is found, your own code stands before OCA's, and OCA's before Odoo's.
pub proof fn law_private_stands_before_oca_before_core(found: Seq<Discovered>, i: int, j: int)
    requires
        0 <= i < j < load_order(found).len(),
    ensures
        load_order(found)[j].kind is Private ==> load_order(found)[i].kind is Private,
        load_order(found)[i].kind is Core ==> load_order(found)[j].kind is Core,
        load_order(found).len() == found.len(),
{
    law_your_own_code_loads_first(found);
    load_order(found).to_multiset_ensures();
    found.to_multiset_ensures();
    assert(load_rank(load_order(found)[i].kind) <= load_rank(load_order(found)[j].kind));
}

} // verus!
