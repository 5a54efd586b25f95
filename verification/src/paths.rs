//! File paths as text, with `/` between their parts.

use crate::text;
use vstd::prelude::*;
use vstd::string::*;

verus! {

/// `name` under `base`: an absolute `name` stands alone, and no second `/` is put behind one.
pub open spec fn under(base: Seq<char>, name: Seq<char>) -> Seq<char> {
    if name.len() > 0 && name[0] == '/' {
        name
    } else if base.len() == 0 || base.last() == '/' {
        base + name
    } else {
        base + "/"@ + name
    }
}

/// `name` under `base`.
pub fn join(base: &str, name: &str) -> (r: String)
    ensures
        r@ == under(base@, name@),
{
    let b = text::chars_of(base);
    let n = text::chars_of(name);
    if n.len() > 0 && n[0] == '/' {
        name.to_owned()
    } else if b.len() == 0 || b[b.len() - 1] == '/' {
        text::joined(base, name)
    } else {
        let mut out = text::joined(base, "/");
        out.append(name);
        out
    }
}

/// The parts of a path: what stands between the slashes, without empty parts and without `.`, but
/// for a `.` at the very beginning; an absolute path begins with the part `/`.
pub open spec fn parts_of(path: Seq<char>) -> Seq<Seq<char>> {
    let pieces = text::split_on(path, '/');
    let named = named_parts(pieces);
    if path.len() > 0 && path[0] == '/' {
        seq!["/"@] + named
    } else if pieces[0] == "."@ {
        seq!["."@] + named
    } else {
        named
    }
}

/// The pieces that name something.
pub open spec fn named_parts(pieces: Seq<Seq<char>>) -> Seq<Seq<char>>
    decreases pieces.len(),
{
    if pieces.len() == 0 {
        Seq::empty()
    } else {
        let before = named_parts(pieces.drop_last());
        if pieces.last().len() == 0 || pieces.last() == "."@ {
            before
        } else {
            before.push(pieces.last())
        }
    }
}

/// The parts of a path.
pub fn parts(path: &str) -> (r: Vec<String>)
    ensures
        text::views(r@) == parts_of(path@),
{
    let pieces = text::split(path, '/');
    let ghost all = text::views(pieces@);
    let mut out: Vec<String> = Vec::new();
    let absolute = text::starts_with(path, "/");
    proof {
        reveal_strlit("/");
        if path@.len() > 0 {
            assert(path@.subrange(0, 1)[0] == path@[0]);
            if path@[0] == '/' {
                assert("/"@ =~= path@.subrange(0, 1));
            }
        }
        assert(absolute == (path@.len() > 0 && path@[0] == '/'));
    }
    proof {
        text::lemma_split_has_a_piece(path@, '/');
        assert(all[0] == pieces@[0]@);
    }
    let here = text::same_text(pieces[0].as_str(), ".");
    if absolute {
        out.push("/".to_owned());
    } else if here {
        out.push(".".to_owned());
    }
    let ghost start = text::views(out@);
    assert(start =~= (if absolute {
        seq!["/"@]
    } else if here {
        seq!["."@]
    } else {
        Seq::empty()
    }));
    let mut i: usize = 0;
    assert(start + named_parts(all.take(0)) =~= start);
    while i < pieces.len()
        invariant
            i <= pieces@.len(),
            all == text::views(pieces@),
            text::views(out@) == start + named_parts(all.take(i as int)),
        decreases pieces@.len() - i,
    {
        let ghost before = text::views(out@);
        proof {
            assert(all.take(i + 1).drop_last() =~= all.take(i as int));
            assert(all.take(i + 1).last() == pieces@[i as int]@);
        }
        if !pieces[i].as_str().is_empty() && !text::same_text(pieces[i].as_str(), ".") {
            let piece = pieces[i].clone();
            out.push(piece);
            assert(text::views(out@) =~= before.push(piece@));
            assert(text::views(out@) =~= start + named_parts(all.take(i + 1)));
        }
        i = i + 1;
    }
    assert(all.take(i as int) =~= all);
    assert(named_parts(all) =~= Seq::<Seq<char>>::empty() + named_parts(all));
    out
}

/// The sort of a part: the root, the folder itself, the folder above, or a name.
pub open spec fn part_sort(p: Seq<char>) -> int {
    if p == "/"@ {
        0
    } else if p == "."@ {
        1
    } else if p == ".."@ {
        2
    } else {
        3
    }
}

/// Order of parts: by their sort, and names as texts.
pub open spec fn part_less(a: Seq<char>, b: Seq<char>) -> bool {
    part_sort(a) < part_sort(b) || (part_sort(a) == part_sort(b) && text::text_less(a, b))
}

fn sort_of_part(p: &str) -> (r: u8)
    ensures
        r == part_sort(p@),
{
    if text::same_text(p, "/") {
        0
    } else if text::same_text(p, ".") {
        1
    } else if text::same_text(p, "..") {
        2
    } else {
        3
    }
}

/// Order of paths: part by part.
pub open spec fn parts_less(a: Seq<Seq<char>>, b: Seq<Seq<char>>) -> bool
    decreases a.len(),
{
    if b.len() == 0 {
        false
    } else if a.len() == 0 {
        true
    } else if a[0] != b[0] {
        part_less(a[0], b[0])
    } else {
        parts_less(a.drop_first(), b.drop_first())
    }
}

/// Order of paths: part by part.
pub open spec fn path_less(a: Seq<char>, b: Seq<char>) -> bool {
    parts_less(parts_of(a), parts_of(b))
}

/// Whether a text can name a file or a folder.
pub open spec fn is_name(name: Seq<char>) -> bool {
    name.len() > 0 && !name.contains('/') && name != "."@ && name != ".."@
}

/// A name under a path adds one part to its parts.
pub proof fn lemma_parts_under(base: Seq<char>, name: Seq<char>)
    requires
        base.len() == 0 || base.last() != '/',
        is_name(name),
    ensures
        parts_of(under(base, name)) == parts_of(base).push(name),
        under(base, name).len() > 0,
        under(base, name).last() != '/',
{
    reveal_strlit("/");
    reveal_strlit(".");
    text::lemma_first_at(name, '/');
    assert(name.contains(name[0]));
    assert(name.contains(name.last()));
    let own = text::split_on(name, '/');
    assert(own =~= seq![name]);
    assert(own.drop_last() =~= Seq::<Seq<char>>::empty());
    assert(named_parts(own.drop_last()) =~= Seq::<Seq<char>>::empty());
    if base.len() == 0 {
        assert(under(base, name) =~= name);
        let none = text::split_on(base, '/');
        assert(none =~= seq![base]);
        assert(none.drop_last() =~= Seq::<Seq<char>>::empty());
        assert(named_parts(none.drop_last()) =~= Seq::<Seq<char>>::empty());
        assert(parts_of(base) =~= Seq::<Seq<char>>::empty());
        assert(parts_of(name) =~= parts_of(base).push(name));
    } else {
        let path = base + "/"@ + name;
        assert("/"@ =~= seq!['/']);
        assert(path =~= base + seq!['/'] + name);
        text::lemma_split_at(base, '/', name);
        text::lemma_split_has_a_piece(base, '/');
        let pieces = text::split_on(path, '/');
        let before = text::split_on(base, '/');
        assert(pieces =~= before.push(name));
        assert(pieces.drop_last() =~= before);
        assert(pieces[0] == before[0]);
        assert(path[0] == base[0]);
        assert(parts_of(path) =~= parts_of(base).push(name));
    }
}

/// Of two paths with different parts one comes before the other.
pub proof fn lemma_path_total(a: Seq<char>, b: Seq<char>)
    requires
        parts_of(a) != parts_of(b),
    ensures
        path_less(a, b) || path_less(b, a),
{
    lemma_parts_total(parts_of(a), parts_of(b));
}

proof fn lemma_parts_total(a: Seq<Seq<char>>, b: Seq<Seq<char>>)
    requires
        a != b,
    ensures
        parts_less(a, b) || parts_less(b, a),
    decreases a.len(),
{
    if a.len() > 0 && b.len() > 0 {
        if a[0] == b[0] {
            if a.drop_first() == b.drop_first() {
                assert(a =~= seq![a[0]] + a.drop_first());
                assert(b =~= seq![b[0]] + b.drop_first());
            }
            lemma_parts_total(a.drop_first(), b.drop_first());
        } else {
            text::lemma_text_less_total(a[0], b[0]);
        }
    } else if a.len() == 0 && b.len() == 0 {
        assert(a =~= b);
    }
}

proof fn lemma_parts_less_irreflexive(a: Seq<Seq<char>>)
    ensures
        !parts_less(a, a),
    decreases a.len(),
{
    if a.len() > 0 {
        text::lemma_text_less_irreflexive(a[0]);
        lemma_parts_less_irreflexive(a.drop_first());
    }
}

proof fn lemma_parts_less_transitive(a: Seq<Seq<char>>, b: Seq<Seq<char>>, c: Seq<Seq<char>>)
    requires
        parts_less(a, b),
        parts_less(b, c),
    ensures
        parts_less(a, c),
    decreases a.len(),
{
    if a.len() > 0 && b.len() > 0 && c.len() > 0 {
        if a[0] == b[0] && b[0] == c[0] {
            lemma_parts_less_transitive(a.drop_first(), b.drop_first(), c.drop_first());
        } else if a[0] != b[0] && b[0] != c[0] {
            if text::text_less(a[0], b[0]) && text::text_less(b[0], c[0]) {
                text::lemma_text_less_transitive(a[0], b[0], c[0]);
            }
            if a[0] == c[0] && text::text_less(a[0], b[0]) {
                text::lemma_text_less_asymmetric(a[0], b[0]);
            }
        }
    }
}

/// No path comes before itself, and the order of paths is transitive.
pub proof fn lemma_path_order(a: Seq<char>, b: Seq<char>, c: Seq<char>)
    ensures
        !path_less(a, a),
        path_less(a, b) && path_less(b, c) ==> path_less(a, c),
        path_less(a, b) ==> !path_less(b, a),
{
    lemma_parts_less_irreflexive(parts_of(a));
    if path_less(a, b) && path_less(b, c) {
        lemma_parts_less_transitive(parts_of(a), parts_of(b), parts_of(c));
    }
    if path_less(a, b) && path_less(b, a) {
        lemma_parts_less_transitive(parts_of(a), parts_of(b), parts_of(a));
    }
}

/// Whether path `a` comes before path `b`.
pub fn path_before(a: &str, b: &str) -> (r: bool)
    ensures
        r == path_less(a@, b@),
{
    let av = parts(a);
    let bv = parts(b);
    let ghost x = text::views(av@);
    let ghost y = text::views(bv@);
    let mut i: usize = 0;
    assert(x.skip(0) =~= x);
    assert(y.skip(0) =~= y);
    while i < av.len() && i < bv.len() && text::same_text(av[i].as_str(), bv[i].as_str())
        invariant
            i <= av@.len(),
            i <= bv@.len(),
            x == text::views(av@),
            y == text::views(bv@),
            path_less(a@, b@) == parts_less(x.skip(i as int), y.skip(i as int)),
        decreases av@.len() - i,
    {
        assert(x.skip(i as int)[0] == av@[i as int]@);
        assert(y.skip(i as int)[0] == bv@[i as int]@);
        assert(x.skip(i as int).drop_first() =~= x.skip(i + 1));
        assert(y.skip(i as int).drop_first() =~= y.skip(i + 1));
        i = i + 1;
    }
    if i >= bv.len() {
        false
    } else if i >= av.len() {
        true
    } else {
        assert(x.skip(i as int)[0] == av@[i as int]@);
        assert(y.skip(i as int)[0] == bv@[i as int]@);
        let first: u8 = sort_of_part(av[i].as_str());
        let second: u8 = sort_of_part(bv[i].as_str());
        first < second || (first == second && text::comes_before(av[i].as_str(), bv[i].as_str()))
    }
}

// --- names of files -------------------------------------------------------

/// The stem of a file name and its extension: what stands before and behind the last `.`; a name
/// without one, or with its only one at the beginning, is all stem.
pub open spec fn name_parts(name: Seq<char>) -> (Seq<char>, Option<Seq<char>>) {
    if name == ".."@ {
        (name, None)
    } else {
        match text::around_last(name, '.') {
            Some((stem, extension)) => if stem.len() == 0 {
                (name, None)
            } else {
                (stem, Some(extension))
            },
            None => (name, None),
        }
    }
}

/// The stem of a file name and its extension.
pub fn split_name(name: &str) -> (r: (String, Option<String>))
    ensures
        r.0@ == name_parts(name@).0,
        text::opt_view(r.1) == name_parts(name@).1,
{
    if text::same_text(name, "..") {
        return (name.to_owned(), None);
    }
    match text::split_last(name, '.') {
        Some((stem, extension)) => {
            if stem.as_str().is_empty() {
                (name.to_owned(), None)
            } else {
                (stem, Some(extension))
            }
        },
        None => (name.to_owned(), None),
    }
}

/// A path up to and with its last `/`, and what stands behind.
pub open spec fn folder_and_name(path: Seq<char>) -> (Seq<char>, Seq<char>) {
    let k = text::last_at(path, '/');
    (path.take(k + 1), path.skip(k + 1))
}

/// A path without the slashes at its end, and without a `.` behind a slash there.
pub open spec fn without_end(path: Seq<char>) -> Seq<char>
    decreases path.len(),
{
    if path.len() > 0 && path.last() == '/' {
        without_end(path.drop_last())
    } else if path.len() > 1 && path.last() == '.' && path[path.len() - 2] == '/' {
        without_end(path.drop_last())
    } else {
        path
    }
}

fn strip_end(path: &str) -> (r: String)
    ensures
        r@ == without_end(path@),
{
    let chars = text::chars_of(path);
    let mut n: usize = chars.len();
    assert(path@.take(n as int) =~= path@);
    while n > 0 && (chars[n - 1] == '/' || (n > 1 && chars[n - 1] == '.' && chars[n - 2] == '/'))
        invariant
            n <= chars@.len(),
            chars@ == path@,
            without_end(path@.take(n as int)) == without_end(path@),
        decreases n,
    {
        assert(path@.take(n as int).drop_last() =~= path@.take(n - 1));
        n = n - 1;
    }
    assert(chars@.subrange(0, n as int) =~= path@.take(n as int));
    text::text_of_range(&chars, 0, n)
}

/// A path with another extension on its last part; a path that ends in no name stays as it is.
pub open spec fn extended(path: Seq<char>, extension: Seq<char>) -> Seq<char> {
    let (folder, name) = folder_and_name(without_end(path));
    if name.len() == 0 || name == "."@ || name == ".."@ {
        path
    } else {
        folder + name_parts(name).0 + "."@ + extension
    }
}

/// A path with another extension on its last part.
pub(crate) fn with_extension(path: &str, extension: &str) -> (r: String)
    ensures
        r@ == extended(path@, extension@),
{
    let bare = strip_end(path);
    let (folder, name) = match text::split_last(bare.as_str(), '/') {
        Some((folder, name)) => {
            proof {
                reveal_strlit("/");
                lemma_last_is_there(bare@, '/');
            }
            let k = Ghost(text::last_at(bare@, '/'));
            assert(folder@ + "/"@ =~= bare@.take(k@ + 1));
            (text::joined(folder.as_str(), "/"), name)
        },
        None => {
            proof {
                reveal_strlit("");
                lemma_last_is_there(bare@, '/');
            }
            assert(bare@.take(0) =~= ""@);
            assert(bare@.skip(0) =~= bare@);
            ("".to_owned(), bare.clone())
        },
    };
    if name.as_str().is_empty() || text::same_text(name.as_str(), ".") || text::same_text(
        name.as_str(),
        "..",
    ) {
        return path.to_owned();
    }
    let (stem, _) = split_name(name.as_str());
    let mut out = text::joined(folder.as_str(), stem.as_str());
    out.append(".");
    out.append(extension);
    out
}

proof fn lemma_last_is_there(s: Seq<char>, c: char)
    ensures
        -1 <= text::last_at(s, c) < s.len(),
        text::last_at(s, c) >= 0 ==> s[text::last_at(s, c)] == c,
    decreases s.len(),
{
    if s.len() > 0 && s.last() != c {
        lemma_last_is_there(s.drop_last(), c);
    }
}

/// A file's name falls apart at its last dot; a name that begins with its only dot, and one
/// without a dot, have no extension.
pub proof fn law_a_name_has_a_stem_and_an_extension(stem: Seq<char>, extension: Seq<char>)
    requires
        !extension.contains('.'),
    ensures
        stem.len() > 0 && stem.push('.') + extension != ".."@ ==> name_parts(
            stem.push('.') + extension,
        ) == (stem, Some(extension)),
        name_parts(extension) == (extension, None::<Seq<char>>),
        name_parts(seq!['.'] + extension) == (seq!['.'] + extension, None::<Seq<char>>),
{
    reveal_strlit("..");
    text::law_text_parts_at_the_last_mark(stem, extension, '.');
    let none = Seq::<char>::empty();
    text::law_text_parts_at_the_last_mark(none, extension, '.');
    assert(none.push('.') + extension =~= seq!['.'] + extension);
}

/// A path that is put under a folder lies in it, but for one that is absolute.
pub proof fn law_a_path_lies_under_its_folder(base: Seq<char>, name: Seq<char>)
    ensures
        name.len() > 0 && name[0] == '/' ==> under(base, name) == name,
        is_name(name) ==> base.is_prefix_of(under(base, name)) && name.is_suffix_of(
            under(base, name),
        ),
        is_name(name) && (base.len() == 0 || base.last() != '/') ==> parts_of(under(base, name))
            == parts_of(base).push(name),
{
    if is_name(name) {
        assert(name[0] != '/') by {
            assert(name.contains(name[0]));
        }
        if base.len() == 0 || base.last() != '/' {
            lemma_parts_under(base, name);
        }
        let whole = under(base, name);
        assert(whole.subrange(0, base.len() as int) =~= base);
        assert(whole.subrange(whole.len() - name.len(), whole.len() as int) =~= name);
    }
}

/// The extension of a path is exchanged for another, and all before it stays.
pub proof fn law_an_extension_is_exchanged(
    folder: Seq<char>,
    stem: Seq<char>,
    extension: Seq<char>,
    other: Seq<char>,
)
    requires
        folder.len() == 0 || folder.last() == '/',
        stem.len() > 0,
        !stem.contains('/'),
        !extension.contains('/'),
        !extension.contains('.'),
        extension.len() > 0,
    ensures
        extended(folder + stem.push('.') + extension, other) == folder + stem + "."@ + other,
{
    reveal_strlit(".");
    reveal_strlit("..");
    let name = stem.push('.') + extension;
    let path = folder + stem.push('.') + extension;
    assert(path =~= folder + name);
    assert(path.last() == extension.last());
    assert(extension.contains(extension.last()));
    assert(without_end(path) == path);
    assert(!name.contains('/')) by {
        if name.contains('/') {
            let i = choose|i: int| 0 <= i < name.len() && name[i] == '/';
            if i < stem.len() {
                assert(stem[i] == '/');
            } else {
                assert(extension[i - stem.len() - 1] == '/');
            }
        }
    }
    let k = folder.len() - 1;
    if folder.len() > 0 {
        assert forall|i: int| k < i < path.len() implies #[trigger] path[i] != '/' by {
            assert(path[i] == name[i - folder.len()]);
            assert(name.contains(name[i - folder.len()]));
        }
        text::lemma_last_at_is(path, '/', k);
    } else {
        text::lemma_last_at_holds(path, '/');
        let n = text::last_at(path, '/');
        if n >= 0 {
            assert(path[n] == name[n]);
            assert(name.contains(name[n]));
        }
    }
    assert(path.take(k + 1) =~= folder);
    assert(path.skip(k + 1) =~= name);
    assert(name != "."@ && name != ".."@) by {
        assert(name.last() == extension.last());
        assert(extension.last() != '.');
    }
    text::law_text_parts_at_the_last_mark(stem, extension, '.');
}

/// Paths are ordered part by part: the first part that differs decides, and a folder comes before
/// what lies in it.
pub proof fn law_paths_are_ordered_part_by_part(a: Seq<Seq<char>>, b: Seq<Seq<char>>, k: int)
    requires
        0 <= k <= a.len(),
        k < b.len(),
        a.take(k) == b.take(k),
        k < a.len() ==> is_name(a[k]) && is_name(b[k]),
    ensures
        k == a.len() ==> parts_less(a, b),
        k < a.len() && text::text_less(a[k], b[k]) ==> parts_less(a, b),
        k < a.len() && text::text_less(b[k], a[k]) ==> !parts_less(a, b),
    decreases k,
{
    if k > 0 {
        assert(a.take(k)[0] == a[0] && b.take(k)[0] == b[0]);
        assert(a.drop_first().take(k - 1) =~= a.take(k).drop_first());
        assert(b.drop_first().take(k - 1) =~= b.take(k).drop_first());
        law_paths_are_ordered_part_by_part(a.drop_first(), b.drop_first(), k - 1);
    } else if k < a.len() {
        reveal_strlit("/");
        assert("/"@[0] == '/');
        if a[0] == "/"@ {
            assert(a[0].contains('/'));
        }
        if b[0] == "/"@ {
            assert(b[0].contains('/'));
        }
        text::lemma_text_less_irreflexive(a[0]);
        if text::text_less(b[0], a[0]) {
            text::lemma_text_less_asymmetric(b[0], a[0]);
        }
    }
}

} // verus!
