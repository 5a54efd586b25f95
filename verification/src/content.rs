//! A fingerprint of a module's code, taken over the names and the contents of its files and over
//! nothing else.

use crate::framing;
use crate::paths;
use crate::text;
use sha2::Digest;
use vstd::prelude::*;
use vstd::string::*;

verus! {

/// A file with its contents, where they could be read.
#[derive(Debug)]
pub struct FileEntry {
    pub name: String,
    pub contents: Option<Vec<u8>>,
}

/// A folder with everything in it.
#[derive(Debug)]
pub struct FileTree {
    pub name: String,
    pub files: Vec<FileEntry>,
    pub folders: Vec<FileTree>,
}

/// A file that counts: its path in the module, and its contents where they could be read.
pub type Counted = (Seq<char>, Option<Seq<u8>>);

/// Whether a file or folder is passed over: hidden ones and Python's cache.
pub open spec fn is_ignored(name: Seq<char>) -> bool {
    (name.len() > 0 && name[0] == '.') || name == "__pycache__"@
}

/// The bytes of contents that could be read.
pub open spec fn bytes_of(contents: Option<Vec<u8>>) -> Option<Seq<u8>> {
    match contents {
        Some(v) => Some(v@),
        None => None,
    }
}

/// The path of an entry of the folder at `prefix`.
pub open spec fn path_in(prefix: Seq<char>, name: Seq<char>) -> Seq<char> {
    paths::under(prefix, name)
}

/// Of the first `k` files of a folder, those that count: not hidden and not compiled.
pub open spec fn files_counted(t: FileTree, prefix: Seq<char>, k: nat) -> Seq<Counted>
    decreases k,
{
    if k == 0 {
        Seq::empty()
    } else {
        let before = files_counted(t, prefix, (k - 1) as nat);
        let f = t.files@[k - 1];
        if is_ignored(f.name@) || ".pyc"@.is_suffix_of(f.name@) {
            before
        } else {
            before.push((path_in(prefix, f.name@), bytes_of(f.contents)))
        }
    }
}

/// The files in a folder and the folders in it that count.
pub open spec fn counted_in(t: FileTree, prefix: Seq<char>) -> Seq<Counted>
    decreases t, t.folders@.len() + 1,
{
    files_counted(t, prefix, t.files@.len()) + counted_below(t, prefix, t.folders@.len())
}

/// The files that count in the first `k` folders of a folder.
pub open spec fn counted_below(t: FileTree, prefix: Seq<char>, k: nat) -> Seq<Counted>
    decreases t, k,
{
    if k == 0 || k > t.folders@.len() {
        Seq::empty()
    } else {
        let before = counted_below(t, prefix, (k - 1) as nat);
        let c = t.folders@[k - 1];
        if is_ignored(c.name@) {
            before
        } else {
            before + counted_in(c, path_in(prefix, c.name@))
        }
    }
}

/// How many files at the front do not come behind `f`.
pub open spec fn file_place(sorted: Seq<Counted>, f: Counted) -> nat
    decreases sorted.len(),
{
    if sorted.len() == 0 || paths::path_less(f.0, sorted[0].0) {
        0
    } else {
        1 + file_place(sorted.drop_first(), f)
    }
}

/// By path.
pub open spec fn files_sorted(files: Seq<Counted>) -> Seq<Counted>
    decreases files.len(),
{
    if files.len() == 0 {
        Seq::empty()
    } else {
        let before = files_sorted(files.drop_last());
        before.insert(file_place(before, files.last()) as int, files.last())
    }
}

// --- what does not make a difference --------------------------------------

/// Whether a file of this name is passed over.
pub open spec fn file_is_ignored(name: Seq<char>) -> bool {
    is_ignored(name) || ".pyc"@.is_suffix_of(name)
}

proof fn lemma_files_counted(t: FileTree, with: FileTree, prefix: Seq<char>, i: int, k: nat)
    requires
        0 <= i <= t.files@.len(),
        with.files@.len() == t.files@.len() + 1,
        with.files@ == t.files@.insert(i, with.files@[i]),
        file_is_ignored(with.files@[i].name@),
        k <= t.files@.len(),
    ensures
        k <= i ==> files_counted(with, prefix, k) == files_counted(t, prefix, k),
        k >= i ==> files_counted(with, prefix, k + 1) == files_counted(t, prefix, k),
    decreases k,
{
    let longer = t.files@.insert(i, with.files@[i]);
    if k > 0 {
        lemma_files_counted(t, with, prefix, i, (k - 1) as nat);
        if k <= i {
            assert(longer[k - 1] == t.files@[k - 1]);
        }
        if k > i {
            assert(longer[k as int] == t.files@[k - 1]);
        }
    }
    if k == i {
        assert(files_counted(with, prefix, k + 1) == files_counted(with, prefix, k));
    }
}

proof fn lemma_counted_below_same_folders(t: FileTree, with: FileTree, prefix: Seq<char>, k: nat)
    requires
        with.folders@ == t.folders@,
    ensures
        counted_below(with, prefix, k) == counted_below(t, prefix, k),
    decreases k,
{
    if 0 < k <= t.folders@.len() {
        lemma_counted_below_same_folders(t, with, prefix, (k - 1) as nat);
    }
}

/// A compiled or a hidden file makes no difference, wherever in a folder it is found.
pub proof fn law_ignored_files_do_not_count(
    t: FileTree,
    with: FileTree,
    prefix: Seq<char>,
    i: int,
)
    requires
        0 <= i <= t.files@.len(),
        with.files@.len() == t.files@.len() + 1,
        with.files@ == t.files@.insert(i, with.files@[i]),
        file_is_ignored(with.files@[i].name@),
        with.folders@ == t.folders@,
    ensures
        counted_in(with, prefix) == counted_in(t, prefix),
{
    lemma_files_counted(t, with, prefix, i, t.files@.len());
    lemma_counted_below_same_folders(t, with, prefix, t.folders@.len());
}

proof fn lemma_files_counted_same_files(t: FileTree, with: FileTree, prefix: Seq<char>, k: nat)
    requires
        with.files@ == t.files@,
    ensures
        files_counted(with, prefix, k) == files_counted(t, prefix, k),
    decreases k,
{
    if k > 0 {
        lemma_files_counted_same_files(t, with, prefix, (k - 1) as nat);
    }
}

proof fn lemma_counted_below(t: FileTree, with: FileTree, prefix: Seq<char>, i: int, k: nat)
    requires
        0 <= i <= t.folders@.len(),
        with.folders@.len() == t.folders@.len() + 1,
        with.folders@ == t.folders@.insert(i, with.folders@[i]),
        is_ignored(with.folders@[i].name@),
        k <= t.folders@.len(),
    ensures
        k <= i ==> counted_below(with, prefix, k) == counted_below(t, prefix, k),
        k >= i ==> counted_below(with, prefix, k + 1) == counted_below(t, prefix, k),
    decreases k,
{
    let longer = t.folders@.insert(i, with.folders@[i]);
    if k > 0 {
        lemma_counted_below(t, with, prefix, i, (k - 1) as nat);
        if k <= i {
            assert(longer[k - 1] == t.folders@[k - 1]);
        }
        if k > i {
            assert(longer[k as int] == t.folders@[k - 1]);
        }
    }
    if k == i {
        assert(counted_below(with, prefix, k + 1) == counted_below(with, prefix, k));
    }
}

/// A hidden folder and Python's cache make no difference, whatever is in them.
pub proof fn law_ignored_folders_do_not_count(
    t: FileTree,
    with: FileTree,
    prefix: Seq<char>,
    i: int,
)
    requires
        0 <= i <= t.folders@.len(),
        with.folders@.len() == t.folders@.len() + 1,
        with.folders@ == t.folders@.insert(i, with.folders@[i]),
        is_ignored(with.folders@[i].name@),
        with.files@ == t.files@,
    ensures
        counted_in(with, prefix) == counted_in(t, prefix),
{
    lemma_files_counted_same_files(t, with, prefix, t.files@.len());
    lemma_counted_below(t, with, prefix, i, t.folders@.len());
}

/// Whether of any two files one comes before the other.
pub open spec fn paths_differ(files: Seq<Counted>) -> bool {
    forall|i: int, j: int|
        0 <= i < files.len() && 0 <= j < files.len() && i != j ==> paths::path_less(
            (#[trigger] files[i]).0,
            (#[trigger] files[j]).0,
        ) || paths::path_less(files[j].0, files[i].0)
}

/// Whether each file comes before all behind it.
pub open spec fn rising(files: Seq<Counted>) -> bool {
    forall|i: int, j: int|
        0 <= i < j < files.len() ==> paths::path_less(
            (#[trigger] files[i]).0,
            (#[trigger] files[j]).0,
        )
}

proof fn lemma_file_place(sorted: Seq<Counted>, f: Counted)
    requires
        rising(sorted),
        forall|i: int|
            0 <= i < sorted.len() ==> paths::path_less((#[trigger] sorted[i]).0, f.0)
                || paths::path_less(f.0, sorted[i].0),
    ensures
        0 <= file_place(sorted, f) <= sorted.len(),
        forall|i: int|
            0 <= i < file_place(sorted, f) ==> paths::path_less((#[trigger] sorted[i]).0, f.0),
        forall|i: int|
            file_place(sorted, f) <= i < sorted.len() ==> paths::path_less(
                f.0,
                (#[trigger] sorted[i]).0,
            ),
    decreases sorted.len(),
{
    if sorted.len() > 0 {
        let rest = sorted.drop_first();
        assert forall|i: int, j: int| 0 <= i < j < rest.len() implies paths::path_less(
            (#[trigger] rest[i]).0,
            (#[trigger] rest[j]).0,
        ) by {
            assert(rest[i] == sorted[i + 1] && rest[j] == sorted[j + 1]);
        }
        assert forall|i: int| 0 <= i < rest.len() implies paths::path_less(
            (#[trigger] rest[i]).0,
            f.0,
        ) || paths::path_less(f.0, rest[i].0) by {
            assert(rest[i] == sorted[i + 1]);
        }
        lemma_file_place(rest, f);
        if paths::path_less(f.0, sorted[0].0) {
            assert forall|i: int| 0 <= i < sorted.len() implies paths::path_less(
                f.0,
                (#[trigger] sorted[i]).0,
            ) by {
                if i > 0 {
                    paths::lemma_path_order(f.0, sorted[0].0, sorted[i].0);
                }
            }
        } else {
            assert forall|i: int| 0 <= i < file_place(sorted, f) implies paths::path_less(
                (#[trigger] sorted[i]).0,
                f.0,
            ) by {
                if i > 0 {
                    assert(rest[i - 1] == sorted[i]);
                }
            }
            assert forall|i: int|
                file_place(sorted, f) <= i < sorted.len() implies paths::path_less(
                f.0,
                (#[trigger] sorted[i]).0,
            ) by {
                assert(rest[i - 1] == sorted[i]);
            }
        }
    }
}

proof fn lemma_file_place_is_inside(sorted: Seq<Counted>, f: Counted)
    ensures
        file_place(sorted, f) <= sorted.len(),
    decreases sorted.len(),
{
    if sorted.len() > 0 {
        lemma_file_place_is_inside(sorted.drop_first(), f);
    }
}

/// Sorting loses nothing and adds nothing.
proof fn lemma_sorting_keeps_files(files: Seq<Counted>)
    ensures
        files_sorted(files).to_multiset() == files.to_multiset(),
    decreases files.len(),
{
    broadcast use vstd::seq_lib::group_to_multiset_ensures;

    if files.len() > 0 {
        let rest = files.drop_last();
        let f = files.last();
        lemma_sorting_keeps_files(rest);
        let before = files_sorted(rest);
        lemma_file_place_is_inside(before, f);
        vstd::seq_lib::to_multiset_insert(before, file_place(before, f) as int, f);
        assert(files =~= rest.push(f));
    } else {
        assert(files_sorted(files) =~= files);
    }
}

/// What is sorted rises, and holds what was there before.
proof fn lemma_files_sorted(files: Seq<Counted>)
    requires
        paths_differ(files),
    ensures
        rising(files_sorted(files)),
        files_sorted(files).to_multiset() == files.to_multiset(),
        files_sorted(files).len() == files.len(),
    decreases files.len(),
{
    broadcast use vstd::seq_lib::group_to_multiset_ensures;

    if files.len() > 0 {
        let rest = files.drop_last();
        let f = files.last();
        assert forall|i: int, j: int|
            0 <= i < rest.len() && 0 <= j < rest.len() && i != j implies paths::path_less(
            (#[trigger] rest[i]).0,
            (#[trigger] rest[j]).0,
        ) || paths::path_less(rest[j].0, rest[i].0) by {
            assert(rest[i] == files[i] && rest[j] == files[j]);
        }
        lemma_files_sorted(rest);
        let before = files_sorted(rest);
        assert forall|i: int| 0 <= i < before.len() implies paths::path_less(
            (#[trigger] before[i]).0,
            f.0,
        ) || paths::path_less(f.0, before[i].0) by {
            assert(before.to_multiset().contains(before[i]));
            assert(rest.to_multiset().contains(before[i]));
            assert(rest.contains(before[i]));
            let k = choose|k: int| 0 <= k < rest.len() && rest[k] == before[i];
            assert(files[k] == before[i]);
            assert(files[files.len() - 1] == f);
        }
        lemma_file_place(before, f);
        let k = file_place(before, f) as int;
        let out = before.insert(k, f);
        assert forall|i: int, j: int| 0 <= i < j < out.len() implies paths::path_less(
            (#[trigger] out[i]).0,
            (#[trigger] out[j]).0,
        ) by {
            let x = if i < k {
                before[i]
            } else if i == k {
                f
            } else {
                before[i - 1]
            };
            let y = if j < k {
                before[j]
            } else if j == k {
                f
            } else {
                before[j - 1]
            };
            assert(out[i] == x && out[j] == y);
        }
        vstd::seq_lib::to_multiset_insert(before, k, f);
        assert(files =~= rest.push(f));
    } else {
        assert(files_sorted(files) =~= files);
    }
}

proof fn lemma_rising_is_unique(a: Seq<Counted>, b: Seq<Counted>)
    requires
        rising(a),
        rising(b),
        a.to_multiset() == b.to_multiset(),
    ensures
        a == b,
    decreases a.len(),
{
    broadcast use vstd::seq_lib::group_to_multiset_ensures;

    assert(a.to_multiset().len() == a.len() && b.to_multiset().len() == b.len());
    if a.len() > 0 {
        assert(a.to_multiset().contains(a[0]));
        assert(b.contains(a[0]));
        assert(b.to_multiset().contains(b[0]));
        assert(a.contains(b[0]));
        let k = choose|k: int| 0 <= k < b.len() && b[k] == a[0];
        let m = choose|m: int| 0 <= m < a.len() && a[m] == b[0];
        paths::lemma_path_order(a[0].0, b[0].0, a[0].0);
        if k > 0 {
            assert(paths::path_less(b[0].0, b[k].0));
            if m > 0 {
                assert(paths::path_less(a[0].0, a[m].0));
            }
        }
        assert(a[0] == b[0]);
        let x = a.drop_first();
        let y = b.drop_first();
        assert forall|i: int, j: int| 0 <= i < j < x.len() implies paths::path_less(
            (#[trigger] x[i]).0,
            (#[trigger] x[j]).0,
        ) by {
            assert(x[i] == a[i + 1] && x[j] == a[j + 1]);
        }
        assert forall|i: int, j: int| 0 <= i < j < y.len() implies paths::path_less(
            (#[trigger] y[i]).0,
            (#[trigger] y[j]).0,
        ) by {
            assert(y[i] == b[i + 1] && y[j] == b[j + 1]);
        }
        assert(x =~= a.remove(0));
        assert(y =~= b.remove(0));
        vstd::seq_lib::to_multiset_remove(a, 0);
        vstd::seq_lib::to_multiset_remove(b, 0);
        lemma_rising_is_unique(x, y);
        assert(a =~= seq![a[0]] + x);
        assert(b =~= seq![b[0]] + y);
    } else {
        assert(a =~= b);
    }
}

/// The order in which the files of a module are found makes no difference.
pub proof fn law_the_order_of_files_does_not_count(a: Seq<Counted>, b: Seq<Counted>)
    requires
        paths_differ(a),
        paths_differ(b),
        a.to_multiset() == b.to_multiset(),
    ensures
        files_sorted(a) == files_sorted(b),
{
    lemma_files_sorted(a);
    lemma_files_sorted(b);
    lemma_rising_is_unique(files_sorted(a), files_sorted(b));
}

/// What is hashed of a file: its path, and its contents where they could be read.
pub open spec fn file_bytes(f: Counted) -> Seq<u8> {
    framing::framed(vstd::utf8::encode_utf8(f.0)) + framing::framed_if_any(f.1)
}

/// What is hashed: the files one behind the other.
pub open spec fn hashed_bytes(files: Seq<Counted>) -> Seq<u8>
    decreases files.len(),
{
    if files.len() == 0 {
        Seq::empty()
    } else {
        file_bytes(files[0]) + hashed_bytes(files.drop_first())
    }
}

proof fn lemma_bytes_tell_files(a: Seq<Counted>, b: Seq<Counted>)
    requires
        hashed_bytes(a) == hashed_bytes(b),
    ensures
        a == b,
    decreases a.len(),
{
    if a.len() == 0 || b.len() == 0 {
        if a.len() > 0 {
            assert(file_bytes(a[0]).len() > 0);
        }
        if b.len() > 0 {
            assert(file_bytes(b[0]).len() > 0);
        }
        assert(a =~= b);
    } else {
        let p = a[0];
        let q = b[0];
        let x = hashed_bytes(a.drop_first());
        let y = hashed_bytes(b.drop_first());
        let path_p = vstd::utf8::encode_utf8(p.0);
        let path_q = vstd::utf8::encode_utf8(q.0);
        assert(hashed_bytes(a) =~= framing::framed(path_p) + (framing::framed_if_any(p.1) + x));
        assert(hashed_bytes(b) =~= framing::framed(path_q) + (framing::framed_if_any(q.1) + y));
        framing::law_parts_are_told_apart(
            path_p,
            framing::framed_if_any(p.1) + x,
            path_q,
            framing::framed_if_any(q.1) + y,
        );
        framing::law_missing_parts_are_told_apart(p.1, x, q.1, y);
        framing::lemma_texts_are_told_apart(p.0, q.0);
        lemma_bytes_tell_files(a.drop_first(), b.drop_first());
        assert(a =~= seq![p] + a.drop_first());
        assert(b =~= seq![q] + b.drop_first());
    }
}

/// Different files are hashed as different bytes: where the bytes are the same, so are the files,
/// their paths and their contents.
pub proof fn law_different_files_are_hashed_differently(a: Seq<Counted>, b: Seq<Counted>)
    requires
        hashed_bytes(files_sorted(a)) == hashed_bytes(files_sorted(b)),
    ensures
        files_sorted(a) == files_sorted(b),
        a.to_multiset() == b.to_multiset(),
{
    lemma_bytes_tell_files(files_sorted(a), files_sorted(b));
    lemma_sorting_keeps_files(a);
    lemma_sorting_keeps_files(b);
}

/// Whether a folder is as folders on a disk are: what is in it has names, and no two files and no
/// two folders in it have the same name.
pub open spec fn well_named(t: FileTree) -> bool
    decreases t,
{
    &&& forall|i: int| 0 <= i < t.files@.len() ==> paths::is_name((#[trigger] t.files@[i]).name@)
    &&& forall|i: int, j: int|
        0 <= i < j < t.files@.len() ==> (#[trigger] t.files@[i]).name@ != (
        #[trigger] t.files@[j]).name@
    &&& forall|i: int|
        0 <= i < t.folders@.len() ==> paths::is_name((#[trigger] t.folders@[i]).name@)
    &&& forall|i: int, j: int|
        0 <= i < j < t.folders@.len() ==> (#[trigger] t.folders@[i]).name@ != (
        #[trigger] t.folders@[j]).name@
    &&& forall|i: int| 0 <= i < t.folders@.len() ==> well_named(#[trigger] t.folders@[i])
}

/// The parts of the path of a file.
spec fn parts(f: Counted) -> Seq<Seq<char>> {
    paths::parts_of(f.0)
}

/// Whether no two files have the same parts.
spec fn parts_differ(files: Seq<Counted>) -> bool {
    forall|i: int, j: int|
        0 <= i < j < files.len() ==> parts(#[trigger] files[i]) != parts(#[trigger] files[j])
}

/// Whether a file is in the folder at `p`, under the name of one of its first `k` files.
spec fn is_own(f: Counted, t: FileTree, p: Seq<Seq<char>>, k: nat) -> bool {
    exists|m: int| 0 <= m < k && parts(f) == p.push((#[trigger] t.files@[m]).name@)
}

/// Whether a file is in one of the first `k` folders of the folder at `p`.
spec fn is_deeper(f: Counted, t: FileTree, p: Seq<Seq<char>>, k: nat) -> bool {
    &&& parts(f).len() > p.len() + 1
    &&& parts(f).take(p.len() as int) == p
    &&& exists|m: int| 0 <= m < k && parts(f)[p.len() as int] == (#[trigger] t.folders@[m]).name@
}

proof fn lemma_own_files(t: FileTree, prefix: Seq<char>, k: nat)
    requires
        well_named(t),
        prefix.len() == 0 || prefix.last() != '/',
        k <= t.files@.len(),
    ensures
        parts_differ(files_counted(t, prefix, k)),
        forall|i: int|
            0 <= i < files_counted(t, prefix, k).len() ==> is_own(
                #[trigger] files_counted(t, prefix, k)[i],
                t,
                paths::parts_of(prefix),
                k,
            ),
    decreases k,
{
    if k > 0 {
        let p = paths::parts_of(prefix);
        let before = files_counted(t, prefix, (k - 1) as nat);
        let all = files_counted(t, prefix, k);
        lemma_own_files(t, prefix, (k - 1) as nat);
        let name = t.files@[k - 1].name@;
        paths::lemma_parts_under(prefix, name);
        assert forall|i: int| 0 <= i < all.len() implies is_own(#[trigger] all[i], t, p, k) by {
            if i < before.len() {
                assert(is_own(before[i], t, p, (k - 1) as nat));
                let m = choose|m: int|
                    0 <= m < k - 1 && parts(before[i]) == p.push((#[trigger] t.files@[m]).name@);
                assert(parts(all[i]) == p.push(t.files@[m].name@));
            } else {
                assert(parts(all[i]) == p.push(t.files@[k - 1].name@));
            }
        }
        assert forall|i: int, j: int| 0 <= i < j < all.len() implies parts(#[trigger] all[i])
            != parts(#[trigger] all[j]) by {
            assert(all[i] == before[i]);
            if j < before.len() {
                assert(all[j] == before[j]);
            } else {
                assert(is_own(before[i], t, p, (k - 1) as nat));
                let m = choose|m: int|
                    0 <= m < k - 1 && parts(before[i]) == p.push((#[trigger] t.files@[m]).name@);
                assert(t.files@[m].name@ != name);
                assert(p.push(t.files@[m].name@).last() != p.push(name).last());
            }
        }
    }
}

proof fn lemma_deeper_files(t: FileTree, prefix: Seq<char>, k: nat)
    requires
        well_named(t),
        prefix.len() == 0 || prefix.last() != '/',
        k <= t.folders@.len(),
    ensures
        parts_differ(counted_below(t, prefix, k)),
        forall|i: int|
            0 <= i < counted_below(t, prefix, k).len() ==> is_deeper(
                #[trigger] counted_below(t, prefix, k)[i],
                t,
                paths::parts_of(prefix),
                k,
            ),
    decreases t, k,
{
    if k > 0 {
        let p = paths::parts_of(prefix);
        let n = p.len() as int;
        let before = counted_below(t, prefix, (k - 1) as nat);
        let all = counted_below(t, prefix, k);
        let c = t.folders@[k - 1];
        let at = path_in(prefix, c.name@);
        let inner = counted_in(c, at);
        lemma_deeper_files(t, prefix, (k - 1) as nat);
        assert(well_named(c));
        paths::lemma_parts_under(prefix, c.name@);
        lemma_all_files(c, at);
        let q = p.push(c.name@);
        assert(q.take(n) =~= p);
        assert forall|i: int| 0 <= i < before.len() implies is_deeper(
            #[trigger] before[i],
            t,
            p,
            k,
        ) && parts(before[i])[n] != c.name@ by {
            assert(is_deeper(before[i], t, p, (k - 1) as nat));
            let m = choose|m: int|
                0 <= m < k - 1 && parts(before[i])[n] == (#[trigger] t.folders@[m]).name@;
            assert(t.folders@[m].name@ != c.name@);
        }
        assert forall|i: int| 0 <= i < inner.len() implies is_deeper(
            #[trigger] inner[i],
            t,
            p,
            k,
        ) && parts(inner[i])[n] == c.name@ by {
            let x = parts(inner[i]);
            assert(x.len() > q.len() && x.take(q.len() as int) == q);
            assert(x.take(n) =~= x.take(q.len() as int).take(n));
            assert(x[n] == x.take(q.len() as int)[n]);
            assert(x[n] == t.folders@[k - 1].name@);
        }
        if !is_ignored(c.name@) {
            assert forall|i: int| 0 <= i < all.len() implies is_deeper(
                #[trigger] all[i],
                t,
                p,
                k,
            ) by {
                if i < before.len() {
                    assert(all[i] == before[i]);
                } else {
                    assert(all[i] == inner[i - before.len()]);
                }
            }
            assert forall|i: int, j: int| 0 <= i < j < all.len() implies parts(#[trigger] all[i])
                != parts(#[trigger] all[j]) by {
                if j < before.len() {
                    assert(all[i] == before[i] && all[j] == before[j]);
                } else if i < before.len() {
                    assert(all[i] == before[i] && all[j] == inner[j - before.len()]);
                } else {
                    assert(all[i] == inner[i - before.len()] && all[j] == inner[j
                        - before.len()]);
                }
            }
        }
    }
}

proof fn lemma_all_files(t: FileTree, prefix: Seq<char>)
    requires
        well_named(t),
        prefix.len() == 0 || prefix.last() != '/',
    ensures
        parts_differ(counted_in(t, prefix)),
        forall|i: int|
            0 <= i < counted_in(t, prefix).len() ==> {
                let x = parts(#[trigger] counted_in(t, prefix)[i]);
                let p = paths::parts_of(prefix);
                x.len() > p.len() && x.take(p.len() as int) == p
            },
    decreases t, t.folders@.len() + 1,
{
    let p = paths::parts_of(prefix);
    let n = p.len() as int;
    let own = files_counted(t, prefix, t.files@.len());
    let deeper = counted_below(t, prefix, t.folders@.len());
    let all = counted_in(t, prefix);
    lemma_own_files(t, prefix, t.files@.len());
    lemma_deeper_files(t, prefix, t.folders@.len());
    assert forall|i: int| 0 <= i < own.len() implies parts(#[trigger] own[i]).len() == n + 1
        && parts(own[i]).take(n) == p by {
        assert(is_own(own[i], t, p, t.files@.len()));
        let m = choose|m: int|
            0 <= m < t.files@.len() && parts(own[i]) == p.push((#[trigger] t.files@[m]).name@);
        assert(p.push(t.files@[m].name@).take(n) =~= p);
    }
    assert forall|i: int| 0 <= i < all.len() implies {
        let x = parts(#[trigger] all[i]);
        x.len() > p.len() && x.take(n) == p
    } by {
        if i < own.len() {
            assert(all[i] == own[i]);
        } else {
            assert(all[i] == deeper[i - own.len()]);
            assert(is_deeper(deeper[i - own.len()], t, p, t.folders@.len()));
        }
    }
    assert forall|i: int, j: int| 0 <= i < j < all.len() implies parts(#[trigger] all[i])
        != parts(#[trigger] all[j]) by {
        if j < own.len() {
            assert(all[i] == own[i] && all[j] == own[j]);
        } else if i < own.len() {
            assert(all[i] == own[i] && all[j] == deeper[j - own.len()]);
            assert(is_deeper(deeper[j - own.len()], t, p, t.folders@.len()));
        } else {
            assert(all[i] == deeper[i - own.len()] && all[j] == deeper[j - own.len()]);
        }
    }
}

/// No two files in a folder on a disk have the same path.
pub proof fn law_files_have_paths_of_their_own(t: FileTree)
    requires
        well_named(t),
    ensures
        paths_differ(counted_in(t, Seq::empty())),
        counted_in(t, Seq::empty()).no_duplicates(),
{
    let files = counted_in(t, Seq::empty());
    lemma_all_files(t, Seq::empty());
    assert forall|i: int, j: int|
        0 <= i < files.len() && 0 <= j < files.len() && i != j implies paths::path_less(
        (#[trigger] files[i]).0,
        (#[trigger] files[j]).0,
    ) || paths::path_less(files[j].0, files[i].0) by {
        if i < j {
            assert(parts(files[i]) != parts(files[j]));
        } else {
            assert(parts(files[j]) != parts(files[i]));
        }
        paths::lemma_path_total(files[i].0, files[j].0);
    }
    assert forall|i: int, j: int|
        0 <= i < files.len() && 0 <= j < files.len() && i != j implies files[i] != files[j] by {
        if i < j {
            assert(parts(files[i]) != parts(files[j]));
        } else {
            assert(parts(files[j]) != parts(files[i]));
        }
    }
}

/// Two modules are hashed as the same bytes exactly where the same files count in them: each with
/// its path and its contents. A changed byte, another name, one file more or less all show; what is
/// passed over does not.
pub proof fn law_a_fingerprint_tells_modules_apart(a: FileTree, b: FileTree)
    requires
        well_named(a),
        well_named(b),
    ensures
        hashed_bytes(files_sorted(counted_in(a, Seq::empty()))) == hashed_bytes(
            files_sorted(counted_in(b, Seq::empty())),
        ) <==> counted_in(a, Seq::empty()).to_set() == counted_in(b, Seq::empty()).to_set(),
{
    broadcast use vstd::seq_lib::group_to_multiset_ensures;

    let x = counted_in(a, Seq::empty());
    let y = counted_in(b, Seq::empty());
    law_files_have_paths_of_their_own(a);
    law_files_have_paths_of_their_own(b);
    if hashed_bytes(files_sorted(x)) == hashed_bytes(files_sorted(y)) {
        law_different_files_are_hashed_differently(x, y);
        assert forall|f: Counted| #[trigger] x.to_set().contains(f) <==> y.to_set().contains(
            f,
        ) by {
            assert(x.contains(f) <==> x.to_multiset().count(f) > 0);
            assert(y.contains(f) <==> y.to_multiset().count(f) > 0);
        }
        assert(x.to_set() =~= y.to_set());
    }
    if x.to_set() == y.to_set() {
        x.lemma_multiset_has_no_duplicates();
        y.lemma_multiset_has_no_duplicates();
        assert forall|f: Counted| #[trigger] x.to_multiset().count(f) == y.to_multiset().count(
            f,
        ) by {
            assert(x.to_set().contains(f) <==> y.to_set().contains(f));
            assert(x.contains(f) <==> x.to_multiset().count(f) > 0);
            assert(y.contains(f) <==> y.to_multiset().count(f) > 0);
        }
        assert(x.to_multiset() =~= y.to_multiset());
        law_the_order_of_files_does_not_count(x, y);
    }
}

/// The SHA-256 digest of some bytes, in lower-case hexadecimal.
pub uninterp spec fn sha256_hex_of(bytes: Seq<u8>) -> Seq<char>;

/// `sha2::Sha256`: the digest of the bytes, written with `{:x}`; it depends on the bytes alone, and
/// its 32 bytes are written with two digits each.
#[verifier::external_body]
pub(crate) fn sha256_hex(bytes: &Vec<u8>) -> (r: String)
    ensures
        r@ == sha256_hex_of(bytes@),
        r@.len() == 64,
{
    format!("{:x}", sha2::Sha256::digest(bytes))
}

fn ignored(name: &str) -> (r: bool)
    ensures
        r == is_ignored(name@),
{
    let hidden = text::starts_with(name, ".");
    proof {
        reveal_strlit(".");
        if name@.len() > 0 {
            assert(name@.subrange(0, 1)[0] == name@[0]);
            if name@[0] == '.' {
                assert("."@ =~= name@.subrange(0, 1));
            }
        }
    }
    hidden || text::same_text(name, "__pycache__")
}

/// What the collected files are.
pub open spec fn counted(v: Seq<(String, &Option<Vec<u8>>)>) -> Seq<Counted> {
    v.map_values(|f: (String, &Option<Vec<u8>>)| (f.0@, bytes_of(*f.1)))
}

/// Adds the files that count, in and under a folder, to `into`.
fn collect_hashable_files<'a>(
    dir: &'a FileTree,
    prefix: &str,
    into: &mut Vec<(String, &'a Option<Vec<u8>>)>,
)
    ensures
        counted(final(into)@) == counted(old(into)@) + counted_in(*dir, prefix@),
    decreases dir,
{
    let ghost start = counted(into@);
    let mut i: usize = 0;
    assert(start + files_counted(*dir, prefix@, 0) =~= start);
    while i < dir.files.len()
        invariant
            i <= dir.files@.len(),
            counted(into@) == start + files_counted(*dir, prefix@, i as nat),
        decreases dir.files@.len() - i,
    {
        let ghost before = counted(into@);
        let f = &dir.files[i];
        if !ignored(f.name.as_str()) && !text::ends_with(f.name.as_str(), ".pyc") {
            let path = paths::join(prefix, f.name.as_str());
            into.push((path, &f.contents));
            assert(counted(into@) =~= before.push((path@, bytes_of(f.contents))));
            assert(counted(into@) =~= start + files_counted(*dir, prefix@, (i + 1) as nat));
        }
        i = i + 1;
    }
    let ghost own = files_counted(*dir, prefix@, dir.files@.len());
    let mut k: usize = 0;
    assert(start + own + counted_below(*dir, prefix@, 0) =~= start + own);
    while k < dir.folders.len()
        invariant
            k <= dir.folders@.len(),
            own == files_counted(*dir, prefix@, dir.files@.len()),
            counted(into@) == start + own + counted_below(*dir, prefix@, k as nat),
        decreases dir.folders@.len() - k,
    {
        let ghost before = counted(into@);
        let child = &dir.folders[k];
        if !ignored(child.name.as_str()) {
            let path = paths::join(prefix, child.name.as_str());
            assert(decreases_to!(dir => dir.folders@[k as int]));
            collect_hashable_files(child, path.as_str(), into);
            assert(counted(into@) =~= start + own + counted_below(*dir, prefix@, (k + 1) as nat));
        }
        k = k + 1;
    }
    assert(counted(into@) =~= start + counted_in(*dir, prefix@));
}

/// The fingerprint of a module's folder; none where nothing in it counts.
pub fn content_hash(module: &FileTree) -> (r: Option<String>)
    ensures
        ({
            let files = counted_in(*module, Seq::empty());
            match r {
                Some(hash) => files.len() > 0 && hash@ == sha256_hex_of(
                    hashed_bytes(files_sorted(files)),
                ),
                None => files.len() == 0,
            }
        }),
{
    let mut found: Vec<(String, &Option<Vec<u8>>)> = Vec::new();
    collect_hashable_files(module, "", &mut found);
    let ghost files = counted(found@);
    proof {
        reveal_strlit("");
        assert(""@ =~= Seq::<char>::empty());
        assert(files =~= counted_in(*module, Seq::empty()));
        assert(files.len() == found@.len());
    }
    if found.len() == 0 {
        return None;
    }
    let message = message_of(found);
    Some(sha256_hex(&message))
}

/// What is hashed of some files.
fn message_of(files: Vec<(String, &Option<Vec<u8>>)>) -> (r: Vec<u8>)
    ensures
        r@ == hashed_bytes(files_sorted(counted(files@))),
{
    let ghost all = counted(files@);
    let mut rest = files;
    let count: usize = rest.len();
    let mut sorted: Vec<(String, &Option<Vec<u8>>)> = Vec::new();
    let mut i: usize = 0;
    assert(all.skip(0) =~= all);
    assert(counted(sorted@) =~= files_sorted(all.take(0)));
    while i < count
        invariant
            i <= count == all.len(),
            counted(rest@) == all.skip(i as int),
            counted(sorted@) == files_sorted(all.take(i as int)),
        decreases count - i,
    {
        let ghost before = counted(rest@);
        assert(before.len() == rest@.len());
        assert(before[0] == (rest@[0].0@, bytes_of(*rest@[0].1)));
        let one = rest.remove(0);
        let ghost item = (one.0@, bytes_of(*one.1));
        assert(counted(rest@) =~= before.drop_first());
        assert(counted(rest@) =~= all.skip(i + 1));
        let ghost done = counted(sorted@);
        let mut k: usize = 0;
        assert(done.skip(0) =~= done);
        while k < sorted.len() && !paths::path_before(one.0.as_str(), sorted[k].0.as_str())
            invariant
                k <= sorted@.len(),
                done == counted(sorted@),
                item.0 == one.0@,
                file_place(done, item) == k + file_place(done.skip(k as int), item),
            decreases sorted@.len() - k,
        {
            assert(done.skip(k as int)[0] == (sorted@[k as int].0@, bytes_of(*sorted@[k as int].1)));
            assert(done.skip(k as int).drop_first() =~= done.skip(k + 1));
            k = k + 1;
        }
        proof {
            if k < sorted@.len() {
                assert(done.skip(k as int)[0] == (
                    sorted@[k as int].0@,
                    bytes_of(*sorted@[k as int].1),
                ));
            }
            assert(file_place(done, item) == k);
            assert(all.take(i + 1).drop_last() =~= all.take(i as int));
            assert(all.take(i + 1).last() == item);
        }
        sorted.insert(k, one);
        assert(counted(sorted@) =~= done.insert(k as int, item));
        i = i + 1;
    }
    assert(all.take(i as int) =~= all);
    let ghost ordered = counted(sorted@);
    let mut out: Vec<u8> = Vec::new();
    let mut j: usize = 0;
    assert(ordered.skip(0) =~= ordered);
    assert(out@ + hashed_bytes(ordered) =~= hashed_bytes(ordered));
    while j < sorted.len()
        invariant
            j <= sorted@.len(),
            ordered == counted(sorted@),
            out@ + hashed_bytes(ordered.skip(j as int)) == hashed_bytes(ordered),
        decreases sorted@.len() - j,
    {
        let ghost before = out@;
        let ghost f = (sorted@[j as int].0@, bytes_of(*sorted@[j as int].1));
        proof {
            assert(ordered.skip(j as int)[0] == f);
            assert(ordered.skip(j as int).drop_first() =~= ordered.skip(j + 1));
        }
        framing::add_framed(&mut out, sorted[j].0.as_str().as_bytes());
        match sorted[j].1 {
            Some(bytes) => framing::add_present(&mut out, bytes.as_slice()),
            None => framing::add_missing(&mut out),
        }
        assert(out@ =~= before + file_bytes(f));
        assert(out@ + hashed_bytes(ordered.skip(j + 1)) =~= before + hashed_bytes(
            ordered.skip(j as int),
        ));
        j = j + 1;
    }
    assert(ordered.skip(j as int) =~= Seq::<Counted>::empty());
    assert(out@ =~= hashed_bytes(ordered));
    out
}

/// Whether a file with these contents lies at the end of a way through folders, none of which is
/// passed over.
pub open spec fn counts_at(
    t: FileTree,
    names: Seq<Seq<char>>,
    contents: Option<Seq<u8>>,
) -> bool
    decreases names.len(),
{
    if names.len() == 0 {
        false
    } else if names.len() == 1 {
        exists|i: int|
            {
                &&& 0 <= i < t.files@.len()
                &&& (#[trigger] t.files@[i]).name@ == names[0]
                &&& bytes_of(t.files@[i].contents) == contents
                &&& !("."@.is_prefix_of(names[0])) && names[0] != "__pycache__"@
                &&& !(".pyc"@.is_suffix_of(names[0]))
            }
    } else {
        exists|i: int|
            {
                &&& 0 <= i < t.folders@.len()
                &&& (#[trigger] t.folders@[i]).name@ == names[0]
                &&& !("."@.is_prefix_of(names[0])) && names[0] != "__pycache__"@
                &&& counts_at(t.folders@[i], names.drop_first(), contents)
            }
    }
}

/// The path at the end of a way.
pub open spec fn way(prefix: Seq<char>, names: Seq<Seq<char>>) -> Seq<char>
    decreases names.len(),
{
    if names.len() == 0 {
        prefix
    } else {
        way(paths::under(prefix, names[0]), names.drop_first())
    }
}

proof fn lemma_one_step(prefix: Seq<char>, names: Seq<Seq<char>>)
    requires
        names.len() == 1,
    ensures
        way(prefix, names) == paths::under(prefix, names[0]),
{
    let none = names.drop_first();
    assert(none =~= Seq::<Seq<char>>::empty());
    assert(way(paths::under(prefix, names[0]), none) == paths::under(prefix, names[0]));
}

proof fn lemma_hidden(name: Seq<char>)
    ensures
        "."@.is_prefix_of(name) <==> name.len() > 0 && name[0] == '.',
{
    reveal_strlit(".");
    if name.len() > 0 && name[0] == '.' {
        assert(name.subrange(0, 1) =~= "."@);
    }
    if "."@.is_prefix_of(name) {
        assert(name.subrange(0, 1)[0] == '.');
        assert(name[0] == '.');
    }
}

proof fn lemma_own_counted(t: FileTree, prefix: Seq<char>, k: nat, f: Counted)
    requires
        k <= t.files@.len(),
    ensures
        files_counted(t, prefix, k).contains(f) <==> exists|i: int|
            {
                &&& 0 <= i < k
                &&& !file_is_ignored((#[trigger] t.files@[i]).name@)
                &&& f == (paths::under(prefix, t.files@[i].name@), bytes_of(t.files@[i].contents))
            },
    decreases k,
{
    if k > 0 {
        lemma_own_counted(t, prefix, (k - 1) as nat, f);
        let last = t.files@[k - 1];
        vstd::seq_lib::lemma_seq_contains_after_push(
            files_counted(t, prefix, (k - 1) as nat),
            (path_in(prefix, last.name@), bytes_of(last.contents)),
            f,
        );
    }
}

proof fn lemma_below_counted(t: FileTree, prefix: Seq<char>, k: nat, f: Counted)
    requires
        k <= t.folders@.len(),
    ensures
        counted_below(t, prefix, k).contains(f) <==> exists|i: int|
            {
                &&& 0 <= i < k
                &&& !is_ignored((#[trigger] t.folders@[i]).name@)
                &&& counted_in(t.folders@[i], paths::under(prefix, t.folders@[i].name@)).contains(f)
            },
    decreases k,
{
    if k > 0 {
        lemma_below_counted(t, prefix, (k - 1) as nat, f);
        let last = t.folders@[k - 1];
        vstd::seq_lib::lemma_seq_concat_contains_all_elements(
            counted_below(t, prefix, (k - 1) as nat),
            counted_in(last, path_in(prefix, last.name@)),
            f,
        );
    }
}

/// Every file of the module counts, at its own path and with its own contents, as deep as it lies,
/// unless it or a folder above it is hidden or a leftover of Python.
pub proof fn law_every_file_counts(
    t: FileTree,
    prefix: Seq<char>,
    names: Seq<Seq<char>>,
    contents: Option<Seq<u8>>,
)
    requires
        counts_at(t, names, contents),
    ensures
        counted_in(t, prefix).contains((way(prefix, names), contents)),
    decreases names.len(),
{
    let f = (way(prefix, names), contents);
    lemma_own_counted(t, prefix, t.files@.len(), f);
    lemma_below_counted(t, prefix, t.folders@.len(), f);
    vstd::seq_lib::lemma_seq_concat_contains_all_elements(
        files_counted(t, prefix, t.files@.len()),
        counted_below(t, prefix, t.folders@.len()),
        f,
    );
    lemma_hidden(names[0]);
    if names.len() == 1 {
        assert(names.drop_first() =~= Seq::<Seq<char>>::empty());
        lemma_one_step(prefix, names);
        let i = choose|i: int|
            {
                &&& 0 <= i < t.files@.len()
                &&& (#[trigger] t.files@[i]).name@ == names[0]
                &&& bytes_of(t.files@[i].contents) == contents
            };
        assert(!file_is_ignored(t.files@[i].name@));
    } else {
        let i = choose|i: int|
            {
                &&& 0 <= i < t.folders@.len()
                &&& (#[trigger] t.folders@[i]).name@ == names[0]
                &&& counts_at(t.folders@[i], names.drop_first(), contents)
            };
        law_every_file_counts(
            t.folders@[i],
            paths::under(prefix, names[0]),
            names.drop_first(),
            contents,
        );
        assert(!is_ignored(t.folders@[i].name@));
    }
}

/// Nothing counts but files of the module.
pub proof fn law_only_files_of_the_module_count(t: FileTree, prefix: Seq<char>, f: Counted) -> (names:
    Seq<Seq<char>>)
    requires
        counted_in(t, prefix).contains(f),
    ensures
        counts_at(t, names, f.1),
        f.0 == way(prefix, names),
    decreases t,
{
    lemma_own_counted(t, prefix, t.files@.len(), f);
    lemma_below_counted(t, prefix, t.folders@.len(), f);
    vstd::seq_lib::lemma_seq_concat_contains_all_elements(
        files_counted(t, prefix, t.files@.len()),
        counted_below(t, prefix, t.folders@.len()),
        f,
    );
    if files_counted(t, prefix, t.files@.len()).contains(f) {
        let i = choose|i: int|
            {
                &&& 0 <= i < t.files@.len()
                &&& !file_is_ignored((#[trigger] t.files@[i]).name@)
                &&& f == (paths::under(prefix, t.files@[i].name@), bytes_of(t.files@[i].contents))
            };
        let names = seq![t.files@[i].name@];
        lemma_hidden(names[0]);
        assert(names.drop_first() =~= Seq::<Seq<char>>::empty());
        lemma_one_step(prefix, names);
        names
    } else {
        let i = choose|i: int|
            {
                &&& 0 <= i < t.folders@.len()
                &&& !is_ignored((#[trigger] t.folders@[i]).name@)
                &&& counted_in(t.folders@[i], paths::under(prefix, t.folders@[i].name@)).contains(f)
            };
        let name = t.folders@[i].name@;
        lemma_hidden(name);
        let inner = law_only_files_of_the_module_count(
            t.folders@[i],
            paths::under(prefix, name),
            f,
        );
        let names = seq![name] + inner;
        assert(names.drop_first() =~= inner);
        names
    }
}

} // verus!
