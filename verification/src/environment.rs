//! Where things are kept on this machine.

use crate::codec;
use crate::errors::CoreError;
use crate::model::Id;
use crate::odoo_runtime::RuntimeStore;
use crate::paths;
use crate::text;
use vstd::prelude::*;
use vstd::string::*;

verus! {

/// Where a server that was started keeps the files of its databases.
#[derive(Debug)]
pub struct FilestoreDir {
    pub server_id: Id,
    pub dir: String,
}

/// Where things are kept: the folder of the application and its store of Odoo checkouts, once
/// they are set, and the folders of the servers that were started.
#[derive(Debug)]
pub struct Environment {
    pub data_dir: Option<String>,
    pub store: Option<RuntimeStore>,
    pub filestore_dirs: Vec<FilestoreDir>,
}

/// The folder that a started server keeps its files in: the one noted last.
pub open spec fn remembered(dirs: Seq<FilestoreDir>, server_id: Id) -> Option<Seq<char>>
    decreases dirs.len(),
{
    if dirs.len() == 0 {
        None
    } else if dirs.last().server_id == server_id {
        Some(dirs.last().dir@)
    } else {
        remembered(dirs.drop_last(), server_id)
    }
}

/// The folder that a server runs in, under the given one.
pub open spec fn server_dir(run_dir: Seq<char>, server_id: Id) -> Seq<char> {
    paths::under(run_dir, codec::uuid_text(server_id))
}

/// The folder that a server keeps its files in, under the folder of the application.
pub open spec fn default_filestore(data_dir: Seq<char>, server_id: Id) -> Seq<char> {
    paths::under(server_dir(paths::under(data_dir, "run"@), server_id), "filestore"@)
}

/// The folder that a server keeps its files in, where that is known.
pub open spec fn filestore_root(env: Environment, server_id: Id) -> Option<Seq<char>> {
    match remembered(env.filestore_dirs@, server_id) {
        Some(dir) => Some(dir),
        None => match env.data_dir {
            Some(data_dir) => Some(default_filestore(data_dir@, server_id)),
            None => None,
        },
    }
}

/// The folder that holds the files of a database of a server, where that is known.
pub open spec fn files_of(env: Environment, server_id: Id, name: Seq<char>) -> Option<Seq<char>> {
    match filestore_root(env, server_id) {
        Some(root) => Some(paths::under(paths::under(root, "filestore"@), name)),
        None => None,
    }
}

/// The folder that snapshots of files are kept in.
pub open spec fn snapshots_folder(env: Environment) -> Option<Seq<char>> {
    match env.data_dir {
        Some(d) => Some(paths::under(d@, "snapshots"@)),
        None => None,
    }
}

/// The folder that a server runs in, under the given one.
pub fn server_folder(run_dir: &str, server_id: Id) -> (r: String)
    ensures
        r@ == server_dir(run_dir@, server_id),
{
    paths::join(run_dir, codec::id_text(server_id).as_str())
}

impl Environment {
    /// Nothing is set yet.
    pub fn new() -> (r: Self)
        ensures
            r.data_dir is None,
            r.store is None,
            r.filestore_dirs@.len() == 0,
    {
        Environment { data_dir: None, store: None, filestore_dirs: Vec::new() }
    }

    /// Sets the folder of the application, and where checkouts of Odoo are looked for.
    pub fn with_environment(&mut self, data_dir: String, search_paths: Vec<String>)
        ensures
            final(self).data_dir == Some(data_dir),
            final(self).filestore_dirs == old(self).filestore_dirs,
            final(self).store matches Some(store) && store.root@ == paths::under(
                data_dir@,
                "odoo"@,
            ) && store.search_paths == search_paths,
    {
        let root = paths::join(data_dir.as_str(), "odoo");
        self.store = Some(RuntimeStore::new(root).searching(search_paths));
        self.data_dir = Some(data_dir);
    }

    /// The store of checkouts.
    pub fn store(&self) -> (r: Result<&RuntimeStore, CoreError>)
        ensures
            match r {
                Ok(store) => self.store == Some(*store),
                Err(e) => self.store is None && (e matches CoreError::NotConfigured(m) && m@
                    == "no Odoo folder is configured for this app"@),
            },
    {
        match &self.store {
            Some(store) => Ok(store),
            None => Err(
                CoreError::NotConfigured("no Odoo folder is configured for this app".to_owned()),
            ),
        }
    }

    /// The folder of the application.
    pub fn app_dir(&self) -> (r: Result<String, CoreError>)
        ensures
            match r {
                Ok(dir) => self.data_dir == Some(dir),
                Err(e) => self.data_dir is None && (e matches CoreError::NotConfigured(m) && m@
                    == "no data folder is configured for this app"@),
            },
    {
        match &self.data_dir {
            Some(dir) => Ok(dir.clone()),
            None => Err(
                CoreError::NotConfigured("no data folder is configured for this app".to_owned()),
            ),
        }
    }

    /// Notes the folder that a started server keeps its files in.
    pub fn remember_filestore(&mut self, server_id: Id, dir: String)
        ensures
            final(self).filestore_dirs@ == old(self).filestore_dirs@.push(
                FilestoreDir { server_id, dir },
            ),
            final(self).data_dir == old(self).data_dir,
            final(self).store == old(self).store,
    {
        self.filestore_dirs.push(FilestoreDir { server_id, dir });
    }

    /// The folder that holds the files of a database of a server, where that is known.
    pub fn database_files(&self, server_id: Id, name: &str) -> (r: Option<String>)
        ensures
            text::opt_view(r) == files_of(*self, server_id, name@),
    {
        let root = match self.remembered_dir(server_id) {
            Some(dir) => dir,
            None => match &self.data_dir {
                Some(data_dir) => {
                    let run = paths::join(data_dir.as_str(), "run");
                    paths::join(server_folder(run.as_str(), server_id).as_str(), "filestore")
                },
                None => {
                    return None;
                },
            },
        };
        Some(paths::join(paths::join(root.as_str(), "filestore").as_str(), name))
    }

    fn remembered_dir(&self, server_id: Id) -> (r: Option<String>)
        ensures
            text::opt_view(r) == remembered(self.filestore_dirs@, server_id),
    {
        let ghost all = self.filestore_dirs@;
        let mut i: usize = self.filestore_dirs.len();
        assert(all.take(i as int) =~= all);
        while i > 0
            invariant
                i <= all.len(),
                all == self.filestore_dirs@,
                remembered(all, server_id) == remembered(all.take(i as int), server_id),
            decreases i,
        {
            i = i - 1;
            proof {
                assert(all.take(i + 1).drop_last() =~= all.take(i as int));
                assert(all.take(i + 1).last() == all[i as int]);
            }
            if self.filestore_dirs[i].server_id == server_id {
                return Some(self.filestore_dirs[i].dir.clone());
            }
        }
        assert(all.take(0) =~= Seq::<FilestoreDir>::empty());
        None
    }

    /// The folder that snapshots of files are kept in.
    pub fn snapshots_dir(&self) -> (r: Option<String>)
        ensures
            text::opt_view(r) == snapshots_folder(*self),
    {
        match &self.data_dir {
            Some(d) => Some(paths::join(d.as_str(), "snapshots")),
            None => None,
        }
    }
}

/// What was noted last of a server is what is found.
pub proof fn law_the_last_folder_counts(dirs: Seq<FilestoreDir>, new: FilestoreDir, server_id: Id)
    ensures
        remembered(dirs.push(new), server_id) == (if new.server_id == server_id {
            Some(new.dir@)
        } else {
            remembered(dirs, server_id)
        }),
{
    assert(dirs.push(new).drop_last() =~= dirs);
}

/// The files of a database lie under the folder that was remembered last for its server; where
/// none was, under the server's own folder among the data.
pub proof fn law_files_lie_under_their_server(
    env: Environment,
    server_id: Id,
    name: Seq<char>,
    k: int,
)
    requires
        paths::is_name(codec::uuid_text(server_id)),
        paths::is_name(name),
        env.data_dir matches Some(d) ==> d@.len() == 0 || d@.last() != '/',
        forall|i: int|
            0 <= i < env.filestore_dirs@.len() ==> (#[trigger] env.filestore_dirs@[i]).dir@.len() == 0
                || env.filestore_dirs@[i].dir@.last() != '/',
    ensures
        0 <= k < env.filestore_dirs@.len() && env.filestore_dirs@[k].server_id == server_id && (
        forall|i: int|
            k < i < env.filestore_dirs@.len() ==> (#[trigger] env.filestore_dirs@[i]).server_id
                != server_id) ==> files_of(env, server_id, name) is Some && paths::parts_of(
            files_of(env, server_id, name)->0,
        ) == paths::parts_of(env.filestore_dirs@[k].dir@) + seq!["filestore"@, name],
        (forall|i: int|
            0 <= i < env.filestore_dirs@.len() ==> (#[trigger] env.filestore_dirs@[i]).server_id
                != server_id) ==> match env.data_dir {
            Some(d) => files_of(env, server_id, name) is Some && paths::parts_of(
                files_of(env, server_id, name)->0,
            ) == paths::parts_of(d@) + seq![
                "run"@,
                codec::uuid_text(server_id),
                "filestore"@,
                "filestore"@,
                name,
            ],
            None => files_of(env, server_id, name) is None,
        },
{
    lemma_remembered(env.filestore_dirs@, server_id, k);
    reveal_strlit("filestore");
    reveal_strlit("run");
    reveal_strlit(".");
    reveal_strlit("..");
    let id = codec::uuid_text(server_id);
    assert(paths::is_name("filestore"@));
    assert(paths::is_name("run"@));
    if 0 <= k < env.filestore_dirs@.len() {
        let dir = env.filestore_dirs@[k].dir@;
        lemma_one_below(dir, "filestore"@);
        lemma_one_below(paths::under(dir, "filestore"@), name);
        assert(paths::parts_of(dir).push("filestore"@).push(name) =~= paths::parts_of(dir) + seq![
            "filestore"@,
            name,
        ]);
    }
    if let Some(d) = env.data_dir {
        let run = paths::under(d@, "run"@);
        let own = paths::under(run, id);
        let root = paths::under(own, "filestore"@);
        lemma_one_below(d@, "run"@);
        lemma_one_below(run, id);
        lemma_one_below(own, "filestore"@);
        lemma_one_below(root, "filestore"@);
        lemma_one_below(paths::under(root, "filestore"@), name);
        assert(paths::parts_of(d@).push("run"@).push(id).push("filestore"@).push("filestore"@).push(
            name,
        ) =~= paths::parts_of(d@) + seq!["run"@, id, "filestore"@, "filestore"@, name]);
    }
}

proof fn lemma_one_below(base: Seq<char>, name: Seq<char>)
    requires
        base.len() == 0 || base.last() != '/',
        paths::is_name(name),
    ensures
        paths::parts_of(paths::under(base, name)) == paths::parts_of(base).push(name),
        paths::under(base, name).len() > 0,
        paths::under(base, name).last() != '/',
{
    paths::law_a_path_lies_under_its_folder(base, name);
    assert(name[0] != '/' && name.last() != '/') by {
        assert(name.contains(name[0]));
        assert(name.contains(name.last()));
    }
}

proof fn lemma_remembered(dirs: Seq<FilestoreDir>, server_id: Id, k: int)
    ensures
        0 <= k < dirs.len() && dirs[k].server_id == server_id && (forall|i: int|
            k < i < dirs.len() ==> (#[trigger] dirs[i]).server_id != server_id) ==> remembered(
            dirs,
            server_id,
        ) == Some(dirs[k].dir@),
        (forall|i: int| 0 <= i < dirs.len() ==> (#[trigger] dirs[i]).server_id != server_id)
            ==> remembered(dirs, server_id) is None,
    decreases dirs.len(),
{
    if dirs.len() > 0 {
        let rest = dirs.drop_last();
        lemma_remembered(rest, server_id, k);
        assert(forall|i: int| 0 <= i < rest.len() ==> rest[i] == dirs[i]);
        assert(dirs[dirs.len() - 1] == dirs.last());
    }
}

} // verus!
