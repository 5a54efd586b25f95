//! Making a database with modules in it: a copy of a template where there is one of the same
//! shape, else an empty one in which the modules are installed and which then becomes the
//! template.

use crate::errors::CoreError;
use crate::events::Event;
use crate::freshness;
use crate::model::Id;
use crate::pg_admin::PgAdminError;
use crate::records;
use crate::records::{Core, Stamp};
use crate::rows;
use crate::text;
use vstd::prelude::*;
use vstd::string::*;

verus! {

/// How far a database has come. `template` says whether the cluster has the template; it is not
/// known before it was looked for.
#[derive(Debug)]
pub struct MakeDatabase {
    pub server_id: Id,
    pub name: String,
    pub modules: Vec<String>,
    pub key: String,
    pub template: Option<bool>,
    pub database_id: Option<Id>,
    pub installed: bool,
    pub kept: bool,
}

/// What is to be done next.
#[derive(Debug)]
pub enum MakeStep {
    /// Ask the cluster whether it has the template.
    LookFor { template: String },
    /// Copy the template.
    CopyTemplate { template: String },
    /// Make an empty database.
    Create,
    /// Install the modules in it.
    Install { database_id: Id },
    /// Copy it to the template.
    KeepAsTemplate { template: String },
    /// The database is there; `from_template` says whether it is a copy.
    Finished { database_id: Id, from_template: bool },
}

/// The database that the template is kept in.
pub open spec fn template_name(m: MakeDatabase) -> Seq<char> {
    "oo_template_"@ + m.key@
}

/// Whether a step is the one that comes next.
pub open spec fn comes_next(m: MakeDatabase, step: MakeStep) -> bool {
    match m.database_id {
        None => if m.modules@.len() == 0 || m.template == Some(false) {
            step is Create
        } else if m.template is None {
            step matches MakeStep::LookFor { template } && template@ == template_name(m)
        } else {
            step matches MakeStep::CopyTemplate { template } && template@ == template_name(m)
        },
        Some(id) => if m.modules@.len() == 0 || m.template == Some(true) || (m.installed
            && m.kept) {
            step == (MakeStep::Finished {
                database_id: id,
                from_template: m.modules@.len() > 0 && m.template == Some(true),
            })
        } else if !m.installed {
            step == (MakeStep::Install { database_id: id })
        } else {
            step matches MakeStep::KeepAsTemplate { template } && template@ == template_name(m)
        },
    }
}

/// Nothing becomes a template before the modules are installed in it, and where there is a
/// template nothing is made or installed: the database is a copy.
pub proof fn law_a_template_is_what_was_installed(m: MakeDatabase, step: MakeStep)
    requires
        comes_next(m, step),
    ensures
        step is KeepAsTemplate ==> m.database_id is Some && m.installed,
        m.modules@.len() > 0 && m.template == Some(true) ==> step is CopyTemplate || step
            is Finished,
        step matches MakeStep::Finished { from_template, .. } ==> (from_template <==>
            m.modules@.len() > 0 && m.template == Some(true)),
        m.modules@.len() == 0 ==> step is Create || step is Finished,
{
}

impl MakeDatabase {
    /// A database that is to be made; `key` is the key of the modules' template.
    pub fn new(server_id: Id, name: String, modules: Vec<String>, key: String) -> (r: Self)
        ensures
            r == (MakeDatabase {
                server_id,
                name,
                modules,
                key,
                template: None,
                database_id: None,
                installed: false,
                kept: false,
            }),
    {
        MakeDatabase {
            server_id,
            name,
            modules,
            key,
            template: None,
            database_id: None,
            installed: false,
            kept: false,
        }
    }

    /// What is to be done next.
    pub fn next_step(&self) -> (r: MakeStep)
        ensures
            comes_next(*self, r),
    {
        let bare = self.modules.len() == 0;
        let template = freshness::template_database_name(self.key.as_str());
        match self.database_id {
            None => {
                if bare {
                    return MakeStep::Create;
                }
                match self.template {
                    None => MakeStep::LookFor { template },
                    Some(true) => MakeStep::CopyTemplate { template },
                    Some(false) => MakeStep::Create,
                }
            },
            Some(database_id) => {
                let copied = match self.template {
                    Some(there) => there,
                    None => false,
                };
                if bare || copied || (self.installed && self.kept) {
                    MakeStep::Finished { database_id, from_template: !bare && copied }
                } else if !self.installed {
                    MakeStep::Install { database_id }
                } else {
                    MakeStep::KeepAsTemplate { template }
                }
            },
        }
    }

    /// The template was looked for.
    pub fn on_looked(&mut self, there: bool)
        ensures
            *final(self) == (MakeDatabase { template: Some(there), ..*old(self) }),
    {
        self.template = Some(there);
    }

    /// The database was made, empty or as a copy.
    pub fn on_made(&mut self, database_id: Id)
        ensures
            *final(self) == (MakeDatabase { database_id: Some(database_id), ..*old(self) }),
    {
        self.database_id = Some(database_id);
    }

    /// The modules were installed.
    pub fn on_installed(&mut self)
        ensures
            *final(self) == (MakeDatabase { installed: true, ..*old(self) }),
    {
        self.installed = true;
    }

    /// The database was copied to the template, or could not be: that is no error, there just is
    /// no template. A template that was made is noted.
    pub fn on_kept(&mut self, core: &mut Core, result: Result<(), PgAdminError>, stamp: &Stamp) -> (r:
        Result<(), CoreError>)
        ensures
            *final(self) == (MakeDatabase { kept: true, ..*old(self) }),
            match result {
                Err(_) => r is Ok && final(core)@ == old(core)@,
                Ok(_) => match r {
                    Ok(_) => {
                        &&& records::may_tell(old(core)@, *stamp)
                        &&& exists|event: Event| #[trigger]
                            says_kept(event, *old(self)) && final(core)@ == records::told(
                                old(core)@,
                                *stamp,
                                None,
                                event,
                            )
                    },
                    Err(e) => {
                        &&& !records::may_tell(old(core)@, *stamp)
                        &&& rows::is_taken_error(e, "events"@)
                        &&& final(core)@ == old(core)@
                    },
                },
            },
            records::sound(old(core)@) ==> records::sound(final(core)@),
    {
        let ghost before = *self;
        self.kept = true;
        if result.is_err() {
            return Ok(());
        }
        if let Err(e) = core.can_record(stamp) {
            return Err(e);
        }
        let event = Event::TemplateCached {
            key: self.key.clone(),
            modules: text::copies(&self.modules),
        };
        assert(says_kept(event, before));
        core.record(stamp, None, event);
        Ok(())
    }
}

/// Whether an event says that the template of a database was made.
pub open spec fn says_kept(event: Event, m: MakeDatabase) -> bool {
    &&& event matches Event::TemplateCached { key, modules }
    &&& key@ == m.key@
    &&& text::views(modules@) == text::views(m.modules@)
}

/// A database is made once: until it is there the steps lead to it, from a template of the same
/// shape where there is one; afterwards they are about that database, and they end when its
/// modules are in it.
pub proof fn law_the_steps_lead_to_one_database(m: MakeDatabase, step: MakeStep)
    requires
        comes_next(m, step),
    ensures
        m.database_id is None <==> step is LookFor || step is CopyTemplate || step is Create,
        step matches MakeStep::Install { database_id } ==> m.database_id == Some(database_id)
            && !m.installed && m.template != Some(true),
        step matches MakeStep::Finished { database_id, from_template } ==> m.database_id == Some(
            database_id,
        ) && (m.modules@.len() == 0 || m.template == Some(true) || m.installed),
        step is LookFor ==> m.template is None && m.modules@.len() > 0,
        step is CopyTemplate ==> m.template == Some(true),
        step is Create && m.modules@.len() > 0 ==> m.template == Some(false),
        step is KeepAsTemplate ==> !m.kept,
        m.database_id is Some && m.modules@.len() > 0 && m.template != Some(true) && m.installed
            && !m.kept ==> step is KeepAsTemplate,
        step matches MakeStep::LookFor { template } ==> template@ == "oo_template_"@ + m.key@,
        step matches MakeStep::CopyTemplate { template } ==> template@ == "oo_template_"@ + m.key@,
        step matches MakeStep::KeepAsTemplate { template } ==> template@ == "oo_template_"@
            + m.key@,
{
}

} // verus!
