//! The commands that ask the service to change records, queued in order.
use vstd::prelude::*;

use uuid::Uuid;

use crate::traverse::{update_view, LabelUpdate};

verus! {

/// The uuid crate's id type, carried through without looking inside.
#[verifier::external_type_specification]
#[verifier::external_body]
pub struct ExUuid(Uuid);

/// Relies on uuid::Uuid::new_v4 for a fresh random id that tells one
/// command apart from another; nothing is known of its value.
pub assume_specification[ Uuid::new_v4 ]() -> Uuid;

/// One change asked of the service. Each carries the id under which the
/// service reports how it went.
#[derive(Debug)]
pub enum Command {
    /// Create a label; `temp_id` stands for its id until the service gives one.
    LabelAdd { name: String, temp_id: Uuid, uuid: Uuid },
    /// Give an item a new, complete set of label ids.
    ItemUpdate { id: usize, labels: Vec<usize>, uuid: Uuid },
    /// Mark an item done.
    CloseItem { id: usize, uuid: Uuid },
    /// Archive a project.
    ProjectArchive { id: usize, uuid: Uuid },
}

/// The commands queued so far, in the order they are to be sent.
#[derive(Debug)]
pub struct CommandManager {
    pub commands: Vec<Command>,
}

/// An update of the labels of item `id` to `labels`.
pub open spec fn is_item_update(c: Command, id: usize, labels: Seq<usize>) -> bool {
    c matches Command::ItemUpdate { id: i, labels: l, .. } && i == id && l@ == labels
}

impl CommandManager {
    /// A manager with nothing queued.
    pub fn new() -> (r: CommandManager)
        ensures
            r.commands@.len() == 0,
    {
        CommandManager { commands: Vec::new() }
    }

    /// Queues the creation of a label called `name`; returns its temporary
    /// id and the command's id.
    pub fn add_label(&mut self, name: &str) -> (r: (Uuid, Uuid))
        ensures
            final(self).commands@.drop_last() == old(self).commands@,
            final(self).commands@.len() == old(self).commands@.len() + 1,
            final(self).commands@.last() matches Command::LabelAdd { name: n, temp_id, uuid } && n@
                == name@ && temp_id == r.0 && uuid == r.1,
    {
        let temp_id = Uuid::new_v4();
        let uuid = Uuid::new_v4();
        self.commands.push(Command::LabelAdd { name: name.to_owned(), temp_id, uuid });
        assert(self.commands@.drop_last() =~= old(self).commands@);
        (temp_id, uuid)
    }

    /// Queues giving item `id` the label set `label_ids`; returns the
    /// command's id.
    pub fn set_item_label(&mut self, id: usize, label_ids: Vec<usize>) -> (r: Uuid)
        ensures
            final(self).commands@ == old(self).commands@.push(
                Command::ItemUpdate { id, labels: label_ids, uuid: r },
            ),
    {
        let uuid = Uuid::new_v4();
        self.commands.push(Command::ItemUpdate { id, labels: label_ids, uuid });
        uuid
    }

    /// Queues marking item `id` done; returns the command's id.
    pub fn complete_item(&mut self, id: usize) -> (r: Uuid)
        ensures
            final(self).commands@ == old(self).commands@.push(Command::CloseItem { id, uuid: r }),
    {
        let uuid = Uuid::new_v4();
        self.commands.push(Command::CloseItem { id, uuid });
        uuid
    }

    /// Queues archiving project `id`; returns the command's id.
    pub fn archive_project(&mut self, id: usize) -> (r: Uuid)
        ensures
            final(self).commands@ == old(self).commands@.push(Command::ProjectArchive { id, uuid: r }),
    {
        let uuid = Uuid::new_v4();
        self.commands.push(Command::ProjectArchive { id, uuid });
        uuid
    }

    /// Queues one label update per element of `updates`, in order.
    pub fn set_item_labels(&mut self, updates: Vec<LabelUpdate>)
        ensures
            final(self).commands@.len() == old(self).commands@.len() + updates@.len(),
            final(self).commands@.take(old(self).commands@.len() as int) == old(self).commands@,
            forall|k: int|
                0 <= k < updates@.len() ==> is_item_update(
                    #[trigger] final(self).commands@[old(self).commands@.len() + k],
                    update_view(updates@[k]).0,
                    update_view(updates@[k]).1,
                ),
    {
        let ghost us = updates@;
        let ghost n0 = self.commands@.len();
        for u in it: updates
            invariant
                it.seq() == us,
                n0 == old(self).commands@.len(),
                self.commands@.len() == n0 + it.index(),
                self.commands@.take(n0 as int) == old(self).commands@,
                forall|k: int|
                    0 <= k < it.index() ==> is_item_update(
                        #[trigger] self.commands@[n0 + k],
                        update_view(us[k]).0,
                        update_view(us[k]).1,
                    ),
        {
            let ghost before = self.commands@;
            let ghost k = it.index();
            assert(us[k as int] == u);
            self.set_item_label(u.id, u.labels);
            assert(self.commands@.take(n0 as int) =~= before.take(n0 as int));
        }
    }
}

} // verus!
