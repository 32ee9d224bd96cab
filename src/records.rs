//! The records that the task service hands out.
use vstd::prelude::*;

verus! {

/// A project: a named container of items, nested by its indent level.
#[derive(Debug, Clone, Default, PartialEq, Eq)]
pub struct Project {
    pub name: String,
    pub id: usize,
    pub item_order: usize,
    pub indent: usize,
    pub is_archived: usize,
}

/// A task of some project.
#[derive(Debug, Clone, Default, PartialEq, Eq)]
pub struct Item {
    pub indent: usize,
    pub item_order: usize,
    pub id: usize,
    pub date_added: String,
    pub priority: usize,
    pub project_id: usize,
    pub content: String,
    pub all_day: bool,
    pub labels: Vec<usize>,
    pub is_deleted: usize,
    pub is_archived: usize,
    pub checked: usize,
    pub in_history: usize,
}

/// A label and the id the service gave it.
#[derive(Debug, Clone, Default, PartialEq, Eq)]
pub struct Label {
    pub name: String,
    pub id: usize,
}

/// A note attached to an item.
#[derive(Debug, Clone, Default, PartialEq, Eq)]
pub struct Note {
    pub is_deleted: usize,
    pub is_archived: usize,
    pub content: String,
    pub item_id: usize,
    pub project_id: usize,
    pub id: usize,
    pub posted: String,
}

/// The account the records belong to.
#[derive(Debug, Clone, Default, PartialEq, Eq)]
pub struct User {
    pub id: i64,
    pub token: Option<String>,
    pub email: String,
    pub full_name: String,
    pub inbox_project: i64,
    pub join_date: String,
}

/// One answer of the task service: the records that changed since the last
/// sync token, or all of them on a full sync.
#[derive(Debug, Clone, Default, PartialEq, Eq)]
pub struct TodoistResponse {
    pub projects: Option<Vec<Project>>,
    pub notes: Option<Vec<Note>>,
    pub items: Option<Vec<Item>>,
    pub labels: Option<Vec<Label>>,
    pub user: Option<User>,
    pub full_sync: bool,
    pub sync_token: String,
}

/// The position of the first label called `name`.
pub open spec fn first_named(ls: Seq<Label>, name: Seq<char>, i: int) -> bool {
    &&& 0 <= i < ls.len()
    &&& ls[i].name@ == name
    &&& forall|j: int| 0 <= j < i ==> ls[j].name@ != name
}

impl TodoistResponse {
    /// Whether the answer holds every record rather than the changes.
    pub fn is_full_sync(&self) -> (r: bool)
        ensures
            r == self.full_sync,
    {
        self.full_sync
    }

    /// The first label called `name`, if the answer has one.
    pub fn get_label_by_name(&self, name: &str) -> (r: Option<Label>)
        ensures
            self.labels is None ==> r is None,
            self.labels matches Some(ls) ==> (r is None <==> forall|i: int|
                0 <= i < ls@.len() ==> ls@[i].name@ != name@),
            r matches Some(l) ==> (self.labels matches Some(ls) && exists|i: int|
                first_named(ls@, name@, i) && l == ls@[i]),
    {
        match &self.labels {
            None => None,
            Some(ls) => {
                let target = name.to_owned();
                let mut i: usize = 0;
                while i < ls.len()
                    invariant
                        i <= ls.len(),
                        target@ == name@,
                        self.labels == Some(*ls),
                        forall|j: int| 0 <= j < i ==> ls@[j].name@ != name@,
                    decreases ls.len() - i,
                {
                    if ls[i].name == target {
                        let l = Label { name: ls[i].name.clone(), id: ls[i].id };
                        proof {
                            let labels = self.labels;
                            assert(first_named(ls@, name@, i as int) && l == ls@[i as int]);
                            assert(labels matches Some(v) && v@ == ls@);
                        }
                        return Some(l);
                    }
                    i += 1;
                }
                None
            },
        }
    }
}

} // verus!
