//! Records kept in rank order, one per id, merged from the service's answers.
use vstd::prelude::*;

use crate::records::{Item, Project, TodoistResponse};

verus! {

/// A record with an id and a rank among its siblings.
pub trait Ranked {
    spec fn rank_id(&self) -> usize;

    spec fn rank_order(&self) -> usize;

    fn id(&self) -> (r: usize)
        ensures
            r == self.rank_id(),
    ;

    fn order(&self) -> (r: usize)
        ensures
            r == self.rank_order(),
    ;
}

impl Ranked for Project {
    open spec fn rank_id(&self) -> usize {
        self.id
    }

    open spec fn rank_order(&self) -> usize {
        self.item_order
    }

    fn id(&self) -> (r: usize) {
        self.id
    }

    fn order(&self) -> (r: usize) {
        self.item_order
    }
}

impl Ranked for Item {
    open spec fn rank_id(&self) -> usize {
        self.id
    }

    open spec fn rank_order(&self) -> usize {
        self.item_order
    }

    fn id(&self) -> (r: usize) {
        self.id
    }

    fn order(&self) -> (r: usize) {
        self.item_order
    }
}

/// `a` comes before `b`: by rank, then by id.
pub open spec fn ranked_before<T: Ranked>(a: T, b: T) -> bool {
    a.rank_order() < b.rank_order() || (a.rank_order() == b.rank_order() && a.rank_id() < b.rank_id())
}

/// Strictly in rank order, with no id twice.
pub open spec fn rank_sorted<T: Ranked>(s: Seq<T>) -> bool {
    &&& forall|i: int, j: int| 0 <= i < j < s.len() ==> ranked_before(s[i], s[j])
    &&& forall|i: int, j: int| 0 <= i < j < s.len() ==> s[i].rank_id() != s[j].rank_id()
}

/// `s` without the records whose id is `id`, plus `r`.
pub open spec fn replace_id<T: Ranked>(s: Set<T>, r: T) -> Set<T> {
    s.filter(|x: T| x.rank_id() != r.rank_id()).insert(r)
}

/// `s` without the records whose id is `id`.
pub open spec fn drop_id<T: Ranked>(s: Set<T>, id: usize) -> Set<T> {
    s.filter(|x: T| x.rank_id() != id)
}

/// Inserting a record in place of any earlier record with the same id.
pub trait RebuildInsertion<T: Ranked>: Sized {
    /// The records held.
    spec fn held(&self) -> Set<T>;

    /// What the collection keeps true between calls.
    spec fn inv(&self) -> bool;

    /// Puts `value` in, in place of the record with its id, if any; says
    /// whether there was one.
    fn rebuild_insert(&mut self, value: T) -> (r: bool)
        requires
            old(self).inv(),
        ensures
            final(self).inv(),
            final(self).held() == replace_id(old(self).held(), value),
            r == exists|x: T| old(self).held().contains(x) && x.rank_id() == value.rank_id(),
    ;
}

/// Records in rank order, at most one per id.
#[derive(Debug, Clone, Default)]
pub struct RankedSet<T> {
    entries: Vec<T>,
}

impl<T: Ranked> RankedSet<T> {
    /// The records in order.
    pub closed spec fn records(&self) -> Seq<T> {
        self.entries@
    }

    pub open spec fn wf(&self) -> bool {
        rank_sorted(self.records())
    }

    /// An empty set.
    pub fn new() -> (r: Self)
        ensures
            r.wf(),
            r.records().len() == 0,
    {
        RankedSet { entries: Vec::new() }
    }

    /// How many records are held.
    pub fn len(&self) -> (r: usize)
        ensures
            r == self.records().len(),
    {
        self.entries.len()
    }

    /// The position of the record with id `id`, if any.
    fn position_of(&self, id: usize) -> (r: Option<usize>)
        ensures
            match r {
                Some(i) => i < self.records().len() && self.records()[i as int].rank_id() == id,
                None => forall|j: int| 0 <= j < self.records().len() ==> self.records()[j].rank_id() != id,
            },
    {
        let mut i: usize = 0;
        while i < self.entries.len()
            invariant
                i <= self.entries.len(),
                forall|j: int| 0 <= j < i ==> self.entries@[j].rank_id() != id,
            decreases self.entries.len() - i,
        {
            if self.entries[i].id() == id {
                return Some(i);
            }
            i += 1;
        }
        None
    }

    /// Takes out the record with id `id`, if any; says whether there was one.
    pub fn remove_id(&mut self, id: usize) -> (r: bool)
        requires
            old(self).wf(),
        ensures
            final(self).wf(),
            final(self).records().to_set() == drop_id(old(self).records().to_set(), id),
            r == exists|i: int| 0 <= i < old(self).records().len() && old(self).records()[i].rank_id() == id,
    {
        match self.position_of(id) {
            None => {
                assert(self.records().to_set() =~= drop_id(old(self).records().to_set(), id));
                false
            },
            Some(i) => {
                let ghost s = self.entries@;
                self.entries.remove(i);
                assert forall|x: T| #[trigger] self.records().to_set().contains(x) == drop_id(
                    s.to_set(),
                    id,
                ).contains(x) by {
                    if self.records().contains(x) {
                        let k = choose|k: int| 0 <= k < self.records().len() && self.records()[k] == x;
                        if k < i {
                            assert(s[k] == x);
                        } else {
                            assert(s[k + 1] == x);
                        }
                    }
                    if s.contains(x) && x.rank_id() != id {
                        let k = choose|k: int| 0 <= k < s.len() && s[k] == x;
                        if k < i {
                            assert(self.records()[k] == x);
                        } else {
                            assert(k != i);
                            assert(self.records()[k - 1] == x);
                        }
                    }
                }
                assert(self.records().to_set() =~= drop_id(old(self).records().to_set(), id));
                true
            },
        }
    }

    /// Hands the records out in order.
    pub fn into_vec(self) -> (r: Vec<T>)
        ensures
            r@ == self.records(),
    {
        self.entries
    }
}

fn before<T: Ranked>(a: &T, b: &T) -> (r: bool)
    ensures
        r == ranked_before(*a, *b),
{
    a.order() < b.order() || (a.order() == b.order() && a.id() < b.id())
}

impl<T: Ranked> RebuildInsertion<T> for RankedSet<T> {
    open spec fn held(&self) -> Set<T> {
        self.records().to_set()
    }

    open spec fn inv(&self) -> bool {
        self.wf()
    }

    fn rebuild_insert(&mut self, value: T) -> (r: bool) {
        let ghost s0 = self.records();
        let found = self.remove_id(value.id());
        proof {
            if found {
                let i = choose|i: int| 0 <= i < s0.len() && s0[i].rank_id() == value.rank_id();
                assert(s0.to_set().contains(s0[i]));
            }
            if exists|x: T| s0.to_set().contains(x) && x.rank_id() == value.rank_id() {
                let x = choose|x: T| s0.to_set().contains(x) && x.rank_id() == value.rank_id();
                let i = choose|i: int| 0 <= i < s0.len() && s0[i] == x;
                assert(s0[i].rank_id() == value.rank_id());
            }
        }
        let ghost s1 = self.records();
        assert(forall|j: int| 0 <= j < s1.len() ==> s1[j].rank_id() != value.rank_id()) by {
            assert forall|j: int| 0 <= j < s1.len() implies s1[j].rank_id() != value.rank_id() by {
                assert(s1.to_set().contains(s1[j]));
            }
        }
        let mut pos: usize = 0;
        while pos < self.entries.len()
            invariant
                pos <= self.entries.len(),
                self.entries@ == s1,
                forall|j: int| 0 <= j < pos ==> ranked_before(s1[j], value),
                forall|j: int| 0 <= j < s1.len() ==> s1[j].rank_id() != value.rank_id(),
                rank_sorted(s1),
            ensures
                forall|j: int| 0 <= j < s1.len() ==> s1[j].rank_id() != value.rank_id(),
                rank_sorted(s1),
                pos <= self.entries.len(),
                self.entries@ == s1,
                forall|j: int| 0 <= j < pos ==> ranked_before(s1[j], value),
                pos < s1.len() ==> !ranked_before(s1[pos as int], value),
            decreases self.entries.len() - pos,
        {
            if !before(&self.entries[pos], &value) {
                break;
            }
            pos += 1;
        }
        self.entries.insert(pos, value);
        let ghost s2 = self.records();
        assert(s2 == s1.insert(pos as int, value));
        assert forall|i: int, j: int| 0 <= i < j < s2.len() implies ranked_before(s2[i], s2[j]) && s2[i].rank_id() != s2[j].rank_id() by {
            if j < pos {
                assert(s2[i] == s1[i] && s2[j] == s1[j]);
            } else if j == pos {
                assert(s2[i] == s1[i]);
            } else if i == pos {
                assert(s2[j] == s1[j - 1]);
                assert(s1[pos as int].rank_id() != value.rank_id());
                assert(ranked_before(value, s1[pos as int]));
                if j - 1 > pos {
                    assert(ranked_before(s1[pos as int], s1[j - 1]));
                }
            } else if i < pos {
                assert(s2[i] == s1[i] && s2[j] == s1[j - 1]);
            } else {
                assert(s2[i] == s1[i - 1] && s2[j] == s1[j - 1]);
            }
        }
        assert forall|x: T| #[trigger] s2.to_set().contains(x) == replace_id(s0.to_set(), value).contains(x) by {
            if s2.contains(x) && x != value {
                let k = choose|k: int| 0 <= k < s2.len() && s2[k] == x;
                if k < pos {
                    assert(s1[k] == x);
                } else {
                    assert(s1[k - 1] == x);
                }
                assert(s1.to_set().contains(x));
            }
            if s1.to_set().contains(x) {
                let k = choose|k: int| 0 <= k < s1.len() && s1[k] == x;
                if k < pos {
                    assert(s2[k] == x);
                } else {
                    assert(s2[k + 1] == x);
                }
            }
            if x == value {
                assert(s2[pos as int] == x);
            }
        }
        assert(self.held() =~= replace_id(s0.to_set(), value));
        found
    }
}

/// The records that persist between syncs, kept current by merging each
/// answer of the service into them.
#[derive(Debug, Clone, Default)]
pub struct BagOfThings {
    pub projects: RankedSet<Project>,
    pub items: RankedSet<Item>,
}

/// `s` after each project of `ps` in turn: an archived one leaves, any
/// other takes the place of the project with its id.
pub open spec fn merge_projects(s: Set<Project>, ps: Seq<Project>) -> Set<Project>
    decreases ps.len(),
{
    if ps.len() == 0 {
        s
    } else {
        let s1 = merge_projects(s, ps.drop_last());
        let p = ps.last();
        if p.is_archived == 1 {
            drop_id(s1, p.id)
        } else {
            replace_id(s1, p)
        }
    }
}

/// `s` after each item of `is` in turn: a deleted or archived one leaves,
/// any other takes the place of the item with its id.
pub open spec fn merge_items(s: Set<Item>, is: Seq<Item>) -> Set<Item>
    decreases is.len(),
{
    if is.len() == 0 {
        s
    } else {
        let s1 = merge_items(s, is.drop_last());
        let it = is.last();
        if it.is_deleted == 1 || it.is_archived == 1 {
            drop_id(s1, it.id)
        } else {
            replace_id(s1, it)
        }
    }
}

pub open spec fn listed<T>(o: Option<Vec<T>>) -> Seq<T> {
    match o {
        Some(v) => v@,
        None => Seq::empty(),
    }
}

impl BagOfThings {
    pub open spec fn wf(&self) -> bool {
        self.projects.wf() && self.items.wf()
    }

    /// An empty bag.
    pub fn new() -> (r: Self)
        ensures
            r.wf(),
            r.projects.held() == Set::<Project>::empty(),
            r.items.held() == Set::<Item>::empty(),
    {
        let r = BagOfThings { projects: RankedSet::new(), items: RankedSet::new() };
        assert(r.projects.held() =~= Set::<Project>::empty());
        assert(r.items.held() =~= Set::<Item>::empty());
        r
    }

    /// Merges one answer of the service, which must hold its project and
    /// item lists.
    pub fn merge(&mut self, other: TodoistResponse)
        requires
            old(self).wf(),
            other.projects is Some,
            other.items is Some,
        ensures
            final(self).wf(),
            final(self).projects.held() == merge_projects(old(self).projects.held(), listed(other.projects)),
            final(self).items.held() == merge_items(old(self).items.held(), listed(other.items)),
    {
        let ghost ps = listed(other.projects);
        let ghost is = listed(other.items);
        let ghost held_projects = self.projects.held();
        let ghost held_items = self.items.held();
        let projects = match other.projects {
            Some(v) => v,
            None => Vec::new(),
        };
        let items = match other.items {
            Some(v) => v,
            None => Vec::new(),
        };
        assert(ps.take(0) =~= Seq::<Project>::empty());
        for project in it: projects
            invariant
                it.seq() == ps,
                self.wf(),
                self.items.held() == held_items,
                self.projects.held() == merge_projects(held_projects, ps.take(it.index() as int)),
        {
            proof {
                let n = it.index() as int;
                assert(ps.take(n + 1).drop_last() =~= ps.take(n));
            }
            if project.is_archived == 1 {
                self.projects.remove_id(project.id);
            } else {
                self.projects.rebuild_insert(project);
            }
        }
        assert(ps.take(ps.len() as int) =~= ps);
        assert(is.take(0) =~= Seq::<Item>::empty());
        for item in it: items
            invariant
                it.seq() == is,
                self.wf(),
                self.projects.held() == merge_projects(held_projects, ps),
                self.items.held() == merge_items(held_items, is.take(it.index() as int)),
        {
            proof {
                let n = it.index() as int;
                assert(is.take(n + 1).drop_last() =~= is.take(n));
            }
            if item.is_deleted == 1 || item.is_archived == 1 {
                self.items.remove_id(item.id);
            } else {
                self.items.rebuild_insert(item);
            }
        }
        assert(is.take(is.len() as int) =~= is);
    }
}

} // verus!
