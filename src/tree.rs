//! Rebuilding the project and item tree from records annotated with indent levels.
use vstd::prelude::*;

use crate::records::{Item, Project};

verus! {

/// What a node wraps.
#[derive(Debug)]
pub enum NodeType {
    ProjectNodeType(Project),
    ItemNodeType(Item),
}

/// A project or an item with its children in order.
#[derive(Debug)]
pub struct Node {
    pub ntype: NodeType,
    pub nodes: Vec<Node>,
}

/// A node's record as it was read, with what the labelling rules read of
/// it. `labels` starts as the item's label ids and is what an update
/// replaces; `record` stays the record as it was read.
pub enum Entry {
    Project { id: usize, name: Seq<char>, record: Project },
    Item { id: usize, name: Seq<char>, checked: bool, labels: Seq<usize>, record: Item },
}

/// The mathematical shape of a node: its entry and its children in order.
pub struct NodeModel {
    pub entry: Entry,
    pub children: Seq<NodeModel>,
}

impl NodeType {
    /// What the labelling rules read of the wrapped record: an item counts
    /// as done when its `checked` flag is 1.
    pub open spec fn entry(self) -> Entry {
        match self {
            NodeType::ProjectNodeType(p) => Entry::Project { id: p.id, name: p.name@, record: p },
            NodeType::ItemNodeType(i) => Entry::Item {
                id: i.id,
                name: i.content@,
                checked: i.checked == 1,
                labels: i.labels@,
                record: i,
            },
        }
    }
}

/// The model of a node and, recursively, of its children.
pub open spec fn node_model(n: Node) -> NodeModel
    decreases n,
{
    NodeModel { entry: n.ntype.entry(), children: forest_model(n.nodes@) }
}

/// The models of a sequence of nodes, in order.
pub open spec fn forest_model(ns: Seq<Node>) -> Seq<NodeModel>
    decreases ns,
{
    if ns.len() == 0 {
        Seq::empty()
    } else {
        forest_model(ns.drop_last()).push(node_model(ns.last()))
    }
}

/// The model of a forest has one model per node, in order.
pub proof fn lemma_forest_model(ns: Seq<Node>)
    ensures
        forest_model(ns).len() == ns.len(),
        forall|i: int| 0 <= i < ns.len() ==> #[trigger] forest_model(ns)[i] == node_model(ns[i]),
    decreases ns.len(),
{
    if ns.len() > 0 {
        lemma_forest_model(ns.drop_last());
    }
}

/// The depth of the last node at the deepest level: one past it is the
/// deepest level at which a new node can be attached.
pub open spec fn spine(f: Seq<NodeModel>) -> nat
    decreases f,
{
    if f.len() == 0 {
        0
    } else {
        1 + spine(f.last().children)
    }
}

/// `f` with a new leaf holding `e` at depth `level`, attached as the last
/// child of the last node at depth `level - 1`.
pub open spec fn attach_at(f: Seq<NodeModel>, e: Entry, level: nat) -> Seq<NodeModel>
    decreases level,
{
    if level <= 1 || f.len() == 0 {
        f.push(NodeModel { entry: e, children: Seq::empty() })
    } else {
        let last = f.last();
        f.drop_last().push(
            NodeModel { entry: last.entry, children: attach_at(last.children, e, (level - 1) as nat) },
        )
    }
}

/// Attaches `node` at depth `level` of the forest `to`.
fn push_level(to: &mut Vec<Node>, node: NodeType, level: usize)
    requires
        fits(forest_model(old(to)@), level as int),
    ensures
        forest_model(final(to)@) == attach_at(forest_model(old(to)@), node.entry(), level as nat),
        level == 1 ==> {
            &&& final(to)@.drop_last() == old(to)@
            &&& final(to)@.last().ntype == node
            &&& final(to)@.last().nodes@.len() == 0
        },
        level > 1 ==> {
            &&& final(to)@.len() == old(to)@.len()
            &&& final(to)@.drop_last() == old(to)@.drop_last()
            &&& final(to)@.last().ntype == old(to)@.last().ntype
        },
    decreases level,
{
    proof {
        lemma_forest_model(to@);
    }
    if level == 1 {
        let leaf = Node { ntype: node, nodes: Vec::new() };
        assert(forest_model(leaf.nodes@) == Seq::<NodeModel>::empty());
        to.push(leaf);
        assert(to@.drop_last() == old(to)@);
        assert(forest_model(to@) == forest_model(old(to)@).push(node_model(leaf)));
    } else {
        let mut last = to.pop().unwrap();
        assert(last == old(to)@.last());
        push_level(&mut last.nodes, node, level - 1);
        to.push(last);
        assert(to@.drop_last() == old(to)@.drop_last());
        assert(forest_model(to@) == forest_model(old(to)@.drop_last()).push(node_model(last)));
        assert(forest_model(old(to)@.drop_last()) == forest_model(old(to)@).drop_last());
    }
}

} // verus!

verus! {

/// Why a flat record list does not make a tree.
#[derive(Debug, Clone, Copy, PartialEq, Eq, Structural)]
pub enum BuildError {
    /// An item names a project id that no project has.
    MissingParent(usize),
    /// A record's indent skips a level: there is no node one level up to hold it.
    BadIndent(usize),
}

/// The roots of the tree: the top-level projects.
#[derive(Debug)]
pub struct TaskTree {
    pub nodes: Vec<Node>,
}

pub open spec fn project_entry(p: Project) -> Entry {
    NodeType::ProjectNodeType(p).entry()
}

pub open spec fn item_entry(i: Item) -> Entry {
    NodeType::ItemNodeType(i).entry()
}

/// Whether `level` can hold a new node in `f`.
pub open spec fn fits(f: Seq<NodeModel>, level: int) -> bool {
    1 <= level <= spine(f) + 1
}

pub open spec fn is_project_with(e: Entry, pid: usize) -> bool {
    match e {
        Entry::Project { id, .. } => id == pid,
        Entry::Item { .. } => false,
    }
}

/// Where a new node goes under a project.
pub enum Placement {
    /// No project has the id.
    Missing,
    /// The first project with the id has no node one level up from the depth asked for.
    Misfit,
    /// The forest with the new node in place.
    Placed(Seq<NodeModel>),
}

/// `f` from position `k` on, searched in pre-order for the first project with
/// id `pid`; the new node goes at `depth` among that project's descendants.
pub open spec fn place_from(f: Seq<NodeModel>, k: int, pid: usize, e: Entry, depth: int) -> Placement
    decreases f, f.len() - k,
{
    if k < 0 || k >= f.len() {
        Placement::Missing
    } else {
        let t = f[k];
        if is_project_with(t.entry, pid) {
            if fits(t.children, depth) {
                Placement::Placed(
                    f.update(k, NodeModel { entry: t.entry, children: attach_at(t.children, e, depth as nat) }),
                )
            } else {
                Placement::Misfit
            }
        } else {
            match place_from(t.children, 0, pid, e, depth) {
                Placement::Placed(c) => Placement::Placed(f.update(k, NodeModel { entry: t.entry, children: c })),
                Placement::Misfit => Placement::Misfit,
                Placement::Missing => place_from(f, k + 1, pid, e, depth),
            }
        }
    }
}

/// The forest of the projects, each attached at its indent level in order.
pub open spec fn project_forest(ps: Seq<Project>) -> Result<Seq<NodeModel>, BuildError>
    decreases ps.len(),
{
    if ps.len() == 0 {
        Ok(Seq::empty())
    } else {
        match project_forest(ps.drop_last()) {
            Ok(f) => {
                let p = ps.last();
                if fits(f, p.indent as int) {
                    Ok(attach_at(f, project_entry(p), p.indent as nat))
                } else {
                    Err(BuildError::BadIndent(p.id))
                }
            },
            Err(e) => Err(e),
        }
    }
}

/// One item placed under its project. Indent 1 is the project itself, so an
/// item at indent `n` sits `n - 1` levels below its project.
pub open spec fn place_item(f: Seq<NodeModel>, it: Item) -> Result<Seq<NodeModel>, BuildError> {
    match place_from(f, 0, it.project_id, item_entry(it), it.indent - 1) {
        Placement::Placed(g) => Ok(g),
        Placement::Misfit => Err(BuildError::BadIndent(it.id)),
        Placement::Missing => Err(BuildError::MissingParent(it.project_id)),
    }
}

/// `f` with the items placed in order.
pub open spec fn items_forest(f: Seq<NodeModel>, is: Seq<Item>) -> Result<Seq<NodeModel>, BuildError>
    decreases is.len(),
{
    if is.len() == 0 {
        Ok(f)
    } else {
        match items_forest(f, is.drop_last()) {
            Ok(g) => place_item(g, is.last()),
            Err(e) => Err(e),
        }
    }
}

/// The tree that the records make: the projects first, then the items.
/// The project id of the first item, in order, whose project id no project
/// record has.
pub open spec fn missing_parent(ps: Seq<Project>, is: Seq<Item>) -> Option<usize>
    decreases is.len(),
{
    if is.len() == 0 {
        None
    } else {
        match missing_parent(ps, is.drop_last()) {
            Some(x) => Some(x),
            None => if record_ids(ps).contains(is.last().project_id) {
                None
            } else {
                Some(is.last().project_id)
            },
        }
    }
}

/// The tree that the records make. An item whose project is not among the
/// records is reported first, whatever the order and the indents; then the
/// projects are attached, then the items.
pub open spec fn build_model(ps: Seq<Project>, is: Seq<Item>) -> Result<Seq<NodeModel>, BuildError> {
    match missing_parent(ps, is) {
        Some(x) => Err(BuildError::MissingParent(x)),
        None => match project_forest(ps) {
            Ok(f) => items_forest(f, is),
            Err(e) => Err(e),
        },
    }
}

/// Whether some project record has id `pid`.
fn has_project(projects: &Vec<Project>, pid: usize) -> (r: bool)
    ensures
        r == record_ids(projects@).contains(pid),
{
    let mut j: usize = 0;
    while j < projects.len()
        invariant
            j <= projects.len(),
            forall|k: int| 0 <= k < j ==> projects@[k].id != pid,
        decreases projects.len() - j,
    {
        if projects[j].id == pid {
            assert(projects@[j as int].id == pid);
            return true;
        }
        j += 1;
    }
    false
}

/// The project id of the first item whose project id no project record has.
fn first_missing_parent(projects: &Vec<Project>, items: &Vec<Item>) -> (r: Option<usize>)
    ensures
        r == missing_parent(projects@, items@),
{
    let ghost is = items@;
    let mut i: usize = 0;
    assert(is.take(0) =~= Seq::<Item>::empty());
    while i < items.len()
        invariant
            i <= items.len(),
            is == items@,
            missing_parent(projects@, is.take(i as int)) is None,
        decreases items.len() - i,
    {
        assert(is.take(i + 1).drop_last() =~= is.take(i as int));
        assert(is.take(i + 1).last() == is[i as int]);
        let pid = items[i].project_id;
        if !has_project(projects, pid) {
            proof {
                lemma_missing_prefix(projects@, is, i + 1);
            }
            return Some(pid);
        }
        i += 1;
    }
    assert(is.take(is.len() as int) =~= is);
    None
}

/// Once a prefix of the items has a missing parent, all of them have the same.
proof fn lemma_missing_prefix(ps: Seq<Project>, is: Seq<Item>, n: int)
    requires
        0 <= n <= is.len(),
        missing_parent(ps, is.take(n)) is Some,
    ensures
        missing_parent(ps, is) == missing_parent(ps, is.take(n)),
    decreases is.len() - n,
{
    if n < is.len() {
        assert(is.take(n + 1).drop_last() =~= is.take(n));
        lemma_missing_prefix(ps, is, n + 1);
    } else {
        assert(is.take(n) =~= is);
    }
}

/// Whether `level` can hold a new node in `ns`.
fn level_fits(ns: &Vec<Node>, level: usize) -> (r: bool)
    ensures
        r == fits(forest_model(ns@), level as int),
    decreases level,
{
    proof {
        lemma_forest_model(ns@);
    }
    if level == 0 {
        false
    } else if level == 1 {
        true
    } else if ns.len() == 0 {
        false
    } else {
        level_fits(&ns[ns.len() - 1].nodes, level - 1)
    }
}

/// How placing a node under a project ended; a node that found no project
/// is handed back.
enum Attach {
    Done,
    Misfit,
    Missing(NodeType),
}

/// Places `node` at `depth` below the first project with id `pid`, searching
/// the trees of `ns` from position `k` on in pre-order.
fn attach_under(ns: &mut Vec<Node>, k: usize, pid: usize, node: NodeType, depth: usize) -> (r: Attach)
    requires
        k <= old(ns).len(),
    ensures
        match place_from(forest_model(old(ns)@), k as int, pid, node.entry(), depth as int) {
            Placement::Placed(g) => r is Done && forest_model(final(ns)@) == g,
            Placement::Misfit => r is Misfit,
            Placement::Missing => r == Attach::Missing(node) && forest_model(final(ns)@) == forest_model(old(ns)@),
        },
    decreases forest_model(old(ns)@), old(ns)@.len() - k,
{
    proof {
        lemma_forest_model(ns@);
    }
    if k >= ns.len() {
        return Attach::Missing(node);
    }
    let target = match &ns[k].ntype {
        NodeType::ProjectNodeType(p) => p.id == pid,
        NodeType::ItemNodeType(_) => false,
    };
    if target {
        if level_fits(&ns[k].nodes, depth) {
            let ghost before = ns@;
            push_level(&mut ns[k].nodes, node, depth);
            proof {
                lemma_forest_model(ns@);
                assert(forest_model(ns@) =~= forest_model(before).update(k as int, node_model(ns@[k as int])));
            }
            Attach::Done
        } else {
            Attach::Misfit
        }
    } else {
        let ghost before = ns@;
        proof {
            let fm = forest_model(ns@);
            assert(fm[k as int].children == forest_model(ns@[k as int].nodes@));
            assert(decreases_to!(fm => fm[k as int]));
            assert(decreases_to!(fm[k as int] => fm[k as int].children));
        }
        match attach_under(&mut ns[k].nodes, 0, pid, node, depth) {
            Attach::Done => {
                proof {
                    lemma_forest_model(ns@);
                    assert(forest_model(ns@) =~= forest_model(before).update(k as int, node_model(ns@[k as int])));
                }
                Attach::Done
            },
            Attach::Misfit => Attach::Misfit,
            Attach::Missing(node) => {
                proof {
                    lemma_forest_model(ns@);
                    assert(forest_model(ns@) =~= forest_model(before));
                }
                attach_under(ns, k + 1, pid, node, depth)
            },
        }
    }
}

} // verus!

verus! {

/// Below depth 1 nothing fits: the depth asked for no longer matters.
proof fn lemma_place_unfit(f: Seq<NodeModel>, k: int, pid: usize, e: Entry, d1: int, d2: int)
    requires
        d1 < 1 || d1 == d2,
        d2 < 1 || d1 == d2,
    ensures
        place_from(f, k, pid, e, d1) == place_from(f, k, pid, e, d2),
    decreases f, f.len() - k,
{
    if 0 <= k < f.len() && !is_project_with(f[k].entry, pid) {
        lemma_place_unfit(f[k].children, 0, pid, e, d1, d2);
        lemma_place_unfit(f, k + 1, pid, e, d1, d2);
    }
}

/// Once a prefix of the projects fails, all of them fail the same way.
proof fn lemma_project_forest_err(ps: Seq<Project>, n: int)
    requires
        0 <= n <= ps.len(),
        project_forest(ps.take(n)) is Err,
    ensures
        project_forest(ps) == project_forest(ps.take(n)),
    decreases ps.len() - n,
{
    if n < ps.len() {
        assert(ps.take(n + 1).drop_last() =~= ps.take(n));
        lemma_project_forest_err(ps, n + 1);
    } else {
        assert(ps.take(n) =~= ps);
    }
}

/// Once a prefix of the items fails, all of them fail the same way.
proof fn lemma_items_forest_err(f: Seq<NodeModel>, is: Seq<Item>, n: int)
    requires
        0 <= n <= is.len(),
        items_forest(f, is.take(n)) is Err,
    ensures
        items_forest(f, is) == items_forest(f, is.take(n)),
    decreases is.len() - n,
{
    if n < is.len() {
        assert(is.take(n + 1).drop_last() =~= is.take(n));
        lemma_items_forest_err(f, is, n + 1);
    } else {
        assert(is.take(n) =~= is);
    }
}

impl TaskTree {
    /// An empty tree.
    pub fn new() -> (r: TaskTree)
        ensures
            r.nodes@.len() == 0,
    {
        TaskTree { nodes: Vec::new() }
    }

    /// The model of the whole tree: its roots.
    pub open spec fn model(&self) -> Seq<NodeModel> {
        forest_model(self.nodes@)
    }

    /// Builds the tree from rank-ordered projects and items. Each project
    /// is attached at its indent level; each item goes below the first
    /// project, in pre-order, with its project id, `indent - 1` levels down.
    /// Fails with `MissingParent` on the first item whose project id no
    /// project record has, before anything is placed and whatever the
    /// indents; otherwise with `BadIndent` on the first record whose level
    /// has no node one level up to hold it.
    pub fn build(projects: Vec<Project>, items: Vec<Item>) -> (r: Result<TaskTree, BuildError>)
        ensures
            match r {
                Ok(t) => build_model(projects@, items@) == Ok::<Seq<NodeModel>, BuildError>(t.model()),
                Err(e) => build_model(projects@, items@) == Err::<Seq<NodeModel>, BuildError>(e),
            },
    {
        let ghost ps = projects@;
        let ghost is = items@;
        if let Some(pid) = first_missing_parent(&projects, &items) {
            return Err(BuildError::MissingParent(pid));
        }
        let mut tree = TaskTree::new();
        assert(ps.take(0) =~= Seq::<Project>::empty());
        for p in it: projects
            invariant
                it.seq() == ps,
                is == items@,
                missing_parent(ps, is) is None,
                project_forest(ps.take(it.index() as int)) == Ok::<Seq<NodeModel>, BuildError>(tree.model()),
        {
            let ghost n = it.index() as int;
            proof {
                assert(ps.take(n + 1).drop_last() =~= ps.take(n));
                assert(ps.take(n + 1).last() == p);
            }
            let level = p.indent;
            if !level_fits(&tree.nodes, level) {
                proof {
                    lemma_project_forest_err(ps, n + 1);
                }
                return Err(BuildError::BadIndent(p.id));
            }
            push_level(&mut tree.nodes, NodeType::ProjectNodeType(p), level);
        }
        assert(ps.take(ps.len() as int) =~= ps);
        let ghost f = tree.model();
        assert(is.take(0) =~= Seq::<Item>::empty());
        for i in it: items
            invariant
                it.seq() == is,
                ps == projects@,
                missing_parent(ps, is) is None,
                project_forest(ps) == Ok::<Seq<NodeModel>, BuildError>(f),
                items_forest(f, is.take(it.index() as int)) == Ok::<Seq<NodeModel>, BuildError>(tree.model()),
        {
            let ghost n = it.index() as int;
            proof {
                assert(is.take(n + 1).drop_last() =~= is.take(n));
                assert(is.take(n + 1).last() == i);
            }
            let id = i.id;
            let pid = i.project_id;
            let depth = if i.indent == 0 { 0 } else { i.indent - 1 };
            let ghost g = tree.model();
            proof {
                lemma_place_unfit(g, 0, pid, item_entry(i), i.indent - 1, depth as int);
                assert(items_forest(f, is.take(n + 1)) == place_item(g, i));
            }
            match attach_under(&mut tree.nodes, 0, pid, NodeType::ItemNodeType(i), depth) {
                Attach::Done => {},
                Attach::Misfit => {
                    proof {
                        lemma_items_forest_err(f, is, n + 1);
                    }
                    return Err(BuildError::BadIndent(id));
                },
                Attach::Missing(_) => {
                    proof {
                        lemma_items_forest_err(f, is, n + 1);
                    }
                    return Err(BuildError::MissingParent(pid));
                },
            }
        }
        assert(is.take(is.len() as int) =~= is);
        Ok(tree)
    }
}

} // verus!

verus! {

/// The number of nodes in a forest.
pub open spec fn count(f: Seq<NodeModel>) -> nat
    decreases f,
{
    if f.len() == 0 {
        0
    } else {
        count(f.drop_last()) + 1 + count(f.last().children)
    }
}

/// The entries of a forest in depth-first pre-order, each with its depth;
/// the roots are at depth `d`.
pub open spec fn preorder(f: Seq<NodeModel>, d: nat) -> Seq<(Entry, nat)>
    decreases f,
{
    if f.len() == 0 {
        Seq::empty()
    } else {
        preorder(f.drop_last(), d) + seq![(f.last().entry, d)] + preorder(f.last().children, d + 1)
    }
}

/// Attaching a node adds one node, and appends it, at its level, to the
/// pre-order of the forest.
pub proof fn lemma_attach_at(f: Seq<NodeModel>, e: Entry, level: nat, d: nat)
    requires
        fits(f, level as int),
    ensures
        count(attach_at(f, e, level)) == count(f) + 1,
        preorder(attach_at(f, e, level), d) == preorder(f, d).push((e, (d + level - 1) as nat)),
    decreases level,
{
    let leaf = NodeModel { entry: e, children: Seq::empty() };
    if level <= 1 || f.len() == 0 {
        assert(f.push(leaf).drop_last() == f);
        assert(preorder(leaf.children, d + 1) == Seq::<(Entry, nat)>::empty());
        assert(count(leaf.children) == 0);
        assert(count(f.push(leaf)) == count(f) + 1);
        assert(preorder(f.push(leaf), d) =~= preorder(f, d).push((e, d)));
    } else {
        let last = f.last();
        lemma_attach_at(last.children, e, (level - 1) as nat, d + 1);
        let g = attach_at(f, e, level);
        assert(g.drop_last() == f.drop_last());
        assert(count(g) == count(f.drop_last()) + 1 + count(g.last().children));
        assert(preorder(g, d) =~= preorder(f, d).push((e, (d + level - 1) as nat)));
    }
}

/// Changing one tree of a forest changes the count by the difference.
proof fn lemma_count_update(f: Seq<NodeModel>, k: int, x: NodeModel)
    requires
        0 <= k < f.len(),
    ensures
        count(f.update(k, x)) + count(seq![f[k]]) == count(f) + count(seq![x]),
    decreases f.len(),
{
    let g = f.update(k, x);
    assert(seq![f[k]].drop_last() =~= Seq::<NodeModel>::empty());
    assert(seq![x].drop_last() =~= Seq::<NodeModel>::empty());
    if k < f.len() - 1 {
        assert(g.drop_last() =~= f.drop_last().update(k, x));
        lemma_count_update(f.drop_last(), k, x);
    } else {
        assert(g.drop_last() =~= f.drop_last());
    }
}

/// Placing a node under a project adds one node.
pub proof fn lemma_place_count(f: Seq<NodeModel>, k: int, pid: usize, e: Entry, depth: int)
    ensures
        place_from(f, k, pid, e, depth) matches Placement::Placed(g) ==> count(g) == count(f) + 1,
    decreases f, f.len() - k,
{
    if 0 <= k < f.len() {
        let t = f[k];
        assert(seq![t].drop_last() =~= Seq::<NodeModel>::empty());
        if is_project_with(t.entry, pid) {
            if fits(t.children, depth) {
                let x = NodeModel { entry: t.entry, children: attach_at(t.children, e, depth as nat) };
                lemma_attach_at(t.children, e, depth as nat, 0);
                assert(seq![x].drop_last() =~= Seq::<NodeModel>::empty());
                lemma_count_update(f, k, x);
            }
        } else {
            lemma_place_count(t.children, 0, pid, e, depth);
            lemma_place_count(f, k + 1, pid, e, depth);
            if let Placement::Placed(c) = place_from(t.children, 0, pid, e, depth) {
                let x = NodeModel { entry: t.entry, children: c };
                assert(seq![x].drop_last() =~= Seq::<NodeModel>::empty());
                lemma_count_update(f, k, x);
            }
        }
    }
}

/// The projects alone: their pre-order, with depths, is the input itself.
pub proof fn lemma_project_shape(ps: Seq<Project>)
    ensures
        project_forest(ps) matches Ok(f) ==> {
            &&& count(f) == ps.len()
            &&& preorder(f, 1) == ps.map_values(|p: Project| (project_entry(p), p.indent as nat))
        },
    decreases ps.len(),
{
    if ps.len() > 0 {
        lemma_project_shape(ps.drop_last());
        if let Ok(f0) = project_forest(ps.drop_last()) {
            let p = ps.last();
            if fits(f0, p.indent as int) {
                lemma_attach_at(f0, project_entry(p), p.indent as nat, 1);
                assert(ps.map_values(|p: Project| (project_entry(p), p.indent as nat)) =~= ps.drop_last().map_values(
                    |p: Project| (project_entry(p), p.indent as nat),
                ).push((project_entry(p), p.indent as nat)));
            }
        }
    } else {
        assert(ps.map_values(|p: Project| (project_entry(p), p.indent as nat)) =~= Seq::<(Entry, nat)>::empty());
    }
}

proof fn lemma_items_count(f: Seq<NodeModel>, is: Seq<Item>)
    ensures
        items_forest(f, is) matches Ok(g) ==> count(g) == count(f) + is.len(),
    decreases is.len(),
{
    if is.len() > 0 {
        lemma_items_count(f, is.drop_last());
        if let Ok(g0) = items_forest(f, is.drop_last()) {
            let it = is.last();
            lemma_place_count(g0, 0, it.project_id, item_entry(it), it.indent - 1);
        }
    }
}

/// A tree built from the records holds one node per record, and the
/// projects, read in pre-order with their depths, are the project records
/// with their indents, in order.
pub proof fn lemma_build_shape(ps: Seq<Project>, is: Seq<Item>)
    ensures
        build_model(ps, is) matches Ok(g) ==> count(g) == ps.len() + is.len(),
        project_forest(ps) matches Ok(f) ==> preorder(f, 1) == ps.map_values(
            |p: Project| (project_entry(p), p.indent as nat),
        ),
{
    lemma_project_shape(ps);
    if let Ok(f) = project_forest(ps) {
        lemma_items_count(f, is);
    }
}

} // verus!

verus! {

pub open spec fn entry_id(e: Entry) -> usize {
    match e {
        Entry::Project { id, .. } => id,
        Entry::Item { id, .. } => id,
    }
}

impl NodeType {
    /// The id of the wrapped project or item.
    pub fn id(&self) -> (r: usize)
        ensures
            r == entry_id(self.entry()),
    {
        match self {
            NodeType::ProjectNodeType(project) => project.id,
            NodeType::ItemNodeType(item) => item.id,
        }
    }

    /// The project's name or the item's content.
    pub fn name(&self) -> (r: String)
        ensures
            r@ == (match self.entry() {
                Entry::Project { name, .. } => name,
                Entry::Item { name, .. } => name,
            }),
    {
        match self {
            NodeType::ProjectNodeType(project) => project.name.clone(),
            NodeType::ItemNodeType(item) => item.content.clone(),
        }
    }

    /// Whether it is a done item; a project never is.
    pub fn checked(&self) -> (r: bool)
        ensures
            r == (self.entry() matches Entry::Item { checked, .. } && checked),
    {
        match self {
            NodeType::ProjectNodeType(_) => false,
            NodeType::ItemNodeType(item) => item.checked == 1,
        }
    }

    pub fn is_project(&self) -> (r: bool)
        ensures
            r == (self is ProjectNodeType),
    {
        match self {
            NodeType::ProjectNodeType(_) => true,
            NodeType::ItemNodeType(_) => false,
        }
    }

    pub fn is_item(&self) -> (r: bool)
        ensures
            r == (self is ItemNodeType),
    {
        !self.is_project()
    }
}

impl Node {
    /// The id of the wrapped project or item.
    pub fn id(&self) -> (r: usize)
        ensures
            r == entry_id(self.ntype.entry()),
    {
        self.ntype.id()
    }

    /// The project's name or the item's content.
    pub fn name(&self) -> (r: String)
        ensures
            r@ == (match self.ntype.entry() {
                Entry::Project { name, .. } => name,
                Entry::Item { name, .. } => name,
            }),
    {
        self.ntype.name()
    }

    /// Whether it is a done item.
    pub fn checked(&self) -> (r: bool)
        ensures
            r == (self.ntype.entry() matches Entry::Item { checked, .. } && checked),
    {
        self.ntype.checked()
    }

    pub fn is_project(&self) -> (r: bool)
        ensures
            r == (self.ntype is ProjectNodeType),
    {
        self.ntype.is_project()
    }

    pub fn is_item(&self) -> (r: bool)
        ensures
            r == (self.ntype is ItemNodeType),
    {
        self.ntype.is_item()
    }
}

} // verus!

verus! {

/// The entry is a project (or an item, if `project` is false) with id `id`.
pub open spec fn is_wanted(e: Entry, id: usize, project: bool) -> bool {
    entry_id(e) == id && (e is Project) == project
}

/// The first node from position `k` on, in pre-order, whose entry is wanted.
pub open spec fn find_from(f: Seq<NodeModel>, k: int, id: usize, project: bool) -> Option<NodeModel>
    decreases f, f.len() - k,
{
    if k < 0 || k >= f.len() {
        None
    } else {
        let t = f[k];
        if is_wanted(t.entry, id, project) {
            Some(t)
        } else {
            match find_from(t.children, 0, id, project) {
                Some(x) => Some(x),
                None => find_from(f, k + 1, id, project),
            }
        }
    }
}

/// The first wanted node of the subtree rooted at `t`, in pre-order.
pub open spec fn find_in(t: NodeModel, id: usize, project: bool) -> Option<NodeModel> {
    if is_wanted(t.entry, id, project) {
        Some(t)
    } else {
        find_from(t.children, 0, id, project)
    }
}

fn search_from(ns: &Vec<Node>, k: usize, id: usize, project: bool) -> (r: Option<&Node>)
    requires
        k <= ns.len(),
    ensures
        match find_from(forest_model(ns@), k as int, id, project) {
            Some(m) => r matches Some(n) && node_model(*n) == m,
            None => r is None,
        },
    decreases forest_model(ns@), ns@.len() - k,
{
    proof {
        lemma_forest_model(ns@);
    }
    if k >= ns.len() {
        return None;
    }
    let node = &ns[k];
    let wanted = node.id() == id && node.is_project() == project;
    if wanted {
        return Some(node);
    }
    proof {
        let fm = forest_model(ns@);
        assert(decreases_to!(fm => fm[k as int]));
        assert(decreases_to!(fm[k as int] => fm[k as int].children));
    }
    match search_from(&node.nodes, 0, id, project) {
        Some(found) => Some(found),
        None => search_from(ns, k + 1, id, project),
    }
}

impl Node {
    /// The first node of this subtree, in pre-order, that is a project with
    /// id `id`.
    pub fn search_project(&self, id: usize) -> (r: Option<&Node>)
        ensures
            match find_in(node_model(*self), id, true) {
                Some(m) => r matches Some(n) && node_model(*n) == m,
                None => r is None,
            },
    {
        if self.id() == id && self.is_project() {
            Some(self)
        } else {
            search_from(&self.nodes, 0, id, true)
        }
    }

    /// The first node of this subtree, in pre-order, that is an item with
    /// id `id`.
    pub fn search_item(&self, id: usize) -> (r: Option<&Node>)
        ensures
            match find_in(node_model(*self), id, false) {
                Some(m) => r matches Some(n) && node_model(*n) == m,
                None => r is None,
            },
    {
        if self.id() == id && self.is_item() {
            Some(self)
        } else {
            search_from(&self.nodes, 0, id, false)
        }
    }
}

impl TaskTree {
    /// The first project with id `id`, in pre-order over the whole tree.
    pub fn search_project(&self, id: usize) -> (r: Option<&Node>)
        ensures
            match find_from(self.model(), 0, id, true) {
                Some(m) => r matches Some(n) && node_model(*n) == m,
                None => r is None,
            },
    {
        search_from(&self.nodes, 0, id, true)
    }
}

} // verus!

verus! {

/// The id of the entry, as a set, if it is a project.
pub open spec fn own_project_id(e: Entry) -> Set<usize> {
    match e {
        Entry::Project { id, .. } => set![id],
        Entry::Item { .. } => Set::empty(),
    }
}

/// The ids of the projects in a forest.
pub open spec fn project_ids(f: Seq<NodeModel>) -> Set<usize>
    decreases f,
{
    if f.len() == 0 {
        Set::empty()
    } else {
        project_ids(f.drop_last()) + own_project_id(f.last().entry) + project_ids(f.last().children)
    }
}

/// The ids of the project records.
pub open spec fn record_ids(ps: Seq<Project>) -> Set<usize> {
    Set::new(|id: usize| exists|j: int| 0 <= j < ps.len() && ps[j].id == id)
}

proof fn lemma_ids_concat(a: Seq<NodeModel>, b: Seq<NodeModel>)
    ensures
        project_ids(a + b) == project_ids(a) + project_ids(b),
    decreases b.len(),
{
    if b.len() == 0 {
        assert(a + b =~= a);
        assert(project_ids(a) + project_ids(b) =~= project_ids(a));
    } else {
        lemma_ids_concat(a, b.drop_last());
        assert((a + b).drop_last() =~= a + b.drop_last());
        assert((a + b).last() == b.last());
        assert(project_ids(a + b) =~= project_ids(a) + project_ids(b));
    }
}

proof fn lemma_ids_single(t: NodeModel)
    ensures
        project_ids(seq![t]) == own_project_id(t.entry) + project_ids(t.children),
{
    assert(seq![t].drop_last() =~= Seq::<NodeModel>::empty());
    assert(seq![t].last() == t);
    assert(project_ids(Seq::<NodeModel>::empty()) == Set::<usize>::empty());
    assert(project_ids(seq![t]) =~= own_project_id(t.entry) + project_ids(t.children));
}

/// The ids from position `k` on: those of the tree at `k`, then the rest.
proof fn lemma_ids_split(f: Seq<NodeModel>, k: int)
    requires
        0 <= k < f.len(),
    ensures
        project_ids(f.subrange(k, f.len() as int)) == own_project_id(f[k].entry) + project_ids(f[k].children)
            + project_ids(f.subrange(k + 1, f.len() as int)),
{
    assert(f.subrange(k, f.len() as int) =~= seq![f[k]] + f.subrange(k + 1, f.len() as int));
    lemma_ids_concat(seq![f[k]], f.subrange(k + 1, f.len() as int));
    lemma_ids_single(f[k]);
}

/// A search from position `k` finds no project exactly when none of the
/// trees from `k` on has one with the id.
proof fn lemma_missing_iff(f: Seq<NodeModel>, k: int, pid: usize, e: Entry, depth: int)
    requires
        0 <= k <= f.len(),
    ensures
        (place_from(f, k, pid, e, depth) is Missing) <==> !project_ids(f.subrange(k, f.len() as int)).contains(pid),
    decreases f, f.len() - k,
{
    if k == f.len() {
        assert(f.subrange(k, f.len() as int) =~= Seq::<NodeModel>::empty());
    } else {
        let t = f[k];
        lemma_ids_split(f, k);
        if !is_project_with(t.entry, pid) {
            lemma_missing_iff(t.children, 0, pid, e, depth);
            assert(t.children.subrange(0, t.children.len() as int) =~= t.children);
            lemma_missing_iff(f, k + 1, pid, e, depth);
        }
    }
}

/// Attaching a node adds its id if it is a project, and nothing else.
proof fn lemma_attach_ids(f: Seq<NodeModel>, e: Entry, level: nat)
    ensures
        project_ids(attach_at(f, e, level)) == project_ids(f) + own_project_id(e),
    decreases level,
{
    let leaf = NodeModel { entry: e, children: Seq::empty() };
    if level <= 1 || f.len() == 0 {
        assert(f.push(leaf).drop_last() =~= f);
        assert(project_ids(leaf.children) =~= Set::<usize>::empty());
        assert(project_ids(f.push(leaf)) =~= project_ids(f) + own_project_id(e));
    } else {
        let last = f.last();
        lemma_attach_ids(last.children, e, (level - 1) as nat);
        let g = attach_at(f, e, level);
        assert(g.drop_last() =~= f.drop_last());
        assert(project_ids(g) =~= project_ids(f) + own_project_id(e));
    }
}

/// Replacing a tree by one with the same project ids keeps the forest's ids.
proof fn lemma_update_ids(f: Seq<NodeModel>, k: int, x: NodeModel)
    requires
        0 <= k < f.len(),
        project_ids(seq![x]) == project_ids(seq![f[k]]),
    ensures
        project_ids(f.update(k, x)) == project_ids(f),
{
    let g = f.update(k, x);
    assert(f =~= f.take(k) + seq![f[k]] + f.skip(k + 1));
    assert(g =~= f.take(k) + seq![x] + f.skip(k + 1));
    lemma_ids_concat(f.take(k) + seq![f[k]], f.skip(k + 1));
    lemma_ids_concat(f.take(k), seq![f[k]]);
    lemma_ids_concat(f.take(k) + seq![x], f.skip(k + 1));
    lemma_ids_concat(f.take(k), seq![x]);
}

/// Placing an item under a project leaves the project ids as they were.
proof fn lemma_place_ids(f: Seq<NodeModel>, k: int, pid: usize, e: Entry, depth: int)
    requires
        e is Item,
    ensures
        place_from(f, k, pid, e, depth) matches Placement::Placed(g) ==> project_ids(g) == project_ids(f),
    decreases f, f.len() - k,
{
    if 0 <= k < f.len() {
        let t = f[k];
        lemma_ids_single(t);
        if is_project_with(t.entry, pid) {
            if fits(t.children, depth) {
                let x = NodeModel { entry: t.entry, children: attach_at(t.children, e, depth as nat) };
                lemma_attach_ids(t.children, e, depth as nat);
                assert(project_ids(t.children) + own_project_id(e) =~= project_ids(t.children));
                lemma_ids_single(x);
                lemma_update_ids(f, k, x);
            }
        } else {
            lemma_place_ids(t.children, 0, pid, e, depth);
            lemma_place_ids(f, k + 1, pid, e, depth);
            if let Placement::Placed(c) = place_from(t.children, 0, pid, e, depth) {
                let x = NodeModel { entry: t.entry, children: c };
                lemma_ids_single(x);
                lemma_update_ids(f, k, x);
            }
        }
    }
}

proof fn lemma_project_forest_ids(ps: Seq<Project>)
    ensures
        project_forest(ps) matches Ok(f) ==> project_ids(f) == record_ids(ps),
        project_forest(ps) matches Err(e) ==> e is BadIndent,
    decreases ps.len(),
{
    if ps.len() == 0 {
        assert(record_ids(ps) =~= Set::<usize>::empty());
    } else {
        lemma_project_forest_ids(ps.drop_last());
        if let Ok(f0) = project_forest(ps.drop_last()) {
            let p = ps.last();
            lemma_attach_ids(f0, project_entry(p), p.indent as nat);
            assert forall|id: usize| record_ids(ps).contains(id) == (record_ids(ps.drop_last()) + set![p.id]).contains(id) by {
                if record_ids(ps).contains(id) {
                    let j = choose|j: int| 0 <= j < ps.len() && ps[j].id == id;
                    if j < ps.len() - 1 {
                        assert(ps.drop_last()[j].id == id);
                    }
                }
                if record_ids(ps.drop_last()).contains(id) {
                    let j = choose|j: int| 0 <= j < ps.drop_last().len() && ps.drop_last()[j].id == id;
                    assert(ps[j].id == id);
                }
                if id == p.id {
                    assert(ps[ps.len() - 1].id == id);
                }
            }
            assert(record_ids(ps) =~= record_ids(ps.drop_last()) + set![p.id]);
        }
    }
}

proof fn lemma_items_forest_ids(f: Seq<NodeModel>, is: Seq<Item>)
    ensures
        items_forest(f, is) matches Ok(g) ==> project_ids(g) == project_ids(f),
        items_forest(f, is) matches Err(BuildError::MissingParent(x)) ==> !project_ids(f).contains(x),
    decreases is.len(),
{
    if is.len() > 0 {
        lemma_items_forest_ids(f, is.drop_last());
        if let Ok(g0) = items_forest(f, is.drop_last()) {
            let it = is.last();
            lemma_place_ids(g0, 0, it.project_id, item_entry(it), it.indent - 1);
            lemma_missing_iff(g0, 0, it.project_id, item_entry(it), it.indent - 1);
            assert(g0.subrange(0, g0.len() as int) =~= g0);
        }
    }
}

/// A missing parent names an id that no project record has.
proof fn lemma_missing_absent(ps: Seq<Project>, is: Seq<Item>)
    ensures
        missing_parent(ps, is) matches Some(x) ==> !record_ids(ps).contains(x),
    decreases is.len(),
{
    if is.len() > 0 {
        lemma_missing_absent(ps, is.drop_last());
    }
}

/// In any order of the records, and whatever their indents, the build
/// fails with the project id of the first item whose project id no project
/// record has; and a missing-parent failure always names such an id.
pub proof fn lemma_missing_parent(ps: Seq<Project>, is: Seq<Item>, i: int)
    requires
        0 <= i < is.len(),
        !record_ids(ps).contains(is[i].project_id),
        forall|j: int| 0 <= j < i ==> record_ids(ps).contains(#[trigger] is[j].project_id),
    ensures
        build_model(ps, is) == Err::<Seq<NodeModel>, BuildError>(BuildError::MissingParent(is[i].project_id)),
{
    lemma_no_missing_before(ps, is, i);
    assert(is.take(i + 1).drop_last() =~= is.take(i));
    assert(is.take(i + 1).last() == is[i]);
    lemma_missing_prefix(ps, is, i + 1);
}

proof fn lemma_no_missing_before(ps: Seq<Project>, is: Seq<Item>, n: int)
    requires
        0 <= n <= is.len(),
        forall|j: int| 0 <= j < n ==> record_ids(ps).contains(#[trigger] is[j].project_id),
    ensures
        missing_parent(ps, is.take(n)) is None,
    decreases n,
{
    if n > 0 {
        assert(is.take(n).drop_last() =~= is.take(n - 1));
        assert(is.take(n).last() == is[n - 1]);
        lemma_no_missing_before(ps, is, n - 1);
    } else {
        assert(is.take(0).len() == 0);
    }
}

/// A missing-parent failure of the build always names a project id that no
/// project record has.
pub proof fn lemma_missing_parent_named(ps: Seq<Project>, is: Seq<Item>)
    ensures
        build_model(ps, is) matches Err(BuildError::MissingParent(x)) ==> !record_ids(ps).contains(x),
{
    lemma_missing_absent(ps, is);
    lemma_project_forest_ids(ps);
    if let Ok(f) = project_forest(ps) {
        lemma_items_forest_ids(f, is);
    }
}

} // verus!

verus! {

/// A placement from position `k` on changes no tree before `k`, and the
/// search finds no project exactly when the placement finds none.
proof fn lemma_place_frame(f: Seq<NodeModel>, k: int, pid: usize, e: Entry, depth: int)
    ensures
        (place_from(f, k, pid, e, depth) is Missing) <==> (find_from(f, k, pid, true) is None),
        place_from(f, k, pid, e, depth) matches Placement::Placed(g) ==> {
            &&& g.len() == f.len()
            &&& forall|j: int| 0 <= j < k ==> g[j] == f[j]
        },
    decreases f, f.len() - k,
{
    if 0 <= k < f.len() {
        let t = f[k];
        assert(is_project_with(t.entry, pid) == is_wanted(t.entry, pid, true));
        if !is_project_with(t.entry, pid) {
            lemma_place_frame(t.children, 0, pid, e, depth);
            lemma_place_frame(f, k + 1, pid, e, depth);
        }
    }
}

/// The item placed under a project ends up as the last entry of the
/// pre-order of that project's subtree, at its depth below the project;
/// the project itself is the first one with the id, before and after.
pub proof fn lemma_place_nesting(f: Seq<NodeModel>, k: int, pid: usize, e: Entry, depth: int)
    ensures
        place_from(f, k, pid, e, depth) matches Placement::Placed(g) ==> {
            &&& find_from(f, k, pid, true) matches Some(t)
            &&& find_from(g, k, pid, true) matches Some(t2)
            &&& t2.entry == t.entry
            &&& t2.children == attach_at(t.children, e, depth as nat)
            &&& preorder(t2.children, 1) == preorder(t.children, 1).push((e, depth as nat))
        },
    decreases f, f.len() - k,
{
    if 0 <= k < f.len() {
        let t = f[k];
        assert(is_project_with(t.entry, pid) == is_wanted(t.entry, pid, true));
        if is_project_with(t.entry, pid) {
            if fits(t.children, depth) {
                lemma_attach_at(t.children, e, depth as nat, 1);
            }
        } else {
            lemma_place_nesting(t.children, 0, pid, e, depth);
            lemma_place_frame(t.children, 0, pid, e, depth);
            lemma_place_nesting(f, k + 1, pid, e, depth);
            lemma_place_frame(f, k + 1, pid, e, depth);
            if let Placement::Placed(g) = place_from(f, k, pid, e, depth) {
                if place_from(t.children, 0, pid, e, depth) is Missing {
                    assert(g[k] == t);
                }
            }
        }
    }
}

/// Each item, once placed, is the last entry of the pre-order of the first
/// project with its id, `indent - 1` levels below it.
pub proof fn lemma_item_nesting(f: Seq<NodeModel>, it: Item)
    ensures
        place_item(f, it) matches Ok(g) ==> {
            &&& find_from(f, 0, it.project_id, true) matches Some(t)
            &&& find_from(g, 0, it.project_id, true) matches Some(t2)
            &&& t2.entry == t.entry
            &&& preorder(t2.children, 1) == preorder(t.children, 1).push((item_entry(it), (it.indent - 1) as nat))
        },
{
    lemma_place_nesting(f, 0, it.project_id, item_entry(it), it.indent - 1);
}

} // verus!

verus! {

/// How deep, below its project, the last of the first `n` items with
/// project id `pid` sits; 0 when there is none.
pub open spec fn last_depth(is: Seq<Item>, n: int, pid: usize) -> int
    decreases n,
{
    if n <= 0 {
        0
    } else if is[n - 1].project_id == pid {
        is[n - 1].indent - 1
    } else {
        last_depth(is, n - 1, pid)
    }
}

/// Well-formed records for a flat list of projects: every project at the
/// top level, every item's project among the records, and every item at
/// least one level below its project and at most one level deeper than
/// the item of the same project before it.
pub open spec fn flat_well_formed(ps: Seq<Project>, is: Seq<Item>) -> bool {
    &&& forall|j: int| 0 <= j < ps.len() ==> (#[trigger] ps[j]).indent == 1
    &&& forall|j: int| 0 <= j < is.len() ==> record_ids(ps).contains(#[trigger] is[j].project_id)
    &&& forall|j: int|
        0 <= j < is.len() ==> 2 <= (#[trigger] is[j]).indent <= last_depth(is, j, is[j].project_id) + 2
}

/// Attaching at a level that fits leaves the new node last at that depth.
proof fn lemma_attach_spine(f: Seq<NodeModel>, e: Entry, level: nat)
    requires
        fits(f, level as int),
    ensures
        spine(attach_at(f, e, level)) == level,
    decreases level,
{
    let leaf = NodeModel { entry: e, children: Seq::empty() };
    if level <= 1 || f.len() == 0 {
        assert(f.push(leaf).last() == leaf);
        assert(spine(leaf.children) == 0);
    } else {
        lemma_attach_spine(f.last().children, e, (level - 1) as nat);
    }
}

/// Top-level projects make one childless root each.
proof fn lemma_flat_projects(ps: Seq<Project>)
    requires
        forall|j: int| 0 <= j < ps.len() ==> (#[trigger] ps[j]).indent == 1,
    ensures
        project_forest(ps) matches Ok(f) && f.len() == ps.len() && forall|k: int|
            0 <= k < ps.len() ==> (#[trigger] f[k]).entry == project_entry(ps[k]) && f[k].children.len() == 0,
    decreases ps.len(),
{
    if ps.len() > 0 {
        assert forall|j: int| 0 <= j < ps.drop_last().len() implies (#[trigger] ps.drop_last()[j]).indent == 1 by {
            assert(ps.drop_last()[j] == ps[j]);
        }
        lemma_flat_projects(ps.drop_last());
        assert(ps[ps.len() - 1] == ps.last());
    }
}

/// Searching past roots that are not the project and hold no project.
proof fn lemma_place_skip(g: Seq<NodeModel>, j: int, k0: int, pid: usize, e: Entry, depth: int)
    requires
        0 <= j <= k0 <= g.len(),
        forall|m: int|
            j <= m < k0 ==> !is_project_with((#[trigger] g[m]).entry, pid) && project_ids(g[m].children)
                == Set::<usize>::empty(),
    ensures
        place_from(g, j, pid, e, depth) == place_from(g, k0, pid, e, depth),
    decreases k0 - j,
{
    if j < k0 {
        let t = g[j];
        lemma_missing_iff(t.children, 0, pid, e, depth);
        assert(t.children.subrange(0, t.children.len() as int) =~= t.children);
        assert(!project_ids(t.children).contains(pid));
        lemma_place_skip(g, j + 1, k0, pid, e, depth);
    }
}

/// The state of a flat forest after some items: each root is its project,
/// holds no project below it, and the first root with an id has its last
/// node as deep as the last item placed under it.
pub open spec fn flat_state(ps: Seq<Project>, is: Seq<Item>, n: int, g: Seq<NodeModel>) -> bool {
    &&& g.len() == ps.len()
    &&& forall|k: int| 0 <= k < g.len() ==> (#[trigger] g[k]).entry == project_entry(ps[k])
    &&& forall|k: int| 0 <= k < g.len() ==> project_ids((#[trigger] g[k]).children) == Set::<usize>::empty()
    &&& forall|k: int|
        0 <= k < g.len() && (forall|m: int| 0 <= m < k ==> ps[m].id != ps[k].id) ==> spine(
            (#[trigger] g[k]).children,
        ) == last_depth(is, n, ps[k].id)
}

proof fn lemma_flat_items(ps: Seq<Project>, is: Seq<Item>, n: int)
    requires
        flat_well_formed(ps, is),
        0 <= n <= is.len(),
    ensures
        project_forest(ps) matches Ok(f) && items_forest(f, is.take(n)) matches Ok(g) && flat_state(
            ps,
            is,
            n,
            g,
        ),
    decreases n,
{
    lemma_flat_projects(ps);
    let f = project_forest(ps)->Ok_0;
    if n == 0 {
        assert(is.take(0) =~= Seq::<Item>::empty());
        assert forall|k: int| 0 <= k < f.len() implies project_ids((#[trigger] f[k]).children) == Set::<usize>::empty() by {
            assert(f[k].children =~= Seq::<NodeModel>::empty());
            assert(project_ids(f[k].children) =~= Set::<usize>::empty());
        }
        assert forall|k: int| 0 <= k < f.len() implies spine((#[trigger] f[k]).children) == last_depth(is, 0, ps[k].id) by {
            assert(f[k].children =~= Seq::<NodeModel>::empty());
        }
    } else {
        lemma_flat_items(ps, is, n - 1);
        let g = items_forest(f, is.take(n - 1))->Ok_0;
        let it = is[n - 1];
        let pid = it.project_id;
        let d = it.indent - 1;
        assert(is.take(n).drop_last() =~= is.take(n - 1));
        assert(is.take(n).last() == it);
        assert(record_ids(ps).contains(pid));
        let k1 = choose|k: int| 0 <= k < ps.len() && ps[k].id == pid;
        let k0 = lemma_first_index(ps, pid, k1);
        assert(forall|m: int| 0 <= m < k0 ==> ps[m].id != pid);
        assert forall|m: int| 0 <= m < k0 implies !is_project_with((#[trigger] g[m]).entry, pid) && project_ids(
            g[m].children,
        ) == Set::<usize>::empty() by {
            assert(g[m].entry == project_entry(ps[m]));
        }
        lemma_place_skip(g, 0, k0, pid, item_entry(it), d);
        assert(g[k0].entry == project_entry(ps[k0]));
        let t = g[k0];
        assert(spine(t.children) == last_depth(is, n - 1, pid));
        lemma_attach_spine(t.children, item_entry(it), d as nat);
        lemma_attach_ids(t.children, item_entry(it), d as nat);
        let x = NodeModel { entry: t.entry, children: attach_at(t.children, item_entry(it), d as nat) };
        let g2 = g.update(k0, x);
        assert(items_forest(f, is.take(n)) == Ok::<Seq<NodeModel>, BuildError>(g2));
        assert(project_ids(x.children) =~= project_ids(t.children));
        assert forall|k: int|
            0 <= k < g2.len() && (forall|m: int| 0 <= m < k ==> ps[m].id != ps[k].id) implies spine(
            (#[trigger] g2[k]).children,
        ) == last_depth(is, n, ps[k].id) by {
            if k != k0 {
                assert(g2[k] == g[k]);
                if ps[k].id == pid {
                    if k < k0 {
                        assert(ps[k].id != pid);
                    } else {
                        assert(ps[k0].id == ps[k].id);
                    }
                }
            }
        }
    }
}

/// The first position with a given id, from a position that has it.
proof fn lemma_first_index(ps: Seq<Project>, pid: usize, k: int) -> (k0: int)
    requires
        0 <= k < ps.len(),
        ps[k].id == pid,
    ensures
        0 <= k0 <= k,
        ps[k0].id == pid,
        forall|m: int| 0 <= m < k0 ==> ps[m].id != pid,
    decreases k,
{
    if exists|m: int| 0 <= m < k && ps[m].id == pid {
        let m = choose|m: int| 0 <= m < k && ps[m].id == pid;
        lemma_first_index(ps, pid, m)
    } else {
        k
    }
}

/// Well-formed records with top-level projects always make a tree, with
/// one node per record.
pub proof fn lemma_flat_build_succeeds(ps: Seq<Project>, is: Seq<Item>)
    requires
        flat_well_formed(ps, is),
    ensures
        build_model(ps, is) matches Ok(g) && count(g) == ps.len() + is.len(),
{
    lemma_no_missing_before(ps, is, is.len() as int);
    assert(is.take(is.len() as int) =~= is);
    lemma_flat_items(ps, is, is.len() as int);
    lemma_build_shape(ps, is);
}

} // verus!
