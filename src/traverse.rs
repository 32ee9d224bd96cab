//! Deciding, node by node, which items carry the next-action label.
use vstd::prelude::*;

use crate::tree::{forest_model, lemma_forest_model, node_model, Entry, Node, NodeModel, NodeType, TaskTree};
use crate::{PARALLEL, SEQUENTIAL};

verus! {

/// What a node's parent allows of it.
#[derive(Debug, Clone, Copy, PartialEq, Eq, Structural)]
pub enum TraversalState {
    /// Nothing below may be acted on.
    Suppressed,
    /// The node starts afresh: its own state does not come from above.
    Unconstrained,
    /// The node may be acted on.
    Active,
}

/// A request to give an item a new, complete set of label ids.
#[derive(Debug, Clone, PartialEq, Eq)]
pub struct LabelUpdate {
    pub id: usize,
    pub labels: Vec<usize>,
}

pub open spec fn update_view(u: LabelUpdate) -> (usize, Seq<usize>) {
    (u.id, u.labels@)
}

pub open spec fn updates_view(us: Seq<LabelUpdate>) -> Seq<(usize, Seq<usize>)> {
    us.map_values(|u: LabelUpdate| update_view(u))
}

pub open spec fn name_of(e: Entry) -> Seq<char> {
    match e {
        Entry::Project { name, .. } => name,
        Entry::Item { name, .. } => name,
    }
}

pub open spec fn ends_with(s: Seq<char>, c: char) -> bool {
    s.len() > 0 && s.last() == c
}

/// The children may be worked on side by side.
pub open spec fn is_parallel(e: Entry) -> bool {
    ends_with(name_of(e), PARALLEL)
}

/// The children are worked on one after another.
pub open spec fn is_sequential(e: Entry) -> bool {
    ends_with(name_of(e), SEQUENTIAL)
}

/// A done item; a project never is.
pub open spec fn is_checked(e: Entry) -> bool {
    match e {
        Entry::Project { .. } => false,
        Entry::Item { checked, .. } => checked,
    }
}

pub open spec fn labels_of(e: Entry) -> Seq<usize> {
    match e {
        Entry::Project { .. } => Seq::empty(),
        Entry::Item { labels, .. } => labels,
    }
}

/// The state a marked node hands down: active unless it was suppressed.
pub open spec fn sub_state(s: TraversalState) -> TraversalState {
    if s == TraversalState::Suppressed {
        TraversalState::Suppressed
    } else {
        TraversalState::Active
    }
}

/// All of the first `n` nodes are done items.
pub open spec fn leading_checked(cs: Seq<NodeModel>, n: int) -> bool {
    forall|j: int| 0 <= j < n ==> #[trigger] is_checked(cs[j].entry)
}

/// The state in which the child at position `i` of `t` is visited, when
/// `t` is visited in state `s`.
pub open spec fn child_state(t: NodeModel, s: TraversalState, i: int) -> TraversalState {
    if is_parallel(t.entry) {
        sub_state(s)
    } else if is_sequential(t.entry) {
        if leading_checked(t.children, i) {
            sub_state(s)
        } else {
            TraversalState::Suppressed
        }
    } else {
        TraversalState::Unconstrained
    }
}

/// An unchecked item visited in state `s` is to carry the next-action label.
pub open spec fn actionable(t: NodeModel, s: TraversalState, sd: usize) -> bool {
    &&& s == TraversalState::Active
    &&& (t.children.len() == 0 || leading_checked(t.children, t.children.len() as int) || (
    !is_parallel(t.entry) && !is_sequential(t.entry)))
    &&& !labels_of(t.entry).contains(sd)
}

/// `s` without any occurrence of `a` or `b`, in order.
pub open spec fn without(s: Seq<usize>, a: usize, b: usize) -> Seq<usize>
    decreases s.len(),
{
    if s.len() == 0 {
        s
    } else {
        let r = without(s.drop_last(), a, b);
        if s.last() == a || s.last() == b {
            r
        } else {
            r.push(s.last())
        }
    }
}

/// The new label set of the node's own item, if it changes.
pub open spec fn node_update(t: NodeModel, s: TraversalState, na: usize, sd: usize) -> Option<
    (usize, Seq<usize>),
> {
    match t.entry {
        Entry::Project { .. } => None,
        Entry::Item { id, checked, labels, .. } => {
            if checked {
                if labels.contains(na) || labels.contains(sd) {
                    Some((id, without(labels, na, sd)))
                } else {
                    None
                }
            } else if actionable(t, s, sd) {
                if !labels.contains(na) {
                    Some((id, seq![na] + labels))
                } else {
                    None
                }
            } else if labels.contains(na) {
                Some((id, without(labels, na, na)))
            } else {
                None
            }
        },
    }
}

pub open spec fn opt_seq(o: Option<(usize, Seq<usize>)>) -> Seq<(usize, Seq<usize>)> {
    match o {
        Some(u) => seq![u],
        None => Seq::empty(),
    }
}

/// The updates of a walk of `t` in state `s`: its own, then its children's
/// in order.
pub open spec fn tree_updates(t: NodeModel, s: TraversalState, na: usize, sd: usize) -> Seq<
    (usize, Seq<usize>),
>
    decreases t, t.children.len() + 1,
{
    opt_seq(node_update(t, s, na, sd)) + kids_updates(t, s, na, sd, t.children.len() as int)
}

/// The updates of the walks of the first `n` children of `t`.
pub open spec fn kids_updates(t: NodeModel, s: TraversalState, na: usize, sd: usize, n: int) -> Seq<
    (usize, Seq<usize>),
>
    decreases t, n,
{
    if n <= 0 || n > t.children.len() {
        Seq::empty()
    } else {
        kids_updates(t, s, na, sd, n - 1) + tree_updates(
            t.children[n - 1],
            child_state(t, s, n - 1),
            na,
            sd,
        )
    }
}

/// The updates of a walk of the first `n` roots, each unconstrained.
pub open spec fn roots_updates(f: Seq<NodeModel>, na: usize, sd: usize, n: int) -> Seq<
    (usize, Seq<usize>),
>
    decreases n,
{
    if n <= 0 || n > f.len() {
        Seq::empty()
    } else {
        roots_updates(f, na, sd, n - 1) + tree_updates(f[n - 1], TraversalState::Unconstrained, na, sd)
    }
}

/// The updates of a walk of the whole forest.
pub open spec fn forest_updates(f: Seq<NodeModel>, na: usize, sd: usize) -> Seq<(usize, Seq<usize>)> {
    roots_updates(f, na, sd, f.len() as int)
}

} // verus!

verus! {

fn has_label(labels: &Vec<usize>, x: usize) -> (r: bool)
    ensures
        r == labels@.contains(x),
{
    let mut i: usize = 0;
    while i < labels.len()
        invariant
            i <= labels.len(),
            forall|j: int| 0 <= j < i ==> labels@[j] != x,
        decreases labels.len() - i,
    {
        if labels[i] == x {
            return true;
        }
        i += 1;
    }
    false
}

fn without_labels(labels: &Vec<usize>, a: usize, b: usize) -> (r: Vec<usize>)
    ensures
        r@ == without(labels@, a, b),
{
    let mut r: Vec<usize> = Vec::new();
    let mut i: usize = 0;
    while i < labels.len()
        invariant
            i <= labels.len(),
            r@ == without(labels@.take(i as int), a, b),
        decreases labels.len() - i,
    {
        assert(labels@.take(i + 1).drop_last() =~= labels@.take(i as int));
        if labels[i] != a && labels[i] != b {
            r.push(labels[i]);
        }
        i += 1;
    }
    assert(labels@.take(labels.len() as int) =~= labels@);
    r
}

fn with_label_first(x: usize, labels: &Vec<usize>) -> (r: Vec<usize>)
    ensures
        r@ == seq![x] + labels@,
{
    let mut r: Vec<usize> = Vec::new();
    r.push(x);
    let mut i: usize = 0;
    while i < labels.len()
        invariant
            i <= labels.len(),
            r@ == seq![x] + labels@.take(i as int),
        decreases labels.len() - i,
    {
        r.push(labels[i]);
        i += 1;
        assert(r@ =~= seq![x] + labels@.take(i as int));
    }
    assert(labels@.take(labels.len() as int) =~= labels@);
    r
}

fn ends_with_char(s: &String, c: char) -> (r: bool)
    ensures
        r == ends_with(s@, c),
{
    let st = s.as_str();
    let n = st.unicode_len();
    if n == 0 {
        false
    } else {
        st.get_char(n - 1) == c
    }
}

fn name_ref(nt: &NodeType) -> (r: &String)
    ensures
        r@ == name_of(nt.entry()),
{
    match nt {
        NodeType::ProjectNodeType(p) => &p.name,
        NodeType::ItemNodeType(i) => &i.content,
    }
}

fn node_checked(n: &Node) -> (r: bool)
    ensures
        r == is_checked(n.ntype.entry()),
{
    match &n.ntype {
        NodeType::ProjectNodeType(_) => false,
        NodeType::ItemNodeType(i) => i.checked == 1,
    }
}

fn all_checked(ns: &Vec<Node>) -> (r: bool)
    ensures
        r == leading_checked(forest_model(ns@), ns@.len() as int),
{
    proof {
        lemma_forest_model(ns@);
    }
    let mut i: usize = 0;
    while i < ns.len()
        invariant
            i <= ns.len(),
            forest_model(ns@).len() == ns@.len(),
            forall|j: int| 0 <= j < ns@.len() ==> #[trigger] forest_model(ns@)[j] == node_model(ns@[j]),
            leading_checked(forest_model(ns@), i as int),
        decreases ns.len() - i,
    {
        if !node_checked(&ns[i]) {
            assert(!is_checked(forest_model(ns@)[i as int].entry));
            return false;
        }
        i += 1;
    }
    true
}

/// Walks the subtree of `node`, visited in `state`, appending its updates to
/// `out` in depth-first order.
pub fn traversal(node: &Node, out: &mut Vec<LabelUpdate>, state: TraversalState, naid: usize, sdid: usize)
    ensures
        updates_view(final(out)@) == updates_view(old(out)@) + tree_updates(
            node_model(*node),
            state,
            naid,
            sdid,
        ),
    decreases node,
{
    let ghost t = node_model(*node);
    proof {
        lemma_forest_model(node.nodes@);
    }
    let name = name_ref(&node.ntype);
    let is_parallel = ends_with_char(name, PARALLEL);
    let is_sequential = ends_with_char(name, SEQUENTIAL);
    match &node.ntype {
        NodeType::ItemNodeType(item) => {
            if item.checked == 1 {
                if has_label(&item.labels, naid) || has_label(&item.labels, sdid) {
                    out.push(LabelUpdate { id: item.id, labels: without_labels(&item.labels, naid, sdid) });
                }
            } else {
                let act = state == TraversalState::Active && (node.nodes.len() == 0 || all_checked(
                    &node.nodes,
                ) || (!is_parallel && !is_sequential)) && !has_label(&item.labels, sdid);
                if act {
                    if !has_label(&item.labels, naid) {
                        out.push(LabelUpdate { id: item.id, labels: with_label_first(naid, &item.labels) });
                    }
                } else if has_label(&item.labels, naid) {
                    out.push(LabelUpdate { id: item.id, labels: without_labels(&item.labels, naid, naid) });
                }
            }
        },
        NodeType::ProjectNodeType(_) => {},
    }
    assert(updates_view(out@) =~= updates_view(old(out)@) + opt_seq(node_update(t, state, naid, sdid)));
    let ghost mid = updates_view(out@);
    let mut substate = if state == TraversalState::Suppressed {
        TraversalState::Suppressed
    } else {
        TraversalState::Active
    };
    let mut i: usize = 0;
    while i < node.nodes.len()
        invariant
            i <= node.nodes.len(),
            t == node_model(*node),
            t.children.len() == node.nodes@.len(),
            forall|j: int| 0 <= j < node.nodes@.len() ==> #[trigger] t.children[j] == node_model(node.nodes@[j]),
            is_parallel == crate::traverse::is_parallel(t.entry),
            is_sequential == crate::traverse::is_sequential(t.entry),
            !is_parallel && is_sequential ==> substate == child_state(t, state, i as int),
            is_parallel ==> substate == sub_state(state),
            updates_view(out@) == mid + kids_updates(t, state, naid, sdid, i as int),
        decreases node.nodes.len() - i,
    {
        let cs = if is_parallel || is_sequential {
            substate
        } else {
            TraversalState::Unconstrained
        };
        assert(cs == child_state(t, state, i as int));
        let ghost before = updates_view(out@);
        traversal(&node.nodes[i], out, cs, naid, sdid);
        if is_sequential && !node_checked(&node.nodes[i]) {
            substate = TraversalState::Suppressed;
        }
        proof {
            assert(kids_updates(t, state, naid, sdid, i + 1) == kids_updates(t, state, naid, sdid, i as int)
                + tree_updates(t.children[i as int], child_state(t, state, i as int), naid, sdid));
            assert(updates_view(out@) =~= mid + kids_updates(t, state, naid, sdid, i + 1));
        }
        i += 1;
    }
    assert(updates_view(out@) =~= updates_view(old(out)@) + tree_updates(t, state, naid, sdid));
}

/// The label updates that a walk of the whole tree asks for, in the order
/// of a depth-first walk. Every root is visited unconstrained.
pub fn traverse(tree: &TaskTree, naid: usize, sdid: usize) -> (r: Vec<LabelUpdate>)
    ensures
        updates_view(r@) == forest_updates(tree.model(), naid, sdid),
{
    let mut out: Vec<LabelUpdate> = Vec::new();
    proof {
        lemma_forest_model(tree.nodes@);
    }
    let ghost f = tree.model();
    let mut i: usize = 0;
    while i < tree.nodes.len()
        invariant
            i <= tree.nodes.len(),
            f == tree.model(),
            f.len() == tree.nodes@.len(),
            forall|j: int| 0 <= j < tree.nodes@.len() ==> #[trigger] f[j] == node_model(tree.nodes@[j]),
            updates_view(out@) == roots_updates(f, naid, sdid, i as int),
        decreases tree.nodes.len() - i,
    {
        traversal(&tree.nodes[i], &mut out, TraversalState::Unconstrained, naid, sdid);
        i += 1;
    }
    out
}

} // verus!

verus! {

/// What `without` keeps: every other label, and only those.
pub proof fn lemma_without_contains(s: Seq<usize>, a: usize, b: usize, x: usize)
    ensures
        without(s, a, b).contains(x) <==> (s.contains(x) && x != a && x != b),
        without(s, a, b).len() <= s.len(),
        (s.contains(a) || s.contains(b)) ==> without(s, a, b).len() < s.len(),
    decreases s.len(),
{
    if s.len() > 0 {
        lemma_without_contains(s.drop_last(), a, b, x);
        let r = without(s.drop_last(), a, b);
        assert(s =~= s.drop_last().push(s.last()));
        if s.drop_last().contains(x) {
            let j = choose|j: int| 0 <= j < s.drop_last().len() && s.drop_last()[j] == x;
            assert(s[j] == x);
        }
        if s.contains(x) && s.last() != x {
            let j = choose|j: int| 0 <= j < s.len() && s[j] == x;
            assert(s.drop_last()[j] == x);
        }
        if r.contains(x) {
            let j = choose|j: int| 0 <= j < r.len() && r[j] == x;
            if !(s.last() == a || s.last() == b) {
                assert(r.push(s.last())[j] == x);
            }
        }
        if !(s.last() == a || s.last() == b) && s.last() == x {
            assert(r.push(s.last())[r.len() as int] == x);
        }
        if s.contains(a) && s.last() != a {
            let j = choose|j: int| 0 <= j < s.len() && s[j] == a;
            assert(s.drop_last()[j] == a);
            lemma_without_contains(s.drop_last(), a, b, a);
        }
        if s.contains(b) && s.last() != b {
            let j = choose|j: int| 0 <= j < s.len() && s[j] == b;
            assert(s.drop_last()[j] == b);
            lemma_without_contains(s.drop_last(), a, b, b);
        }
    }
}

/// A done item that carries either label gets one update that takes both
/// off and keeps every other label; a done item that carries neither is
/// left alone.
pub proof fn lemma_checked_cleanup(t: NodeModel, s: TraversalState, na: usize, sd: usize)
    requires
        t.entry is Item,
        is_checked(t.entry),
    ensures
        ({
            let labels = labels_of(t.entry);
            if labels.contains(na) || labels.contains(sd) {
                &&& node_update(t, s, na, sd) == Some((t.entry->Item_id, without(labels, na, sd)))
                &&& forall|x: usize|
                    without(labels, na, sd).contains(x) <==> (labels.contains(x) && x != na && x != sd)
            } else {
                node_update(t, s, na, sd) is None
            }
        }),
{
    assert forall|x: usize|
        without(labels_of(t.entry), na, sd).contains(x) <==> (labels_of(t.entry).contains(x) && x != na
            && x != sd) by {
        lemma_without_contains(labels_of(t.entry), na, sd, x);
    }
}

/// No update hands an item the label set it already has: not the same
/// sequence, and not the same set of ids.
pub proof fn lemma_update_changes(t: NodeModel, s: TraversalState, na: usize, sd: usize)
    ensures
        node_update(t, s, na, sd) matches Some(u) ==> u.1 != labels_of(t.entry) && u.1.to_set()
            != labels_of(t.entry).to_set(),
{
    let labels = labels_of(t.entry);
    lemma_without_contains(labels, na, sd, na);
    lemma_without_contains(labels, na, sd, sd);
    lemma_without_contains(labels, na, na, na);
    if let Some(u) = node_update(t, s, na, sd) {
        if u.1 == seq![na] + labels {
            assert(u.1.len() == labels.len() + 1);
            assert(u.1[0] == na);
            assert(u.1.to_set().contains(na));
            assert(!labels.to_set().contains(na));
        } else if labels.contains(na) {
            assert(labels.to_set().contains(na));
            assert(!u.1.to_set().contains(na));
        } else {
            assert(labels.to_set().contains(sd));
            assert(!u.1.to_set().contains(sd));
        }
    }
}

/// Below a sequential node, a child is visited active exactly when the
/// node is not suppressed and every child before it is a done item.
pub proof fn lemma_sequential_gating(t: NodeModel, s: TraversalState, i: int)
    requires
        is_sequential(t.entry),
        0 <= i < t.children.len(),
    ensures
        child_state(t, s, i) == TraversalState::Active <==> (s != TraversalState::Suppressed
            && leading_checked(t.children, i)),
        child_state(t, s, i) != TraversalState::Unconstrained,
{
}

/// Below a sequential node, of two unchecked children only the first can
/// be actionable.
pub proof fn lemma_sequential_first_only(t: NodeModel, s: TraversalState, sd: usize, i: int, j: int)
    requires
        is_sequential(t.entry),
        0 <= i < j < t.children.len(),
        !is_checked(t.children[i].entry),
    ensures
        !actionable(t.children[j], child_state(t, s, j), sd),
{
    assert(!leading_checked(t.children, j));
}

/// Below a parallel node visited active or unconstrained, every child is
/// visited active; an unchecked leaf child without the someday label is
/// actionable.
pub proof fn lemma_parallel_independence(t: NodeModel, s: TraversalState, sd: usize, i: int)
    requires
        is_parallel(t.entry),
        s != TraversalState::Suppressed,
        0 <= i < t.children.len(),
    ensures
        child_state(t, s, i) == TraversalState::Active,
        (t.children[i].children.len() == 0 && !labels_of(t.children[i].entry).contains(sd))
            ==> actionable(t.children[i], child_state(t, s, i), sd),
{
}

} // verus!

verus! {

/// The node's entry once its own update, if any, is applied.
pub open spec fn relabeled_entry(t: NodeModel, s: TraversalState, na: usize, sd: usize) -> Entry {
    match (node_update(t, s, na, sd), t.entry) {
        (Some(u), Entry::Item { id, name, checked, record, .. }) => Entry::Item {
            id,
            name,
            checked,
            labels: u.1,
            record,
        },
        _ => t.entry,
    }
}

/// `t` once every update of its walk in state `s` is applied in place.
pub open spec fn relabel(t: NodeModel, s: TraversalState, na: usize, sd: usize) -> NodeModel
    decreases t, t.children.len() + 1,
{
    NodeModel {
        entry: relabeled_entry(t, s, na, sd),
        children: relabel_kids(t, s, na, sd, t.children.len() as int),
    }
}

/// The first `n` children of `t`, each with its updates applied.
pub open spec fn relabel_kids(t: NodeModel, s: TraversalState, na: usize, sd: usize, n: int) -> Seq<
    NodeModel,
>
    decreases t, n,
{
    if n <= 0 || n > t.children.len() {
        Seq::empty()
    } else {
        relabel_kids(t, s, na, sd, n - 1).push(
            relabel(t.children[n - 1], child_state(t, s, n - 1), na, sd),
        )
    }
}

/// The forest once every update of its walk is applied in place.
pub open spec fn relabel_forest(f: Seq<NodeModel>, na: usize, sd: usize) -> Seq<NodeModel> {
    Seq::new(f.len(), |i: int| relabel(f[i], TraversalState::Unconstrained, na, sd))
}

proof fn lemma_relabel_kids(t: NodeModel, s: TraversalState, na: usize, sd: usize, n: int)
    requires
        0 <= n <= t.children.len(),
    ensures
        relabel_kids(t, s, na, sd, n).len() == n,
        forall|i: int|
            0 <= i < n ==> #[trigger] relabel_kids(t, s, na, sd, n)[i] == relabel(
                t.children[i],
                child_state(t, s, i),
                na,
                sd,
            ),
    decreases n,
{
    if n > 0 {
        lemma_relabel_kids(t, s, na, sd, n - 1);
    }
}

proof fn lemma_leading_same(a: Seq<NodeModel>, b: Seq<NodeModel>, n: int)
    requires
        0 <= n <= a.len(),
        n <= b.len(),
        forall|i: int| 0 <= i < n ==> #[trigger] is_checked(a[i].entry) == is_checked(b[i].entry),
    ensures
        leading_checked(a, n) == leading_checked(b, n),
{
    if leading_checked(a, n) {
        assert forall|j: int| 0 <= j < n implies #[trigger] is_checked(b[j].entry) by {
            assert(is_checked(a[j].entry));
        }
    }
    if leading_checked(b, n) {
        assert forall|j: int| 0 <= j < n implies #[trigger] is_checked(a[j].entry) by {
            assert(is_checked(b[j].entry));
        }
    }
}

proof fn lemma_kids_quiet(t: NodeModel, s: TraversalState, na: usize, sd: usize, n: int)
    requires
        0 <= n <= t.children.len(),
        forall|i: int|
            0 <= i < n ==> #[trigger] tree_updates(t.children[i], child_state(t, s, i), na, sd).len()
                == 0,
    ensures
        kids_updates(t, s, na, sd, n).len() == 0,
    decreases n,
{
    if n > 0 {
        lemma_kids_quiet(t, s, na, sd, n - 1);
        assert(tree_updates(t.children[n - 1], child_state(t, s, n - 1), na, sd).len() == 0);
    }
}

/// A walk of a tree whose updates were all applied asks for nothing.
pub proof fn lemma_relabel_quiet(t: NodeModel, s: TraversalState, na: usize, sd: usize)
    requires
        na != sd,
    ensures
        tree_updates(relabel(t, s, na, sd), s, na, sd).len() == 0,
    decreases t,
{
    let r = relabel(t, s, na, sd);
    let n = t.children.len() as int;
    lemma_relabel_kids(t, s, na, sd, n);
    let labels = labels_of(t.entry);
    lemma_without_contains(labels, na, sd, na);
    lemma_without_contains(labels, na, sd, sd);
    lemma_without_contains(labels, na, na, na);
    lemma_without_contains(labels, na, na, sd);
    assert((seq![na] + labels).contains(na)) by {
        assert((seq![na] + labels)[0] == na);
    }
    assert((seq![na] + labels).contains(sd) <==> labels.contains(sd)) by {
        if (seq![na] + labels).contains(sd) {
            let j = choose|j: int| 0 <= j < (seq![na] + labels).len() && (seq![na] + labels)[j] == sd;
            assert(labels[j - 1] == sd);
        }
        if labels.contains(sd) {
            let j = choose|j: int| 0 <= j < labels.len() && labels[j] == sd;
            assert((seq![na] + labels)[j + 1] == sd);
        }
    }
    assert forall|i: int| 0 <= i < n implies #[trigger] is_checked(r.children[i].entry) == is_checked(
        t.children[i].entry,
    ) by {}
    lemma_leading_same(r.children, t.children, n);
    assert forall|i: int| 0 <= i < n implies #[trigger] child_state(r, s, i) == child_state(t, s, i) by {
        lemma_leading_same(r.children, t.children, i);
    }
    assert(!is_checked(t.entry) ==> actionable(r, s, sd) == actionable(t, s, sd));
    assert(node_update(r, s, na, sd) is None);
    assert forall|i: int| 0 <= i < n implies #[trigger] tree_updates(
        r.children[i],
        child_state(r, s, i),
        na,
        sd,
    ).len() == 0 by {
        lemma_relabel_quiet(t.children[i], child_state(t, s, i), na, sd);
    }
    lemma_kids_quiet(r, s, na, sd, n);
}

proof fn lemma_roots_quiet(f: Seq<NodeModel>, na: usize, sd: usize, n: int)
    requires
        na != sd,
        0 <= n <= f.len(),
    ensures
        roots_updates(relabel_forest(f, na, sd), na, sd, n).len() == 0,
    decreases n,
{
    if n > 0 {
        lemma_roots_quiet(f, na, sd, n - 1);
        lemma_relabel_quiet(f[n - 1], TraversalState::Unconstrained, na, sd);
    }
}

/// Once the updates of a walk are applied, a second walk with the same
/// label ids asks for nothing.
pub proof fn lemma_traverse_idempotent(f: Seq<NodeModel>, na: usize, sd: usize)
    requires
        na != sd,
    ensures
        forest_updates(relabel_forest(f, na, sd), na, sd).len() == 0,
{
    lemma_roots_quiet(f, na, sd, f.len() as int);
}

} // verus!

verus! {

/// Once a node's update is applied, its item does not carry both labels.
pub proof fn lemma_labels_exclusive(t: NodeModel, s: TraversalState, na: usize, sd: usize)
    requires
        na != sd,
    ensures
        !(labels_of(relabeled_entry(t, s, na, sd)).contains(na) && labels_of(
            relabeled_entry(t, s, na, sd),
        ).contains(sd)),
{
    let labels = labels_of(t.entry);
    lemma_without_contains(labels, na, sd, na);
    lemma_without_contains(labels, na, na, na);
    if (seq![na] + labels).contains(sd) {
        let j = choose|j: int| 0 <= j < (seq![na] + labels).len() && (seq![na] + labels)[j] == sd;
        assert(labels[j - 1] == sd);
    }
}

} // verus!

verus! {

/// An unchecked item without children, with neither label.
pub open spec fn open_leaf(c: NodeModel, na: usize, sd: usize) -> bool {
    &&& c.entry is Item
    &&& !is_checked(c.entry)
    &&& c.children.len() == 0
    &&& !labels_of(c.entry).contains(na)
    &&& !labels_of(c.entry).contains(sd)
}

/// The update that gives an item the next-action label in front of its others.
pub open spec fn gains_next(c: NodeModel, na: usize) -> (usize, Seq<usize>) {
    (c.entry->Item_id, seq![na] + labels_of(c.entry))
}

/// The walk of a childless node visited in state `s` asks only for its own update.
proof fn lemma_leaf_updates(c: NodeModel, s: TraversalState, na: usize, sd: usize)
    requires
        c.children.len() == 0,
    ensures
        tree_updates(c, s, na, sd) == opt_seq(node_update(c, s, na, sd)),
{
    assert(kids_updates(c, s, na, sd, 0) == Seq::<(usize, Seq<usize>)>::empty());
    assert(tree_updates(c, s, na, sd) =~= opt_seq(node_update(c, s, na, sd)));
}

/// Below a sequential node that is not suppressed, of three unchecked
/// childless children only the first is given the next-action label.
pub proof fn lemma_sequential_three_open(t: NodeModel, s: TraversalState, na: usize, sd: usize)
    requires
        is_sequential(t.entry),
        s != TraversalState::Suppressed,
        t.children.len() == 3,
        open_leaf(t.children[0], na, sd),
        open_leaf(t.children[1], na, sd),
        open_leaf(t.children[2], na, sd),
    ensures
        kids_updates(t, s, na, sd, 3) == seq![gains_next(t.children[0], na)],
{
    let c = t.children;
    lemma_sequential_gating(t, s, 0);
    lemma_sequential_gating(t, s, 1);
    lemma_sequential_gating(t, s, 2);
    assert(!leading_checked(c, 1));
    assert(!leading_checked(c, 2));
    assert(leading_checked(c, 0));
    lemma_leaf_updates(c[0], child_state(t, s, 0), na, sd);
    lemma_leaf_updates(c[1], child_state(t, s, 1), na, sd);
    lemma_leaf_updates(c[2], child_state(t, s, 2), na, sd);
    assert(leading_checked(c[0].children, 0));
    assert(actionable(c[0], child_state(t, s, 0), sd));
    assert(kids_updates(t, s, na, sd, 0) == Seq::<(usize, Seq<usize>)>::empty());
    assert(kids_updates(t, s, na, sd, 1) =~= seq![gains_next(c[0], na)]);
    assert(kids_updates(t, s, na, sd, 2) =~= seq![gains_next(c[0], na)]);
    assert(kids_updates(t, s, na, sd, 3) =~= seq![gains_next(c[0], na)]);
}

/// Below a sequential node that is not suppressed, when the first of three
/// childless children is a done item with neither label and the other two
/// are unchecked, only the second is given the next-action label.
pub proof fn lemma_sequential_first_done(t: NodeModel, s: TraversalState, na: usize, sd: usize)
    requires
        is_sequential(t.entry),
        s != TraversalState::Suppressed,
        t.children.len() == 3,
        t.children[0].entry is Item,
        is_checked(t.children[0].entry),
        t.children[0].children.len() == 0,
        !labels_of(t.children[0].entry).contains(na),
        !labels_of(t.children[0].entry).contains(sd),
        open_leaf(t.children[1], na, sd),
        open_leaf(t.children[2], na, sd),
    ensures
        kids_updates(t, s, na, sd, 3) == seq![gains_next(t.children[1], na)],
{
    let c = t.children;
    lemma_sequential_gating(t, s, 0);
    lemma_sequential_gating(t, s, 1);
    lemma_sequential_gating(t, s, 2);
    assert(leading_checked(c, 1));
    assert(!leading_checked(c, 2));
    lemma_leaf_updates(c[0], child_state(t, s, 0), na, sd);
    lemma_leaf_updates(c[1], child_state(t, s, 1), na, sd);
    lemma_leaf_updates(c[2], child_state(t, s, 2), na, sd);
    assert(leading_checked(c[1].children, 0));
    assert(actionable(c[1], child_state(t, s, 1), sd));
    assert(kids_updates(t, s, na, sd, 0) == Seq::<(usize, Seq<usize>)>::empty());
    assert(kids_updates(t, s, na, sd, 1) =~= Seq::<(usize, Seq<usize>)>::empty());
    assert(kids_updates(t, s, na, sd, 2) =~= seq![gains_next(c[1], na)]);
    assert(kids_updates(t, s, na, sd, 3) =~= seq![gains_next(c[1], na)]);
}

/// Below a parallel node visited active, each of two unchecked childless
/// children without the someday label is given the next-action label on
/// its own, unless it has it already; neither loses it.
pub proof fn lemma_parallel_two(t: NodeModel, na: usize, sd: usize)
    requires
        is_parallel(t.entry),
        t.children.len() == 2,
        forall|i: int|
            0 <= i < 2 ==> {
                &&& (#[trigger] t.children[i]).entry is Item
                &&& !is_checked(t.children[i].entry)
                &&& t.children[i].children.len() == 0
                &&& !labels_of(t.children[i].entry).contains(sd)
            },
    ensures
        kids_updates(t, TraversalState::Active, na, sd, 2) == (if labels_of(t.children[0].entry).contains(na) {
            Seq::empty()
        } else {
            seq![gains_next(t.children[0], na)]
        }) + (if labels_of(t.children[1].entry).contains(na) {
            Seq::empty()
        } else {
            seq![gains_next(t.children[1], na)]
        }),
{
    let c = t.children;
    let s = TraversalState::Active;
    let c0 = c[0];
    let c1 = c[1];
    lemma_parallel_independence(t, s, sd, 0);
    lemma_parallel_independence(t, s, sd, 1);
    lemma_leaf_updates(c0, child_state(t, s, 0), na, sd);
    lemma_leaf_updates(c1, child_state(t, s, 1), na, sd);
    assert(kids_updates(t, s, na, sd, 0) == Seq::<(usize, Seq<usize>)>::empty());
    assert(kids_updates(t, s, na, sd, 1) =~= opt_seq(node_update(c0, child_state(t, s, 0), na, sd)));
    assert(kids_updates(t, s, na, sd, 2) =~= opt_seq(node_update(c0, child_state(t, s, 0), na, sd)) + opt_seq(
        node_update(c1, child_state(t, s, 1), na, sd),
    ));
}

} // verus!
