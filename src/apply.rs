//! Applying label updates by item id, and what a walk's updates do to the
//! tree they came from.
use vstd::prelude::*;

use crate::traverse::{
    child_state, is_checked, labels_of, without, forest_updates, kids_updates, node_update, opt_seq, relabel, relabel_forest,
    relabel_kids, relabeled_entry, roots_updates, tree_updates, TraversalState,
};
use crate::tree::{Entry, NodeModel};

verus! {

/// `e` with the label set `l`, if it is the item with id `id`.
pub open spec fn set_entry_labels(e: Entry, id: usize, l: Seq<usize>) -> Entry {
    match e {
        Entry::Item { id: i, name, checked, record, .. } => if i == id {
            Entry::Item { id: i, name, checked, labels: l, record }
        } else {
            e
        },
        Entry::Project { .. } => e,
    }
}

/// `t` with every item whose id is `id` given the label set `l`.
pub open spec fn set_labels_tree(t: NodeModel, id: usize, l: Seq<usize>) -> NodeModel
    decreases t,
{
    NodeModel { entry: set_entry_labels(t.entry, id, l), children: set_labels_forest(t.children, id, l) }
}

/// `f` with every item whose id is `id` given the label set `l`.
pub open spec fn set_labels_forest(f: Seq<NodeModel>, id: usize, l: Seq<usize>) -> Seq<NodeModel>
    decreases f,
{
    if f.len() == 0 {
        f
    } else {
        set_labels_forest(f.drop_last(), id, l).push(set_labels_tree(f.last(), id, l))
    }
}

/// `f` after each update in turn, a later one winning over an earlier one.
pub open spec fn apply_updates(f: Seq<NodeModel>, us: Seq<(usize, Seq<usize>)>) -> Seq<NodeModel>
    decreases us.len(),
{
    if us.len() == 0 {
        f
    } else {
        let u = us.last();
        set_labels_forest(apply_updates(f, us.drop_last()), u.0, u.1)
    }
}

/// The id of the entry, as a set, if it is an item.
pub open spec fn own_item_id(e: Entry) -> Set<usize> {
    match e {
        Entry::Item { id, .. } => set![id],
        Entry::Project { .. } => Set::empty(),
    }
}

/// The ids of the items in a forest.
pub open spec fn item_ids(f: Seq<NodeModel>) -> Set<usize>
    decreases f,
{
    if f.len() == 0 {
        Set::empty()
    } else {
        item_ids(f.drop_last()) + own_item_id(f.last().entry) + item_ids(f.last().children)
    }
}

/// No two items of the forest share an id.
pub open spec fn unique_items(f: Seq<NodeModel>) -> bool
    decreases f,
{
    f.len() == 0 || {
        &&& unique_items(f.drop_last())
        &&& unique_items(f.last().children)
        &&& item_ids(f.drop_last()).disjoint(own_item_id(f.last().entry) + item_ids(f.last().children))
        &&& own_item_id(f.last().entry).disjoint(item_ids(f.last().children))
    }
}

/// The ids that a list of updates names.
pub open spec fn update_ids(us: Seq<(usize, Seq<usize>)>) -> Set<usize> {
    Set::new(|id: usize| exists|k: int| 0 <= k < us.len() && us[k].0 == id)
}

proof fn lemma_item_ids_single(t: NodeModel)
    ensures
        item_ids(seq![t]) == own_item_id(t.entry) + item_ids(t.children),
        unique_items(seq![t]) == (unique_items(t.children) && own_item_id(t.entry).disjoint(
            item_ids(t.children),
        )),
{
    assert(seq![t].drop_last() =~= Seq::<NodeModel>::empty());
    assert(seq![t].last() == t);
    assert(item_ids(Seq::<NodeModel>::empty()) == Set::<usize>::empty());
    assert(item_ids(seq![t]) =~= own_item_id(t.entry) + item_ids(t.children));
    assert(unique_items(Seq::<NodeModel>::empty()));
    assert(item_ids(Seq::<NodeModel>::empty()).disjoint(own_item_id(t.entry) + item_ids(t.children)));
}

proof fn lemma_item_ids_concat(a: Seq<NodeModel>, b: Seq<NodeModel>)
    ensures
        item_ids(a + b) == item_ids(a) + item_ids(b),
    decreases b.len(),
{
    if b.len() == 0 {
        assert(a + b =~= a);
        assert(item_ids(a) + item_ids(b) =~= item_ids(a));
    } else {
        lemma_item_ids_concat(a, b.drop_last());
        assert((a + b).drop_last() =~= a + b.drop_last());
        assert((a + b).last() == b.last());
        assert(item_ids(a + b) =~= item_ids(a) + item_ids(b));
    }
}

proof fn lemma_set_labels_concat(a: Seq<NodeModel>, b: Seq<NodeModel>, id: usize, l: Seq<usize>)
    ensures
        set_labels_forest(a + b, id, l) == set_labels_forest(a, id, l) + set_labels_forest(b, id, l),
    decreases b.len(),
{
    if b.len() == 0 {
        assert(a + b =~= a);
        assert(set_labels_forest(a, id, l) + set_labels_forest(b, id, l) =~= set_labels_forest(a, id, l));
    } else {
        lemma_set_labels_concat(a, b.drop_last(), id, l);
        assert((a + b).drop_last() =~= a + b.drop_last());
        assert((a + b).last() == b.last());
        assert(set_labels_forest(a + b, id, l) =~= set_labels_forest(a, id, l) + set_labels_forest(b, id, l));
    }
}

/// Setting the labels of an id that no item of `f` has changes nothing.
proof fn lemma_set_labels_absent(f: Seq<NodeModel>, id: usize, l: Seq<usize>)
    requires
        !item_ids(f).contains(id),
    ensures
        set_labels_forest(f, id, l) == f,
    decreases f,
{
    if f.len() > 0 {
        assert(item_ids(f) == item_ids(f.drop_last()) + own_item_id(f.last().entry) + item_ids(
            f.last().children,
        ));
        lemma_set_labels_absent(f.drop_last(), id, l);
        lemma_set_labels_absent(f.last().children, id, l);
        assert(set_entry_labels(f.last().entry, id, l) == f.last().entry);
        let t = set_labels_tree(f.last(), id, l);
        assert(t.entry == set_entry_labels(f.last().entry, id, l));
        assert(t.children == set_labels_forest(f.last().children, id, l));
        assert(t == f.last());
        assert(set_labels_forest(f, id, l) == set_labels_forest(f.drop_last(), id, l).push(t));
        assert(f.drop_last().push(f.last()) =~= f);
    }
}

/// Setting labels keeps every item id, and which ids are unique.
proof fn lemma_set_labels_ids(f: Seq<NodeModel>, id: usize, l: Seq<usize>)
    ensures
        item_ids(set_labels_forest(f, id, l)) == item_ids(f),
        unique_items(set_labels_forest(f, id, l)) == unique_items(f),
    decreases f,
{
    if f.len() > 0 {
        lemma_set_labels_ids(f.drop_last(), id, l);
        lemma_set_labels_ids(f.last().children, id, l);
        let g = set_labels_forest(f, id, l);
        let t = set_labels_tree(f.last(), id, l);
        assert(g == set_labels_forest(f.drop_last(), id, l).push(t));
        assert(g.drop_last() =~= set_labels_forest(f.drop_last(), id, l));
        assert(g.last() == t);
        assert(t.entry == set_entry_labels(f.last().entry, id, l));
        assert(t.children == set_labels_forest(f.last().children, id, l));
        assert(own_item_id(set_entry_labels(f.last().entry, id, l)) == own_item_id(f.last().entry));
        assert(item_ids(g) == item_ids(g.drop_last()) + own_item_id(t.entry) + item_ids(t.children));
        assert(unique_items(g) == {
            &&& unique_items(g.drop_last())
            &&& unique_items(t.children)
            &&& item_ids(g.drop_last()).disjoint(own_item_id(t.entry) + item_ids(t.children))
            &&& own_item_id(t.entry).disjoint(item_ids(t.children))
        });
    }
}

proof fn lemma_apply_ids(f: Seq<NodeModel>, us: Seq<(usize, Seq<usize>)>)
    ensures
        item_ids(apply_updates(f, us)) == item_ids(f),
        unique_items(apply_updates(f, us)) == unique_items(f),
    decreases us.len(),
{
    if us.len() > 0 {
        lemma_apply_ids(f, us.drop_last());
        lemma_set_labels_ids(apply_updates(f, us.drop_last()), us.last().0, us.last().1);
    }
}

proof fn lemma_apply_concat(f: Seq<NodeModel>, us1: Seq<(usize, Seq<usize>)>, us2: Seq<(usize, Seq<usize>)>)
    ensures
        apply_updates(f, us1 + us2) == apply_updates(apply_updates(f, us1), us2),
    decreases us2.len(),
{
    if us2.len() == 0 {
        assert(us1 + us2 =~= us1);
    } else {
        lemma_apply_concat(f, us1, us2.drop_last());
        assert((us1 + us2).drop_last() =~= us1 + us2.drop_last());
        assert((us1 + us2).last() == us2.last());
    }
}

/// Updates that only name items of the middle part leave the other parts alone.
proof fn lemma_apply_middle(
    a: Seq<NodeModel>,
    b: Seq<NodeModel>,
    c: Seq<NodeModel>,
    us: Seq<(usize, Seq<usize>)>,
)
    requires
        update_ids(us).disjoint(item_ids(a)),
        update_ids(us).disjoint(item_ids(c)),
    ensures
        apply_updates(a + b + c, us) == a + apply_updates(b, us) + c,
    decreases us.len(),
{
    if us.len() > 0 {
        let u = us.last();
        assert(update_ids(us.drop_last()).subset_of(update_ids(us))) by {
            assert forall|id: usize| update_ids(us.drop_last()).contains(id) implies update_ids(us).contains(id) by {
                let k = choose|k: int| 0 <= k < us.drop_last().len() && us.drop_last()[k].0 == id;
                assert(us[k].0 == id);
            }
        }
        lemma_apply_middle(a, b, c, us.drop_last());
        assert(update_ids(us).contains(u.0)) by {
            assert(us[us.len() - 1].0 == u.0);
        }
        let m = apply_updates(b, us.drop_last());
        lemma_set_labels_concat(a + m, c, u.0, u.1);
        lemma_set_labels_concat(a, m, u.0, u.1);
        lemma_set_labels_absent(a, u.0, u.1);
        lemma_set_labels_absent(c, u.0, u.1);
    } else {
        assert(a + b + c =~= a + apply_updates(b, us) + c);
    }
}

/// Updates that do not name the root's own item reach only its children.
proof fn lemma_apply_below(t: NodeModel, us: Seq<(usize, Seq<usize>)>)
    requires
        update_ids(us).disjoint(own_item_id(t.entry)),
    ensures
        apply_updates(seq![t], us) == seq![NodeModel { entry: t.entry, children: apply_updates(t.children, us) }],
    decreases us.len(),
{
    if us.len() > 0 {
        let u = us.last();
        assert(update_ids(us.drop_last()).subset_of(update_ids(us))) by {
            assert forall|id: usize| update_ids(us.drop_last()).contains(id) implies update_ids(us).contains(id) by {
                let k = choose|k: int| 0 <= k < us.drop_last().len() && us.drop_last()[k].0 == id;
                assert(us[k].0 == id);
            }
        }
        lemma_apply_below(t, us.drop_last());
        assert(update_ids(us).contains(u.0)) by {
            assert(us[us.len() - 1].0 == u.0);
        }
        let x = NodeModel { entry: t.entry, children: apply_updates(t.children, us.drop_last()) };
        assert(seq![x].drop_last() =~= Seq::<NodeModel>::empty());
        assert(set_entry_labels(t.entry, u.0, u.1) == t.entry);
        assert(set_labels_forest(Seq::<NodeModel>::empty(), u.0, u.1) == Seq::<NodeModel>::empty());
        assert(seq![x].last() == x);
        assert(set_labels_forest(seq![x], u.0, u.1) == set_labels_forest(seq![x].drop_last(), u.0, u.1).push(
            set_labels_tree(x, u.0, u.1),
        ));
        assert(set_labels_forest(seq![x], u.0, u.1) =~= seq![set_labels_tree(x, u.0, u.1)]);
    } else {
        assert(t.children =~= apply_updates(t.children, us));
    }
}

proof fn lemma_update_ids_concat(a: Seq<(usize, Seq<usize>)>, b: Seq<(usize, Seq<usize>)>)
    ensures
        update_ids(a + b) == update_ids(a) + update_ids(b),
{
    assert forall|id: usize| update_ids(a + b).contains(id) == (update_ids(a) + update_ids(b)).contains(id) by {
        if update_ids(a + b).contains(id) {
            let k = choose|k: int| 0 <= k < (a + b).len() && (a + b)[k].0 == id;
            if k < a.len() {
                assert(a[k].0 == id);
            } else {
                assert(b[k - a.len()].0 == id);
            }
        }
        if update_ids(a).contains(id) {
            let k = choose|k: int| 0 <= k < a.len() && a[k].0 == id;
            assert((a + b)[k].0 == id);
        }
        if update_ids(b).contains(id) {
            let k = choose|k: int| 0 <= k < b.len() && b[k].0 == id;
            assert((a + b)[a.len() + k].0 == id);
        }
    }
    assert(update_ids(a + b) =~= update_ids(a) + update_ids(b));
}

proof fn lemma_opt_ids(t: NodeModel, s: TraversalState, na: usize, sd: usize)
    ensures
        update_ids(opt_seq(node_update(t, s, na, sd))).subset_of(own_item_id(t.entry)),
{
    assert forall|id: usize| update_ids(opt_seq(node_update(t, s, na, sd))).contains(id) implies own_item_id(
        t.entry,
    ).contains(id) by {
        let k = choose|k: int|
            0 <= k < opt_seq(node_update(t, s, na, sd)).len() && opt_seq(node_update(t, s, na, sd))[k].0 == id;
    }
}

/// The children's ids, split at one child.
proof fn lemma_ids_around(f: Seq<NodeModel>, k: int)
    requires
        0 <= k < f.len(),
    ensures
        f == f.take(k) + seq![f[k]] + f.skip(k + 1),
        item_ids(f) == item_ids(f.take(k)) + item_ids(seq![f[k]]) + item_ids(f.skip(k + 1)),
{
    assert(f =~= f.take(k) + seq![f[k]] + f.skip(k + 1));
    lemma_item_ids_concat(f.take(k) + seq![f[k]], f.skip(k + 1));
    lemma_item_ids_concat(f.take(k), seq![f[k]]);
}

/// A walk names only items of the tree it walks.
proof fn lemma_tree_update_ids(t: NodeModel, s: TraversalState, na: usize, sd: usize)
    ensures
        update_ids(tree_updates(t, s, na, sd)).subset_of(item_ids(seq![t])),
    decreases t, t.children.len() + 1,
{
    lemma_item_ids_single(t);
    lemma_opt_ids(t, s, na, sd);
    lemma_kids_update_ids(t, s, na, sd, t.children.len() as int);
    lemma_update_ids_concat(opt_seq(node_update(t, s, na, sd)), kids_updates(t, s, na, sd, t.children.len() as int));
}

proof fn lemma_kids_update_ids(t: NodeModel, s: TraversalState, na: usize, sd: usize, n: int)
    ensures
        update_ids(kids_updates(t, s, na, sd, n)).subset_of(item_ids(t.children)),
    decreases t, n,
{
    if n <= 0 || n > t.children.len() {
        assert(update_ids(kids_updates(t, s, na, sd, n)) =~= Set::<usize>::empty());
    } else {
        lemma_kids_update_ids(t, s, na, sd, n - 1);
        lemma_tree_update_ids(t.children[n - 1], child_state(t, s, n - 1), na, sd);
        lemma_update_ids_concat(
            kids_updates(t, s, na, sd, n - 1),
            tree_updates(t.children[n - 1], child_state(t, s, n - 1), na, sd),
        );
        lemma_ids_around(t.children, n - 1);
    }
}

/// Applying a walk's updates in place keeps every item id.
proof fn lemma_relabel_ids(t: NodeModel, s: TraversalState, na: usize, sd: usize)
    ensures
        item_ids(seq![relabel(t, s, na, sd)]) == item_ids(seq![t]),
    decreases t, t.children.len() + 1,
{
    lemma_item_ids_single(t);
    lemma_item_ids_single(relabel(t, s, na, sd));
    lemma_relabel_kids_ids(t, s, na, sd, t.children.len() as int);
    assert(t.children.take(t.children.len() as int) =~= t.children);
    assert(own_item_id(relabeled_entry(t, s, na, sd)) == own_item_id(t.entry));
}

proof fn lemma_relabel_kids_ids(t: NodeModel, s: TraversalState, na: usize, sd: usize, n: int)
    requires
        0 <= n <= t.children.len(),
    ensures
        item_ids(relabel_kids(t, s, na, sd, n)) == item_ids(t.children.take(n)),
    decreases t, n,
{
    if n == 0 {
        assert(t.children.take(0) =~= Seq::<NodeModel>::empty());
    } else {
        lemma_relabel_kids_ids(t, s, na, sd, n - 1);
        lemma_relabel_ids(t.children[n - 1], child_state(t, s, n - 1), na, sd);
        let r = relabel_kids(t, s, na, sd, n);
        assert(r =~= relabel_kids(t, s, na, sd, n - 1) + seq![relabel(t.children[n - 1], child_state(t, s, n - 1), na, sd)]);
        lemma_item_ids_concat(
            relabel_kids(t, s, na, sd, n - 1),
            seq![relabel(t.children[n - 1], child_state(t, s, n - 1), na, sd)],
        );
        assert(t.children.take(n) =~= t.children.take(n - 1) + seq![t.children[n - 1]]);
        lemma_item_ids_concat(t.children.take(n - 1), seq![t.children[n - 1]]);
    }
}

/// In a forest without repeated item ids, each tree is such a tree too, and
/// shares no item id with the trees before or after it.
proof fn lemma_unique_parts(f: Seq<NodeModel>, k: int)
    requires
        unique_items(f),
        0 <= k < f.len(),
    ensures
        unique_items(seq![f[k]]),
        item_ids(f.take(k)).disjoint(item_ids(seq![f[k]])),
        item_ids(f.skip(k + 1)).disjoint(item_ids(seq![f[k]])),
    decreases f.len(),
{
    let n = f.len() - 1;
    lemma_item_ids_single(f[k]);
    if k == n {
        assert(f.take(k) =~= f.drop_last());
        assert(f.skip(k + 1) =~= Seq::<NodeModel>::empty());
        assert(item_ids(Seq::<NodeModel>::empty()) == Set::<usize>::empty());
    } else {
        let d = f.drop_last();
        lemma_unique_parts(d, k);
        assert(d[k] == f[k]);
        assert(d.take(k) =~= f.take(k));
        assert(f.skip(k + 1) =~= d.skip(k + 1) + seq![f.last()]);
        lemma_item_ids_concat(d.skip(k + 1), seq![f.last()]);
        lemma_item_ids_single(f.last());
        lemma_ids_around(d, k);
    }
}

/// Applying the updates of the first `n` children's walks in order turns
/// those children into their relabelled selves and leaves the rest alone.
proof fn lemma_apply_kids(t: NodeModel, s: TraversalState, na: usize, sd: usize, n: int)
    requires
        unique_items(t.children),
        0 <= n <= t.children.len(),
    ensures
        apply_updates(t.children, kids_updates(t, s, na, sd, n)) == relabel_kids(t, s, na, sd, n) + t.children.skip(n),
    decreases t, n,
{
    if n == 0 {
        assert(t.children.skip(0) =~= t.children);
        assert(relabel_kids(t, s, na, sd, 0) + t.children.skip(0) =~= t.children);
    } else {
        let c = t.children[n - 1];
        let cs = child_state(t, s, n - 1);
        let tu = tree_updates(c, cs, na, sd);
        lemma_apply_kids(t, s, na, sd, n - 1);
        lemma_apply_concat(t.children, kids_updates(t, s, na, sd, n - 1), tu);
        let a = relabel_kids(t, s, na, sd, n - 1);
        assert(t.children.skip(n - 1) =~= seq![c] + t.children.skip(n));
        assert(a + t.children.skip(n - 1) =~= a + seq![c] + t.children.skip(n));
        lemma_unique_parts(t.children, n - 1);
        lemma_tree_update_ids(c, cs, na, sd);
        lemma_relabel_kids_ids(t, s, na, sd, n - 1);
        lemma_apply_middle(a, seq![c], t.children.skip(n), tu);
        lemma_apply_tree(c, cs, na, sd);
        assert(relabel_kids(t, s, na, sd, n) =~= a + seq![relabel(c, cs, na, sd)]);
    }
}

/// In a tree without repeated item ids, applying the updates of its walk
/// gives the tree with every update applied in place.
proof fn lemma_apply_tree(t: NodeModel, s: TraversalState, na: usize, sd: usize)
    requires
        unique_items(seq![t]),
    ensures
        apply_updates(seq![t], tree_updates(t, s, na, sd)) == seq![relabel(t, s, na, sd)],
    decreases t, t.children.len() + 1,
{
    let n = t.children.len() as int;
    let own = opt_seq(node_update(t, s, na, sd));
    let kids = kids_updates(t, s, na, sd, n);
    lemma_item_ids_single(t);
    lemma_apply_concat(seq![t], own, kids);
    let t1 = NodeModel { entry: relabeled_entry(t, s, na, sd), children: t.children };
    assert(apply_updates(seq![t], own) == seq![t1]) by {
        if let Some(u) = node_update(t, s, na, sd) {
            assert(own.drop_last() =~= Seq::<(usize, Seq<usize>)>::empty());
            assert(own.last() == u);
            assert(apply_updates(seq![t], own.drop_last()) == seq![t]);
            assert(own_item_id(t.entry).contains(u.0));
            assert(set_entry_labels(t.entry, u.0, u.1) == relabeled_entry(t, s, na, sd));
            lemma_set_labels_absent(t.children, u.0, u.1);
            assert(seq![t].drop_last() =~= Seq::<NodeModel>::empty());
            assert(seq![t].last() == t);
            assert(set_labels_forest(Seq::<NodeModel>::empty(), u.0, u.1) == Seq::<NodeModel>::empty());
            assert(set_labels_forest(seq![t], u.0, u.1) =~= seq![set_labels_tree(t, u.0, u.1)]);
            assert(set_labels_tree(t, u.0, u.1) == t1);
        } else {
            assert(t1 == t);
            assert(own.len() == 0);
        }
    }
    lemma_kids_update_ids(t, s, na, sd, n);
    assert(own_item_id(t1.entry) == own_item_id(t.entry));
    lemma_apply_below(t1, kids);
    lemma_apply_kids(t, s, na, sd, n);
    assert(t.children.skip(n) =~= Seq::<NodeModel>::empty());
    assert(relabel_kids(t, s, na, sd, n) + t.children.skip(n) =~= relabel_kids(t, s, na, sd, n));
}

proof fn lemma_apply_roots(f: Seq<NodeModel>, na: usize, sd: usize, n: int)
    requires
        unique_items(f),
        0 <= n <= f.len(),
    ensures
        apply_updates(f, roots_updates(f, na, sd, n)) == relabel_forest(f, na, sd).take(n) + f.skip(n),
    decreases n,
{
    if n == 0 {
        assert(relabel_forest(f, na, sd).take(0) + f.skip(0) =~= f);
    } else {
        let t = f[n - 1];
        let tu = tree_updates(t, TraversalState::Unconstrained, na, sd);
        lemma_apply_roots(f, na, sd, n - 1);
        lemma_apply_concat(f, roots_updates(f, na, sd, n - 1), tu);
        let a = relabel_forest(f, na, sd).take(n - 1);
        assert(f.skip(n - 1) =~= seq![t] + f.skip(n));
        assert(a + f.skip(n - 1) =~= a + seq![t] + f.skip(n));
        lemma_unique_parts(f, n - 1);
        lemma_tree_update_ids(t, TraversalState::Unconstrained, na, sd);
        assert forall|i: int| 0 <= i < n - 1 implies item_ids(seq![#[trigger] a[i]]) == item_ids(seq![f[i]]) by {
            lemma_relabel_ids(f[i], TraversalState::Unconstrained, na, sd);
        }
        lemma_same_ids(a, f.take(n - 1));
        lemma_apply_middle(a, seq![t], f.skip(n), tu);
        lemma_apply_tree(t, TraversalState::Unconstrained, na, sd);
        assert(relabel_forest(f, na, sd).take(n) =~= a + seq![relabel(t, TraversalState::Unconstrained, na, sd)]);
    }
}

/// Forests whose trees have the same item ids, one by one, have the same item ids.
proof fn lemma_same_ids(a: Seq<NodeModel>, b: Seq<NodeModel>)
    requires
        a.len() == b.len(),
        forall|i: int| 0 <= i < a.len() ==> item_ids(seq![#[trigger] a[i]]) == item_ids(seq![b[i]]),
    ensures
        item_ids(a) == item_ids(b),
    decreases a.len(),
{
    if a.len() > 0 {
        assert forall|i: int| 0 <= i < a.drop_last().len() implies item_ids(
            seq![#[trigger] a.drop_last()[i]],
        ) == item_ids(seq![b.drop_last()[i]]) by {
            assert(a.drop_last()[i] == a[i]);
            assert(b.drop_last()[i] == b[i]);
        }
        lemma_same_ids(a.drop_last(), b.drop_last());
        assert(a[a.len() - 1] == a.last());
        assert(b[b.len() - 1] == b.last());
        lemma_item_ids_single(a.last());
        lemma_item_ids_single(b.last());
        assert(item_ids(seq![a[a.len() - 1]]) == item_ids(seq![b[b.len() - 1]]));
        assert(item_ids(a) == item_ids(a.drop_last()) + item_ids(seq![a.last()]));
        assert(item_ids(b) == item_ids(b.drop_last()) + item_ids(seq![b.last()]));
    } else {
        assert(a =~= b);
    }
}

/// In a forest where no two items share an id, applying the updates of a
/// walk, one after another by item id, gives the forest with each update
/// applied in place; a second walk of it asks for nothing.
pub proof fn lemma_apply_walk(f: Seq<NodeModel>, na: usize, sd: usize)
    requires
        unique_items(f),
        na != sd,
    ensures
        apply_updates(f, forest_updates(f, na, sd)) == relabel_forest(f, na, sd),
        forest_updates(apply_updates(f, forest_updates(f, na, sd)), na, sd).len() == 0,
{
    lemma_apply_roots(f, na, sd, f.len() as int);
    assert(relabel_forest(f, na, sd).take(f.len() as int) + f.skip(f.len() as int) =~= relabel_forest(f, na, sd));
    crate::traverse::lemma_traverse_idempotent(f, na, sd);
}

/// In a walk of a tree whose item ids are unique, a done item that carries
/// either label is named by exactly one update, the first, which takes both
/// labels off and keeps the others in order; a done item that carries
/// neither is named by none.
pub proof fn lemma_checked_walk(t: NodeModel, s: TraversalState, na: usize, sd: usize)
    requires
        t.entry is Item,
        is_checked(t.entry),
        unique_items(seq![t]),
    ensures
        ({
            let id = t.entry->Item_id;
            let labels = labels_of(t.entry);
            let us = tree_updates(t, s, na, sd);
            &&& (labels.contains(na) || labels.contains(sd)) ==> {
                &&& us.len() > 0
                &&& us[0] == (id, without(labels, na, sd))
                &&& forall|k: int| 0 < k < us.len() ==> (#[trigger] us[k]).0 != id
            }
            &&& !(labels.contains(na) || labels.contains(sd)) ==> forall|k: int|
                0 <= k < us.len() ==> (#[trigger] us[k]).0 != id
        }),
{
    let id = t.entry->Item_id;
    let n = t.children.len() as int;
    let own = opt_seq(node_update(t, s, na, sd));
    let kids = kids_updates(t, s, na, sd, n);
    let us = tree_updates(t, s, na, sd);
    lemma_item_ids_single(t);
    lemma_kids_update_ids(t, s, na, sd, n);
    assert(own_item_id(t.entry).contains(id));
    assert(!item_ids(t.children).contains(id));
    assert(us == own + kids);
    assert forall|k: int| own.len() <= k < us.len() implies (#[trigger] us[k]).0 != id by {
        assert(us[k] == kids[k - own.len()]);
        assert(update_ids(kids).contains(kids[k - own.len()].0));
    }
}

/// In a tree whose item ids are unique, applying the updates of its walk by
/// item id gives the tree with every update applied in place, and a second
/// walk of the result, in the same state, asks for nothing.
pub proof fn lemma_apply_tree_walk(t: NodeModel, s: TraversalState, na: usize, sd: usize)
    requires
        unique_items(seq![t]),
        na != sd,
    ensures
        apply_updates(seq![t], tree_updates(t, s, na, sd)) == seq![relabel(t, s, na, sd)],
        tree_updates(relabel(t, s, na, sd), s, na, sd).len() == 0,
{
    lemma_apply_tree(t, s, na, sd);
    crate::traverse::lemma_relabel_quiet(t, s, na, sd);
}

} // verus!
