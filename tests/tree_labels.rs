use nextaction::traverse::LabelUpdate;
use nextaction::{traverse, BuildError, Item, NodeType, Project, TaskTree};

const NA: usize = 100;
const SD: usize = 200;

fn project(id: usize, order: usize, indent: usize, name: &str) -> Project {
    Project {
        id,
        item_order: order,
        indent,
        name: name.to_string(),
        ..Default::default()
    }
}

fn item(id: usize, project_id: usize, order: usize, indent: usize, content: &str) -> Item {
    Item {
        id,
        project_id,
        item_order: order,
        indent,
        content: content.to_string(),
        ..Default::default()
    }
}

fn checked(mut i: Item) -> Item {
    i.checked = 1;
    i
}

fn labelled(mut i: Item, labels: Vec<usize>) -> Item {
    i.labels = labels;
    i
}

fn update(id: usize, labels: Vec<usize>) -> LabelUpdate {
    LabelUpdate { id, labels }
}

fn count(nodes: &[nextaction::Node]) -> usize {
    nodes.iter().map(|n| 1 + count(&n.nodes)).sum()
}

fn apply(items: &mut Vec<Item>, updates: &[LabelUpdate]) {
    for u in updates {
        for i in items.iter_mut() {
            if i.id == u.id {
                i.labels = u.labels.clone();
            }
        }
    }
}

fn run(projects: Vec<Project>, items: Vec<Item>) -> Vec<LabelUpdate> {
    let tree = TaskTree::build(projects, items).unwrap();
    traverse(&tree, NA, SD)
}

#[test]
fn end_to_end_home_clean() {
    let projects = vec![project(1, 1, 1, "Home")];
    let items = vec![
        item(10, 1, 1, 2, "Clean:"),
        item(11, 1, 1, 3, "Shelf"),
        item(12, 1, 2, 3, "Dishes"),
    ];
    let tree = TaskTree::build(projects, items).unwrap();
    assert_eq!(tree.nodes.len(), 1);
    let home = &tree.nodes[0];
    assert_eq!(home.id(), 1);
    assert!(home.is_project());
    assert_eq!(home.nodes.len(), 1);
    let clean = &home.nodes[0];
    assert_eq!(clean.id(), 10);
    assert_eq!(clean.name(), "Clean:");
    let kids: Vec<usize> = clean.nodes.iter().map(|n| n.id()).collect();
    assert_eq!(kids, vec![11, 12]);
    assert_eq!(traverse(&tree, NA, SD), vec![update(11, vec![NA])]);
}

#[test]
fn node_count_matches_records() {
    let projects = vec![
        project(1, 1, 1, "Work"),
        project(2, 2, 2, "Reports"),
        project(3, 3, 1, "Home"),
    ];
    let items = vec![
        item(10, 1, 1, 2, "a"),
        item(11, 2, 1, 2, "b"),
        item(12, 2, 2, 3, "c"),
        item(13, 3, 1, 2, "d"),
    ];
    let tree = TaskTree::build(projects, items).unwrap();
    assert_eq!(count(&tree.nodes), 7);
    let roots: Vec<usize> = tree.nodes.iter().map(|n| n.id()).collect();
    assert_eq!(roots, vec![1, 3]);
    let work: Vec<usize> = tree.nodes[0].nodes.iter().map(|n| n.id()).collect();
    assert_eq!(work, vec![2, 10]);
    let reports = &tree.nodes[0].nodes[0];
    assert_eq!(reports.nodes.len(), 1);
    assert_eq!(reports.nodes[0].id(), 11);
    assert_eq!(reports.nodes[0].nodes[0].id(), 12);
}

#[test]
fn missing_parent_names_the_project_id() {
    let projects = vec![project(1, 1, 1, "Home")];
    let items = vec![item(10, 1, 1, 2, "a"), item(11, 42, 2, 2, "b")];
    assert_eq!(TaskTree::build(projects, items).unwrap_err(), BuildError::MissingParent(42));
}

#[test]
fn missing_parent_in_any_order() {
    let items = vec![item(11, 42, 1, 2, "b"), item(10, 1, 2, 2, "a")];
    let projects = vec![project(1, 1, 1, "Home")];
    assert_eq!(TaskTree::build(projects, items).unwrap_err(), BuildError::MissingParent(42));
    let err = TaskTree::build(vec![], vec![item(5, 3, 1, 2, "x")]).unwrap_err();
    assert_eq!(err, BuildError::MissingParent(3));
}

#[test]
fn indent_that_skips_a_level_is_refused() {
    let projects = vec![project(1, 1, 2, "Deep")];
    assert_eq!(TaskTree::build(projects, vec![]).unwrap_err(), BuildError::BadIndent(1));
    let projects = vec![project(1, 1, 1, "Home")];
    let items = vec![item(10, 1, 1, 3, "too deep")];
    assert_eq!(TaskTree::build(projects, items).unwrap_err(), BuildError::BadIndent(10));
}

#[test]
fn search_project_finds_nested_project() {
    let projects = vec![project(1, 1, 1, "Work"), project(2, 2, 2, "Reports")];
    let tree = TaskTree::build(projects, vec![item(10, 2, 1, 2, "a")]).unwrap();
    let found = tree.search_project(2).unwrap();
    assert_eq!(found.name(), "Reports");
    assert_eq!(found.nodes[0].id(), 10);
    assert!(tree.search_project(10).is_none());
    assert!(tree.nodes[0].search_item(10).is_some());
    assert!(matches!(found.ntype, NodeType::ProjectNodeType(_)));
}

#[test]
fn checked_item_loses_both_labels() {
    let projects = vec![project(1, 1, 1, "Home")];
    let items = vec![
        checked(labelled(item(10, 1, 1, 2, "done"), vec![5, NA, 6, SD])),
        checked(labelled(item(11, 1, 2, 2, "done too"), vec![5])),
    ];
    assert_eq!(run(projects, items), vec![update(10, vec![5, 6])]);
}

#[test]
fn sequential_gating_first_only() {
    let projects = vec![project(1, 1, 1, "Home")];
    let items = vec![
        item(10, 1, 1, 2, "Steps:"),
        item(11, 1, 1, 3, "C1"),
        item(12, 1, 2, 3, "C2"),
        item(13, 1, 3, 3, "C3"),
    ];
    assert_eq!(run(projects, items), vec![update(11, vec![NA])]);
}

#[test]
fn sequential_gating_after_first_done() {
    let projects = vec![project(1, 1, 1, "Home")];
    let items = vec![
        item(10, 1, 1, 2, "Steps:"),
        checked(item(11, 1, 1, 3, "C1")),
        item(12, 1, 2, 3, "C2"),
        labelled(item(13, 1, 3, 3, "C3"), vec![NA]),
    ];
    assert_eq!(run(projects, items), vec![update(12, vec![NA]), update(13, vec![])]);
}

#[test]
fn parallel_children_both_actionable() {
    let projects = vec![project(1, 1, 1, "Home-")];
    let items = vec![item(11, 1, 1, 2, "A"), item(12, 1, 2, 2, "B")];
    assert_eq!(run(projects, items), vec![update(11, vec![NA]), update(12, vec![NA])]);
}

#[test]
fn someday_blocks_next_action() {
    let projects = vec![project(1, 1, 1, "Home-")];
    let items = vec![labelled(item(11, 1, 1, 2, "A"), vec![SD, NA])];
    assert_eq!(run(projects, items), vec![update(11, vec![SD])]);
}

#[test]
fn unmarked_container_does_not_propagate() {
    let projects = vec![project(1, 1, 1, "Home")];
    let items = vec![item(11, 1, 1, 2, "A")];
    assert_eq!(run(projects, items), vec![]);
}

#[test]
fn suppressed_parent_suppresses_parallel_children() {
    let projects = vec![project(1, 1, 1, "Plan:")];
    let items = vec![
        item(10, 1, 1, 2, "First"),
        item(11, 1, 2, 2, "Later-"),
        labelled(item(12, 1, 1, 3, "Sub"), vec![NA]),
    ];
    assert_eq!(run(projects, items), vec![update(10, vec![NA]), update(12, vec![])]);
}

#[test]
fn second_walk_after_applying_is_empty() {
    let projects = vec![project(1, 1, 1, "Home-"), project(2, 2, 1, "Work:")];
    let mut items = vec![
        labelled(item(10, 1, 1, 2, "A"), vec![7]),
        checked(labelled(item(11, 1, 2, 2, "B"), vec![NA])),
        item(12, 2, 1, 2, "C"),
        labelled(item(13, 2, 2, 2, "D"), vec![NA, 8]),
    ];
    let first = run(vec![project(1, 1, 1, "Home-"), project(2, 2, 1, "Work:")], items.clone());
    assert_eq!(
        first,
        vec![update(10, vec![NA, 7]), update(11, vec![]), update(12, vec![NA]), update(13, vec![8])]
    );
    apply(&mut items, &first);
    assert_eq!(run(projects, items), vec![]);
}

#[test]
fn markers_read_after_non_ascii_names() {
    let projects = vec![project(1, 1, 1, "Maison")];
    let items = vec![
        item(10, 1, 1, 2, "Café:"),
        item(11, 1, 1, 3, "Tâche"),
        item(12, 1, 2, 3, "Étape"),
    ];
    assert_eq!(run(projects, items), vec![update(11, vec![NA])]);
}

#[test]
fn nested_projects_follow_their_indents() {
    let projects = vec![
        project(1, 1, 1, "A"),
        project(2, 2, 2, "B"),
        project(3, 3, 3, "C"),
        project(4, 4, 2, "D"),
        project(5, 5, 1, "E"),
    ];
    let tree = TaskTree::build(projects, vec![]).unwrap();
    assert_eq!(count(&tree.nodes), 5);
    let a = &tree.nodes[0];
    assert_eq!(a.nodes.iter().map(|n| n.id()).collect::<Vec<_>>(), vec![2, 4]);
    assert_eq!(a.nodes[0].nodes[0].id(), 3);
    assert_eq!(tree.nodes[1].id(), 5);
    assert!(tree.nodes[1].nodes.is_empty());
}

#[test]
fn empty_input_gives_empty_tree() {
    let tree = TaskTree::build(vec![], vec![]).unwrap();
    assert!(tree.nodes.is_empty());
    assert!(traverse(&tree, NA, SD).is_empty());
}

#[test]
fn missing_parent_wins_over_bad_indent() {
    let projects = vec![project(2, 1, 2, "Deep"), project(1, 2, 1, "Top")];
    let items = vec![item(10, 1, 1, 2, "a"), item(11, 42, 2, 2, "b")];
    assert_eq!(TaskTree::build(projects, items).unwrap_err(), BuildError::MissingParent(42));
    let projects = vec![project(1, 1, 1, "Top")];
    let items = vec![item(10, 1, 1, 5, "too deep"), item(11, 7, 2, 2, "b"), item(12, 8, 3, 2, "c")];
    assert_eq!(TaskTree::build(projects, items).unwrap_err(), BuildError::MissingParent(7));
}
