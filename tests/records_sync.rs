use nextaction::commands::{Command, CommandManager};
use nextaction::ranked::BagOfThings;
use nextaction::traverse::LabelUpdate;
use nextaction::{Item, Label, Project, TodoistResponse};

fn response_with_labels(labels: Vec<Label>) -> TodoistResponse {
    TodoistResponse {
        labels: Some(labels),
        full_sync: true,
        sync_token: "tok".to_string(),
        ..Default::default()
    }
}

#[test]
fn label_by_name_takes_the_first_match() {
    let r = response_with_labels(vec![
        Label { name: "someday".to_string(), id: 3 },
        Label { name: "nextaction".to_string(), id: 8 },
        Label { name: "nextaction".to_string(), id: 9 },
    ]);
    assert_eq!(r.get_label_by_name("nextaction"), Some(Label { name: "nextaction".to_string(), id: 8 }));
    assert_eq!(r.get_label_by_name("missing"), None);
    assert!(r.is_full_sync());
    let empty = TodoistResponse::default();
    assert_eq!(empty.get_label_by_name("nextaction"), None);
    assert!(!empty.is_full_sync());
}

#[test]
fn merge_replaces_and_drops_records() {
    let mut bag = BagOfThings::new();
    let first = TodoistResponse {
        projects: Some(vec![
            Project { id: 1, item_order: 2, name: "Home".to_string(), indent: 1, ..Default::default() },
            Project { id: 2, item_order: 1, name: "Work".to_string(), indent: 1, ..Default::default() },
        ]),
        items: Some(vec![
            Item { id: 10, project_id: 1, item_order: 1, indent: 2, ..Default::default() },
            Item { id: 11, project_id: 2, item_order: 2, indent: 2, ..Default::default() },
        ]),
        ..Default::default()
    };
    bag.merge(first);
    let second = TodoistResponse {
        projects: Some(vec![Project { id: 2, is_archived: 1, ..Default::default() }]),
        items: Some(vec![
            Item { id: 11, is_deleted: 1, ..Default::default() },
            Item { id: 10, project_id: 1, item_order: 3, indent: 2, content: "new".to_string(), ..Default::default() },
        ]),
        ..Default::default()
    };
    bag.merge(second);
    let projects = bag.projects.clone().into_vec();
    assert_eq!(projects.iter().map(|p| p.id).collect::<Vec<_>>(), vec![1]);
    let items = bag.items.clone().into_vec();
    assert_eq!(items.len(), 1);
    assert_eq!(items[0].content, "new");
    bag.merge(TodoistResponse { projects: Some(vec![]), items: Some(vec![]), ..Default::default() });
    assert_eq!(bag.items.len(), 1);
    assert_eq!(bag.projects.len(), 1);
}

#[test]
fn commands_queue_in_order() {
    let mut m = CommandManager::new();
    let (temp_id, uuid) = m.add_label("nextaction");
    assert_ne!(temp_id, uuid);
    let u2 = m.set_item_label(10, vec![1, 2]);
    let u3 = m.complete_item(11);
    let u4 = m.archive_project(3);
    assert_ne!(u2, u3);
    assert_ne!(u3, u4);
    m.set_item_labels(vec![LabelUpdate { id: 12, labels: vec![5] }, LabelUpdate { id: 13, labels: vec![] }]);
    assert_eq!(m.commands.len(), 6);
    match &m.commands[0] {
        Command::LabelAdd { name, temp_id: t, uuid: u } => {
            assert_eq!(name, "nextaction");
            assert_eq!(*t, temp_id);
            assert_eq!(*u, uuid);
        }
        other => panic!("unexpected {:?}", other),
    }
    assert!(matches!(&m.commands[1], Command::ItemUpdate { id: 10, labels, uuid } if *labels == vec![1, 2] && *uuid == u2));
    assert!(matches!(&m.commands[2], Command::CloseItem { id: 11, .. }));
    assert!(matches!(&m.commands[3], Command::ProjectArchive { id: 3, .. }));
    assert!(matches!(&m.commands[4], Command::ItemUpdate { id: 12, labels, .. } if *labels == vec![5]));
    assert!(matches!(&m.commands[5], Command::ItemUpdate { id: 13, labels, .. } if labels.is_empty()));
}

#[test]
fn add_label() {
    let mut m = CommandManager::new();
    m.add_label("helloword");
    m.add_label("kkk");
    assert_eq!(m.commands.len(), 2);
    let names: Vec<&str> = m
        .commands
        .iter()
        .map(|c| match c {
            Command::LabelAdd { name, .. } => name.as_str(),
            other => panic!("unexpected {:?}", other),
        })
        .collect();
    assert_eq!(names, vec!["helloword", "kkk"]);
}
