use tasky::store::{decode_tasks, encode_tasks};
use tasky::task::Task;
use tasky::tasklist::{
    add_entered_tag, add_tag, add_task, blank, complete_task, format_tags, next_id, remove_task,
};

fn strings(v: &[&str]) -> Vec<String> {
    v.iter().map(|s| s.to_string()).collect()
}

#[test]
fn new_task_is_not_done() {
    let t = Task::new(3, "d".to_string(), strings(&["x"]));
    assert_eq!(t.id, 3);
    assert_eq!(t.description, "d");
    assert!(!t.done);
    assert_eq!(t.tags, strings(&["x"]));
}

#[test]
fn adding_a_present_tag_changes_nothing() {
    let mut tags = strings(&["work", "home"]);
    assert!(!add_tag(&mut tags, "home".to_string()));
    assert_eq!(tags, strings(&["work", "home"]));
    assert!(add_tag(&mut tags, "errand".to_string()));
    assert_eq!(tags, strings(&["work", "home", "errand"]));
    assert!(!add_tag(&mut tags, "errand".to_string()));
    assert_eq!(tags.len(), 3);
}

#[test]
fn completing_touches_only_the_chosen_task() {
    let mut tasks = vec![
        Task::new(1, "a".to_string(), strings(&["t"])),
        Task::new(2, "b".to_string(), vec![]),
    ];
    assert!(complete_task(&mut tasks, 1));
    let mut first = Task::new(1, "a".to_string(), strings(&["t"]));
    first.done = true;
    assert_eq!(tasks, vec![first, Task::new(2, "b".to_string(), vec![])]);
    assert!(!complete_task(&mut tasks, 9));
    assert_eq!(tasks.len(), 2);
}

#[test]
fn removing_present_and_absent_ids() {
    let mut tasks = vec![
        Task::new(1, "a".to_string(), vec![]),
        Task::new(2, "b".to_string(), vec![]),
        Task::new(3, "c".to_string(), vec![]),
    ];
    assert!(remove_task(&mut tasks, 2));
    assert_eq!(
        tasks,
        vec![Task::new(1, "a".to_string(), vec![]), Task::new(3, "c".to_string(), vec![])]
    );
    assert!(!remove_task(&mut tasks, 2));
    assert_eq!(tasks.len(), 2);
}

#[test]
fn next_id_follows_the_largest_id() {
    assert_eq!(next_id(&vec![]), Some(1));
    let mut tasks = vec![
        Task::new(1, "a".to_string(), vec![]),
        Task::new(2, "b".to_string(), vec![]),
    ];
    assert!(remove_task(&mut tasks, 1));
    assert_eq!(next_id(&tasks), Some(3));
    let full = vec![Task::new(u32::MAX, "z".to_string(), vec![])];
    assert_eq!(next_id(&full), None);
    let mut full2 = full;
    assert_eq!(add_task(&mut full2, "y".to_string(), vec![]), None);
    assert_eq!(full2.len(), 1);
}

#[test]
fn add_complete_remove_scenario() {
    let mut file = encode_tasks(&decode_tasks("{\"tasks\": []}").unwrap());

    let mut tasks = decode_tasks(&file).unwrap();
    assert_eq!(add_task(&mut tasks, "Buy milk".to_string(), strings(&["errand"])), Some(1));
    file = encode_tasks(&tasks);
    let loaded = decode_tasks(&file).unwrap();
    assert_eq!(loaded, vec![Task::new(1, "Buy milk".to_string(), strings(&["errand"]))]);

    let mut tasks = loaded;
    assert_eq!(add_task(&mut tasks, "Call dentist".to_string(), vec![]), Some(2));
    file = encode_tasks(&tasks);
    assert_eq!(decode_tasks(&file).unwrap().len(), 2);

    let mut tasks = decode_tasks(&file).unwrap();
    assert!(complete_task(&mut tasks, 1));
    file = encode_tasks(&tasks);
    let loaded = decode_tasks(&file).unwrap();
    assert!(loaded[0].id == 1 && loaded[0].done);
    assert!(loaded[1].id == 2 && !loaded[1].done);

    let mut tasks = loaded;
    assert!(remove_task(&mut tasks, 2));
    file = encode_tasks(&tasks);
    let loaded = decode_tasks(&file).unwrap();
    assert_eq!(loaded.len(), 1);
    assert_eq!(loaded[0].id, 1);
}

#[test]
fn tags_are_laid_out_in_rows() {
    let tags = strings(&["a", "b", "c", "d"]);
    let cell = |t: &str| format!("{:<15}", t);
    let expected = format!("{}{}{}\n{}", cell("a"), cell("b"), cell("c"), cell("d"));
    assert_eq!(format_tags(&tags, 3), expected);
    assert_eq!(format_tags(&[], 0), "");
    assert_eq!(format_tags(&strings(&["a-very-long-tag-name"]), 1), "a-very-long-tag-name\n");
}

#[test]
fn blank_entry_ends_tag_entering() {
    let mut tags = strings(&["work"]);
    assert!(add_entered_tag(&mut tags, "home".to_string()));
    assert!(add_entered_tag(&mut tags, "home".to_string()));
    assert_eq!(tags, strings(&["work", "home"]));
    assert!(!add_entered_tag(&mut tags, " \t\u{3000}".to_string()));
    assert!(!add_entered_tag(&mut tags, "".to_string()));
    assert_eq!(tags, strings(&["work", "home"]));
    assert!(blank("  \n"));
    assert!(!blank(" x "));
}
