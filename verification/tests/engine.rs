use todo::duration::{humanize_duration, note_duration_seconds, task_duration_seconds};
use todo::hierarchy::tree;
use todo::leaves::open_leaves;
use todo::models::{Note, Task};
use todo::text::{indent, join_sections, split_title_body};
use todo::Error;

fn task(id: i32, parent_id: Option<i32>, open: bool, date_created: i64) -> Task {
    Task {
        id,
        parent_id,
        title: format!("task {}", id),
        body: String::new(),
        open,
        date_created,
    }
}

fn note(id: i32, task_id: i32, date_start: i64, date_end: i64) -> Note {
    Note {
        id,
        task_id,
        body: format!("note {}", id),
        date_start,
        date_end,
    }
}

fn rows(entries: &[todo::hierarchy::TreeEntry]) -> Vec<(usize, usize)> {
    entries.iter().map(|e| (e.task, e.indent)).collect()
}

#[test]
fn test_split_title_body() {
    let str = "Hello\n==========\nWorld\n==========\nSkip this part";
    let (title, body) = split_title_body(&str).unwrap();
    assert_eq!(title, "Hello");
    assert_eq!(body, "World");
}

#[test]
fn split_with_single_delimiter_takes_rest_as_body() {
    let (title, body) = split_title_body("A title\n==========\nthe whole body\nacross lines").unwrap();
    assert_eq!(title, "A title");
    assert_eq!(body, "the whole body\nacross lines");
}

#[test]
fn split_without_delimiter_is_malformed() {
    assert_eq!(split_title_body("no delimiter here"), Err(Error::MalformedInput));
    assert_eq!(split_title_body(""), Err(Error::MalformedInput));
}

#[test]
fn test_indent() {
    let str = "def my_func():
    print 'xd'
    if 1 < 2:
        print 'haha'";
    let expected = "    def my_func():
        print 'xd'
        if 1 < 2:
            print 'haha'";
    let result = indent(str.to_string(), 4);
    println!("\nresult:\n{}", result);
    println!("\nexpected:\n{}", expected);
    assert_eq!(result, expected);
}

#[test]
fn indent_keeps_trailing_newline_lines() {
    assert_eq!(indent("a\nb\n".to_string(), 2), "  a\n  b\n  ");
    assert_eq!(indent(String::new(), 3), "   ");
}

#[test]
fn join_sections_uses_delimiter_between_sections() {
    let sections = vec!["title".to_string(), "body".to_string(), "notes".to_string()];
    assert_eq!(
        join_sections(&sections),
        "title\n==========\nbody\n==========\nnotes"
    );
    assert_eq!(join_sections(&vec!["only".to_string()]), "only");
    assert_eq!(join_sections(&Vec::new()), "");
}

#[test]
fn humanize_floor_semantics() {
    assert_eq!(humanize_duration(3661), (1, 1));
    assert_eq!(humanize_duration(59), (0, 0));
    assert_eq!(humanize_duration(3600), (1, 0));
}

#[test]
fn humanize_negative_floors_toward_minus_infinity() {
    assert_eq!(humanize_duration(-59), (-1, 59));
    assert_eq!(humanize_duration(-3600), (-1, 0));
    assert_eq!(humanize_duration(-3661), (-2, 58));
}

#[test]
fn durations_add_exactly_including_negative_notes() {
    let notes = vec![
        note(1, 7, 100, 400),   // 300 seconds
        note(2, 7, 1000, 950),  // deliberately negative: -50
        note(3, 7, 0, 0),       // empty interval
    ];
    assert_eq!(note_duration_seconds(&notes[1]), -50);
    assert_eq!(task_duration_seconds(&notes), 250);
    assert_eq!(task_duration_seconds(&Vec::new()), 0);
}

#[test]
fn tree_covers_every_task_once() {
    // parent references appear before and after their children in the input
    let tasks = vec![
        task(1, None, true, 10),
        task(3, Some(2), true, 30),
        task(2, Some(1), true, 20),
        task(4, None, true, 40),
    ];
    let out = tree(&tasks, false);
    assert_eq!(out.len(), tasks.len());
    let mut seen = vec![0usize; tasks.len()];
    for e in &out {
        seen[e.task] += 1;
    }
    assert_eq!(seen, vec![1, 1, 1, 1]);
    // roots in discovery order, children one level deeper
    assert_eq!(rows(&out), vec![(0, 0), (2, 1), (1, 2), (3, 0)]);
}

#[test]
fn orphan_surfaces_at_top_level() {
    let tasks = vec![task(1, None, true, 10), task(2, Some(999), true, 20)];
    let out = tree(&tasks, false);
    assert_eq!(rows(&out), vec![(0, 0), (1, 0)]);
}

#[test]
fn open_filter_keeps_open_descendants_of_closed_tasks() {
    // 1 (open) -> 2 (closed) -> 3 (open): the filter hides 2 but must not
    // hide 3, and 3 surfaces at the level 2 would have had.
    let tasks = vec![
        task(1, None, true, 10),
        task(2, Some(1), false, 20),
        task(3, Some(2), true, 30),
    ];
    let unfiltered = tree(&tasks, false);
    assert_eq!(rows(&unfiltered), vec![(0, 0), (1, 1), (2, 2)]);
    let filtered = tree(&tasks, true);
    assert_eq!(rows(&filtered), vec![(0, 0), (2, 1)]);
}

#[test]
fn open_leaf_needs_open_flag_and_no_open_child() {
    // A (open) with children B (open) and C (closed): only B is an open
    // leaf. A has an open child; C is closed.
    let tasks = vec![
        task(1, None, true, 10),      // A
        task(2, Some(1), true, 20),   // B
        task(3, Some(1), false, 30),  // C
    ];
    let leaves = open_leaves(&tasks);
    let ids: Vec<i32> = leaves.iter().map(|t| t.id).collect();
    assert_eq!(ids, vec![2]);
}

#[test]
fn closed_children_do_not_disqualify_an_open_leaf() {
    let tasks = vec![task(1, None, true, 10), task(2, Some(1), false, 20)];
    let ids: Vec<i32> = open_leaves(&tasks).iter().map(|t| t.id).collect();
    assert_eq!(ids, vec![1]);
}

#[test]
fn open_leaves_come_newest_first() {
    let tasks = vec![
        task(1, None, true, 100),
        task(2, None, true, 300),
        task(3, None, true, 200),
    ];
    let ids: Vec<i32> = open_leaves(&tasks).iter().map(|t| t.id).collect();
    assert_eq!(ids, vec![2, 3, 1]);
}

#[test]
fn empty_input_yields_empty_traversal() {
    let tasks: Vec<Task> = Vec::new();
    assert!(tree(&tasks, false).is_empty());
    assert!(tree(&tasks, true).is_empty());
    assert!(open_leaves(&tasks).is_empty());
}

#[test]
fn equal_creation_times_break_ties_by_id() {
    let tasks = vec![
        task(1, None, true, 100),
        task(2, None, true, 100),
        task(3, None, true, 100),
    ];
    let ids: Vec<i32> = open_leaves(&tasks).iter().map(|t| t.id).collect();
    assert_eq!(ids, vec![3, 2, 1]);
}
