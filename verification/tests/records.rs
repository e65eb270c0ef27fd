use todo::models::{Note, Task, Template};
use todo::store::{Store, Transaction};
use todo::Error;

fn create_task(store: &mut Store, parent: Option<i32>, title: &str, created: i64) -> i32 {
    Task::new(parent, title, "body", created).create(store).unwrap()
}

#[test]
fn new_task_prototype_is_open_with_no_id() {
    let t = Task::new(Some(4), "title", "body", 77);
    assert_eq!(t.id, 0);
    assert_eq!(t.parent_id, Some(4));
    assert_eq!(t.title, "title");
    assert_eq!(t.body, "body");
    assert!(t.open);
    assert_eq!(t.date_created, 77);
}

#[test]
fn create_assigns_sequential_ids() {
    let mut store = Store::new();
    assert_eq!(create_task(&mut store, None, "first", 10), 1);
    assert_eq!(create_task(&mut store, Some(1), "second", 20), 2);
    let t = Task::find(&store, 2).unwrap();
    assert_eq!(t.parent_id, Some(1));
    assert!(t.open);
}

#[test]
fn create_with_absent_parent_is_not_found() {
    let mut store = Store::new();
    let r = Task::new(Some(9), "child", "body", 10).create(&mut store);
    assert_eq!(r, Err(Error::NotFound));
    assert!(store.tasks.is_empty());
}

#[test]
fn find_missing_task_is_none() {
    let store = Store::new();
    assert!(Task::find(&store, 1).is_none());
}

#[test]
fn all_returns_tasks_newest_first() {
    let mut store = Store::new();
    create_task(&mut store, None, "a", 300);
    create_task(&mut store, None, "b", 100);
    create_task(&mut store, None, "c", 200);
    let ids: Vec<i32> = Task::all(&store).iter().map(|t| t.id).collect();
    assert_eq!(ids, vec![1, 3, 2]);
}

#[test]
fn finish_closes_and_stays_closed() {
    let mut store = Store::new();
    create_task(&mut store, None, "a", 10);
    assert_eq!(Task::finish(&mut store, 1), Ok(()));
    assert!(!Task::find(&store, 1).unwrap().open);
    // finishing again is permitted and keeps the task closed
    assert_eq!(Task::finish(&mut store, 1), Ok(()));
    assert!(!Task::find(&store, 1).unwrap().open);
    assert_eq!(Task::finish(&mut store, 5), Err(Error::NotFound));
}

#[test]
fn note_append_is_transactional() {
    let mut store = Store::new();
    create_task(&mut store, None, "a", 10);
    let nid = Note::create(&mut store, 1, "note text", "new body", 100, 160).unwrap();
    assert_eq!(nid, 1);
    assert_eq!(store.notes.len(), 1);
    assert_eq!(store.notes[0].body, "note text");
    assert_eq!(Task::find(&store, 1).unwrap().body, "new body");
}

#[test]
fn failed_note_append_changes_nothing() {
    let mut store = Store::new();
    create_task(&mut store, None, "a", 10);
    let before_body = Task::find(&store, 1).unwrap().body;
    // the referenced task does not exist: neither write may land
    assert_eq!(
        Note::create(&mut store, 2, "note text", "new body", 100, 160),
        Err(Error::NotFound)
    );
    assert_eq!(store.notes.len(), 0);
    assert_eq!(Task::find(&store, 1).unwrap().body, before_body);
}

#[test]
fn abandoned_transaction_rolls_back() {
    let mut store = Store::new();
    create_task(&mut store, None, "a", 10);
    let before_body = Task::find(&store, 1).unwrap().body;
    {
        // a failure injected after the note insert but before the body
        // update: the staged transaction is dropped without commit
        let mut tx = Transaction::begin();
        assert_eq!(tx.stage_note(&store, 1, "lost note".to_string(), 100, 160), Ok(()));
        drop(tx);
    }
    assert_eq!(store.notes.len(), 0);
    assert_eq!(Task::find(&store, 1).unwrap().body, before_body);
}

#[test]
fn finished_chain_leaves_only_the_deep_open_leaf() {
    // create #1 (root), #2 under #1, #3 under #2; finish #2.
    let mut store = Store::new();
    create_task(&mut store, None, "one", 10);
    create_task(&mut store, Some(1), "two", 20);
    create_task(&mut store, Some(2), "three", 30);
    Task::finish(&mut store, 2).unwrap();
    let ids: Vec<i32> = Task::open_leaves(&store).iter().map(|t| t.id).collect();
    // #3 is an open leaf; #2 is closed; #1 counts too, because its only
    // child is closed and an open task with no *open* children is a leaf.
    assert_eq!(ids, vec![3, 1]);
}

#[test]
fn task_duration_aggregates_its_notes() {
    let mut store = Store::new();
    create_task(&mut store, None, "a", 10);
    create_task(&mut store, None, "b", 20);
    Note::create(&mut store, 1, "n1", "body", 100, 400).unwrap(); // 300
    Note::create(&mut store, 1, "n2", "body", 50, 30).unwrap(); // -20
    Note::create(&mut store, 2, "other", "body", 0, 1000).unwrap();
    let aux = Task::find_aux(&store, 1).unwrap();
    assert_eq!(aux.duration_seconds, 280);
    assert_eq!(aux.title, "a");
    let empty = Task::find_aux(&store, 2).unwrap();
    assert_eq!(empty.duration_seconds, 1000);
    assert!(Task::find_aux(&store, 9).is_none());
}

#[test]
fn notes_come_back_ordered_by_start() {
    let mut store = Store::new();
    create_task(&mut store, None, "a", 10);
    Note::create(&mut store, 1, "late", "body", 300, 310).unwrap();
    Note::create(&mut store, 1, "early", "body", 100, 160).unwrap();
    Note::create(&mut store, 1, "middle", "body", 200, 260).unwrap();
    let starts: Vec<i64> = Task::find_notes(&store, 1).iter().map(|n| n.date_start).collect();
    assert_eq!(starts, vec![100, 200, 300]);
    let auxs = Task::find_notes_aux(&store, 1);
    let durations: Vec<i128> = auxs.iter().map(|n| n.duration_seconds).collect();
    assert_eq!(durations, vec![60, 60, 10]);
}

#[test]
fn recently_updated_selects_window_and_groups() {
    let mut store = Store::new();
    create_task(&mut store, None, "a", 10);
    create_task(&mut store, None, "b", 20);
    let now: i64 = 10 * 86400;
    // inside a 3-day window: started after day 7
    Note::create(&mut store, 1, "in a", "body", now - 86400, now).unwrap();
    Note::create(&mut store, 1, "old a", "body", now - 5 * 86400, now).unwrap();
    Note::create(&mut store, 2, "in b", "body", now - 2 * 86400, now).unwrap();
    let rows = Task::find_recently_updated(&store, now, 3);
    let picked: Vec<(i32, i32)> = rows.iter().map(|r| (r.task_id, r.note_id)).collect();
    assert_eq!(picked, vec![(2, 3), (1, 1)]);

    let groups = todo::review::group_reviews(rows);
    assert_eq!(groups.len(), 2);
    assert_eq!(groups[0].task_id, 2);
    assert_eq!(groups[0].rows.len(), 1);
    assert_eq!(groups[1].task_id, 1);
    assert_eq!(groups[1].rows[0].note_body, "in a");
}

#[test]
fn grouping_re_sorts_before_grouping() {
    let mk = |task_id: i32, note_id: i32| todo::models::Review {
        task_id,
        task_title: format!("t{}", task_id),
        open: true,
        note_id,
        note_body: format!("n{}", note_id),
        last_updated: 0,
    };
    // rows arrive interleaved and unsorted
    let rows = vec![mk(1, 1), mk(2, 3), mk(1, 2), mk(2, 4)];
    let groups = todo::review::group_reviews(rows);
    assert_eq!(groups.len(), 2);
    assert_eq!(groups[0].task_id, 2);
    let g0: Vec<i32> = groups[0].rows.iter().map(|r| r.note_id).collect();
    assert_eq!(g0, vec![4, 3]);
    assert_eq!(groups[1].task_id, 1);
    let g1: Vec<i32> = groups[1].rows.iter().map(|r| r.note_id).collect();
    assert_eq!(g1, vec![2, 1]);
}

#[test]
fn templates_upsert_lookup_and_order() {
    let mut store = Store::new();
    Template::upsert(&mut store, "meeting", "agenda");
    Template::upsert(&mut store, "daily", "standup");
    assert_eq!(Template::existing(&store, "meeting"), Some("agenda".to_string()));
    assert_eq!(Template::existing(&store, "absent"), None);
    Template::upsert(&mut store, "meeting", "minutes");
    assert_eq!(Template::existing(&store, "meeting"), Some("minutes".to_string()));
    let names: Vec<String> = Template::all(&store).iter().map(|t| t.name.clone()).collect();
    assert_eq!(names, vec!["daily".to_string(), "meeting".to_string()]);
}

#[test]
fn deleting_a_task_cascades_to_descendants_and_notes() {
    let mut store = Store::new();
    create_task(&mut store, None, "root", 10);
    create_task(&mut store, Some(1), "mid", 20);
    create_task(&mut store, Some(2), "leaf", 30);
    create_task(&mut store, None, "other", 40);
    Note::create(&mut store, 2, "on mid", "body", 0, 1).unwrap();
    Note::create(&mut store, 3, "on leaf", "body", 0, 1).unwrap();
    Note::create(&mut store, 4, "kept", "body", 0, 1).unwrap();
    assert_eq!(Task::delete(&mut store, 2), Ok(()));
    let ids: Vec<i32> = store.tasks.iter().map(|t| t.id).collect();
    assert_eq!(ids, vec![1, 4]);
    let note_bodies: Vec<String> = store.notes.iter().map(|n| n.body.clone()).collect();
    assert_eq!(note_bodies, vec!["kept".to_string()]);
    assert_eq!(Task::delete(&mut store, 9), Err(Error::NotFound));
}

#[test]
fn deleting_a_note_removes_only_it() {
    let mut store = Store::new();
    create_task(&mut store, None, "a", 10);
    Note::create(&mut store, 1, "one", "body", 0, 1).unwrap();
    Note::create(&mut store, 1, "two", "body", 0, 1).unwrap();
    assert_eq!(Note::delete(&mut store, 1), Ok(()));
    assert_eq!(store.notes.len(), 1);
    assert_eq!(store.notes[0].body, "two");
    assert_eq!(Note::delete(&mut store, 1), Err(Error::NotFound));
}
