use todo_store::todo::{SortBy, Todo, TodoError};

fn sample(id: usize, name: &str, priority: u8, completed: bool) -> Todo {
    Todo::new(id, String::from(name), priority, completed)
}

fn assert_same_record(t: &Todo, id: usize, name: &str, priority: u8, completed: bool) {
    assert_eq!(t.id, id);
    assert_eq!(t.name, name);
    assert_eq!(t.priority, priority);
    assert_eq!(t.completed, completed);
}

#[test]
fn new_keeps_fields() {
    let t = sample(7, "Water plants", 3, true);
    assert_same_record(&t, 7, "Water plants", 3, true);
}

#[test]
fn save_produces_exact_compact_text() {
    let records = vec![sample(1, "Buy milk", 2, false)];
    let text = Todo::save_records(&records);
    assert_eq!(text, "[{\"id\":1,\"name\":\"Buy milk\",\"priority\":2,\"completed\":false}]");
}

#[test]
fn save_empty_list_is_brackets() {
    let records: Vec<Todo> = Vec::new();
    assert_eq!(Todo::save_records(&records), "[]");
}

#[test]
fn load_empty_content_is_empty() {
    let records = Todo::load_records("");
    assert_eq!(records.len(), 0);
}

#[test]
fn load_empty_array_is_empty() {
    let records = Todo::load_records("[]");
    assert_eq!(records.len(), 0);
}

#[test]
fn load_malformed_content_falls_back_to_empty() {
    assert_eq!(Todo::load_records("not json at all").len(), 0);
    assert_eq!(Todo::load_records("[{\"id\":1}]").len(), 0);
    assert_eq!(Todo::load_records("{\"id\":1}").len(), 0);
    assert_eq!(Todo::load_records("[{\"id\":1,\"name\":\"x\",\"priority\":1,\"completed\":false}] ").len(), 0);
    assert_eq!(Todo::load_records("[{\"id\":1,\"name\":\"x\",\"priority\":999,\"completed\":false}]").len(), 0);
}

#[test]
fn load_rejects_reordered_fields_and_huge_numbers() {
    let reordered = "[{\"name\":\"x\",\"id\":1,\"priority\":1,\"completed\":false}]";
    assert_eq!(Todo::load_records(reordered).len(), 0);
    let huge = "[{\"id\":99999999999999999999999999,\"name\":\"x\",\"priority\":1,\"completed\":false}]";
    assert_eq!(Todo::load_records(huge).len(), 0);
}

#[test]
fn round_trip_long_name() {
    let long_name = "a name well past the twenty-seven character display cut-off";
    let records = vec![sample(12, long_name, 7, false)];
    let back = Todo::load_records(&Todo::save_records(&records));
    assert_eq!(back.len(), 1);
    assert_same_record(&back[0], 12, long_name, 7, false);
}

#[test]
fn round_trip_plain_records() {
    let records = vec![
        sample(1, "Buy milk", 2, false),
        sample(2, "Walk the dog", 1, true),
        sample(30, "", 255, false),
    ];
    let text = Todo::save_records(&records);
    let back = Todo::load_records(&text);
    assert_eq!(back.len(), 3);
    assert_same_record(&back[0], 1, "Buy milk", 2, false);
    assert_same_record(&back[1], 2, "Walk the dog", 1, true);
    assert_same_record(&back[2], 30, "", 255, false);
}

#[test]
fn round_trip_escaped_names() {
    let tricky = "say \"hi\"\\ tab\t newline\n bell\u{7} unicode\u{e9}\u{4e2d}";
    let records = vec![sample(9, tricky, 0, true)];
    let text = Todo::save_records(&records);
    let back = Todo::load_records(&text);
    assert_eq!(back.len(), 1);
    assert_same_record(&back[0], 9, tricky, 0, true);
}

#[test]
fn load_accepts_standard_escapes() {
    let text = "[{\"id\":1,\"name\":\"a\\/b\\u0041\\b\\f\\r\",\"priority\":1,\"completed\":true}]";
    let back = Todo::load_records(text);
    assert_eq!(back.len(), 1);
    assert_eq!(back[0].name, "a/bA\u{8}\u{c}\r");
}

#[test]
fn remove_by_position_returns_record() {
    let mut records = vec![sample(1, "Buy milk", 2, false), sample(2, "Walk the dog", 1, true)];
    let removed = Todo::remove_activity(&mut records, 1).unwrap();
    assert_eq!(removed.name, "Buy milk");
    assert_eq!(records.len(), 1);
    assert_same_record(&records[0], 2, "Walk the dog", 1, true);
}

#[test]
fn remove_position_zero_fails_without_change() {
    let mut records = vec![sample(1, "Buy milk", 2, false)];
    let err = Todo::remove_activity(&mut records, 0).unwrap_err();
    assert_eq!(err, TodoError::InvalidId { id: 0, len: 1 });
    assert_eq!(records.len(), 1);
    assert_same_record(&records[0], 1, "Buy milk", 2, false);
}

#[test]
fn remove_position_past_end_fails_without_change() {
    let mut records = vec![sample(1, "Buy milk", 2, false)];
    let err = Todo::remove_activity(&mut records, 2).unwrap_err();
    assert_eq!(err, TodoError::InvalidId { id: 2, len: 1 });
    assert_eq!(records.len(), 1);
}

#[test]
fn edit_position_bounds_fail_without_change() {
    let mut records = vec![sample(1, "Buy milk", 2, false)];
    let err = Todo::edit_activity(&mut records, 0, Some(String::from("x")), None, None).unwrap_err();
    assert_eq!(err, TodoError::InvalidId { id: 0, len: 1 });
    let err = Todo::edit_activity(&mut records, 5, None, Some(9), None).unwrap_err();
    assert_eq!(err, TodoError::InvalidId { id: 5, len: 1 });
    assert_same_record(&records[0], 1, "Buy milk", 2, false);
}

#[test]
fn edit_overwrites_only_supplied_fields() {
    let mut records = vec![sample(1, "Buy milk", 2, false), sample(2, "Walk the dog", 1, false)];
    Todo::edit_activity(&mut records, 2, None, None, Some(true)).unwrap();
    assert_same_record(&records[0], 1, "Buy milk", 2, false);
    assert_same_record(&records[1], 2, "Walk the dog", 1, true);
}

#[test]
fn edit_can_replace_every_field() {
    let mut records = vec![sample(1, "Buy milk", 2, false)];
    Todo::edit_activity(&mut records, 1, Some(String::from("Buy bread")), Some(5), Some(true))
        .unwrap();
    assert_same_record(&records[0], 1, "Buy bread", 5, true);
}

#[test]
fn search_with_no_criteria_keeps_all() {
    let records = vec![sample(1, "Buy milk", 2, false), sample(2, "Walk the dog", 1, true)];
    let found = Todo::search_activities(&records, None, None, None, None);
    assert_eq!(found.len(), 2);
}

#[test]
fn search_requires_every_criterion() {
    let records = vec![
        sample(1, "Buy milk", 2, false),
        sample(2, "Buy bread", 2, true),
        sample(3, "Walk the dog", 2, false),
    ];
    let found = Todo::search_activities(&records, None, Some(String::from("buy")), Some(2), Some(false));
    assert_eq!(found.len(), 1);
    assert_same_record(&found[0], 1, "Buy milk", 2, false);
    let found = Todo::search_activities(&records, Some(3), Some(String::from("buy")), None, None);
    assert_eq!(found.len(), 0);
}

#[test]
fn search_name_is_case_insensitive_substring() {
    let records = vec![sample(1, "Buy MILK now", 2, false), sample(2, "Nothing here", 1, false)];
    let found = Todo::search_activities(&records, None, Some(String::from("milk")), None, None);
    assert_eq!(found.len(), 1);
    assert_eq!(found[0].id, 1);
    let found = Todo::search_activities(&records, None, Some(String::from("MILK NOW")), None, None);
    assert_eq!(found.len(), 1);
    let found = Todo::search_activities(&records, None, Some(String::from("milkk")), None, None);
    assert_eq!(found.len(), 0);
}

#[test]
fn list_sorts_by_priority_ascending_and_stable() {
    let records = vec![
        sample(1, "c", 3, false),
        sample(2, "a", 1, false),
        sample(3, "b", 3, false),
        sample(4, "d", 2, false),
    ];
    let sorted = Todo::list_activities(&records, SortBy::Priority, false);
    let ids: Vec<usize> = sorted.iter().map(|t| t.id).collect();
    assert_eq!(ids, vec![2, 4, 1, 3]);
}

#[test]
fn list_reverse_is_exactly_reversed() {
    let records = vec![
        sample(1, "c", 3, false),
        sample(2, "a", 1, false),
        sample(3, "b", 3, false),
        sample(4, "d", 2, false),
    ];
    let forward = Todo::list_activities(&records, SortBy::Priority, false);
    let backward = Todo::list_activities(&records, SortBy::Priority, true);
    let fwd_ids: Vec<usize> = forward.iter().map(|t| t.id).collect();
    let mut bwd_ids: Vec<usize> = backward.iter().map(|t| t.id).collect();
    bwd_ids.reverse();
    assert_eq!(fwd_ids, bwd_ids);
}

#[test]
fn list_sorts_by_name_id_and_completed() {
    let records = vec![
        sample(3, "pear", 1, true),
        sample(1, "Apple", 2, false),
        sample(2, "banana", 3, true),
    ];
    let by_name = Todo::list_activities(&records, SortBy::Name, false);
    let names: Vec<String> = by_name.iter().map(|t| t.name.clone()).collect();
    assert_eq!(names, vec!["Apple", "banana", "pear"]);
    let by_id = Todo::list_activities(&records, SortBy::Id, false);
    let ids: Vec<usize> = by_id.iter().map(|t| t.id).collect();
    assert_eq!(ids, vec![1, 2, 3]);
    let by_done = Todo::list_activities(&records, SortBy::Completed, false);
    let done: Vec<bool> = by_done.iter().map(|t| t.completed).collect();
    assert_eq!(done, vec![false, true, true]);
}

#[test]
fn scenario_add_list_remove() {
    let mut records = Todo::load_records("");
    assert_eq!(records.len(), 0);
    Todo::append_record(&mut records, sample(1, "Buy milk", 2, false));
    let text = Todo::save_records(&records);
    let listed = Todo::list_activities(&Todo::load_records(&text), SortBy::Id, false);
    assert_eq!(listed.len(), 1);
    assert_same_record(&listed[0], 1, "Buy milk", 2, false);
    let mut reloaded = Todo::load_records(&text);
    let removed = Todo::remove_activity(&mut reloaded, 1).unwrap();
    assert_eq!(removed.name, "Buy milk");
    let text_after = Todo::save_records(&reloaded);
    assert_eq!(Todo::load_records(&text_after).len(), 0);
}

#[test]
fn scenario_edit_second_record_completed_only() {
    let mut records = Vec::new();
    Todo::append_record(&mut records, sample(1, "First", 1, false));
    Todo::append_record(&mut records, sample(2, "Second", 4, false));
    let text = Todo::save_records(&records);
    let mut loaded = Todo::load_records(&text);
    Todo::edit_activity(&mut loaded, 2, None, None, Some(true)).unwrap();
    let back = Todo::load_records(&Todo::save_records(&loaded));
    assert_eq!(back.len(), 2);
    assert_same_record(&back[0], 1, "First", 1, false);
    assert_same_record(&back[1], 2, "Second", 4, true);
}
