use rusk::{Date, StoreError, Task, TaskManager};

// Helper function to create test tasks
fn create_test_task(id: u8, text: &str, done: bool) -> Task {
    Task { id, text: text.to_string(), date: None, done }
}

fn date(year: u16, month: u8, day: u8) -> Date {
    Date { year, month, day }
}

#[test]
fn test_generate_next_id_empty() {
    let tm = TaskManager::new_empty().unwrap();
    let id = tm.generate_next_id().unwrap();
    assert_eq!(id, 1);
}

#[test]
fn test_generate_next_id_sequential() {
    let mut tm = TaskManager::new_empty().unwrap();
    tm.tasks = vec![
        create_test_task(1, "Task 1", false),
        create_test_task(2, "Task 2", false),
        create_test_task(3, "Task 3", false),
    ];
    let id = tm.generate_next_id().unwrap();
    assert_eq!(id, 4);
}

#[test]
fn test_generate_next_id_with_gaps() {
    let mut tm = TaskManager::new_empty().unwrap();
    tm.tasks = vec![
        create_test_task(1, "Task 1", false),
        create_test_task(3, "Task 3", false),
        create_test_task(5, "Task 5", false),
    ];
    let id = tm.generate_next_id().unwrap();
    assert_eq!(id, 2);
}

#[test]
fn test_generate_next_id_max_reached() {
    let mut tm = TaskManager::new_empty().unwrap();

    // Fill up to 200 tasks (safe number)
    for i in 1..=200 {
        tm.tasks.push(Task {
            id: i,
            text: format!("Task {}", i),
            date: None,
            done: false,
        });
    }

    // Next ID should be 201
    let next_id = tm.generate_next_id().unwrap();
    assert_eq!(next_id, 201);
}

#[test]
fn test_generate_next_id_capacity_exhausted() {
    let mut tm = TaskManager::new_empty().unwrap();
    for i in 1..=255u16 {
        tm.tasks.push(Task {
            id: i as u8,
            text: format!("Task {}", i),
            date: None,
            done: false,
        });
    }
    assert_eq!(tm.generate_next_id(), Err(StoreError::CapacityExhausted));
    // and adding one more task is refused the same way
    let r = tm.add_task(vec!["one more".to_string()], None);
    assert_eq!(r, Err(StoreError::CapacityExhausted));
    assert_eq!(tm.tasks.len(), 255);
}

#[test]
fn test_find_task_by_id() {
    let mut tm = TaskManager::new_empty().unwrap();
    tm.tasks = vec![
        create_test_task(1, "Task 1", false),
        create_test_task(2, "Task 2", false),
        create_test_task(3, "Task 3", false),
    ];

    assert_eq!(tm.find_task_by_id(1), Some(0));
    assert_eq!(tm.find_task_by_id(2), Some(1));
    assert_eq!(tm.find_task_by_id(3), Some(2));
    assert_eq!(tm.find_task_by_id(4), None);
}

#[test]
fn test_find_tasks_by_ids() {
    let mut tm = TaskManager::new_empty().unwrap();
    tm.tasks = vec![
        create_test_task(1, "Task 1", false),
        create_test_task(2, "Task 2", false),
        create_test_task(3, "Task 3", false),
        create_test_task(4, "Task 4", false),
    ];

    let (found, not_found) = tm.find_tasks_by_ids(&[1, 3, 5]);
    assert_eq!(found, vec![0, 2]);
    assert_eq!(not_found, vec![5]);
}

#[test]
fn test_find_tasks_by_ids_empty() {
    let tm = TaskManager::new_empty().unwrap();
    let (found, not_found) = tm.find_tasks_by_ids(&[1, 2, 3]);
    assert!(found.is_empty());
    assert_eq!(not_found, vec![1, 2, 3]);
}

#[test]
fn test_add_task_success() {
    let mut tm = TaskManager::new_empty().unwrap();
    let text = vec!["Buy".to_string(), "groceries".to_string()];

    let result = tm.add_task(text, None);
    assert!(result.is_ok());
    assert_eq!(tm.tasks.len(), 1);
    assert_eq!(tm.tasks[0].id, 1);
    assert_eq!(tm.tasks[0].text, "Buy groceries");
    assert_eq!(tm.tasks[0].done, false);
}

#[test]
fn test_add_task_with_date() {
    let mut tm = TaskManager::new_empty().unwrap();
    let text = vec!["Meeting".to_string()];
    // a year-first string is not an accepted date form, so the task is
    // created with no date
    let date_arg = Some("2025-01-15".to_string());

    let result = tm.add_task(text, date_arg);
    assert!(result.is_ok());
    assert_eq!(tm.tasks.len(), 1);
    assert_eq!(tm.tasks[0].date, None);

    // the accepted day-first form is kept
    let result = tm.add_task(vec!["Meeting".to_string()], Some("15-01-2025".to_string()));
    assert!(result.is_ok());
    assert_eq!(tm.tasks[1].date, Some(date(2025, 1, 15)));
}

#[test]
fn test_add_task_empty_text() {
    let mut tm = TaskManager::new_empty().unwrap();
    let text = vec!["".to_string()];

    let result = tm.add_task(text, None);
    assert!(result.is_err());
    assert_eq!(tm.tasks.len(), 0);
}

#[test]
fn test_delete_tasks() {
    let mut tm = TaskManager::new_empty().unwrap();
    tm.tasks = vec![
        create_test_task(1, "Task 1", false),
        create_test_task(2, "Task 2", false),
        create_test_task(3, "Task 3", false),
    ];

    let not_found = tm.delete_tasks(vec![1, 3]).unwrap();
    assert!(not_found.is_empty());
    assert_eq!(tm.tasks.len(), 1);
    assert_eq!(tm.tasks[0].id, 2);
}

#[test]
fn test_delete_tasks_not_found() {
    let mut tm = TaskManager::new_empty().unwrap();
    tm.tasks = vec![
        create_test_task(1, "Task 1", false),
        create_test_task(2, "Task 2", false),
    ];

    let not_found = tm.delete_tasks(vec![1, 3, 5]).unwrap();
    // Sort both vectors for comparison since order doesn't matter
    let mut expected = vec![3, 5];
    expected.sort();
    let mut actual = not_found;
    actual.sort();
    assert_eq!(actual, expected);
    assert_eq!(tm.tasks.len(), 1);
    assert_eq!(tm.tasks[0].id, 2);
}

#[test]
fn test_delete_all_done() {
    let mut tm = TaskManager::new_empty().unwrap();
    tm.tasks = vec![
        create_test_task(1, "Task 1", true),
        create_test_task(2, "Task 2", false),
        create_test_task(3, "Task 3", true),
    ];

    let deleted = tm.delete_all_done().unwrap();
    assert_eq!(deleted, 2);
    assert_eq!(tm.tasks.len(), 1);
    assert_eq!(tm.tasks[0].id, 2);
}

#[test]
fn test_delete_all_done_empty() {
    let mut tm = TaskManager::new_empty().unwrap();
    tm.tasks = vec![
        create_test_task(1, "Task 1", false),
        create_test_task(2, "Task 2", false),
    ];

    let deleted = tm.delete_all_done().unwrap();
    assert_eq!(deleted, 0);
    assert_eq!(tm.tasks.len(), 2);
}

#[test]
fn test_mark_tasks() {
    let mut tm = TaskManager::new_empty().unwrap();
    tm.tasks = vec![
        create_test_task(1, "Task 1", false),
        create_test_task(2, "Task 2", false),
        create_test_task(3, "Task 3", false),
    ];

    let (_marked, not_found) = tm.mark_tasks(vec![1, 3]).unwrap();
    assert!(not_found.is_empty());
    assert!(tm.tasks[0].done);
    assert!(!tm.tasks[1].done);
    assert!(tm.tasks[2].done);
}

#[test]
fn test_mark_tasks_not_found() {
    let mut tm = TaskManager::new_empty().unwrap();
    tm.tasks = vec![
        create_test_task(1, "Task 1", false),
        create_test_task(2, "Task 2", false),
    ];

    let (_marked, not_found) = tm.mark_tasks(vec![1, 3, 5]).unwrap();
    assert_eq!(not_found, vec![3, 5]);
    assert!(tm.tasks[0].done);
    assert!(!tm.tasks[1].done);
}

#[test]
fn test_edit_tasks() {
    let mut tm = TaskManager::new_empty().unwrap();
    tm.tasks = vec![
        create_test_task(1, "Task 1", false),
        create_test_task(2, "Task 2", false),
    ];

    let text = Some(vec!["New".to_string(), "text".to_string()]);
    // the day-first form is the accepted one
    let date_arg = Some("15-01-2025".to_string());

    let (_edited, _unchanged, not_found) =
        tm.edit_tasks(vec![1, 2], text.clone(), date_arg.clone()).unwrap();
    assert!(not_found.is_empty());
    assert_eq!(tm.tasks[0].text, "New text");
    assert_eq!(tm.tasks[1].text, "New text");
    assert_eq!(tm.tasks[0].date, Some(date(2025, 1, 15)));
    assert_eq!(tm.tasks[1].date, Some(date(2025, 1, 15)));
}

#[test]
fn test_edit_tasks_partial() {
    let mut tm = TaskManager::new_empty().unwrap();
    tm.tasks = vec![
        create_test_task(1, "Task 1", false),
        create_test_task(2, "Task 2", false),
    ];

    let text = Some(vec!["New".to_string(), "text".to_string()]);

    let (_edited, _unchanged, not_found) = tm.edit_tasks(vec![1], text, None).unwrap();
    assert!(not_found.is_empty());
    assert_eq!(tm.tasks[0].text, "New text");
    assert_eq!(tm.tasks[1].text, "Task 2");
}

#[test]
fn test_edit_tasks_not_found() {
    let mut tm = TaskManager::new_empty().unwrap();
    tm.tasks = vec![create_test_task(1, "Task 1", false)];

    let text = Some(vec!["New".to_string(), "text".to_string()]);

    let (_edited, _unchanged, not_found) = tm.edit_tasks(vec![1, 3], text, None).unwrap();
    assert_eq!(not_found, vec![3]);
    assert_eq!(tm.tasks[0].text, "New text");
}

#[test]
fn test_mark_tasks_returns_marked_info() {
    let mut tm = TaskManager::new_empty().unwrap();
    tm.tasks = vec![
        create_test_task(1, "Task 1", false),
        create_test_task(2, "Task 2", true),
        create_test_task(3, "Task 3", false),
    ];

    let (marked, not_found) = tm.mark_tasks(vec![1, 2, 3]).unwrap();

    assert_eq!(marked.len(), 3);
    assert_eq!(marked[0], (1, true));
    assert_eq!(marked[1], (2, false));
    assert_eq!(marked[2], (3, true));
    assert!(not_found.is_empty());

    assert!(tm.tasks[0].done);
    assert!(!tm.tasks[1].done);
    assert!(tm.tasks[2].done);
}

#[test]
fn test_mark_tasks_with_not_found() {
    let mut tm = TaskManager::new_empty().unwrap();
    tm.tasks = vec![create_test_task(1, "Task 1", false)];

    let (marked, not_found) = tm.mark_tasks(vec![1, 99]).unwrap();

    assert_eq!(marked.len(), 1);
    assert_eq!(marked[0], (1, true));
    assert_eq!(not_found, vec![99]);

    assert!(tm.tasks[0].done);
}

#[test]
fn test_mark_tasks_toggle_behavior() {
    let mut tm = TaskManager::new_empty().unwrap();
    tm.tasks = vec![create_test_task(1, "Task 1", false)];

    let (marked, _) = tm.mark_tasks(vec![1]).unwrap();
    assert_eq!(marked[0], (1, true));
    assert!(tm.tasks[0].done);

    let (marked, _) = tm.mark_tasks(vec![1]).unwrap();
    assert_eq!(marked[0], (1, false));
    assert!(!tm.tasks[0].done);
}

#[test]
fn test_mark_tasks_empty_list() {
    let mut tm = TaskManager::new_empty().unwrap();
    tm.tasks = vec![create_test_task(1, "Task 1", false)];

    let (marked, not_found) = tm.mark_tasks(vec![]).unwrap();

    assert!(marked.is_empty());
    assert!(not_found.is_empty());
    assert!(!tm.tasks[0].done);
}

#[test]
fn test_mark_tasks_all_not_found() {
    let mut tm = TaskManager::new_empty().unwrap();
    tm.tasks = vec![create_test_task(1, "Task 1", false)];

    let (marked, not_found) = tm.mark_tasks(vec![99, 100]).unwrap();

    assert!(marked.is_empty());
    assert_eq!(not_found, vec![99, 100]);
    assert!(!tm.tasks[0].done);
}

#[test]
fn test_edit_tasks_unchanged_text() {
    let mut tm = TaskManager::new_empty().unwrap();
    tm.tasks = vec![
        create_test_task(1, "Same text", false),
        create_test_task(2, "Different text", false),
    ];

    let (edited, unchanged, not_found) = tm
        .edit_tasks(vec![1], Some(vec!["Same".to_string(), "text".to_string()]), None)
        .unwrap();

    assert!(edited.is_empty());
    assert_eq!(unchanged, vec![1]);
    assert!(not_found.is_empty());
    assert_eq!(tm.tasks[0].text, "Same text");
}

#[test]
fn test_edit_tasks_mixed_changed_unchanged() {
    let mut tm = TaskManager::new_empty().unwrap();
    tm.tasks = vec![
        create_test_task(1, "Original text", false),
        create_test_task(2, "New text", false),
        create_test_task(3, "Another text", false),
    ];

    let (edited, unchanged, not_found) = tm
        .edit_tasks(vec![1, 2, 3], Some(vec!["New".to_string(), "text".to_string()]), None)
        .unwrap();

    assert_eq!(edited, vec![1, 3]);
    assert_eq!(unchanged, vec![2]);
    assert!(not_found.is_empty());

    assert_eq!(tm.tasks[0].text, "New text");
    assert_eq!(tm.tasks[1].text, "New text");
    assert_eq!(tm.tasks[2].text, "New text");
}

#[test]
fn test_edit_tasks_unchanged_date() {
    let mut tm = TaskManager::new_empty().unwrap();
    tm.tasks = vec![create_test_task(1, "Task 1", false)];

    tm.tasks[0].date = Some(date(2025, 1, 1));

    // the same date again, in the accepted day-first form
    let (edited, unchanged, not_found) =
        tm.edit_tasks(vec![1], None, Some("01-01-2025".to_string())).unwrap();

    assert!(edited.is_empty());
    assert_eq!(unchanged, vec![1]);
    assert!(not_found.is_empty());
}

#[test]
fn test_edit_tasks_mixed_text_and_date_changes() {
    let mut tm = TaskManager::new_empty().unwrap();
    tm.tasks = vec![create_test_task(1, "Same text", false)];

    tm.tasks[0].date = Some(date(2025, 1, 1));

    let (edited, unchanged, not_found) = tm
        .edit_tasks(
            vec![1],
            Some(vec!["New".to_string(), "text".to_string()]),
            Some("01-01-2025".to_string()),
        )
        .unwrap();

    assert_eq!(edited, vec![1]);
    assert!(unchanged.is_empty());
    assert!(not_found.is_empty());
    assert_eq!(tm.tasks[0].text, "New text");
}

#[test]
fn test_edit_tasks_all_unchanged() {
    let mut tm = TaskManager::new_empty().unwrap();
    tm.tasks = vec![
        create_test_task(1, "Text 1", false),
        create_test_task(2, "Text 1", false),
    ];

    let (edited, unchanged, not_found) = tm
        .edit_tasks(vec![1, 2], Some(vec!["Text".to_string(), "1".to_string()]), None)
        .unwrap();

    assert!(edited.is_empty());
    assert_eq!(unchanged, vec![1, 2]);
    assert!(not_found.is_empty());
}

#[test]
fn test_edit_tasks_with_not_found_and_unchanged() {
    let mut tm = TaskManager::new_empty().unwrap();
    tm.tasks = vec![create_test_task(1, "Same text", false)];

    let (edited, unchanged, not_found) = tm
        .edit_tasks(vec![1, 99], Some(vec!["Same".to_string(), "text".to_string()]), None)
        .unwrap();

    assert!(edited.is_empty());
    assert_eq!(unchanged, vec![1]);
    assert_eq!(not_found, vec![99]);
}

#[test]
fn test_edit_tasks_text_joining() {
    let mut tm = TaskManager::new_empty().unwrap();
    tm.tasks = vec![create_test_task(1, "Original", false)];

    let (edited, _unchanged, _not_found) = tm
        .edit_tasks(
            vec![1],
            Some(vec![
                "Multiple".to_string(),
                "word".to_string(),
                "text".to_string(),
                "here".to_string(),
            ]),
            None,
        )
        .unwrap();

    assert_eq!(edited, vec![1]);
    assert_eq!(tm.tasks[0].text, "Multiple word text here");
}

#[test]
fn test_edit_tasks_date_parsing_validation() {
    let mut tm = TaskManager::new_empty().unwrap();
    tm.tasks = vec![create_test_task(1, "Task", false)];

    // a valid day-first date is applied
    let (_edited, _unchanged, _not_found) =
        tm.edit_tasks(vec![1], None, Some("31-12-2025".to_string())).unwrap();

    assert_eq!(tm.tasks[0].date, Some(date(2025, 12, 31)));

    // an unreadable date clears it, which counts as an edit
    let (edited, _unchanged, _not_found) =
        tm.edit_tasks(vec![1], None, Some("invalid-date".to_string())).unwrap();

    assert_eq!(edited, vec![1]);
    assert_eq!(tm.tasks[0].date, None);
}

#[test]
fn test_edit_tasks_comprehensive_scenario() {
    let mut tm = TaskManager::new_empty().unwrap();
    tm.tasks = vec![
        create_test_task(1, "Task 1", false),
        create_test_task(2, "Task 2", false),
        create_test_task(3, "Different text", false),
    ];

    let (edited, unchanged, not_found) = tm
        .edit_tasks(
            vec![1, 2, 3, 99],
            Some(vec!["Task".to_string(), "2".to_string()]),
            Some("15-06-2025".to_string()),
        )
        .unwrap();

    assert_eq!(edited, vec![1, 2, 3]);
    assert!(unchanged.is_empty());
    assert_eq!(not_found, vec![99]);

    assert_eq!(tm.tasks[0].text, "Task 2");
    assert_eq!(tm.tasks[1].text, "Task 2");
    assert_eq!(tm.tasks[2].text, "Task 2");

    let expected_date = Some(date(2025, 6, 15));
    assert_eq!(tm.tasks[0].date, expected_date);
    assert_eq!(tm.tasks[1].date, expected_date);
    assert_eq!(tm.tasks[2].date, expected_date);
}

#[test]
fn test_edge_case_empty_inputs() {
    let mut tm = TaskManager::new_empty().unwrap();

    let result = tm.add_task(vec![], None);
    assert!(result.is_err());
    assert!(result.unwrap_err().message().contains("Task text cannot be empty"));

    let result = tm.add_task(vec!["   ".to_string()], None);
    assert!(result.is_err());
    assert!(result.unwrap_err().message().contains("Task text cannot be empty"));

    let result = tm.add_task(vec!["\t\t".to_string()], None);
    assert!(result.is_err());
    assert!(result.unwrap_err().message().contains("Task text cannot be empty"));

    let result = tm.add_task(vec!["\n\n".to_string()], None);
    assert!(result.is_err());
    assert!(result.unwrap_err().message().contains("Task text cannot be empty"));

    let result = tm.add_task(vec![" \t \n ".to_string()], None);
    assert!(result.is_err());
    assert!(result.unwrap_err().message().contains("Task text cannot be empty"));
}

#[test]
fn test_edge_case_date_boundaries() {
    let mut tm = TaskManager::new_empty().unwrap();

    let result = tm.add_task(vec!["Earliest task".to_string()], Some("01-01-0001".to_string()));
    assert!(result.is_ok());
    assert_eq!(tm.tasks[0].date, Some(date(1, 1, 1)));

    let result = tm.add_task(vec!["Latest task".to_string()], Some("31-12-9999".to_string()));
    assert!(result.is_ok());
    assert_eq!(tm.tasks[1].date, Some(date(9999, 12, 31)));

    let leap_dates = [(29u8, 2u8, 2024u16), (29, 2, 2020), (29, 2, 2016)];
    for (i, (d, m, y)) in leap_dates.iter().enumerate() {
        let input = format!("{:02}-{:02}-{}", d, m, y);
        let add_result = tm.add_task(vec![format!("Leap task {}", i + 1)], Some(input));
        assert!(add_result.is_ok());
        assert_eq!(tm.tasks[i + 2].date, Some(date(*y, *m, *d)));
    }
}

#[test]
fn test_edge_case_invalid_date_formats() {
    let mut tm = TaskManager::new_empty().unwrap();

    let invalid_dates = vec![
        "01-13-2025",
        "32-01-2025",
        "30-02-2025",
        "31-04-2025",
        "31-06-2025",
        "31-09-2025",
        "31-11-2025",
        "01-00-2025",
        "00-01-2025",
        "32-13-2025",
        "invalid-date",
        "2025-01-01",
        "01.01.2025",
        "01_01_2025",
        "01 01 2025",
        "",
        "   ",
        "2025",
        "01-01",
        "01",
        "01-01-2025-extra",
        "extra-01-01-2025",
        "01-01-2025-",
        "-01-01-2025",
        "01--01-2025",
        "2025-01--01",
    ];

    for date_input in invalid_dates {
        let result = tm.add_task(vec!["Test task".to_string()], Some(date_input.to_string()));
        assert!(result.is_ok());
        let task = tm.tasks.last().unwrap();
        assert!(task.text == "Test task");
    }
}

#[test]
fn test_edge_case_delete_all_tasks() {
    let mut tm = TaskManager::new_empty().unwrap();

    for i in 1..=5 {
        tm.add_task(vec![format!("Task {}", i)], None).unwrap();
    }

    tm.mark_tasks(vec![1, 2, 3, 4, 5]).unwrap();

    let deleted_count = tm.delete_all_done().unwrap();
    assert_eq!(deleted_count, 5);
    assert_eq!(tm.tasks.len(), 0);

    let deleted_count = tm.delete_all_done().unwrap();
    assert_eq!(deleted_count, 0);
}

#[test]
fn test_edge_case_edit_with_same_values() {
    let mut tm = TaskManager::new_empty().unwrap();

    tm.add_task(vec!["Original text".to_string()], Some("01-01-2025".to_string()))
        .unwrap();

    let (edited, unchanged, not_found) = tm
        .edit_tasks(
            vec![1],
            Some(vec!["Original".to_string(), "text".to_string()]),
            Some("01-01-2025".to_string()),
        )
        .unwrap();

    assert_eq!(edited, vec![] as Vec<u8>);
    assert_eq!(unchanged, vec![1]);
    assert_eq!(not_found, vec![] as Vec<u8>);

    assert_eq!(tm.tasks[0].text, "Original text");
    assert_eq!(tm.tasks[0].date, Some(date(2025, 1, 1)));
}

#[test]
fn test_edge_case_id_reuse_after_deletion() {
    let mut tm = TaskManager::new_empty().unwrap();

    tm.add_task(vec!["Task 1".to_string()], None).unwrap();
    tm.add_task(vec!["Task 2".to_string()], None).unwrap();
    tm.add_task(vec!["Task 3".to_string()], None).unwrap();

    assert_eq!(tm.tasks[0].id, 1);
    assert_eq!(tm.tasks[1].id, 2);
    assert_eq!(tm.tasks[2].id, 3);

    tm.delete_tasks(vec![2]).unwrap();

    tm.add_task(vec!["New task".to_string()], None).unwrap();
    let task_2 = tm.tasks.iter().find(|t| t.id == 2);
    assert!(task_2.is_some());
    assert_eq!(task_2.unwrap().text, "New task");

    tm.add_task(vec!["Another task".to_string()], None).unwrap();
    let task_4 = tm.tasks.iter().find(|t| t.id == 4);
    assert!(task_4.is_some());
    assert_eq!(task_4.unwrap().text, "Another task");
}

#[test]
fn test_edge_case_multiple_deletions_same_id() {
    let mut tm = TaskManager::new_empty().unwrap();

    tm.add_task(vec!["Task 1".to_string()], None).unwrap();

    let not_found = tm.delete_tasks(vec![1, 1]).unwrap();
    assert_eq!(not_found, vec![1]);
    assert_eq!(tm.tasks.len(), 0);
}

#[test]
fn test_edge_case_mark_empty_task_list() {
    let mut tm = TaskManager::new_empty().unwrap();

    let (marked, not_found) = tm.mark_tasks(vec![1, 2, 3]).unwrap();
    assert_eq!(marked, vec![] as Vec<(u8, bool)>);
    assert_eq!(not_found, vec![1, 2, 3]);
}

#[test]
fn test_edge_case_edit_empty_task_list() {
    let mut tm = TaskManager::new_empty().unwrap();

    let (edited, unchanged, not_found) = tm
        .edit_tasks(vec![1, 2], Some(vec!["New".to_string(), "text".to_string()]), None)
        .unwrap();

    assert_eq!(edited, vec![] as Vec<u8>);
    assert_eq!(unchanged, vec![] as Vec<u8>);
    assert_eq!(not_found, vec![1, 2]);
}

#[test]
fn test_fresh_store_three_adds() {
    let mut tm = TaskManager::new_empty().unwrap();

    tm.add_task(vec!["hello".to_string()], None).unwrap();
    assert_eq!(tm.tasks.len(), 1);
    assert_eq!(tm.tasks[0].id, 1);
    assert_eq!(tm.tasks[0].text, "hello");
    assert_eq!(tm.tasks[0].date, None);
    assert_eq!(tm.tasks[0].done, false);

    tm.add_task(vec!["buy".to_string(), "groceries".to_string()], None).unwrap();
    assert_eq!(tm.tasks.len(), 2);
    assert_eq!(tm.tasks[1].id, 2);
    assert_eq!(tm.tasks[1].text, "buy groceries");

    tm.add_task(vec!["meeting".to_string()], Some("15-01-2025".to_string())).unwrap();
    assert_eq!(tm.tasks.len(), 3);
    assert_eq!(tm.tasks[2].id, 3);
    assert_eq!(tm.tasks[2].text, "meeting");
    assert_eq!(tm.tasks[2].date, Some(date(2025, 1, 15)));
}

#[test]
fn test_mark_delete_then_purge() {
    let mut tm = TaskManager::new_empty().unwrap();
    for i in 1..=4 {
        tm.add_task(vec![format!("Task {}", i)], None).unwrap();
    }
    assert_eq!(tm.tasks.iter().map(|t| t.id).collect::<Vec<_>>(), vec![1, 2, 3, 4]);

    tm.mark_tasks(vec![2, 4]).unwrap();
    tm.delete_tasks(vec![1, 3]).unwrap();

    let ids: Vec<u8> = tm.tasks.iter().map(|t| t.id).collect();
    assert_eq!(ids, vec![2, 4]);
    assert!(tm.tasks.iter().all(|t| t.done));

    let purged = tm.delete_all_done().unwrap();
    assert_eq!(purged, 2);
    assert!(tm.tasks.is_empty());
}

#[test]
fn test_edit_same_text_reports_unchanged_only() {
    let mut tm = TaskManager::new_empty().unwrap();
    tm.add_task(vec!["x".to_string()], None).unwrap();

    let (edited, unchanged, not_found) =
        tm.edit_tasks(vec![1], Some(vec!["x".to_string()]), None).unwrap();

    // nothing was edited, so no save is owed for this call
    assert!(edited.is_empty());
    assert_eq!(unchanged, vec![1]);
    assert!(not_found.is_empty());
    assert_eq!(tm.tasks[0].text, "x");
}

#[test]
fn test_edit_blank_text_rejected() {
    let mut tm = TaskManager::new_empty().unwrap();
    tm.add_task(vec!["keep me".to_string()], None).unwrap();

    let r = tm.edit_tasks(vec![1], Some(vec!["   ".to_string()]), None);
    assert_eq!(r, Err(StoreError::EmptyText));
    assert_eq!(tm.tasks[0].text, "keep me");
}

#[test]
fn test_store_invariants_after_operations() {
    let mut tm = TaskManager::new_empty().unwrap();
    for i in 1..=10 {
        tm.add_task(vec![format!("Task {}", i)], None).unwrap();
    }
    tm.delete_tasks(vec![3, 7]).unwrap();
    tm.add_task(vec!["reused".to_string()], None).unwrap();
    tm.mark_tasks(vec![1, 2]).unwrap();

    // ids stay pairwise distinct and inside 1..=255, texts stay non-blank
    let ids: Vec<u8> = tm.tasks.iter().map(|t| t.id).collect();
    let mut sorted = ids.clone();
    sorted.sort();
    sorted.dedup();
    assert_eq!(sorted.len(), ids.len());
    assert!(ids.iter().all(|&i| i >= 1));
    assert!(tm.tasks.iter().all(|t| !t.text.trim().is_empty()));
}

#[test]
fn test_edge_case_very_long_text() {
    let mut tm = TaskManager::new_empty().unwrap();

    let long_text = "a".repeat(1000);
    let result = tm.add_task(vec![long_text.clone()], None);
    assert!(result.is_ok());
    assert_eq!(tm.tasks[0].text, long_text);

    let very_long_text = "b".repeat(10000);
    let result = tm.add_task(vec![very_long_text.clone()], None);
    assert!(result.is_ok());
    assert_eq!(tm.tasks[1].text, very_long_text);

    let special_text = "!@#$%^&*()_+-=[]{}|;':\",./<>?`~\\";
    let result = tm.add_task(vec![special_text.to_string()], None);
    assert!(result.is_ok());
    assert_eq!(tm.tasks[2].text, special_text);

    let unicode_text = "\u{41f}\u{440}\u{438}\u{432}\u{435}\u{442} \u{43c}\u{438}\u{440}! \u{1f30d} Hello world! \u{3053}\u{3093}\u{306b}\u{3061}\u{306f}\u{4e16}\u{754c}\u{ff01}";
    let result = tm.add_task(vec![unicode_text.to_string()], None);
    assert!(result.is_ok());
    assert_eq!(tm.tasks[3].text, unicode_text);
}

#[test]
fn test_edge_case_special_characters_in_text() {
    let mut tm = TaskManager::new_empty().unwrap();

    let special_texts = vec![
        "Task with 'quotes'",
        "Task with \"double quotes\"",
        "Task with & ampersand",
        "Task with < > brackets",
        "Task with [ ] square brackets",
        "Task with { } curly braces",
        "Task with | pipe",
        "Task with \\ backslash",
        "Task with / forward slash",
        "Task with ` backtick",
        "Task with ~ tilde",
        "Task with ! exclamation",
        "Task with @ at symbol",
        "Task with # hash",
        "Task with $ dollar",
        "Task with % percent",
        "Task with ^ caret",
        "Task with * asterisk",
        "Task with ( ) parentheses",
        "Task with - hyphen",
        "Task with + plus",
        "Task with = equals",
        "Task with _ underscore",
        "Task with ; semicolon",
        "Task with : colon",
        "Task with , comma",
        "Task with . period",
        "Task with ? question mark",
    ];

    for (i, text) in special_texts.iter().enumerate() {
        let result = tm.add_task(vec![text.to_string()], None);
        assert!(result.is_ok());
        assert_eq!(tm.tasks[i].text, *text);
    }
}

#[test]
fn test_edge_case_id_generation_under_load() {
    let mut tm = TaskManager::new_empty().unwrap();

    for i in 0..50 {
        let add_result = tm.add_task(vec![format!("Task {}", i + 1)], None);
        assert!(add_result.is_ok());
    }

    let mut ids: Vec<u8> = tm.tasks.iter().map(|t| t.id).collect();
    ids.sort();

    for (i, &id) in ids.iter().enumerate() {
        assert_eq!(id, (i + 1) as u8);
    }

    let delete_result = tm.delete_tasks(vec![1, 3, 5, 7, 9]);
    assert!(delete_result.is_ok());

    for i in 0..5 {
        let add_result = tm.add_task(vec![format!("New task {}", i + 1)], None);
        assert!(add_result.is_ok());
    }

    assert_eq!(tm.tasks.len(), 50); // 50 added, 5 deleted, 5 added again
}

#[test]
fn test_edge_case_task_text_edge_cases() {
    let mut tm = TaskManager::new_empty().unwrap();

    let result = tm.add_task(vec!["a".to_string()], None);
    assert!(result.is_ok());
    assert_eq!(tm.tasks[0].text, "a");

    let result = tm.add_task(vec!["hello".to_string()], None);
    assert!(result.is_ok());
    assert_eq!(tm.tasks[1].text, "hello");

    let result = tm.add_task(vec!["hello".to_string(), "world".to_string()], None);
    assert!(result.is_ok());
    assert_eq!(tm.tasks[2].text, "hello world");

    // joining keeps each token's own blanks around the single separator
    let result = tm.add_task(vec!["  hello  ".to_string(), "  world  ".to_string()], None);
    assert!(result.is_ok());
    assert_eq!(tm.tasks[3].text, "  hello     world  ");

    // an empty token still gets its separators on both sides
    let result = tm.add_task(
        vec!["hello".to_string(), "".to_string(), "world".to_string()],
        None,
    );
    assert!(result.is_ok());
    assert_eq!(tm.tasks[4].text, "hello  world");
}
