use rusk::driver::EditApply;
use rusk::{Date, Task, TaskManager};

fn seed() -> TaskManager {
    let mut tm = TaskManager::new_empty().unwrap();
    tm.tasks = vec![Task {
        id: 1,
        text: "hello world".to_string(),
        date: None,
        done: false,
    }];
    tm
}

#[test]
fn test_interactive_text_submission_kinds() {
    // a blank submission keeps the text
    let mut tm = seed();
    assert_eq!(tm.apply_interactive_text(1, "   "), EditApply::Unchanged);
    assert_eq!(tm.tasks[0].text, "hello world");

    // the same text again changes nothing
    let mut tm = seed();
    assert_eq!(tm.apply_interactive_text(1, "hello world"), EditApply::Unchanged);

    // a different text replaces it and owes a save
    let mut tm = seed();
    assert_eq!(tm.apply_interactive_text(1, "new text"), EditApply::Edited);
    assert_eq!(tm.tasks[0].text, "new text");

    // an unknown identifier is reported as such
    let mut tm = seed();
    assert_eq!(tm.apply_interactive_text(9, "x"), EditApply::NotFound);
}

#[test]
fn test_interactive_date_submission_kinds() {
    // a blank submission keeps the date
    let mut tm = seed();
    assert_eq!(tm.apply_interactive_date(1, ""), EditApply::Unchanged);
    assert_eq!(tm.tasks[0].date, None);

    // a valid different date is applied, with surrounding blanks trimmed
    let mut tm = seed();
    assert_eq!(tm.apply_interactive_date(1, " 15-01-2025 "), EditApply::Edited);
    assert_eq!(tm.tasks[0].date, Some(Date { year: 2025, month: 1, day: 15 }));

    // the same date again changes nothing
    assert_eq!(tm.apply_interactive_date(1, "15-01-2025"), EditApply::Unchanged);

    // an input that is no real date is left alone here: the editor's
    // validator already refused it at Enter
    let mut tm = seed();
    assert_eq!(tm.apply_interactive_date(1, "30-02-2025"), EditApply::Unchanged);
    assert_eq!(tm.tasks[0].date, None);

    let mut tm = seed();
    assert_eq!(tm.apply_interactive_date(9, "15-01-2025"), EditApply::NotFound);
}

#[test]
fn test_interactive_short_year_date() {
    let mut tm = seed();
    assert_eq!(tm.apply_interactive_date(1, "15/01/25"), EditApply::Edited);
    assert_eq!(tm.tasks[0].date, Some(Date { year: 2025, month: 1, day: 15 }));
}
