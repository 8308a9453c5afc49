use rusk::codec::{parse_document, render_document};
use rusk::{Date, Task};

fn task(id: u8, text: &str, date: Option<Date>, done: bool) -> Task {
    Task { id, text: text.to_string(), date, done }
}

fn date(year: u16, month: u8, day: u8) -> Date {
    Date { year, month, day }
}

fn same_tasks(a: &[Task], b: &[Task]) -> bool {
    a.len() == b.len()
        && a.iter().zip(b.iter()).all(|(x, y)| {
            x.id == y.id && x.text == y.text && x.date == y.date && x.done == y.done
        })
}

#[test]
fn test_render_empty_store() {
    let tasks: Vec<Task> = vec![];
    assert_eq!(render_document(&tasks), "[]");
    let parsed = parse_document("[]").unwrap();
    assert!(parsed.is_empty());
}

#[test]
fn test_render_one_task() {
    let tasks = vec![task(1, "hello", None, false)];
    let doc = render_document(&tasks);
    assert_eq!(
        doc,
        "[\n  {\n    \"id\": 1,\n    \"text\": \"hello\",\n    \"date\": null,\n    \"done\": false\n  }\n]"
    );
}

#[test]
fn test_round_trip_plain() {
    let tasks = vec![
        task(1, "hello", None, false),
        task(2, "buy groceries", Some(date(2025, 1, 15)), true),
        task(3, "meeting", Some(date(2024, 2, 29)), false),
    ];
    let doc = render_document(&tasks);
    let parsed = parse_document(&doc).unwrap();
    assert!(same_tasks(&parsed, &tasks));
}

#[test]
fn test_round_trip_escapes() {
    let tasks = vec![
        task(1, "say \"hi\" to a\\b", None, false),
        task(2, "tab\there and line\nbreak", None, true),
        task(3, "control\u{1}char", None, false),
        task(4, "unicode \u{43f}\u{440}\u{438}\u{432}\u{435}\u{442} text", None, false),
    ];
    let doc = render_document(&tasks);
    let parsed = parse_document(&doc).unwrap();
    assert!(same_tasks(&parsed, &tasks));
}

#[test]
fn test_parse_tolerates_whitespace() {
    let doc = "  [  {  \"id\" : 7 , \"text\" : \"x\" , \"date\" : null , \"done\" : true }  ]  ";
    let parsed = parse_document(doc).unwrap();
    assert_eq!(parsed.len(), 1);
    assert_eq!(parsed[0].id, 7);
    assert_eq!(parsed[0].text, "x");
    assert_eq!(parsed[0].date, None);
    assert!(parsed[0].done);
}

#[test]
fn test_parse_reads_date_strings() {
    let doc = "[{\"id\": 1, \"text\": \"x\", \"date\": \"2025-01-15\", \"done\": false}]";
    let parsed = parse_document(doc).unwrap();
    assert_eq!(parsed[0].date, Some(date(2025, 1, 15)));
}

#[test]
fn test_parse_rejects_corruption() {
    // truncated document
    assert!(parse_document("[\n  {\n    \"id\": 1,").is_err());
    // no document at all
    assert!(parse_document("").is_err());
    assert!(parse_document("hello").is_err());
    // identifier out of range
    assert!(parse_document("[{\"id\": 0, \"text\": \"x\", \"date\": null, \"done\": false}]").is_err());
    assert!(parse_document("[{\"id\": 256, \"text\": \"x\", \"date\": null, \"done\": false}]").is_err());
    // blank text breaks the store invariant
    assert!(parse_document("[{\"id\": 1, \"text\": \"  \", \"date\": null, \"done\": false}]").is_err());
    // duplicate identifiers break it too
    assert!(parse_document(
        "[{\"id\": 1, \"text\": \"a\", \"date\": null, \"done\": false}, {\"id\": 1, \"text\": \"b\", \"date\": null, \"done\": false}]"
    ).is_err());
    // an unreadable date
    assert!(parse_document("[{\"id\": 1, \"text\": \"x\", \"date\": \"2025-02-30\", \"done\": false}]").is_err());
    assert!(parse_document("[{\"id\": 1, \"text\": \"x\", \"date\": \"15-01-2025\", \"done\": false}]").is_err());
    // trailing content after the list
    assert!(parse_document("[] trailing").is_err());
    // a stray control character inside a string
    assert!(parse_document("[{\"id\": 1, \"text\": \"a\u{1}b\", \"date\": null, \"done\": false}]").is_err());
}

#[test]
fn test_parse_error_position_is_reported() {
    let e = parse_document("nonsense").unwrap_err();
    // the position is presentation only; it just has to exist
    let _ = e.at;
}

#[test]
fn test_round_trip_full_store() {
    // a larger store with every field shape
    let mut tasks = Vec::new();
    for i in 1..=50u8 {
        let d = if i % 3 == 0 { Some(date(2025, (i % 12) + 1, (i % 27) + 1)) } else { None };
        tasks.push(task(i, &format!("task number {}", i), d, i % 2 == 0));
    }
    let doc = render_document(&tasks);
    let parsed = parse_document(&doc).unwrap();
    assert!(same_tasks(&parsed, &tasks));
}
