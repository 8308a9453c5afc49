use rusk::codec::render_document;
use rusk::persist::{
    resolve_db_path, restore_decide, sidecar_path, RestoreError, SaveAction, SaveProtocol,
};
use rusk::{Date, Task};

/// An in-memory stand-in for the three files the save touches, driven
/// exactly by the protocol's actions.
struct SimFs {
    main: Option<String>,
    backup: Option<String>,
    tmp: Option<String>,
}

impl SimFs {
    fn apply(&mut self, action: SaveAction, ok: bool, new: &str) {
        if !ok {
            return;
        }
        match action {
            SaveAction::EnsureDir => {}
            SaveAction::BackupMain => {
                if self.main.is_some() {
                    self.backup = self.main.clone();
                }
            }
            SaveAction::WriteTmp => self.tmp = Some(new.to_string()),
            SaveAction::RenameTmpMain => {
                if self.tmp.is_some() {
                    self.main = self.tmp.take();
                }
            }
            SaveAction::CopyTmpMain => {
                if self.tmp.is_some() {
                    self.main = self.tmp.clone();
                }
            }
            SaveAction::RemoveTmp => self.tmp = None,
            SaveAction::WriteMain => self.main = Some(new.to_string()),
        }
    }
}

/// Runs a save, failing exactly the actions the script says to fail.
fn run_save(fs: &mut SimFs, new: &str, failures: &[SaveAction]) -> bool {
    let mut p = SaveProtocol::new();
    while let Some(action) = p.next_action() {
        let ok = !failures.contains(&action);
        fs.apply(action, ok, new);
        p.advance(ok);
    }
    assert!(p.is_done() || p.is_failed());
    p.is_done()
}

#[test]
fn test_save_happy_path_keeps_backup() {
    let mut fs = SimFs { main: Some("old".into()), backup: None, tmp: None };
    let done = run_save(&mut fs, "new", &[]);
    assert!(done);
    // the main file holds the new document, the backup the pre-save one
    assert_eq!(fs.main.as_deref(), Some("new"));
    assert_eq!(fs.backup.as_deref(), Some("old"));
    assert_eq!(fs.tmp, None);
}

#[test]
fn test_save_falls_back_to_copy() {
    let mut fs = SimFs { main: Some("old".into()), backup: None, tmp: None };
    let done = run_save(&mut fs, "new", &[SaveAction::RenameTmpMain]);
    assert!(done);
    assert_eq!(fs.main.as_deref(), Some("new"));
    assert_eq!(fs.tmp, None);
}

#[test]
fn test_save_falls_back_to_direct_write() {
    let mut fs = SimFs { main: Some("old".into()), backup: None, tmp: None };
    let done = run_save(
        &mut fs,
        "new",
        &[SaveAction::RenameTmpMain, SaveAction::CopyTmpMain],
    );
    assert!(done);
    assert_eq!(fs.main.as_deref(), Some("new"));
}

#[test]
fn test_save_failure_keeps_old_main() {
    // a failed temporary write aborts the save without touching main
    let mut fs = SimFs { main: Some("old".into()), backup: None, tmp: None };
    let done = run_save(&mut fs, "new", &[SaveAction::WriteTmp]);
    assert!(!done);
    assert_eq!(fs.main.as_deref(), Some("old"));

    // even when everything after the backup fails, main is old or new
    let mut fs = SimFs { main: Some("old".into()), backup: None, tmp: None };
    let done = run_save(
        &mut fs,
        "new",
        &[SaveAction::RenameTmpMain, SaveAction::CopyTmpMain, SaveAction::WriteMain],
    );
    assert!(!done);
    assert_eq!(fs.main.as_deref(), Some("old"));
}

#[test]
fn test_save_tolerates_backup_failure() {
    let mut fs = SimFs { main: Some("old".into()), backup: None, tmp: None };
    let done = run_save(&mut fs, "new", &[SaveAction::BackupMain]);
    assert!(done);
    assert_eq!(fs.main.as_deref(), Some("new"));
    assert_eq!(fs.backup, None);
}

#[test]
fn test_restore_decide_no_backup() {
    let r = restore_decide(None, None);
    assert!(matches!(r, Err(RestoreError::NoBackup)));
    let r = restore_decide(None, Some("[]"));
    assert!(matches!(r, Err(RestoreError::NoBackup)));
}

#[test]
fn test_restore_decide_corrupt_backup() {
    let r = restore_decide(Some("not a document"), Some("[]"));
    assert!(matches!(r, Err(RestoreError::CorruptBackup(_))));
}

#[test]
fn test_restore_decide_valid_backup() {
    let tasks = vec![Task {
        id: 1,
        text: "from backup".to_string(),
        date: Some(Date { year: 2025, month: 1, day: 15 }),
        done: false,
    }];
    let backup = render_document(&tasks);

    // current main parses: it is copied aside first
    let plan = restore_decide(Some(&backup), Some("[]")).unwrap();
    assert_eq!(plan.tasks.len(), 1);
    assert_eq!(plan.tasks[0].text, "from backup");
    assert!(plan.backup_current);
    assert!(!plan.current_corrupt);

    // current main is corrupted: noted, not copied
    let plan = restore_decide(Some(&backup), Some("garbage")).unwrap();
    assert!(!plan.backup_current);
    assert!(plan.current_corrupt);

    // no main file at all
    let plan = restore_decide(Some(&backup), None).unwrap();
    assert!(!plan.backup_current);
    assert!(!plan.current_corrupt);
}

#[test]
fn test_restore_is_idempotent_for_unchanged_backup() {
    let tasks = vec![Task { id: 3, text: "only".to_string(), date: None, done: true }];
    let backup = render_document(&tasks);

    // first restore: main becomes the backup content
    let plan1 = restore_decide(Some(&backup), Some("whatever")).unwrap();
    let main_after_first = backup.clone();

    // second restore with the backup unchanged: same store, same main
    let plan2 = restore_decide(Some(&backup), Some(&main_after_first)).unwrap();
    assert_eq!(plan1.tasks.len(), plan2.tasks.len());
    assert_eq!(plan1.tasks[0].id, plan2.tasks[0].id);
    assert_eq!(plan1.tasks[0].text, plan2.tasks[0].text);
    // copying the backup over main again changes nothing
    assert_eq!(main_after_first, backup);
}

#[test]
fn test_sidecar_path_names() {
    assert_eq!(sidecar_path("tasks.json", "json.backup"), "tasks.json.backup");
    assert_eq!(sidecar_path("tasks.json", "json.tmp"), "tasks.json.tmp");
    assert_eq!(
        sidecar_path("tasks.json", "json.before_restore"),
        "tasks.json.before_restore"
    );
    assert_eq!(sidecar_path("/home/u/.rusk/tasks.json", "json.backup"), "/home/u/.rusk/tasks.json.backup");
    // a path without an extension gets the suffix appended
    assert_eq!(sidecar_path("db", "json.backup"), "db.json.backup");
    // a leading dot alone does not count as an extension
    assert_eq!(sidecar_path("/a/.hidden", "json.backup"), "/a/.hidden.json.backup");
    assert_eq!(sidecar_path("mydb.sqlite", "json.backup"), "mydb.json.backup");
}

#[test]
fn test_resolve_db_path_cases() {
    // an override that names a directory gets the file inside it
    assert_eq!(
        resolve_db_path(Some("/data/dir"), true, Some("/home/u")),
        "/data/dir/tasks.json"
    );
    assert_eq!(
        resolve_db_path(Some("/data/dir/"), false, Some("/home/u")),
        "/data/dir/tasks.json"
    );
    // any other override is the database path itself
    assert_eq!(
        resolve_db_path(Some("/data/my.json"), false, Some("/home/u")),
        "/data/my.json"
    );
    // without an override the database lives under the home directory
    assert_eq!(
        resolve_db_path(None, false, Some("/home/u")),
        "/home/u/.rusk/tasks.json"
    );
    assert_eq!(resolve_db_path(None, false, None), "./.rusk/tasks.json");
}
