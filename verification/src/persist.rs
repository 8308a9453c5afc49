//! The durability protocol. Nothing here touches a disk: the save
//! protocol is a state machine that tells its driver which file-system
//! primitive to run next and reacts to success or failure, and the
//! restore operation is a decision over file contents handed in. The
//! protocol's guarantees are proved over a model of the three files.

use vstd::prelude::*;
use crate::codec::{doc_parse_spec, parse_document, rec_of, ParseError};
use crate::task::{tasks_wf, Task};
use crate::text::{append_chars, chars_str, str_chars};

verus! {

/// One file-system primitive of the save protocol. The driver performs
/// it against the real paths and reports whether it succeeded.
#[derive(Debug, Clone, Copy, PartialEq, Eq, Structural)]
pub enum SaveAction {
    /// Create the database directory, parents included.
    EnsureDir,
    /// Copy the main file to the backup sidecar, when the main file
    /// exists; reporting success when there was nothing to copy is fine.
    BackupMain,
    /// Write the new document to the temporary sidecar.
    WriteTmp,
    /// Rename the temporary sidecar over the main file.
    RenameTmpMain,
    /// Copy the temporary sidecar over the main file.
    CopyTmpMain,
    /// Remove the temporary sidecar.
    RemoveTmp,
    /// Write the new document directly to the main file.
    WriteMain,
}

/// Where the save protocol stands.
#[derive(Debug, Clone, Copy, PartialEq, Eq, Structural)]
pub enum SaveStep {
    /// About to ensure the directory exists.
    Start,
    /// About to back the main file up; failure here is tolerated.
    Backup,
    /// About to write the temporary file.
    Write,
    /// About to rename the temporary file over the main one.
    Rename,
    /// The rename failed; about to copy instead.
    Copy,
    /// The copy worked; about to clean the temporary file up.
    CleanupAfterCopy,
    /// The copy failed too; about to drop the temporary file.
    PreDirectWrite,
    /// About to write the main file directly, the last resort.
    DirectWrite,
    /// The new state is durable.
    Done,
    /// The save failed; the old state is still recoverable.
    Failed,
}

/// Which primitive a step runs, when it is not finished.
pub open spec fn action_of(step: SaveStep) -> Option<SaveAction> {
    match step {
        SaveStep::Start => Some(SaveAction::EnsureDir),
        SaveStep::Backup => Some(SaveAction::BackupMain),
        SaveStep::Write => Some(SaveAction::WriteTmp),
        SaveStep::Rename => Some(SaveAction::RenameTmpMain),
        SaveStep::Copy => Some(SaveAction::CopyTmpMain),
        SaveStep::CleanupAfterCopy => Some(SaveAction::RemoveTmp),
        SaveStep::PreDirectWrite => Some(SaveAction::RemoveTmp),
        SaveStep::DirectWrite => Some(SaveAction::WriteMain),
        SaveStep::Done => None,
        SaveStep::Failed => None,
    }
}

/// The chain of §durability: backup, then temp-and-rename, falling back
/// to copy-and-remove and finally to a direct write. A backup or
/// cleanup failure never fails the save; a failed directory, temp write
/// or final write does.
pub open spec fn save_transition(step: SaveStep, ok: bool) -> SaveStep {
    match step {
        SaveStep::Start => if ok {
            SaveStep::Backup
        } else {
            SaveStep::Failed
        },
        SaveStep::Backup => SaveStep::Write,
        SaveStep::Write => if ok {
            SaveStep::Rename
        } else {
            SaveStep::Failed
        },
        SaveStep::Rename => if ok {
            SaveStep::Done
        } else {
            SaveStep::Copy
        },
        SaveStep::Copy => if ok {
            SaveStep::CleanupAfterCopy
        } else {
            SaveStep::PreDirectWrite
        },
        SaveStep::CleanupAfterCopy => SaveStep::Done,
        SaveStep::PreDirectWrite => SaveStep::DirectWrite,
        SaveStep::DirectWrite => if ok {
            SaveStep::Done
        } else {
            SaveStep::Failed
        },
        SaveStep::Done => SaveStep::Done,
        SaveStep::Failed => SaveStep::Failed,
    }
}

/// The executable protocol: ask for the next action, report how it
/// went, until done or failed.
pub struct SaveProtocol {
    pub step: SaveStep,
}

impl SaveProtocol {
    pub fn new() -> (p: SaveProtocol)
        ensures
            p.step == SaveStep::Start,
    {
        SaveProtocol { step: SaveStep::Start }
    }

    /// The primitive to run next, or nothing when the save is over.
    pub fn next_action(&self) -> (r: Option<SaveAction>)
        ensures
            r == action_of(self.step),
    {
        match self.step {
            SaveStep::Start => Some(SaveAction::EnsureDir),
            SaveStep::Backup => Some(SaveAction::BackupMain),
            SaveStep::Write => Some(SaveAction::WriteTmp),
            SaveStep::Rename => Some(SaveAction::RenameTmpMain),
            SaveStep::Copy => Some(SaveAction::CopyTmpMain),
            SaveStep::CleanupAfterCopy => Some(SaveAction::RemoveTmp),
            SaveStep::PreDirectWrite => Some(SaveAction::RemoveTmp),
            SaveStep::DirectWrite => Some(SaveAction::WriteMain),
            SaveStep::Done => None,
            SaveStep::Failed => None,
        }
    }

    /// Moves on after the driver reports how the action went.
    pub fn advance(&mut self, ok: bool)
        ensures
            final(self).step == save_transition(old(self).step, ok),
    {
        let next = match self.step {
            SaveStep::Start => if ok {
                SaveStep::Backup
            } else {
                SaveStep::Failed
            },
            SaveStep::Backup => SaveStep::Write,
            SaveStep::Write => if ok {
                SaveStep::Rename
            } else {
                SaveStep::Failed
            },
            SaveStep::Rename => if ok {
                SaveStep::Done
            } else {
                SaveStep::Copy
            },
            SaveStep::Copy => if ok {
                SaveStep::CleanupAfterCopy
            } else {
                SaveStep::PreDirectWrite
            },
            SaveStep::CleanupAfterCopy => SaveStep::Done,
            SaveStep::PreDirectWrite => SaveStep::DirectWrite,
            SaveStep::DirectWrite => if ok {
                SaveStep::Done
            } else {
                SaveStep::Failed
            },
            SaveStep::Done => SaveStep::Done,
            SaveStep::Failed => SaveStep::Failed,
        };
        self.step = next;
    }

    /// Whether the new state is durable.
    pub fn is_done(&self) -> (r: bool)
        ensures
            r == (self.step is Done),
    {
        matches!(self.step, SaveStep::Done)
    }

    /// Whether the save gave up.
    pub fn is_failed(&self) -> (r: bool)
        ensures
            r == (self.step is Failed),
    {
        matches!(self.step, SaveStep::Failed)
    }
}

/// The model of the three files the save touches. A failed primitive
/// leaves every file as it was.
pub struct FsModel {
    pub main: Option<Seq<char>>,
    pub backup: Option<Seq<char>>,
    pub tmp: Option<Seq<char>>,
}

/// What each primitive does to the model when it succeeds.
pub open spec fn apply_action(fs: FsModel, a: SaveAction, ok: bool, new: Seq<char>) -> FsModel {
    if !ok {
        fs
    } else {
        match a {
            SaveAction::EnsureDir => fs,
            SaveAction::BackupMain => if fs.main is Some {
                FsModel { backup: fs.main, ..fs }
            } else {
                fs
            },
            SaveAction::WriteTmp => FsModel { tmp: Some(new), ..fs },
            SaveAction::RenameTmpMain => if fs.tmp is Some {
                FsModel { main: fs.tmp, tmp: None, ..fs }
            } else {
                fs
            },
            SaveAction::CopyTmpMain => if fs.tmp is Some {
                FsModel { main: fs.tmp, ..fs }
            } else {
                fs
            },
            SaveAction::RemoveTmp => FsModel { tmp: None, ..fs },
            SaveAction::WriteMain => FsModel { main: Some(new), ..fs },
        }
    }
}

/// A whole run of the protocol over the model: one outcome per action.
pub open spec fn run_save(step: SaveStep, fs: FsModel, oks: Seq<bool>, new: Seq<char>) -> (
    SaveStep,
    FsModel,
)
    decreases oks.len(),
{
    if oks.len() == 0 {
        (step, fs)
    } else {
        match action_of(step) {
            Some(a) => run_save(
                save_transition(step, oks[0]),
                apply_action(fs, a, oks[0], new),
                oks.drop_first(),
                new,
            ),
            None => (step, fs),
        }
    }
}

/// The per-step facts that carry the durability argument.
pub open spec fn save_inv(step: SaveStep, fs: FsModel, old_main: Option<Seq<char>>, new: Seq<
    char,
>) -> bool {
    &&& (fs.main == old_main || fs.main == Some(new))
    &&& ((step is Rename || step is Copy) ==> fs.tmp == Some(new))
    &&& ((step is CleanupAfterCopy || step is Done) ==> fs.main == Some(new))
}

/// Whatever the outcomes, the save never loses the main file: when the
/// run ends, the main path holds either the old content or the new one,
/// and when the protocol reports success it holds the new one.
pub proof fn lemma_save_preserves_main(
    step: SaveStep,
    fs: FsModel,
    oks: Seq<bool>,
    new: Seq<char>,
    old_main: Option<Seq<char>>,
)
    requires
        save_inv(step, fs, old_main, new),
    ensures
        ({
            let (st, fs2) = run_save(step, fs, oks, new);
            &&& (fs2.main == old_main || fs2.main == Some(new))
            &&& (st is Done ==> fs2.main == Some(new))
        }),
    decreases oks.len(),
{
    if oks.len() > 0 {
        match action_of(step) {
            Some(a) => {
                let step2 = save_transition(step, oks[0]);
                let fs2 = apply_action(fs, a, oks[0], new);
                assert(save_inv(step2, fs2, old_main, new));
                lemma_save_preserves_main(step2, fs2, oks.drop_first(), new, old_main);
            },
            None => {},
        }
    }
}

/// When the main file existed and the backup step succeeded, the backup
/// sidecar holds the pre-save contents of the main file from then on.
pub proof fn lemma_save_backup(fs: FsModel, oks: Seq<bool>, new: Seq<char>, m: Seq<char>)
    requires
        fs.main == Some(m),
        oks.len() >= 2,
        oks[0],
        oks[1],
    ensures
        run_save(SaveStep::Start, fs, oks, new).1.backup == Some(m),
{
    let fs1 = apply_action(fs, SaveAction::EnsureDir, true, new);
    let fs2 = apply_action(fs1, SaveAction::BackupMain, true, new);
    assert(fs2.backup == Some(m));
    assert(oks.drop_first()[0] == oks[1]);
    assert(run_save(SaveStep::Start, fs, oks, new) == run_save(
        SaveStep::Backup,
        fs1,
        oks.drop_first(),
        new,
    ));
    assert(run_save(SaveStep::Backup, fs1, oks.drop_first(), new) == run_save(
        SaveStep::Write,
        fs2,
        oks.drop_first().drop_first(),
        new,
    ));
    lemma_backup_untouched(SaveStep::Write, fs2, oks.drop_first().drop_first(), new);
}

/// No step after the backup writes the backup sidecar.
proof fn lemma_backup_untouched(step: SaveStep, fs: FsModel, oks: Seq<bool>, new: Seq<char>)
    requires
        !(step is Start),
        !(step is Backup),
    ensures
        run_save(step, fs, oks, new).1.backup == fs.backup,
    decreases oks.len(),
{
    if oks.len() > 0 {
        match action_of(step) {
            Some(a) => {
                let step2 = save_transition(step, oks[0]);
                let fs2 = apply_action(fs, a, oks[0], new);
                assert(fs2.backup == fs.backup);
                lemma_backup_untouched(step2, fs2, oks.drop_first(), new);
            },
            None => {},
        }
    }
}

/// Why a restore refused to act.
#[derive(Debug, Clone, Copy, PartialEq, Eq, Structural)]
pub enum RestoreError {
    /// No backup sidecar exists.
    NoBackup,
    /// The backup exists but does not parse as a task document.
    CorruptBackup(ParseError),
}

/// What a restore will do, decided from the two file contents alone:
/// the store the backup holds, whether the current main file should be
/// copied aside first (it exists and parses), and whether to tell the
/// user it was corrupted instead.
pub struct RestorePlan {
    pub tasks: Vec<Task>,
    pub backup_current: bool,
    pub current_corrupt: bool,
}

/// Decides a restore from the backup and main contents (absent files
/// hand in nothing). Fails with `NoBackup` when there is no backup, and
/// with `CorruptBackup` when it does not parse; the main file is then
/// left alone. On success the plan holds exactly the backup's tasks.
pub fn restore_decide(backup: Option<&str>, main: Option<&str>) -> (r: Result<
    RestorePlan,
    RestoreError,
>)
    ensures
        r is Err <==> (backup is None || (backup matches Some(b) && doc_parse_spec(b@) is None)),
        backup is None ==> r == Err::<RestorePlan, RestoreError>(RestoreError::NoBackup),
        (backup matches Some(b) && doc_parse_spec(b@) is None) ==> (r matches Err(e) && e
            is CorruptBackup),
        r matches Ok(plan) ==> {
            &&& backup matches Some(b) && doc_parse_spec(b@) == Some(
                plan.tasks@.map_values(|t: Task| rec_of(t)),
            )
            &&& tasks_wf(plan.tasks@)
            &&& plan.backup_current == (main matches Some(m) && doc_parse_spec(m@) is Some)
            &&& plan.current_corrupt == (main matches Some(m) && doc_parse_spec(m@) is None)
        },
{
    let b = match backup {
        Some(b) => b,
        None => {
            return Err(RestoreError::NoBackup);
        },
    };
    let tasks = match parse_document(b) {
        Ok(ts) => ts,
        Err(e) => {
            return Err(RestoreError::CorruptBackup(e));
        },
    };
    let (backup_current, current_corrupt) = match main {
        Some(m) => {
            match parse_document(m) {
                Ok(_) => (true, false),
                Err(_) => (false, true),
            }
        },
        None => (false, false),
    };
    Ok(RestorePlan { tasks, backup_current, current_corrupt })
}

/// The durable state a restore reads and writes: the main file, the
/// backup, and the store in memory. (The `…before_restore` sidecar is a
/// journal of the pre-restore main file and is rewritten by design on
/// every restore, so it is not part of this state.)
pub struct RestoreModel {
    pub main: Option<Seq<char>>,
    pub backup: Option<Seq<char>>,
    pub tasks: Seq<Task>,
}

/// Whether a restore goes through on this state.
pub open spec fn restore_applies(fs: RestoreModel) -> bool {
    fs.backup is Some && doc_parse_spec(fs.backup->0) is Some
}

/// What a restore leaves behind: the backup copied over the main file,
/// the store replaced by any task list whose records the backup holds.
pub open spec fn apply_restore(fs: RestoreModel, tasks: Seq<Task>) -> RestoreModel {
    if restore_applies(fs) {
        RestoreModel { main: fs.backup, backup: fs.backup, tasks }
    } else {
        fs
    }
}

/// Restoring twice with the backup unchanged changes nothing after the
/// first time: the main file, the backup and the store come out the
/// same.
pub proof fn lemma_restore_idempotent(fs: RestoreModel, tasks: Seq<Task>)
    ensures
        apply_restore(apply_restore(fs, tasks), tasks) == apply_restore(fs, tasks),
{
}

/// The backup sidecar of a database path, as the save protocol names
/// it: the path's extension replaced by the given one, or the suffix
/// appended when the file name has no extension.
pub open spec fn sidecar_spec(path: Seq<char>, ext: Seq<char>) -> Seq<char> {
    let stem_end = last_dot_after_slash(path);
    if stem_end < 0 {
        path + seq!['.'] + ext
    } else {
        path.take(stem_end) + seq!['.'] + ext
    }
}

/// The index of the dot starting the extension: the last `.` after the
/// last `/`, and not at the start of the file name; `-1` when there is
/// no extension.
pub open spec fn last_dot_after_slash(path: Seq<char>) -> int
    decreases path.len(),
{
    if path.len() == 0 {
        -1
    } else if path[path.len() - 1] == '/' {
        -1
    } else if path[path.len() - 1] == '.' {
        if path.len() >= 2 && path[path.len() - 2] != '/' {
            path.len() - 1
        } else {
            -1
        }
    } else {
        last_dot_after_slash(path.drop_last())
    }
}

/// The sidecar path with the given extension, `tasks.json` becoming for
/// instance `tasks.json.backup` becoming `tasks.backup`-style names as
/// the extension-replacing rename demands.
pub fn sidecar_path(path: &str, ext: &str) -> (r: String)
    ensures
        r@ == sidecar_spec(path@, ext@),
{
    let v = str_chars(path);
    proof {
        assert(v@.take(v@.len() as int) =~= v@);
    }
    let stem_end = stem_end_from(v.as_slice(), v.len());
    let cut: usize = match stem_end {
        Some(k) => k,
        None => v.len(),
    };
    proof {
        if stem_end is Some {
            assert(last_dot_after_slash(v@) == cut);
            assert(0 <= last_dot_after_slash(v@) <= v@.len()) by {
                lemma_last_dot_bounds(v@);
            }
        }
    }
    let mut out: Vec<char> = Vec::new();
    let mut j: usize = 0;
    while j < cut
        invariant
            j <= cut <= v@.len(),
            out@ == v@.take(j as int),
        decreases cut - j,
    {
        out.push(v[j]);
        proof {
            assert(v@.take(j + 1) =~= v@.take(j as int).push(v@[j as int]));
        }
        j += 1;
    }
    out.push('.');
    let e = str_chars(ext);
    append_chars(&mut out, e.as_slice());
    proof {
        if stem_end is Some {
            assert(out@ =~= v@.take(last_dot_after_slash(v@)) + seq!['.'] + ext@);
        } else {
            assert(v@.take(v@.len() as int) =~= v@);
            assert(out@ =~= v@ + seq!['.'] + ext@);
        }
    }
    chars_str(out.as_slice())
}

/// The extension dot in the first `i` characters, scanning backwards.
fn stem_end_from(v: &[char], i: usize) -> (r: Option<usize>)
    requires
        i <= v@.len(),
    ensures
        match r {
            Some(k) => k as int == last_dot_after_slash(v@.take(i as int)),
            None => last_dot_after_slash(v@.take(i as int)) == -1,
        },
    decreases i,
{
    if i == 0 {
        proof {
            assert(v@.take(0) =~= Seq::<char>::empty());
        }
        return None;
    }
    proof {
        assert(v@.take(i as int).len() == i);
        assert(v@.take(i as int)[i - 1] == v@[i - 1]);
        assert(v@.take(i as int).drop_last() =~= v@.take(i - 1));
        if i >= 2 {
            assert(v@.take(i as int)[i - 2] == v@[i - 2]);
        }
    }
    let c = v[i - 1];
    if c == '/' {
        None
    } else if c == '.' {
        if i >= 2 && v[i - 2] != '/' {
            Some(i - 1)
        } else {
            None
        }
    } else {
        stem_end_from(v, i - 1)
    }
}

/// The extension dot, when there is one, lies inside the path.
proof fn lemma_last_dot_bounds(path: Seq<char>)
    ensures
        last_dot_after_slash(path) < path.len(),
        last_dot_after_slash(path) >= -1,
    decreases path.len(),
{
    if path.len() > 0 && path[path.len() - 1] != '/' && path[path.len() - 1] != '.' {
        lemma_last_dot_bounds(path.drop_last());
    }
}

/// The database path from the environment inputs: an override that
/// names a directory gets `tasks.json` inside it, any other override is
/// the path itself, and without one the database lives under `.rusk` in
/// the home directory (or the working directory when there is none).
pub fn resolve_db_path(override_path: Option<&str>, override_is_dir: bool, home: Option<&str>) -> (
    r: String)
    ensures
        r@ == (match override_path {
            Some(p) => if override_is_dir || (p@.len() > 0 && p@[p@.len() - 1] == '/') {
                if p@.len() > 0 && p@[p@.len() - 1] == '/' {
                    p@ + "tasks.json"@
                } else {
                    p@ + "/tasks.json"@
                }
            } else {
                p@
            },
            None => (match home {
                Some(h) => h@ + "/.rusk/tasks.json"@,
                None => "./.rusk/tasks.json"@,
            }),
        }),
{
    match override_path {
        Some(p) => {
            let v = str_chars(p);
            let trailing = v.len() > 0 && v[v.len() - 1] == '/';
            if override_is_dir || trailing {
                let mut out = v;
                if trailing {
                    let t = str_chars("tasks.json");
                    append_chars(&mut out, t.as_slice());
                } else {
                    let t = str_chars("/tasks.json");
                    append_chars(&mut out, t.as_slice());
                }
                chars_str(out.as_slice())
            } else {
                chars_str(v.as_slice())
            }
        },
        None => {
            match home {
                Some(h) => {
                    let mut out = str_chars(h);
                    let t = str_chars("/.rusk/tasks.json");
                    append_chars(&mut out, t.as_slice());
                    chars_str(out.as_slice())
                },
                None => {
                    let out = str_chars("./.rusk/tasks.json");
                    chars_str(out.as_slice())
                },
            }
        },
    }
}

} // verus!
