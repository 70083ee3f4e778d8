//! Classifying directory entries and planning one task per recognized
//! entry.
//!
//! A listing entry is a directory, a recognized video file (extension
//! exactly `mp4`, `avi`, `mov` or `mkv`, case as found), or ignored.
//! Each directory entry plans a recursion task, each video file plans a
//! probe task, and ignored entries plan nothing at all.

use vstd::prelude::*;

verus! {

/// One entry of a directory listing, as handed in by the caller:
/// the entry's full path, its final path component, and whether
/// filesystem metadata says it is a directory.
pub struct Entry {
    /// Full path of the entry; tasks and results are keyed by it.
    pub path: String,
    /// Final path component; its extension decides video recognition.
    pub name: String,
    /// Whether the entry is a directory.
    pub is_dir: bool,
}

/// How an entry is treated by the traversal.
#[derive(Clone, Copy, PartialEq, Eq, Structural, Debug)]
pub enum EntryKind {
    /// Traverse into it recursively.
    Directory,
    /// Probe it for a duration.
    VideoFile,
    /// Skip it: no task, no result.
    Ignored,
}

/// A unit of concurrent work planned for one recognized entry.
#[derive(Debug)]
pub enum Task {
    /// Recurse into the subdirectory at this path.
    Recurse { path: String },
    /// Probe the video file at this path.
    Probe { path: String },
}

/// Mathematical image of a task: its kind and the characters of its path.
pub enum TaskModel {
    Recurse(Seq<char>),
    Probe(Seq<char>),
}

impl Task {
    pub open spec fn model(self) -> TaskModel {
        match self {
            Task::Recurse { path } => TaskModel::Recurse(path@),
            Task::Probe { path } => TaskModel::Probe(path@),
        }
    }
}

/// Index of the last `.` in `name`, if any.
pub open spec fn last_dot_index(name: Seq<char>) -> Option<int>
    decreases name.len(),
{
    if name.len() == 0 {
        None
    } else if name[name.len() - 1] == '.' {
        Some(name.len() - 1)
    } else {
        last_dot_index(name.drop_last())
    }
}

/// The extension of a file name: the characters after the last `.`,
/// unless the name has no `.` or its only role is to lead a hidden name
/// (the `.` is the first character).
pub open spec fn extension_of(name: Seq<char>) -> Option<Seq<char>> {
    match last_dot_index(name) {
        None => None,
        Some(i) => if i == 0 {
            None
        } else {
            Some(name.subrange(i + 1, name.len() as int))
        },
    }
}

/// The fixed recognized set of video extensions, matched exactly
/// (case as found in the name).
pub open spec fn is_video_extension(ext: Seq<char>) -> bool {
    ext == "mp4"@ || ext == "avi"@ || ext == "mov"@ || ext == "mkv"@
}

pub open spec fn is_video_name(name: Seq<char>) -> bool {
    match extension_of(name) {
        Some(ext) => is_video_extension(ext),
        None => false,
    }
}

/// Classification rule: directory metadata wins; otherwise the name's
/// extension must be in the recognized set; everything else is ignored.
pub open spec fn classify_spec(e: Entry) -> EntryKind {
    if e.is_dir {
        EntryKind::Directory
    } else if is_video_name(e.name@) {
        EntryKind::VideoFile
    } else {
        EntryKind::Ignored
    }
}

proof fn lemma_last_dot_found(s: Seq<char>, i: int)
    requires
        0 <= i < s.len(),
        s[i] == '.',
        forall|k: int| i < k < s.len() ==> s[k] != '.',
    ensures
        last_dot_index(s) == Some(i),
    decreases s.len(),
{
    if i < s.len() - 1 {
        assert forall|k: int| i < k < s.drop_last().len() implies s.drop_last()[k] != '.' by {
            assert(s[k] != '.');
        }
        lemma_last_dot_found(s.drop_last(), i);
    }
}

proof fn lemma_no_dot(s: Seq<char>)
    requires
        forall|k: int| 0 <= k < s.len() ==> s[k] != '.',
    ensures
        last_dot_index(s) == None::<int>,
    decreases s.len(),
{
    if s.len() > 0 {
        assert forall|k: int| 0 <= k < s.drop_last().len() implies s.drop_last()[k] != '.' by {
            assert(s[k] != '.');
        }
        lemma_no_dot(s.drop_last());
    }
}

fn last_dot(name: &str) -> (r: Option<usize>)
    ensures
        match r {
            Some(i) => i < name@.len() && last_dot_index(name@) == Some(i as int),
            None => last_dot_index(name@) == None::<int>,
        },
{
    let n = name.unicode_len();
    let mut j: usize = n;
    while j > 0
        invariant
            j <= n,
            n == name@.len(),
            forall|k: int| j <= k < n ==> name@[k] != '.',
        decreases j,
    {
        let c = name.get_char(j - 1);
        if c == '.' {
            proof {
                lemma_last_dot_found(name@, j - 1);
            }
            return Some(j - 1);
        }
        j = j - 1;
    }
    proof {
        lemma_no_dot(name@);
    }
    None
}

/// Extension of a file name, by the same rule as `extension_of`.
pub fn extension<'a>(name: &'a str) -> (r: Option<&'a str>)
    ensures
        match r {
            Some(e) => extension_of(name@) == Some(e@),
            None => extension_of(name@) == None::<Seq<char>>,
        },
{
    let n = name.unicode_len();
    match last_dot(name) {
        None => None,
        Some(i) => {
            if i == 0 {
                None
            } else {
                Some(name.substring_char(i + 1, n))
            }
        },
    }
}

fn str_eq(a: &str, b: &str) -> (r: bool)
    ensures
        r == (a@ == b@),
{
    let sa = String::from_str(a);
    let sb = String::from_str(b);
    sa == sb
}

/// Classify one listing entry.
pub fn classify(e: &Entry) -> (k: EntryKind)
    ensures
        k == classify_spec(*e),
{
    if e.is_dir {
        EntryKind::Directory
    } else {
        match extension(e.name.as_str()) {
            Some(ext) => {
                if str_eq(ext, "mp4") || str_eq(ext, "avi") || str_eq(ext, "mov") || str_eq(
                    ext,
                    "mkv",
                ) {
                    EntryKind::VideoFile
                } else {
                    EntryKind::Ignored
                }
            },
            None => EntryKind::Ignored,
        }
    }
}

/// The tasks a directory level plans: one recursion per directory entry,
/// one probe per recognized video file, nothing for an ignored entry,
/// in listing order.
pub open spec fn planned_tasks(entries: Seq<Entry>) -> Seq<TaskModel>
    decreases entries.len(),
{
    if entries.len() == 0 {
        Seq::empty()
    } else {
        let rest = planned_tasks(entries.drop_last());
        let e = entries.last();
        match classify_spec(e) {
            EntryKind::Directory => rest.push(TaskModel::Recurse(e.path@)),
            EntryKind::VideoFile => rest.push(TaskModel::Probe(e.path@)),
            EntryKind::Ignored => rest,
        }
    }
}

pub open spec fn count_subdirectories(entries: Seq<Entry>) -> nat
    decreases entries.len(),
{
    if entries.len() == 0 {
        0
    } else {
        count_subdirectories(entries.drop_last()) + (if classify_spec(entries.last())
            is Directory {
            1nat
        } else {
            0nat
        })
    }
}

pub open spec fn count_video_files(entries: Seq<Entry>) -> nat
    decreases entries.len(),
{
    if entries.len() == 0 {
        0
    } else {
        count_video_files(entries.drop_last()) + (if classify_spec(entries.last()) is VideoFile {
            1nat
        } else {
            0nat
        })
    }
}

/// A level with N recognized video files and D subdirectories plans
/// exactly N + D tasks, so exactly N + D results are owed to its
/// collector.
pub proof fn lemma_task_count(entries: Seq<Entry>)
    ensures
        planned_tasks(entries).len() == count_video_files(entries) + count_subdirectories(entries),
    decreases entries.len(),
{
    if entries.len() > 0 {
        lemma_task_count(entries.drop_last());
    }
}

/// An entry that is classified as ignored (for instance a file with an
/// unrecognized extension) changes the planned tasks not at all,
/// wherever in the listing it appears.
pub proof fn lemma_ignored_entry_no_task(entries: Seq<Entry>, i: int, e: Entry)
    requires
        0 <= i <= entries.len(),
        classify_spec(e) is Ignored,
    ensures
        planned_tasks(entries.insert(i, e)) == planned_tasks(entries),
    decreases entries.len(),
{
    let grown = entries.insert(i, e);
    if i == entries.len() {
        assert(grown.drop_last() =~= entries);
        assert(grown.last() == e);
    } else {
        assert(grown.last() == entries.last());
        assert(grown.drop_last() =~= entries.drop_last().insert(i, e));
        lemma_ignored_entry_no_task(entries.drop_last(), i, e);
    }
}

/// Plan the tasks of one directory level.
pub fn plan_level(entries: &Vec<Entry>) -> (tasks: Vec<Task>)
    ensures
        tasks@.map_values(|t: Task| t.model()) == planned_tasks(entries@),
{
    let mut tasks: Vec<Task> = Vec::new();
    let mut i: usize = 0;
    while i < entries.len()
        invariant
            i <= entries@.len(),
            tasks@.map_values(|t: Task| t.model()) == planned_tasks(entries@.subrange(0, i as int)),
        decreases entries@.len() - i,
    {
        let ghost prefix = entries@.subrange(0, i as int);
        let e = &entries[i];
        match classify(e) {
            EntryKind::Directory => {
                tasks.push(Task::Recurse { path: e.path.clone() });
            },
            EntryKind::VideoFile => {
                tasks.push(Task::Probe { path: e.path.clone() });
            },
            EntryKind::Ignored => {},
        }
        proof {
            let longer = entries@.subrange(0, i + 1);
            assert(longer.drop_last() =~= prefix);
            assert(longer.last() == entries@[i as int]);
            assert(tasks@.map_values(|t: Task| t.model()) =~= planned_tasks(longer));
        }
        i = i + 1;
    }
    proof {
        assert(entries@.subrange(0, entries@.len() as int) =~= entries@);
    }
    tasks
}

/// Why a traversal level could not be planned.
#[derive(Clone, Copy, PartialEq, Eq, Structural, Debug)]
pub enum TraverseError {
    /// The path could not be listed: unreadable, or not a directory.
    DirectoryReadError,
}

/// Plan a level from the outcome of listing a directory: a listing that
/// could not be read is fatal for that subtree, a readable one plans its
/// tasks.
pub fn plan_listing(listing: Option<Vec<Entry>>) -> (r: Result<Vec<Task>, TraverseError>)
    ensures
        r is Ok <==> listing is Some,
        listing is Some ==> (r->Ok_0)@.map_values(|t: Task| t.model()) == planned_tasks(
            (listing->Some_0)@,
        ),
        listing is None ==> r->Err_0 == TraverseError::DirectoryReadError,
{
    match listing {
        Some(entries) => Ok(plan_level(&entries)),
        None => Err(TraverseError::DirectoryReadError),
    }
}

/// In a hardened traversal an unreadable subtree is reported and
/// contributes zero rather than aborting the run; a readable one
/// contributes its own aggregated total.
pub fn subtree_contribution(outcome: Result<u64, TraverseError>) -> (micros: u64)
    ensures
        micros == match outcome {
            Result::Ok(d) => d,
            Result::Err(_) => 0u64,
        },
{
    match outcome {
        Result::Ok(d) => d,
        Result::Err(_) => 0,
    }
}

} // verus!
