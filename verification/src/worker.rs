use crate::progress::ProgressEvent;
use crate::types::CopyInfo;
use vstd::prelude::*;
use vstd::string::StringExecFns;

verus! {

/// A typed record of one per-task failure: the offending source path and the
/// underlying cause as reported by the I/O layer. Collecting these, instead
/// of printing and forgetting, lets callers and tests see which tasks failed.
pub struct CopyError {
    pub path: String,
    pub message: String,
}

/// The first step a worker must take for one task.
pub enum TaskAction {
    /// Copy the file's raw bytes from the source path to the destination
    /// path, preserving no other metadata.
    CopyFileBytes { src_path: String, dst_path: String },
    /// Read the symbolic link's target at the source path, so the link can
    /// be recreated rather than dereferenced.
    ReadLinkTarget { src_path: String },
}

/// Decides a task's first step: a regular file has its bytes copied; a
/// symlink has its target read, and is never followed.
pub fn task_action(t: &CopyInfo) -> (a: TaskAction)
    ensures
        t.is_symlink ==> (a matches TaskAction::ReadLinkTarget { src_path } && src_path@
            == t.src_path@),
        !t.is_symlink ==> (a matches TaskAction::CopyFileBytes { src_path, dst_path } && src_path@
            == t.src_path@ && dst_path@ == t.dst_path@),
{
    if t.is_symlink {
        TaskAction::ReadLinkTarget { src_path: t.src_path.clone() }
    } else {
        TaskAction::CopyFileBytes {
            src_path: t.src_path.clone(),
            dst_path: t.dst_path.clone(),
        }
    }
}

/// The recreation of one symbolic link: where the new link goes and the
/// exact target text it will carry.
pub struct LinkRecreation {
    pub link_path: String,
    pub target: String,
}

/// Decides the second step for a symlink task, given the target read from
/// the source link: a new link at the task's destination path whose target
/// text is exactly the text that was read.
pub fn link_action(t: &CopyInfo, target: &str) -> (a: LinkRecreation)
    ensures
        a.link_path@ == t.dst_path@,
        a.target@ == target@,
{
    LinkRecreation { link_path: t.dst_path.clone(), target: target.to_owned() }
}

/// Closes out one task. A completion event carrying the task's planned size
/// is produced whether or not the copy succeeded, so the event count always
/// matches the manifest; an error record is produced exactly when the I/O
/// layer reported a failure, and names the offending source path. A failure
/// never carries beyond its own task.
pub fn finish_task(t: &CopyInfo, failure: Option<String>) -> (r: (
    ProgressEvent,
    Option<CopyError>,
))
    ensures
        r.0.size == t.size,
        r.1 is Some <==> failure is Some,
        failure matches Some(msg) ==> (r.1 matches Some(err) && err.path@ == t.src_path@
            && err.message == msg),
{
    match failure {
        Option::None => (ProgressEvent { size: t.size }, Option::None),
        Option::Some(msg) => (
            ProgressEvent { size: t.size },
            Option::Some(CopyError { path: t.src_path.clone(), message: msg }),
        ),
    }
}

} // verus!
