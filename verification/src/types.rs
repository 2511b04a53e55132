use vstd::prelude::*;

verus! {

/// A validated pair of absolute paths: an existing source directory and a
/// destination directory that does not exist yet. Validation happens in the
/// unverified command-line layer; the core takes the pair as given.
pub struct Arguments {
    pub src_path: String,
    pub dst_path: String,
}

/// One file-system leaf to duplicate: a regular file or a symbolic link.
/// Directories are never tasks; they are materialized before copying starts.
pub struct CopyInfo {
    pub src_path: String,
    pub dst_path: String,
    pub is_symlink: bool,
    pub size: u64,
}

/// The mathematical value of a `CopyInfo`: both paths as character sequences,
/// together with the symlink flag and the byte size.
pub ghost struct TaskView {
    pub src_path: Seq<char>,
    pub dst_path: Seq<char>,
    pub is_symlink: bool,
    pub size: u64,
}

impl View for CopyInfo {
    type V = TaskView;

    open spec fn view(&self) -> TaskView {
        TaskView {
            src_path: self.src_path@,
            dst_path: self.dst_path@,
            is_symlink: self.is_symlink,
            size: self.size,
        }
    }
}

impl CopyInfo {
    /// An exact copy of the task, equal to the original in every field.
    pub fn duplicate(&self) -> (r: CopyInfo)
        ensures
            r == *self,
    {
        CopyInfo {
            src_path: self.src_path.clone(),
            dst_path: self.dst_path.clone(),
            is_symlink: self.is_symlink,
            size: self.size,
        }
    }
}

/// The total number of bytes in a sequence of copy tasks, as an unbounded
/// integer so that sums never wrap in specifications.
pub open spec fn sum_sizes(tasks: Seq<CopyInfo>) -> int
    decreases tasks.len(),
{
    if tasks.len() == 0 {
        0
    } else {
        sum_sizes(tasks.drop_last()) + tasks.last().size
    }
}

/// The byte totals of a sequence of tasks are never negative.
pub proof fn lemma_sum_sizes_nonneg(tasks: Seq<CopyInfo>)
    ensures
        sum_sizes(tasks) >= 0,
    decreases tasks.len(),
{
    if tasks.len() > 0 {
        lemma_sum_sizes_nonneg(tasks.drop_last());
    }
}

/// Appending one task adds exactly its size to the total.
pub proof fn lemma_sum_sizes_push(tasks: Seq<CopyInfo>, t: CopyInfo)
    ensures
        sum_sizes(tasks.push(t)) == sum_sizes(tasks) + t.size,
{
    assert(tasks.push(t).drop_last() =~= tasks);
}

/// The bytes in any prefix of the manifest never exceed the whole manifest's
/// bytes.
pub proof fn lemma_sum_take_le(tasks: Seq<CopyInfo>, i: int)
    requires
        0 <= i <= tasks.len(),
    ensures
        sum_sizes(tasks.take(i)) <= sum_sizes(tasks),
    decreases tasks.len() - i,
{
    if i == tasks.len() {
        assert(tasks.take(i) =~= tasks);
    } else {
        lemma_sum_sizes_push(tasks.take(i), tasks[i]);
        assert(tasks.take(i + 1) =~= tasks.take(i).push(tasks[i]));
        lemma_sum_take_le(tasks, i + 1);
    }
}

/// One worker's exclusively owned share of the manifest, with a running byte
/// total used for load balancing.
pub struct SplitCopyInfo {
    pub size: u64,
    pub copy_info_list: Vec<CopyInfo>,
}

impl SplitCopyInfo {
    /// A bucket is well formed when its stored byte total is exactly the sum
    /// of the sizes of the tasks it holds.
    pub open spec fn wf(&self) -> bool {
        self.size as int == sum_sizes(self.copy_info_list@)
    }

    /// An empty bucket: no tasks and a zero byte total.
    pub fn new() -> (r: SplitCopyInfo)
        ensures
            r.size == 0,
            r.copy_info_list@ == Seq::<CopyInfo>::empty(),
            r.wf(),
    {
        SplitCopyInfo { size: 0, copy_info_list: Vec::<CopyInfo>::new() }
    }
}

} // verus!
