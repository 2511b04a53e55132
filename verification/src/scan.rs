use crate::types::{lemma_sum_sizes_push, lemma_sum_take_le, sum_sizes, CopyInfo, TaskView};
use vstd::prelude::*;
use vstd::string::StringExecFns;

verus! {

/// One node of a source tree, as plain values: what a single scanning pass
/// reads from the file system. A `File` entry stands for a regular file or a
/// symbolic link; a symlink is never descended into, and its size is the size
/// of the link itself, not of its target.
pub enum FsEntry {
    Dir { name: String, entries: Vec<FsEntry> },
    File { name: String, is_symlink: bool, size: u64 },
}

/// The name of an entry, as a character sequence.
pub open spec fn entry_name(e: FsEntry) -> Seq<char> {
    match e {
        FsEntry::Dir { name, entries } => name@,
        FsEntry::File { name, is_symlink, size } => name@,
    }
}

/// A directory path joined with one more component, separated by `/`.
pub open spec fn join(dir: Seq<char>, name: Seq<char>) -> Seq<char> {
    dir + seq!['/'] + name
}

/// The destination directories created for `e`, whose own destination path is
/// `dst`: the directory itself first, then the directories of its children in
/// order. Every directory therefore appears after its parent.
pub open spec fn dirs_of_entry(e: FsEntry, dst: Seq<char>) -> Seq<Seq<char>>
    decreases e,
{
    match e {
        FsEntry::File { name, is_symlink, size } => Seq::empty(),
        FsEntry::Dir { name, entries } => seq![dst] + dirs_of_children(entries@, dst),
    }
}

/// The destination directories created for a run of sibling entries under the
/// destination directory `dst`, in sibling order.
pub open spec fn dirs_of_children(children: Seq<FsEntry>, dst: Seq<char>) -> Seq<Seq<char>>
    decreases children,
{
    if children.len() == 0 {
        Seq::empty()
    } else {
        dirs_of_entry(children[0], join(dst, entry_name(children[0]))) + dirs_of_children(
            children.drop_first(),
            dst,
        )
    }
}

/// The manifest produced for `e` when its source path is `src` and its
/// destination path is `dst`: one task per file or symlink, in depth-first
/// source order.
pub open spec fn manifest_of_entry(e: FsEntry, src: Seq<char>, dst: Seq<char>) -> Seq<TaskView>
    decreases e,
{
    match e {
        FsEntry::File { name, is_symlink, size } => seq![
            TaskView { src_path: src, dst_path: dst, is_symlink, size },
        ],
        FsEntry::Dir { name, entries } => manifest_of_children(entries@, src, dst),
    }
}

/// The manifest produced for a run of sibling entries, in sibling order.
pub open spec fn manifest_of_children(children: Seq<FsEntry>, src: Seq<char>, dst: Seq<char>) -> Seq<
    TaskView,
>
    decreases children,
{
    if children.len() == 0 {
        Seq::empty()
    } else {
        manifest_of_entry(
            children[0],
            join(src, entry_name(children[0])),
            join(dst, entry_name(children[0])),
        ) + manifest_of_children(children.drop_first(), src, dst)
    }
}

/// The mathematical values of a sequence of copy tasks.
pub open spec fn tasks_view(tasks: Seq<CopyInfo>) -> Seq<TaskView> {
    tasks.map_values(|c: CopyInfo| c@)
}

/// The character sequences of a sequence of path strings.
pub open spec fn paths_view(paths: Seq<String>) -> Seq<Seq<char>> {
    paths.map_values(|p: String| p@)
}

/// Scanning one more sibling extends the directory list by exactly that
/// sibling's directories.
proof fn lemma_dirs_children_snoc(children: Seq<FsEntry>, c: FsEntry, dst: Seq<char>)
    ensures
        dirs_of_children(children.push(c), dst) == dirs_of_children(children, dst) + dirs_of_entry(
            c,
            join(dst, entry_name(c)),
        ),
    decreases children.len(),
{
    let whole = children.push(c);
    if children.len() == 0 {
        assert(whole[0] == c);
        assert(whole.drop_first() =~= children);
        assert(dirs_of_children(children, dst) =~= Seq::<Seq<char>>::empty());
        assert(dirs_of_children(whole, dst) =~= dirs_of_children(children, dst) + dirs_of_entry(
            c,
            join(dst, entry_name(c)),
        ));
    } else {
        assert(whole[0] == children[0]);
        assert(whole.drop_first() =~= children.drop_first().push(c));
        lemma_dirs_children_snoc(children.drop_first(), c, dst);
        assert(dirs_of_children(whole, dst) =~= dirs_of_children(children, dst) + dirs_of_entry(
            c,
            join(dst, entry_name(c)),
        ));
    }
}

/// Scanning one more sibling extends the manifest by exactly that sibling's
/// tasks.
proof fn lemma_manifest_children_snoc(
    children: Seq<FsEntry>,
    c: FsEntry,
    src: Seq<char>,
    dst: Seq<char>,
)
    ensures
        manifest_of_children(children.push(c), src, dst) == manifest_of_children(
            children,
            src,
            dst,
        ) + manifest_of_entry(c, join(src, entry_name(c)), join(dst, entry_name(c))),
    decreases children.len(),
{
    let whole = children.push(c);
    if children.len() == 0 {
        assert(whole[0] == c);
        assert(whole.drop_first() =~= children);
        assert(manifest_of_children(children, src, dst) =~= Seq::<TaskView>::empty());
        assert(manifest_of_children(whole, src, dst) =~= manifest_of_children(children, src, dst)
            + manifest_of_entry(c, join(src, entry_name(c)), join(dst, entry_name(c))));
    } else {
        assert(whole[0] == children[0]);
        assert(whole.drop_first() =~= children.drop_first().push(c));
        lemma_manifest_children_snoc(children.drop_first(), c, src, dst);
        assert(manifest_of_children(whole, src, dst) =~= manifest_of_children(children, src, dst)
            + manifest_of_entry(c, join(src, entry_name(c)), join(dst, entry_name(c))));
    }
}

/// A directory path extended by one component, with `/` between.
fn join_path(dir: &str, name: &str) -> (r: String)
    ensures
        r@ == join(dir@, name@),
{
    let mut s = dir.to_owned();
    s.append("/");
    s.append(name);
    proof {
        reveal_strlit("/");
        assert(s@ =~= join(dir@, name@));
    }
    s
}

/// The name of an entry.
fn entry_name_ref(e: &FsEntry) -> (r: &String)
    ensures
        r@ == entry_name(*e),
{
    match e {
        FsEntry::Dir { name, entries } => name,
        FsEntry::File { name, is_symlink, size } => name,
    }
}

/// One step of the scanning pass: appends the destination directories and the
/// copy tasks for `e` to the two accumulators, given `e`'s own source and
/// destination paths.
#[verifier::loop_isolation(false)]
fn scan_entry(
    e: &FsEntry,
    src_path: &str,
    dst_path: &str,
    dirs: &mut Vec<String>,
    tasks: &mut Vec<CopyInfo>,
)
    ensures
        paths_view(final(dirs)@) == paths_view(old(dirs)@) + dirs_of_entry(*e, dst_path@),
        tasks_view(final(tasks)@) == tasks_view(old(tasks)@) + manifest_of_entry(
            *e,
            src_path@,
            dst_path@,
        ),
    decreases *e,
{
    match e {
        FsEntry::File { name, is_symlink, size } => {
            tasks.push(
                CopyInfo {
                    src_path: src_path.to_owned(),
                    dst_path: dst_path.to_owned(),
                    is_symlink: *is_symlink,
                    size: *size,
                },
            );
            proof {
                assert(paths_view(dirs@) =~= paths_view(old(dirs)@) + dirs_of_entry(
                    *e,
                    dst_path@,
                ));
                assert(tasks_view(tasks@) =~= tasks_view(old(tasks)@) + manifest_of_entry(
                    *e,
                    src_path@,
                    dst_path@,
                ));
            }
        },
        FsEntry::Dir { name, entries } => {
            dirs.push(dst_path.to_owned());
            proof {
                assert(paths_view(dirs@) =~= paths_view(old(dirs)@) + seq![dst_path@]
                    + dirs_of_children(entries@.take(0), dst_path@));
                assert(tasks_view(tasks@) =~= tasks_view(old(tasks)@) + manifest_of_children(
                    entries@.take(0),
                    src_path@,
                    dst_path@,
                ));
            }
            let mut i: usize = 0;
            while i < entries.len()
                invariant
                    i <= entries@.len(),
                    paths_view(dirs@) == paths_view(old(dirs)@) + seq![dst_path@]
                        + dirs_of_children(entries@.take(i as int), dst_path@),
                    tasks_view(tasks@) == tasks_view(old(tasks)@) + manifest_of_children(
                        entries@.take(i as int),
                        src_path@,
                        dst_path@,
                    ),
                decreases entries@.len() - i,
            {
                let child = &entries[i];
                let child_src = join_path(src_path, entry_name_ref(child).as_str());
                let child_dst = join_path(dst_path, entry_name_ref(child).as_str());
                proof {
                    assert(decreases_to!(*e => (*e)->Dir_entries));
                    assert(decreases_to!((*e)->Dir_entries => (*e)->Dir_entries@));
                    assert(decreases_to!((*e)->Dir_entries@ => (*e)->Dir_entries@[i as int]));
                    assert((*e)->Dir_entries@ == entries@);
                    assert(decreases_to!(*e => entries@[i as int]));
                }
                scan_entry(child, child_src.as_str(), child_dst.as_str(), dirs, tasks);
                proof {
                    assert(entries@.take(i as int + 1) =~= entries@.take(i as int).push(
                        entries@[i as int],
                    ));
                    lemma_dirs_children_snoc(entries@.take(i as int), entries@[i as int], dst_path@);
                    lemma_manifest_children_snoc(
                        entries@.take(i as int),
                        entries@[i as int],
                        src_path@,
                        dst_path@,
                    );
                }
                i = i + 1;
            }
            proof {
                assert(entries@.take(entries@.len() as int) =~= entries@);
            }
        },
    }
}

/// Scans a source tree and prepares the destination layout: returns the
/// destination directories to create — each directory after its parent, the
/// destination root first — and the manifest of copy tasks, one per regular
/// file or symlink, in depth-first source order, each task carrying the
/// structurally corresponding source and destination paths.
pub fn scan_source_prep_dest(root: &FsEntry, src_dir_path: &str, dst_dir_path: &str) -> (r: (
    Vec<String>,
    Vec<CopyInfo>,
))
    requires
        root is Dir,
    ensures
        paths_view(r.0@) == dirs_of_entry(*root, dst_dir_path@),
        tasks_view(r.1@) == manifest_of_entry(*root, src_dir_path@, dst_dir_path@),
{
    let mut dirs: Vec<String> = Vec::new();
    let mut tasks: Vec<CopyInfo> = Vec::new();
    proof {
        assert(paths_view(dirs@) =~= Seq::<Seq<char>>::empty());
        assert(tasks_view(tasks@) =~= Seq::<TaskView>::empty());
    }
    scan_entry(root, src_dir_path, dst_dir_path, &mut dirs, &mut tasks);
    proof {
        assert(paths_view(dirs@) =~= dirs_of_entry(*root, dst_dir_path@));
        assert(tasks_view(tasks@) =~= manifest_of_entry(*root, src_dir_path@, dst_dir_path@));
    }
    (dirs, tasks)
}

/// The path reached from `base` by descending through the relative component
/// path `rel`, one `/`-separated component at a time.
pub open spec fn join_all(base: Seq<char>, rel: Seq<Seq<char>>) -> Seq<char>
    decreases rel.len(),
{
    if rel.len() == 0 {
        base
    } else {
        join_all(join(base, rel[0]), rel.drop_first())
    }
}

/// The entry is a regular file or symlink with the given symlink flag and
/// byte size.
pub open spec fn file_matches(c: FsEntry, is_symlink: bool, size: u64) -> bool {
    c is File && c->File_is_symlink == is_symlink && c->File_size == size
}

/// There is a regular file or symlink with the given symlink flag and size
/// reachable from `e` through the nonempty relative component path `rel`,
/// whose last component is the leaf's own name.
pub open spec fn has_file(e: FsEntry, rel: Seq<Seq<char>>, is_symlink: bool, size: u64) -> bool
    decreases e,
    via has_file_decreases
{
    e is Dir && rel.len() >= 1 && exists|i: int|
        0 <= i < e->Dir_entries@.len() && entry_name(#[trigger] e->Dir_entries@[i]) == rel[0] && (
        if rel.len() == 1 {
            file_matches(e->Dir_entries@[i], is_symlink, size)
        } else {
            has_file(e->Dir_entries@[i], rel.drop_first(), is_symlink, size)
        })
}

#[via_fn]
proof fn has_file_decreases(e: FsEntry, rel: Seq<Seq<char>>, is_symlink: bool, size: u64) {
    if e is Dir {
        assert forall|i: int| 0 <= i < e->Dir_entries@.len() implies decreases_to!(
            e => e->Dir_entries@[i]
        ) by {
            assert(decreases_to!(e => e->Dir_entries));
            assert(decreases_to!(e->Dir_entries => e->Dir_entries@));
            assert(decreases_to!(e->Dir_entries@ => e->Dir_entries@[i]));
        }
    }
}

/// There is a directory reachable from `e` through the relative component
/// path `rel`; the empty path names `e` itself.
pub open spec fn has_dir(e: FsEntry, rel: Seq<Seq<char>>) -> bool
    decreases e,
    via has_dir_decreases
{
    e is Dir && (rel.len() == 0 || exists|i: int|
        0 <= i < e->Dir_entries@.len() && entry_name(#[trigger] e->Dir_entries@[i]) == rel[0]
            && has_dir(e->Dir_entries@[i], rel.drop_first()))
}

#[via_fn]
proof fn has_dir_decreases(e: FsEntry, rel: Seq<Seq<char>>) {
    if e is Dir {
        assert forall|i: int| 0 <= i < e->Dir_entries@.len() implies decreases_to!(
            e => e->Dir_entries@[i]
        ) by {
            assert(decreases_to!(e => e->Dir_entries));
            assert(decreases_to!(e->Dir_entries => e->Dir_entries@));
            assert(decreases_to!(e->Dir_entries@ => e->Dir_entries@[i]));
        }
    }
}

/// Whatever one child's scan contributes is contained in the siblings' joint
/// manifest.
proof fn lemma_manifest_children_contains(
    children: Seq<FsEntry>,
    src: Seq<char>,
    dst: Seq<char>,
    i: int,
    t: TaskView,
)
    requires
        0 <= i < children.len(),
        manifest_of_entry(
            children[i],
            join(src, entry_name(children[i])),
            join(dst, entry_name(children[i])),
        ).contains(t),
    ensures
        manifest_of_children(children, src, dst).contains(t),
    decreases children.len(),
{
    let head = manifest_of_entry(
        children[0],
        join(src, entry_name(children[0])),
        join(dst, entry_name(children[0])),
    );
    let tail = manifest_of_children(children.drop_first(), src, dst);
    if i == 0 {
        let j = choose|j: int| 0 <= j < head.len() && head[j] == t;
        assert(manifest_of_children(children, src, dst)[j] == t);
    } else {
        lemma_manifest_children_contains(children.drop_first(), src, dst, i - 1, t);
        let j = choose|j: int| 0 <= j < tail.len() && tail[j] == t;
        assert(manifest_of_children(children, src, dst)[head.len() + j] == t);
    }
}

/// Whatever one child's scan contributes is contained in the siblings' joint
/// directory list.
proof fn lemma_dirs_children_contains(
    children: Seq<FsEntry>,
    dst: Seq<char>,
    i: int,
    d: Seq<char>,
)
    requires
        0 <= i < children.len(),
        dirs_of_entry(children[i], join(dst, entry_name(children[i]))).contains(d),
    ensures
        dirs_of_children(children, dst).contains(d),
    decreases children.len(),
{
    let head = dirs_of_entry(children[0], join(dst, entry_name(children[0])));
    let tail = dirs_of_children(children.drop_first(), dst);
    if i == 0 {
        let j = choose|j: int| 0 <= j < head.len() && head[j] == d;
        assert(dirs_of_children(children, dst)[j] == d);
    } else {
        lemma_dirs_children_contains(children.drop_first(), dst, i - 1, d);
        let j = choose|j: int| 0 <= j < tail.len() && tail[j] == d;
        assert(dirs_of_children(children, dst)[head.len() + j] == d);
    }
}

/// Every regular file and symlink reachable under the source root appears in
/// the scanned manifest, at the structurally corresponding relative path
/// under the destination root, with its symlink flag and size intact.
pub proof fn lemma_scan_covers_files(
    e: FsEntry,
    src: Seq<char>,
    dst: Seq<char>,
    rel: Seq<Seq<char>>,
    is_symlink: bool,
    size: u64,
)
    requires
        has_file(e, rel, is_symlink, size),
    ensures
        manifest_of_entry(e, src, dst).contains(
            TaskView {
                src_path: join_all(src, rel),
                dst_path: join_all(dst, rel),
                is_symlink,
                size,
            },
        ),
    decreases e,
{
    let entries = e->Dir_entries@;
    let i = choose|i: int|
        0 <= i < entries.len() && entry_name(#[trigger] entries[i]) == rel[0] && (if rel.len()
            == 1 {
            file_matches(entries[i], is_symlink, size)
        } else {
            has_file(entries[i], rel.drop_first(), is_symlink, size)
        });
    let c = entries[i];
    let c_src = join(src, entry_name(c));
    let c_dst = join(dst, entry_name(c));
    if rel.len() == 1 {
        assert(rel.drop_first().len() == 0);
        assert(join_all(src, rel) == c_src);
        assert(join_all(dst, rel) == c_dst);
        let t = TaskView { src_path: c_src, dst_path: c_dst, is_symlink, size };
        assert(manifest_of_entry(c, c_src, c_dst)[0] == t);
        lemma_manifest_children_contains(entries, src, dst, i, t);
    } else {
        assert(decreases_to!(e => e->Dir_entries));
        assert(decreases_to!(e->Dir_entries => entries));
        assert(decreases_to!(entries => entries[i]));
        lemma_scan_covers_files(c, c_src, c_dst, rel.drop_first(), is_symlink, size);
        assert(join_all(src, rel) == join_all(c_src, rel.drop_first()));
        assert(join_all(dst, rel) == join_all(c_dst, rel.drop_first()));
        lemma_manifest_children_contains(
            entries,
            src,
            dst,
            i,
            TaskView {
                src_path: join_all(src, rel),
                dst_path: join_all(dst, rel),
                is_symlink,
                size,
            },
        );
    }
}

/// Every directory reachable under the source root — including empty ones and
/// the root itself — has a corresponding entry in the scanned list of
/// destination directories.
pub proof fn lemma_scan_covers_dirs(e: FsEntry, dst: Seq<char>, rel: Seq<Seq<char>>)
    requires
        has_dir(e, rel),
    ensures
        dirs_of_entry(e, dst).contains(join_all(dst, rel)),
    decreases e,
{
    if rel.len() == 0 {
        assert(dirs_of_entry(e, dst)[0] == dst);
    } else {
        let entries = e->Dir_entries@;
        let i = choose|i: int|
            0 <= i < entries.len() && entry_name(#[trigger] entries[i]) == rel[0] && has_dir(
                entries[i],
                rel.drop_first(),
            );
        let c = entries[i];
        let c_dst = join(dst, entry_name(c));
        assert(decreases_to!(e => e->Dir_entries));
        assert(decreases_to!(e->Dir_entries => entries));
        assert(decreases_to!(entries => entries[i]));
        lemma_scan_covers_dirs(c, c_dst, rel.drop_first());
        assert(join_all(dst, rel) == join_all(c_dst, rel.drop_first()));
        lemma_dirs_children_contains(entries, dst, i, join_all(dst, rel));
        let tail = dirs_of_children(entries, dst);
        let j = choose|j: int| 0 <= j < tail.len() && tail[j] == join_all(dst, rel);
        assert(dirs_of_entry(e, dst)[1 + j] == join_all(dst, rel));
    }
}

/// Every file or symlink sits inside a directory that the scan also lists:
/// the parent path of a reachable file is a reachable directory. Together
/// with the directory coverage and the parent-first ordering below, this is
/// what lets every destination directory exist before any file inside it is
/// copied.
pub proof fn lemma_file_has_parent_dir(
    e: FsEntry,
    rel: Seq<Seq<char>>,
    is_symlink: bool,
    size: u64,
)
    requires
        has_file(e, rel, is_symlink, size),
    ensures
        has_dir(e, rel.drop_last()),
    decreases e,
{
    let entries = e->Dir_entries@;
    let i = choose|i: int|
        0 <= i < entries.len() && entry_name(#[trigger] entries[i]) == rel[0] && (if rel.len()
            == 1 {
            file_matches(entries[i], is_symlink, size)
        } else {
            has_file(entries[i], rel.drop_first(), is_symlink, size)
        });
    if rel.len() == 1 {
        assert(rel.drop_last().len() == 0);
    } else {
        let c = entries[i];
        assert(decreases_to!(e => e->Dir_entries));
        assert(decreases_to!(e->Dir_entries => entries));
        assert(decreases_to!(entries => entries[i]));
        lemma_file_has_parent_dir(c, rel.drop_first(), is_symlink, size);
        assert(rel.drop_first().drop_last() =~= rel.drop_last().drop_first());
        assert(rel.drop_last()[0] == rel[0]);
        assert(entry_name(entries[i]) == rel.drop_last()[0] && has_dir(
            entries[i],
            rel.drop_last().drop_first(),
        ));
    }
}

/// The path at position `i` of `d_seq` is a direct child of some path listed
/// earlier in `d_seq`.
pub open spec fn parent_earlier(d_seq: Seq<Seq<char>>, i: int) -> bool {
    exists|j: int, nm: Seq<char>| 0 <= j < i && d_seq[i] == #[trigger] join(d_seq[j], nm)
}

/// The path at position `i` of `d_seq` is a direct child either of `base` or
/// of some path listed earlier in `d_seq`.
spec fn parent_listed(d_seq: Seq<Seq<char>>, base: Seq<char>, i: int) -> bool {
    (exists|nm: Seq<char>| d_seq[i] == join(base, nm)) || parent_earlier(d_seq, i)
}

proof fn lemma_dirs_children_parents(children: Seq<FsEntry>, dst: Seq<char>)
    ensures
        forall|i: int|
            0 <= i < dirs_of_children(children, dst).len() ==> #[trigger] parent_listed(
                dirs_of_children(children, dst),
                dst,
                i,
            ),
    decreases children,
{
    if children.len() > 0 {
        let c = children[0];
        let c_dst = join(dst, entry_name(c));
        let head = dirs_of_entry(c, c_dst);
        let tail = dirs_of_children(children.drop_first(), dst);
        let whole = dirs_of_children(children, dst);
        lemma_dirs_parent_first(c, c_dst);
        lemma_dirs_children_parents(children.drop_first(), dst);
        assert forall|i: int| 0 <= i < whole.len() implies #[trigger] parent_listed(
            whole,
            dst,
            i,
        ) by {
            if i < head.len() {
                if i == 0 {
                    assert(whole[0] == head[0]);
                    assert(whole[0] == join(dst, entry_name(c)));
                } else {
                    assert(parent_earlier(head, i));
                    let (j, nm) = choose|j: int, nm: Seq<char>|
                        0 <= j < i && head[i] == #[trigger] join(head[j], nm);
                    assert(whole[i] == head[i]);
                    assert(whole[j] == head[j]);
                    assert(whole[i] == join(whole[j], nm));
                    assert(parent_earlier(whole, i));
                }
            } else {
                let k = i - head.len();
                assert(whole[i] == tail[k]);
                assert(parent_listed(tail, dst, k));
                if exists|nm: Seq<char>| tail[k] == join(dst, nm) {
                    let nm = choose|nm: Seq<char>| tail[k] == join(dst, nm);
                    assert(whole[i] == join(dst, nm));
                } else {
                    let (j, nm) = choose|j: int, nm: Seq<char>|
                        0 <= j < k && tail[k] == #[trigger] join(tail[j], nm);
                    assert(whole[head.len() + j] == tail[j]);
                    assert(whole[i] == join(whole[head.len() + j], nm));
                    assert(parent_earlier(whole, i));
                }
            }
        }
    }
}

/// The scanned directory list is ordered parent-first: its first entry is the
/// destination root, and every later entry is a direct child of an earlier
/// entry. Creating the directories in list order therefore always finds the
/// parent already present, before any file inside it is copied.
pub proof fn lemma_dirs_parent_first(e: FsEntry, dst: Seq<char>)
    ensures
        e is Dir ==> dirs_of_entry(e, dst)[0] == dst,
        forall|i: int|
            1 <= i < dirs_of_entry(e, dst).len() ==> #[trigger] parent_earlier(
                dirs_of_entry(e, dst),
                i,
            ),
    decreases e,
{
    if e is Dir {
        let entries = e->Dir_entries@;
        let cd = dirs_of_children(entries, dst);
        let whole = dirs_of_entry(e, dst);
        assert(decreases_to!(e => e->Dir_entries));
        assert(decreases_to!(e->Dir_entries => entries));
        lemma_dirs_children_parents(entries, dst);
        assert forall|i: int| 1 <= i < whole.len() implies #[trigger] parent_earlier(
            whole,
            i,
        ) by {
            let k = i - 1;
            assert(whole[i] == cd[k]);
            assert(parent_listed(cd, dst, k));
            if exists|nm: Seq<char>| cd[k] == join(dst, nm) {
                let nm = choose|nm: Seq<char>| cd[k] == join(dst, nm);
                assert(whole[0] == dst);
                assert(whole[i] == join(whole[0], nm));
            } else {
                assert(parent_earlier(cd, k));
                let (j, nm) = choose|j: int, nm: Seq<char>|
                    0 <= j < k && cd[k] == #[trigger] join(cd[j], nm);
                assert(whole[j + 1] == cd[j]);
                assert(whole[i] == join(whole[j + 1], nm));
            }
        }
    }
}

/// The manifest's byte total, if it fits in a `u64`. This is the checked
/// companion of `bytes_in_file_list`: a `Some` result both gives the total
/// and establishes the bound that `bytes_in_file_list` and `balanced_split`
/// ask of their callers; `None` means the planned bytes overflow a `u64`.
pub fn checked_total(copy_info_list: &Vec<CopyInfo>) -> (r: Option<u64>)
    ensures
        r matches Some(t) ==> t as int == sum_sizes(copy_info_list@),
        r is Some <==> sum_sizes(copy_info_list@) <= u64::MAX,
{
    let mut byte_count: u64 = 0;
    let mut i: usize = 0;
    while i < copy_info_list.len()
        invariant
            i <= copy_info_list@.len(),
            byte_count as int == sum_sizes(copy_info_list@.take(i as int)),
        decreases copy_info_list@.len() - i,
    {
        proof {
            lemma_sum_sizes_push(copy_info_list@.take(i as int), copy_info_list@[i as int]);
            assert(copy_info_list@.take(i as int + 1) =~= copy_info_list@.take(i as int).push(
                copy_info_list@[i as int],
            ));
        }
        let size = copy_info_list[i].size;
        if size > u64::MAX - byte_count {
            proof {
                lemma_sum_take_le(copy_info_list@, i as int + 1);
            }
            return Option::None;
        }
        byte_count = byte_count + size;
        i = i + 1;
    }
    proof {
        assert(copy_info_list@.take(copy_info_list@.len() as int) =~= copy_info_list@);
    }
    Option::Some(byte_count)
}

/// Total bytes over all tasks in the manifest: the precomputed total that the
/// progress display measures against.
pub fn bytes_in_file_list(copy_info_list: &Vec<CopyInfo>) -> (r: u64)
    requires
        sum_sizes(copy_info_list@) <= u64::MAX,
    ensures
        r as int == sum_sizes(copy_info_list@),
{
    let mut byte_count: u64 = 0;
    let mut i: usize = 0;
    while i < copy_info_list.len()
        invariant
            i <= copy_info_list@.len(),
            sum_sizes(copy_info_list@) <= u64::MAX,
            byte_count as int == sum_sizes(copy_info_list@.take(i as int)),
        decreases copy_info_list@.len() - i,
    {
        proof {
            lemma_sum_sizes_push(copy_info_list@.take(i as int), copy_info_list@[i as int]);
            assert(copy_info_list@.take(i as int + 1) =~= copy_info_list@.take(i as int).push(
                copy_info_list@[i as int],
            ));
            lemma_sum_take_le(copy_info_list@, i as int + 1);
        }
        byte_count = byte_count + copy_info_list[i].size;
        i = i + 1;
    }
    proof {
        assert(copy_info_list@.take(copy_info_list@.len() as int) =~= copy_info_list@);
    }
    byte_count
}

} // verus!
