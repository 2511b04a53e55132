use crate::types::{
    lemma_sum_sizes_nonneg, lemma_sum_sizes_push, lemma_sum_take_le, sum_sizes, CopyInfo,
    SplitCopyInfo,
};
use vstd::multiset::Multiset;
use vstd::prelude::*;
use vstd::string::StringExecFns;

verus! {

/// Index of the first bucket holding the fewest bytes. Ties break to the
/// lowest index, matching the executable scan over the buckets.
pub open spec fn min_bucket(buckets: Seq<Seq<CopyInfo>>) -> int
    decreases buckets.len(),
{
    if buckets.len() <= 1 {
        0
    } else {
        let m = min_bucket(buckets.drop_last());
        if sum_sizes(buckets.last()) < sum_sizes(buckets[m]) {
            buckets.len() - 1
        } else {
            m
        }
    }
}

/// `min_bucket` picks an index in range whose bucket is no heavier than any
/// other, and every bucket before it is strictly heavier.
proof fn lemma_min_bucket_props(buckets: Seq<Seq<CopyInfo>>)
    requires
        buckets.len() >= 1,
    ensures
        0 <= min_bucket(buckets) < buckets.len(),
        forall|j: int|
            0 <= j < buckets.len() ==> sum_sizes(buckets[min_bucket(buckets)]) <= sum_sizes(
                #[trigger] buckets[j],
            ),
        forall|j: int|
            0 <= j < min_bucket(buckets) ==> sum_sizes(#[trigger] buckets[j]) > sum_sizes(
                buckets[min_bucket(buckets)],
            ),
    decreases buckets.len(),
{
    if buckets.len() > 1 {
        lemma_min_bucket_props(buckets.drop_last());
        assert(forall|j: int|
            0 <= j < buckets.len() - 1 ==> #[trigger] buckets[j] == buckets.drop_last()[j]);
    }
}

/// Any index whose bucket is minimal, with all earlier buckets strictly
/// heavier, is exactly `min_bucket`.
proof fn lemma_min_bucket_agrees(buckets: Seq<Seq<CopyInfo>>, i: int)
    requires
        buckets.len() >= 1,
        0 <= i < buckets.len(),
        forall|j: int|
            0 <= j < buckets.len() ==> sum_sizes(buckets[i]) <= sum_sizes(#[trigger] buckets[j]),
        forall|j: int| 0 <= j < i ==> sum_sizes(#[trigger] buckets[j]) > sum_sizes(buckets[i]),
    ensures
        i == min_bucket(buckets),
{
    lemma_min_bucket_props(buckets);
    let m = min_bucket(buckets);
    if i < m {
        assert(sum_sizes(buckets[i]) > sum_sizes(buckets[m]));
        assert(sum_sizes(buckets[i]) <= sum_sizes(buckets[m]));
    } else if m < i {
        assert(sum_sizes(buckets[m]) > sum_sizes(buckets[i]));
        assert(sum_sizes(buckets[m]) <= sum_sizes(buckets[i]));
    }
}

/// The partition after placing one task into the least-loaded bucket.
pub open spec fn greedy_insert(buckets: Seq<Seq<CopyInfo>>, t: CopyInfo) -> Seq<Seq<CopyInfo>> {
    let j = min_bucket(buckets);
    buckets.update(j, buckets[j].push(t))
}

/// The greedy balanced partition of `tasks` into `k` buckets: each task, in
/// manifest order, joins the bucket that is lightest at that moment.
pub open spec fn greedy_split(tasks: Seq<CopyInfo>, k: nat) -> Seq<Seq<CopyInfo>>
    decreases tasks.len(),
{
    if tasks.len() == 0 {
        Seq::new(k, |i: int| Seq::<CopyInfo>::empty())
    } else {
        greedy_insert(greedy_split(tasks.drop_last(), k), tasks.last())
    }
}

/// Total bytes across all buckets of a partition.
pub open spec fn sum_bucket_sizes(buckets: Seq<Seq<CopyInfo>>) -> int
    decreases buckets.len(),
{
    if buckets.len() == 0 {
        0
    } else {
        sum_bucket_sizes(buckets.drop_last()) + sum_sizes(buckets.last())
    }
}

/// All tasks held across all buckets of a partition, as a multiset.
pub open spec fn buckets_multiset(buckets: Seq<Seq<CopyInfo>>) -> Multiset<CopyInfo>
    decreases buckets.len(),
{
    if buckets.len() == 0 {
        Multiset::<CopyInfo>::empty()
    } else {
        buckets_multiset(buckets.drop_last()).add(buckets.last().to_multiset())
    }
}

proof fn lemma_sum_bucket_sizes_update(buckets: Seq<Seq<CopyInfo>>, j: int, nb: Seq<CopyInfo>)
    requires
        0 <= j < buckets.len(),
    ensures
        sum_bucket_sizes(buckets.update(j, nb)) == sum_bucket_sizes(buckets) - sum_sizes(
            buckets[j],
        ) + sum_sizes(nb),
    decreases buckets.len(),
{
    let u = buckets.update(j, nb);
    if j == buckets.len() - 1 {
        assert(u.drop_last() =~= buckets.drop_last());
    } else {
        assert(u.drop_last() =~= buckets.drop_last().update(j, nb));
        lemma_sum_bucket_sizes_update(buckets.drop_last(), j, nb);
    }
}

proof fn lemma_buckets_multiset_update(buckets: Seq<Seq<CopyInfo>>, j: int, t: CopyInfo)
    requires
        0 <= j < buckets.len(),
    ensures
        buckets_multiset(buckets.update(j, buckets[j].push(t))) == buckets_multiset(
            buckets,
        ).insert(t),
    decreases buckets.len(),
{
    broadcast use vstd::seq_lib::group_to_multiset_ensures;

    let u = buckets.update(j, buckets[j].push(t));
    if j == buckets.len() - 1 {
        assert(u.drop_last() =~= buckets.drop_last());
        assert(u.last() == buckets.last().push(t));
        assert(buckets.last().push(t).to_multiset() =~= buckets.last().to_multiset().insert(t));
        assert(buckets_multiset(buckets.drop_last()).add(
            buckets.last().to_multiset().insert(t),
        ) =~= buckets_multiset(buckets).insert(t));
    } else {
        assert(u.drop_last() =~= buckets.drop_last().update(j, buckets.drop_last()[j].push(t)));
        lemma_buckets_multiset_update(buckets.drop_last(), j, t);
        assert(buckets_multiset(buckets.drop_last()).insert(t).add(
            buckets.last().to_multiset(),
        ) =~= buckets_multiset(buckets).insert(t));
    }
}

/// No single bucket holds more bytes than the whole partition.
proof fn lemma_bucket_le_total(buckets: Seq<Seq<CopyInfo>>, j: int)
    requires
        0 <= j < buckets.len(),
    ensures
        sum_sizes(buckets[j]) <= sum_bucket_sizes(buckets),
    decreases buckets.len(),
{
    lemma_sum_sizes_nonneg(buckets.last());
    if j == buckets.len() - 1 {
        lemma_sum_bucket_sizes_nonneg(buckets.drop_last());
    } else {
        lemma_bucket_le_total(buckets.drop_last(), j);
    }
}

proof fn lemma_sum_bucket_sizes_nonneg(buckets: Seq<Seq<CopyInfo>>)
    ensures
        sum_bucket_sizes(buckets) >= 0,
    decreases buckets.len(),
{
    if buckets.len() > 0 {
        lemma_sum_bucket_sizes_nonneg(buckets.drop_last());
        lemma_sum_sizes_nonneg(buckets.last());
    }
}

proof fn lemma_empty_buckets(k: nat)
    ensures
        sum_bucket_sizes(Seq::new(k, |i: int| Seq::<CopyInfo>::empty())) == 0,
        buckets_multiset(Seq::new(k, |i: int| Seq::<CopyInfo>::empty())) == Multiset::<
            CopyInfo,
        >::empty(),
    decreases k,
{
    broadcast use vstd::seq_lib::group_to_multiset_ensures;

    let b = Seq::new(k, |i: int| Seq::<CopyInfo>::empty());
    if k > 0 {
        assert(b.drop_last() =~= Seq::new((k - 1) as nat, |i: int| Seq::<CopyInfo>::empty()));
        lemma_empty_buckets((k - 1) as nat);
        assert(b.last().to_multiset() =~= Multiset::<CopyInfo>::empty()) by {
            assert(b.last().to_multiset().len() == 0);
        }
        assert(buckets_multiset(b) =~= Multiset::<CopyInfo>::empty());
    }
}

/// Partition invariant: for every manifest and every worker count `k >= 1`,
/// the greedy partition yields exactly `k` buckets, the bucket byte totals
/// add up to the manifest's total bytes, and the tasks across all buckets are
/// exactly the manifest's tasks — each task lands in exactly one bucket.
pub proof fn lemma_partition_invariant(tasks: Seq<CopyInfo>, k: nat)
    requires
        k >= 1,
    ensures
        greedy_split(tasks, k).len() == k,
        sum_bucket_sizes(greedy_split(tasks, k)) == sum_sizes(tasks),
        buckets_multiset(greedy_split(tasks, k)) == tasks.to_multiset(),
    decreases tasks.len(),
{
    broadcast use vstd::seq_lib::group_to_multiset_ensures;

    if tasks.len() == 0 {
        lemma_empty_buckets(k);
        assert(tasks.to_multiset() =~= Multiset::<CopyInfo>::empty()) by {
            assert(tasks.to_multiset().len() == 0);
        }
    } else {
        let prev = greedy_split(tasks.drop_last(), k);
        lemma_partition_invariant(tasks.drop_last(), k);
        lemma_min_bucket_props(prev);
        let m = min_bucket(prev);
        lemma_sum_sizes_push(prev[m], tasks.last());
        lemma_sum_bucket_sizes_update(prev, m, prev[m].push(tasks.last()));
        lemma_buckets_multiset_update(prev, m, tasks.last());
        assert(tasks.drop_last().push(tasks.last()) =~= tasks);
        assert(tasks.drop_last().push(tasks.last()).to_multiset() =~= tasks.drop_last()
            .to_multiset().insert(tasks.last()));
    }
}

/// The task lists held by a sequence of buckets.
pub open spec fn buckets_view(buckets: Seq<SplitCopyInfo>) -> Seq<Seq<CopyInfo>> {
    buckets.map_values(|b: SplitCopyInfo| b.copy_info_list@)
}

/// Splits the manifest into `n` buckets of approximately equal byte totals,
/// by giving each task, in manifest order, to the bucket that currently holds
/// the fewest bytes (ties broken by lowest bucket index). The result is
/// exactly the greedy partition `greedy_split`, with each bucket's stored
/// byte total matching the bytes of the tasks it holds.
pub fn balanced_split(copy_info_list: Vec<CopyInfo>, n: i32) -> (r: Vec<SplitCopyInfo>)
    requires
        1 <= n,
        sum_sizes(copy_info_list@) <= u64::MAX,
    ensures
        r@.len() == n as int,
        buckets_view(r@) == greedy_split(copy_info_list@, n as nat),
        forall|i: int| 0 <= i < n ==> (#[trigger] r@[i]).wf(),
{
    let mut split_copy_info_list: Vec<SplitCopyInfo> = Vec::new();
    let mut j: i32 = 0;
    while j < n
        invariant
            0 <= j <= n,
            split_copy_info_list@.len() == j as int,
            forall|i: int|
                0 <= i < j ==> (#[trigger] split_copy_info_list@[i]).copy_info_list@ == Seq::<
                    CopyInfo,
                >::empty(),
            forall|i: int| 0 <= i < j ==> (#[trigger] split_copy_info_list@[i]).wf(),
        decreases n - j,
    {
        split_copy_info_list.push(SplitCopyInfo::new());
        j = j + 1;
    }
    proof {
        assert(buckets_view(split_copy_info_list@) =~= greedy_split(
            copy_info_list@.take(0),
            n as nat,
        ));
    }

    let ghost all_tasks = copy_info_list@;
    let mut t_i: usize = 0;
    while t_i < copy_info_list.len()
        invariant
            1 <= n,
            t_i <= all_tasks.len(),
            copy_info_list@ == all_tasks,
            sum_sizes(all_tasks) <= u64::MAX,
            split_copy_info_list@.len() == n as int,
            buckets_view(split_copy_info_list@) == greedy_split(all_tasks.take(t_i as int), n as nat),
            forall|i: int| 0 <= i < n ==> (#[trigger] split_copy_info_list@[i]).wf(),
        decreases all_tasks.len() - t_i,
    {
        let ghost tasks_so_far = all_tasks.take(t_i as int);
        let ghost bv = buckets_view(split_copy_info_list@);

        // Scan all buckets for the first one with the smallest byte total.
        let mut index: usize = 0;
        let mut min_size: u64 = split_copy_info_list[0].size;
        let mut i: usize = 1;
        while i < split_copy_info_list.len()
            invariant
                1 <= i <= split_copy_info_list@.len(),
                (index as int) < i,
                min_size == split_copy_info_list@[index as int].size,
                forall|q: int|
                    0 <= q < i ==> (#[trigger] split_copy_info_list@[q]).size >= min_size,
                forall|q: int|
                    0 <= q < index ==> (#[trigger] split_copy_info_list@[q]).size > min_size,
            decreases split_copy_info_list@.len() - i,
        {
            if split_copy_info_list[i].size < min_size {
                index = i;
                min_size = split_copy_info_list[i].size;
            }
            i = i + 1;
        }
        proof {
            assert(forall|q: int|
                0 <= q < bv.len() ==> sum_sizes(#[trigger] bv[q]) == split_copy_info_list@[q].size);
            lemma_min_bucket_agrees(bv, index as int);
            // The new task still fits in a u64 byte total: the lightest bucket
            // holds at most the bytes placed so far, and all bytes together
            // fit in a u64.
            lemma_partition_invariant(tasks_so_far, n as nat);
            lemma_bucket_le_total(bv, index as int);
            lemma_sum_sizes_push(tasks_so_far, all_tasks[t_i as int]);
            assert(all_tasks.take(t_i as int + 1) =~= tasks_so_far.push(all_tasks[t_i as int]));
            lemma_sum_take_le(all_tasks, t_i as int + 1);
        }

        // Place the task in that bucket and grow the bucket's byte total.
        let ghost old_buckets = split_copy_info_list@;
        let task = copy_info_list[t_i].duplicate();
        let mut bucket = split_copy_info_list.remove(index);
        bucket.size = bucket.size + task.size;
        proof {
            lemma_sum_sizes_push(bucket.copy_info_list@, task);
        }
        bucket.copy_info_list.push(task);
        split_copy_info_list.insert(index, bucket);

        proof {
            assert(split_copy_info_list@ =~= old_buckets.update(
                index as int,
                split_copy_info_list@[index as int],
            ));
            assert(buckets_view(split_copy_info_list@) =~= greedy_insert(
                bv,
                all_tasks[t_i as int],
            ));
            assert(all_tasks.take(t_i as int + 1).drop_last() == all_tasks.take(t_i as int));
            assert(greedy_split(all_tasks.take(t_i as int + 1), n as nat) == greedy_insert(
                greedy_split(all_tasks.take(t_i as int), n as nat),
                all_tasks[t_i as int],
            ));
        }
        t_i = t_i + 1;
    }
    proof {
        assert(all_tasks.take(all_tasks.len() as int) =~= all_tasks);
    }
    split_copy_info_list
}

/// The character of one decimal digit.
pub open spec fn spec_digit_char(d: nat) -> char {
    if d == 0 {
        '0'
    } else if d == 1 {
        '1'
    } else if d == 2 {
        '2'
    } else if d == 3 {
        '3'
    } else if d == 4 {
        '4'
    } else if d == 5 {
        '5'
    } else if d == 6 {
        '6'
    } else if d == 7 {
        '7'
    } else if d == 8 {
        '8'
    } else {
        '9'
    }
}

/// The decimal digits of `n`, most significant first, with no leading zeros
/// (a single `0` for zero itself).
pub open spec fn spec_digits(n: nat) -> Seq<char>
    decreases n,
{
    if n < 10 {
        seq![spec_digit_char(n)]
    } else {
        spec_digits(n / 10).push(spec_digit_char(n % 10))
    }
}

/// A whole part and a two-digit hundredths part, separated by `.`.
pub open spec fn spec_decimal(whole: nat, hundredths: nat) -> Seq<char> {
    spec_digits(whole) + seq!['.', spec_digit_char(hundredths / 10), spec_digit_char(
        hundredths % 10,
    )]
}

/// A human-readable rendering of a byte count, scaled by decimal thousands:
/// plain bytes under 1000, then KB, MB and GB, each with two digits after the
/// point. Fractions are truncated, not rounded.
pub open spec fn spec_human_readable(bytes: u64) -> Seq<char> {
    if bytes < 1000 {
        spec_digits(bytes as nat) + seq![' ', 'b', 'y', 't', 'e', 's']
    } else if bytes < 1000000 {
        spec_decimal(bytes as nat / 1000, (bytes as nat % 1000) / 10) + seq![' ', 'K', 'B']
    } else if bytes < 1000000000 {
        spec_decimal(bytes as nat / 1000000, (bytes as nat % 1000000) / 10000) + seq![' ', 'M', 'B']
    } else {
        spec_decimal(bytes as nat / 1000000000, (bytes as nat % 1000000000) / 10000000) + seq![
            ' ',
            'G',
            'B',
        ]
    }
}

/// The text of one decimal digit.
fn digit_str(d: u64) -> (r: &'static str)
    requires
        d < 10,
    ensures
        r@ == seq![spec_digit_char(d as nat)],
{
    let r: &'static str = if d == 0 {
        "0"
    } else if d == 1 {
        "1"
    } else if d == 2 {
        "2"
    } else if d == 3 {
        "3"
    } else if d == 4 {
        "4"
    } else if d == 5 {
        "5"
    } else if d == 6 {
        "6"
    } else if d == 7 {
        "7"
    } else if d == 8 {
        "8"
    } else {
        "9"
    };
    proof {
        reveal_strlit("0");
        reveal_strlit("1");
        reveal_strlit("2");
        reveal_strlit("3");
        reveal_strlit("4");
        reveal_strlit("5");
        reveal_strlit("6");
        reveal_strlit("7");
        reveal_strlit("8");
        reveal_strlit("9");
        assert(r@ =~= seq![spec_digit_char(d as nat)]);
    }
    r
}

/// The decimal digits of `n`, as text.
pub fn u64_to_string(n: u64) -> (r: String)
    ensures
        r@ == spec_digits(n as nat),
    decreases n,
{
    if n < 10 {
        digit_str(n).to_owned()
    } else {
        let mut s = u64_to_string(n / 10);
        s.append(digit_str(n % 10));
        proof {
            assert(s@ =~= spec_digits(n as nat));
        }
        s
    }
}

/// A whole part and a two-digit hundredths part, as text.
pub fn decimal_string(whole: u64, hundredths: u64) -> (r: String)
    requires
        hundredths < 100,
    ensures
        r@ == spec_decimal(whole as nat, hundredths as nat),
{
    let mut s = u64_to_string(whole);
    s.append(".");
    s.append(digit_str(hundredths / 10));
    s.append(digit_str(hundredths % 10));
    proof {
        reveal_strlit(".");
        assert(s@ =~= spec_decimal(whole as nat, hundredths as nat));
    }
    s
}

/// Renders a byte count for people: bytes below 1000, then KB, MB and GB in
/// decimal (base-1000) steps, each with two truncated digits after the point.
pub fn human_readable_bytes(bytes: u64) -> (r: String)
    ensures
        r@ == spec_human_readable(bytes),
{
    if bytes < 1000 {
        let mut s = u64_to_string(bytes);
        s.append(" bytes");
        proof {
            reveal_strlit(" bytes");
            assert(s@ =~= spec_human_readable(bytes));
        }
        s
    } else if bytes < 1_000_000 {
        let mut s = decimal_string(bytes / 1000, (bytes % 1000) / 10);
        s.append(" KB");
        proof {
            reveal_strlit(" KB");
            assert(s@ =~= spec_human_readable(bytes));
        }
        s
    } else if bytes < 1_000_000_000 {
        let mut s = decimal_string(bytes / 1_000_000, (bytes % 1_000_000) / 10_000);
        s.append(" MB");
        proof {
            reveal_strlit(" MB");
            assert(s@ =~= spec_human_readable(bytes));
        }
        s
    } else {
        let mut s = decimal_string(bytes / 1_000_000_000, (bytes % 1_000_000_000) / 10_000_000);
        s.append(" GB");
        proof {
            reveal_strlit(" GB");
            assert(s@ =~= spec_human_readable(bytes));
        }
        s
    }
}

} // verus!
