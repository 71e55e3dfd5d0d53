//! Column grouping and hierarchy resolution.
//!
//! An unordered batch of tasks is first partitioned into per-column buckets
//! (preserving each task's relative input order), and each bucket is then
//! ordered by following the `above_task_id` back-references: every task
//! without a resolvable in-bucket predecessor starts a chain walk, and the
//! tasks a walk never reaches are appended in input order.  The result gets
//! dense zero-based positions per column.

use vstd::prelude::*;
use vstd::multiset::Multiset;

use crate::task::{SortedTask, Task, sorted_task, task_of};

verus! {

// ------------------------------------------------------------------
// Column grouping
// ------------------------------------------------------------------

/// The distinct column keys of `tasks`, in order of first appearance.
/// A key is `Some` column id, or `None` for unassigned tasks.
pub open spec fn column_keys(tasks: Seq<Task>) -> Seq<Option<u128>>
    decreases tasks.len(),
{
    if tasks.len() == 0 {
        Seq::empty()
    } else {
        let rest = column_keys(tasks.drop_last());
        if rest.contains(tasks.last().column_id) {
            rest
        } else {
            rest.push(tasks.last().column_id)
        }
    }
}

/// The sub-sequence of `tasks` whose column key is `key`, in input order.
pub open spec fn bucket_of(tasks: Seq<Task>, key: Option<u128>) -> Seq<Task> {
    tasks.filter(|t: Task| t.column_id == key)
}

/// Equality of two column keys.
fn key_eq(a: &Option<u128>, b: &Option<u128>) -> (r: bool)
    ensures
        r == (*a == *b),
{
    match (a, b) {
        (Option::Some(x), Option::Some(y)) => *x == *y,
        (Option::None, Option::None) => true,
        _ => false,
    }
}

/// The distinct column keys of `tasks`, in order of first appearance.
fn collect_keys(tasks: &Vec<Task>) -> (keys: Vec<Option<u128>>)
    ensures
        keys@ == column_keys(tasks@),
{
    let n = tasks.len();
    let mut keys: Vec<Option<u128>> = Vec::new();
    for i in 0..n
        invariant
            n == tasks@.len(),
            keys@ == column_keys(tasks@.take(i as int)),
    {
        let k = tasks[i].column_id;
        let mut found = false;
        let m = keys.len();
        for j in 0..m
            invariant
                m == keys@.len(),
                found == keys@.take(j as int).contains(k),
        {
            if key_eq(&keys[j], &k) {
                found = true;
            }
            proof {
                assert(keys@.take(j + 1).drop_last() =~= keys@.take(j as int));
                assert(keys@.take(j + 1).last() == keys@[j as int]);
            }
        }
        proof {
            assert(keys@.take(m as int) =~= keys@);
            assert(tasks@.take(i + 1).drop_last() =~= tasks@.take(i as int));
            assert(tasks@.take(i + 1).last() == tasks@[i as int]);
        }
        if !found {
            keys.push(k);
        }
    }
    proof {
        assert(tasks@.take(n as int) =~= tasks@);
    }
    keys
}

/// The tasks of `tasks` whose column key is `key`, in input order.
fn filter_by_key(tasks: &Vec<Task>, key: &Option<u128>) -> (b: Vec<Task>)
    ensures
        b@ == bucket_of(tasks@, *key),
{
    let n = tasks.len();
    let mut b: Vec<Task> = Vec::new();
    for i in 0..n
        invariant
            n == tasks@.len(),
            b@ == bucket_of(tasks@.take(i as int), *key),
    {
        if key_eq(&tasks[i].column_id, key) {
            b.push(tasks[i].duplicate());
        }
        proof {
            reveal_with_fuel(Seq::<Task>::filter, 2);
            let s1 = tasks@.take(i + 1);
            let s0 = tasks@.take(i as int);
            assert(s1.drop_last() =~= s0);
            assert(s1.last() == tasks@[i as int]);
            if tasks@[i as int].column_id == *key {
                assert(bucket_of(s1, *key) == bucket_of(s0, *key).push(tasks@[i as int]));
            } else {
                assert(bucket_of(s1, *key) == bucket_of(s0, *key));
            }
        }
    }
    proof {
        assert(tasks@.take(n as int) =~= tasks@);
    }
    b
}

/// Partition `tasks` into per-column buckets.
///
/// The result lists each distinct column key once, in order of first
/// appearance, paired with the sub-sequence of input tasks sharing that
/// key in input order.  No task is dropped or duplicated.  Callers must
/// not depend on the bucket order beyond that determinism.
pub fn grouped_by_column(tasks: &Vec<Task>) -> (groups: Vec<(Option<u128>, Vec<Task>)>)
    ensures
        groups@.len() == column_keys(tasks@).len(),
        forall|i: int|
            0 <= i < groups@.len() ==> (#[trigger] groups@[i]).0 == column_keys(tasks@)[i]
                && groups@[i].1@ == bucket_of(tasks@, column_keys(tasks@)[i]),
{
    let keys = collect_keys(tasks);
    let m = keys.len();
    let mut groups: Vec<(Option<u128>, Vec<Task>)> = Vec::new();
    for idx in 0..m
        invariant
            m == keys@.len(),
            keys@ == column_keys(tasks@),
            groups@.len() == idx,
            forall|i: int|
                0 <= i < idx ==> (#[trigger] groups@[i]).0 == column_keys(tasks@)[i]
                    && groups@[i].1@ == bucket_of(tasks@, column_keys(tasks@)[i]),
    {
        let b = filter_by_key(tasks, &keys[idx]);
        groups.push((keys[idx], b));
    }
    groups
}

// ------------------------------------------------------------------
// Hierarchy resolution: specification layer
// ------------------------------------------------------------------

/// Whether some task in the bucket carries id `id`.
pub open spec fn bucket_has_id(tasks: Seq<Task>, id: u128) -> bool {
    exists|k: int| 0 <= k < tasks.len() && tasks[k].id == id
}

/// Whether the task at `i` starts a chain walk: it names no task above it,
/// or names one that is not in this bucket (a dangling or foreign
/// reference, whose true predecessor is not resolvable here).
pub open spec fn is_root(tasks: Seq<Task>, i: int) -> bool {
    match tasks[i].above_task_id {
        Option::None => true,
        Option::Some(a) => !bucket_has_id(tasks, a),
    }
}

/// Whether the task at `j` claims the task at `i` as the one above it.
pub open spec fn claims(tasks: Seq<Task>, j: int, i: int) -> bool {
    tasks[j].above_task_id == Option::Some(tasks[i].id)
}

/// All task ids in the bucket are distinct.
pub open spec fn distinct_ids(tasks: Seq<Task>) -> bool {
    forall|i: int, j: int| 0 <= i < j < tasks.len() ==> tasks[i].id != tasks[j].id
}

/// `c` lists indices of `tasks` forming one well-shaped chain: its head is
/// a root, each later entry is the unique in-bucket claimant of the entry
/// before it, and its last entry has no claimant at all.
pub open spec fn chain_seq(tasks: Seq<Task>, c: Seq<usize>) -> bool {
    &&& c.len() > 0
    &&& forall|k: int| 0 <= k < c.len() ==> (#[trigger] c[k] as int) < tasks.len()
    &&& c.no_duplicates()
    &&& is_root(tasks, c[0] as int)
    &&& forall|k: int| 0 <= k < c.len() - 1 ==> claims(tasks, #[trigger] c[k + 1] as int, c[k] as int)
    &&& forall|k: int, j: int|
        0 <= k < c.len() && 0 <= j < tasks.len() && #[trigger] claims(tasks, j, c[k] as int)
            ==> k < c.len() - 1 && j == c[k + 1] as int
}

/// The bucket is exactly one simple chain, described by `c`.
pub open spec fn single_chain_cover(tasks: Seq<Task>, c: Seq<usize>) -> bool {
    &&& distinct_ids(tasks)
    &&& chain_seq(tasks, c)
    &&& forall|i: int| 0 <= i < tasks.len() ==> #[trigger] c.contains(i as usize)
}

/// The bucket is exactly two disjoint simple chains, `c1`'s root standing
/// earlier in the input than `c2`'s.
pub open spec fn double_chain_cover(tasks: Seq<Task>, c1: Seq<usize>, c2: Seq<usize>) -> bool {
    &&& distinct_ids(tasks)
    &&& chain_seq(tasks, c1)
    &&& chain_seq(tasks, c2)
    &&& forall|k: int| 0 <= k < c1.len() ==> !c2.contains(#[trigger] c1[k])
    &&& c1[0] < c2[0]
    &&& forall|i: int| 0 <= i < tasks.len() ==> #[trigger] c1.contains(i as usize) || c2.contains(i as usize)
}

/// `ord` lists every index below `n` exactly once.
pub open spec fn index_permutation(ord: Seq<usize>, n: nat) -> bool {
    &&& ord.len() == n
    &&& forall|k: int| 0 <= k < ord.len() ==> (#[trigger] ord[k] as nat) < n
    &&& ord.no_duplicates()
}

/// The entries of `s` at the positions listed in `ord`.
pub open spec fn select<T>(s: Seq<T>, ord: Seq<usize>) -> Seq<T> {
    ord.map_values(|k: usize| s[k as int])
}

// ------------------------------------------------------------------
// Permutation lemmas
// ------------------------------------------------------------------

/// A sequence of distinct indices below `n` has at most `n` entries.
proof fn lemma_distinct_bounded_len(s: Seq<usize>, n: nat)
    requires
        s.no_duplicates(),
        forall|k: int| 0 <= k < s.len() ==> (#[trigger] s[k] as nat) < n,
    ensures
        s.len() <= n,
{
    let t = Seq::new(s.len(), |k: int| s[k] as int);
    assert(t.no_duplicates());
    t.unique_seq_to_set();
    vstd::set_lib::lemma_int_range(0, n as int);
    assert(t.to_set().subset_of(vstd::set_lib::set_int_range(0, n as int))) by {
        assert forall|x: int| t.to_set().contains(x) implies vstd::set_lib::set_int_range(
            0,
            n as int,
        ).contains(x) by {
            let k = choose|k: int| 0 <= k < t.len() && t[k] == x;
            assert((s[k] as nat) < n);
        }
    }
    vstd::set_lib::lemma_len_subset(t.to_set(), vstd::set_lib::set_int_range(0, n as int));
}

/// A sequence of distinct indices below `n` that contains every index
/// below `n` has exactly `n` entries.
proof fn lemma_covering_distinct_len(s: Seq<usize>, n: nat)
    requires
        n <= usize::MAX,
        s.no_duplicates(),
        forall|k: int| 0 <= k < s.len() ==> (#[trigger] s[k] as nat) < n,
        forall|j: int| 0 <= j < n ==> #[trigger] s.contains(j as usize),
    ensures
        s.len() == n,
{
    lemma_distinct_bounded_len(s, n);
    let t = Seq::new(s.len(), |k: int| s[k] as int);
    assert(t.no_duplicates());
    t.unique_seq_to_set();
    assert(t.to_set() =~= vstd::set_lib::set_int_range(0, n as int)) by {
        assert forall|x: int| t.to_set().contains(x) implies vstd::set_lib::set_int_range(
            0,
            n as int,
        ).contains(x) by {
            let k = choose|k: int| 0 <= k < t.len() && t[k] == x;
            assert((s[k] as nat) < n);
        }
        assert forall|x: int|
            vstd::set_lib::set_int_range(0, n as int).contains(x) implies t.to_set().contains(
            x,
        ) by {
            assert(s.contains(x as usize));
            let k = choose|k: int| 0 <= k < s.len() && s[k] == x as usize;
            assert(t[k] == x);
        }
    }
    vstd::set_lib::lemma_int_range(0, n as int);
}

/// A permutation of `0..n` contains every index below `n`.
proof fn lemma_permutation_hits(ord: Seq<usize>, n: nat, v: usize)
    requires
        index_permutation(ord, n),
        (v as nat) < n,
    ensures
        ord.contains(v),
{
    if !ord.contains(v) {
        let t = Seq::new(ord.len(), |k: int| ord[k] as int);
        assert(t.no_duplicates());
        t.unique_seq_to_set();
        let small = vstd::set_lib::set_int_range(0, n as int).remove(v as int);
        assert(t.to_set().subset_of(small)) by {
            assert forall|x: int| t.to_set().contains(x) implies small.contains(x) by {
                let k = choose|k: int| 0 <= k < t.len() && t[k] == x;
                assert((ord[k] as nat) < n);
                assert(ord[k] != v);
            }
        }
        vstd::set_lib::lemma_int_range(0, n as int);
        assert(vstd::set_lib::set_int_range(0, n as int).contains(v as int));
        vstd::set_lib::lemma_len_subset(t.to_set(), small);
        assert(small.len() == n - 1);
    }
}

/// Selecting the entries of `s` at the positions of a permutation of
/// `0..s.len()` rearranges `s`: every entry of `s` appears in the result
/// exactly as often as in `s` itself.
pub proof fn lemma_select_permutation_multiset<T>(s: Seq<T>, ord: Seq<usize>)
    requires
        s.len() <= usize::MAX,
        index_permutation(ord, s.len()),
    ensures
        select(s, ord).to_multiset() == s.to_multiset(),
    decreases s.len(),
{
    broadcast use vstd::seq_lib::group_to_multiset_ensures;

    let n = s.len();
    if n == 0 {
        assert(select(s, ord) =~= s);
    } else {
        let v = (n - 1) as usize;
        lemma_permutation_hits(ord, n, v);
        let k = choose|k: int| 0 <= k < ord.len() && ord[k] == v;
        let s2 = s.drop_last();
        let ord2 = ord.remove(k);
        assert(ord2.no_duplicates()) by {
            assert forall|i: int, j: int|
                0 <= i < j < ord2.len() implies ord2[i] != ord2[j] by {
                let i0 = if i < k {
                    i
                } else {
                    i + 1
                };
                let j0 = if j < k {
                    j
                } else {
                    j + 1
                };
                assert(ord2[i] == ord[i0] && ord2[j] == ord[j0]);
            }
        }
        assert(index_permutation(ord2, (n - 1) as nat)) by {
            assert forall|i: int| 0 <= i < ord2.len() implies (#[trigger] ord2[i] as nat) < n
                - 1 by {
                let i0 = if i < k {
                    i
                } else {
                    i + 1
                };
                assert(ord2[i] == ord[i0]);
                assert(ord[i0] != v);
            }
        }
        lemma_select_permutation_multiset(s2, ord2);
        assert(select(s2, ord2) =~= select(s, ord).remove(k)) by {
            assert forall|i: int| 0 <= i < ord2.len() implies select(s2, ord2)[i] == select(
                s,
                ord,
            ).remove(k)[i] by {
                let i0 = if i < k {
                    i
                } else {
                    i + 1
                };
                assert(ord2[i] == ord[i0]);
                assert(ord[i0] != v);
                assert((ord[i0] as nat) < n);
                assert(select(s, ord).remove(k)[i] == select(s, ord)[i0]);
                assert(select(s, ord)[i0] == s[ord[i0] as int]);
                assert(s2[ord2[i] as int] == s[ord[i0] as int]);
            }
        }
        assert(select(s, ord).remove(k).to_multiset() == select(s, ord).to_multiset().remove(
            select(s, ord)[k],
        ));
        assert(select(s, ord)[k] == s.last());
        assert(s2.push(s.last()) =~= s);
        assert(s.to_multiset() == s2.to_multiset().insert(s.last()));
        assert(select(s, ord).to_multiset().contains(select(s, ord)[k]));
        assert(select(s, ord).to_multiset() =~= s2.to_multiset().insert(s.last()));
    }
}

// ------------------------------------------------------------------
// Hierarchy resolution: the walk
// ------------------------------------------------------------------

/// The walk's bookkeeping is sound: `visited` flags exactly the indices
/// already emitted to `ord` or waiting on `stack`, and no index is
/// recorded twice.
spec fn walk_state(tasks: Seq<Task>, visited: Seq<bool>, ord: Seq<usize>, stack: Seq<usize>) -> bool {
    &&& visited.len() == tasks.len()
    &&& forall|k: int| 0 <= k < ord.len() ==> (#[trigger] ord[k] as int) < tasks.len()
    &&& forall|k: int| 0 <= k < stack.len() ==> (#[trigger] stack[k] as int) < tasks.len()
    &&& (ord + stack).no_duplicates()
    &&& forall|j: int|
        0 <= j < tasks.len()
            ==> (visited[j] <==> (ord.contains(j as usize) || stack.contains(j as usize)))
}

/// Whether some task in the bucket carries id `id`.
fn has_id(tasks: &Vec<Task>, id: u128) -> (r: bool)
    ensures
        r == bucket_has_id(tasks@, id),
{
    let n = tasks.len();
    let mut r = false;
    for k in 0..n
        invariant
            n == tasks@.len(),
            r == exists|l: int| 0 <= l < k && tasks@[l].id == id,
    {
        if tasks[k].id == id {
            r = true;
        }
    }
    r
}

/// Whether the task at `i` starts a chain walk.
fn is_root_at(tasks: &Vec<Task>, i: usize) -> (r: bool)
    requires
        (i as int) < tasks@.len(),
    ensures
        r == is_root(tasks@, i as int),
{
    match tasks[i].above_task_id {
        Option::None => true,
        Option::Some(a) => !has_id(tasks, a),
    }
}

/// Whether the task at `k` claims the task at `j` as the one above it.
fn claims_at(tasks: &Vec<Task>, k: usize, j: usize) -> (r: bool)
    requires
        (k as int) < tasks@.len(),
        (j as int) < tasks@.len(),
    ensures
        r == claims(tasks@, k as int, j as int),
{
    match tasks[k].above_task_id {
        Option::Some(a) => a == tasks[j].id,
        Option::None => false,
    }
}

/// Membership in a concatenation of index sequences.
proof fn lemma_concat_contains<T>(a: Seq<T>, b: Seq<T>, x: T)
    ensures
        (a + b).contains(x) <==> (a.contains(x) || b.contains(x)),
{
    if a.contains(x) {
        let l = choose|l: int| 0 <= l < a.len() && a[l] == x;
        assert((a + b)[l] == x);
    }
    if b.contains(x) {
        let l = choose|l: int| 0 <= l < b.len() && b[l] == x;
        assert((a + b)[a.len() + l] == x);
    }
    if (a + b).contains(x) {
        let l = choose|l: int| 0 <= l < (a + b).len() && (a + b)[l] == x;
        if l < a.len() {
            assert(a[l] == x);
        } else {
            assert(b[l - a.len()] == x);
        }
    }
}

/// Appending a fresh element keeps a sequence duplicate-free.
proof fn lemma_push_no_dup<T>(a: Seq<T>, x: T)
    requires
        a.no_duplicates(),
        !a.contains(x),
    ensures
        a.push(x).no_duplicates(),
{
    assert forall|i: int, j: int|
        0 <= i < j < a.push(x).len() implies a.push(x)[i] != a.push(x)[j] by {
        if j < a.len() {
            assert(a.push(x)[i] == a[i] && a.push(x)[j] == a[j]);
        } else {
            assert(a.push(x)[j] == x && a.push(x)[i] == a[i]);
        }
    }
}

/// Moving the top of the work stack onto the emitted list neither adds nor
/// drops an index, and keeps the combined record duplicate-free.
proof fn lemma_rotate_top(ord: Seq<usize>, stack: Seq<usize>)
    requires
        stack.len() > 0,
    ensures
        forall|x: usize|
            #[trigger] (ord.push(stack.last()) + stack.drop_last()).contains(x) <==> (ord
                + stack).contains(x),
        (ord + stack).no_duplicates() ==> (ord.push(stack.last())
            + stack.drop_last()).no_duplicates(),
{
    let prev = ord + stack;
    let cur = ord.push(stack.last()) + stack.drop_last();
    let ln = ord.len() as int;
    assert(prev.len() == ord.len() + stack.len());
    assert(cur.len() == prev.len());
    assert forall|x: usize| #[trigger] cur.contains(x) implies prev.contains(x) by {
        let p = choose|p: int| 0 <= p < cur.len() && cur[p] == x;
        if p < ln {
            assert(prev[p] == x);
        } else if p == ln {
            assert(cur[p] == stack.last());
            assert(prev[prev.len() - 1] == x);
        } else {
            assert(cur[p] == stack.drop_last()[p - ln - 1]);
            assert(prev[p - 1] == x);
        }
    }
    assert forall|x: usize| prev.contains(x) implies #[trigger] cur.contains(x) by {
        let p = choose|p: int| 0 <= p < prev.len() && prev[p] == x;
        if p < ln {
            assert(cur[p] == x);
        } else if p == prev.len() - 1 {
            assert(prev[p] == stack.last());
            assert(cur[ln] == x);
        } else {
            assert(prev[p] == stack[p - ln]);
            assert(cur[p + 1] == stack.drop_last()[p - ln]);
            assert(cur[p + 1] == x);
        }
    }
    if prev.no_duplicates() {
        assert forall|a: int, b: int| 0 <= a < b < cur.len() implies cur[a] != cur[b] by {
            let pa = if a < ln {
                a
            } else if a == ln {
                prev.len() - 1
            } else {
                a - 1
            };
            let pb = if b < ln {
                b
            } else if b == ln {
                prev.len() - 1
            } else {
                b - 1
            };
            assert(cur[a] == prev[pa]) by {
                if a < ln {
                } else if a == ln {
                    assert(cur[a] == stack.last());
                } else {
                    assert(cur[a] == stack.drop_last()[a - ln - 1]);
                }
            }
            assert(cur[b] == prev[pb]) by {
                if b < ln {
                } else if b == ln {
                    assert(cur[b] == stack.last());
                } else {
                    assert(cur[b] == stack.drop_last()[b - ln - 1]);
                }
            }
            assert(pa != pb);
        }
    }
}

/// One chain walk: a pre-order traversal from `root` over the "claims"
/// edges, taking claimants in input order, marking a task visited before
/// descending and never revisiting one.
fn walk_from(tasks: &Vec<Task>, visited: &mut Vec<bool>, ord: &mut Vec<usize>, root: usize)
    requires
        walk_state(tasks@, old(visited)@, old(ord)@, Seq::empty()),
        (root as int) < tasks@.len(),
        !old(visited)@[root as int],
    ensures
        walk_state(tasks@, final(visited)@, final(ord)@, Seq::empty()),
        old(ord)@.is_prefix_of(final(ord)@),
        final(ord)@.len() > old(ord)@.len(),
        final(ord)@[old(ord)@.len() as int] == root,
        forall|j: int| 0 <= j < tasks@.len() && old(visited)@[j] ==> final(visited)@[j],
        forall|c: Seq<usize>|
            (#[trigger] chain_seq(tasks@, c)) && c[0] == root && (forall|k: int|
                0 <= k < c.len() ==> !old(visited)@[#[trigger] c[k] as int])
                ==> final(ord)@ == old(ord)@ + c,
{
    let n = tasks.len();
    let mut stack: Vec<usize> = Vec::new();
    visited.set(root, true);
    stack.push(root);
    proof {
        assert(old(ord)@ + Seq::<usize>::empty() =~= old(ord)@);
        assert(!old(ord)@.contains(root));
        lemma_push_no_dup(old(ord)@, root);
        assert(old(ord)@ + stack@ =~= old(ord)@.push(root));
        assert(stack@ =~= seq![root]);
        assert forall|j2: int|
            0 <= j2 < tasks@.len() implies (visited@[j2] <==> (ord@.contains(j2 as usize)
            || stack@.contains(j2 as usize))) by {
            assert(stack@[0] == root);
            if j2 == root as int {
                assert(stack@.contains(root));
                assert(visited@[j2]);
            } else {
                assert(visited@[j2] == old(visited)@[j2]);
                if stack@.contains(j2 as usize) {
                    let l = choose|l: int| 0 <= l < stack@.len() && stack@[l] == j2 as usize;
                    assert(l == 0);
                }
            }
        }
        assert forall|c: Seq<usize>|
            (#[trigger] chain_seq(tasks@, c)) && c[0] == root && (forall|k: int|
                0 <= k < c.len() ==> !old(visited)@[#[trigger] c[k] as int]) implies {
            let m = ord@.len() - old(ord)@.len();
            &&& m <= c.len()
            &&& ord@ == old(ord)@ + c.take(m)
            &&& stack@ == if m < c.len() {
                seq![c[m]]
            } else {
                Seq::<usize>::empty()
            }
        } by {
            assert(c.take(0) =~= Seq::<usize>::empty());
            assert(ord@ + c.take(0) =~= ord@);
            assert(stack@ =~= seq![c[0]]);
        }
    }
    while stack.len() > 0
        invariant
            n == tasks@.len(),
            (root as int) < tasks@.len(),
            walk_state(tasks@, old(visited)@, old(ord)@, Seq::empty()),
            !old(visited)@[root as int],
            walk_state(tasks@, visited@, ord@, stack@),
            old(ord)@.is_prefix_of(ord@),
            forall|j: int| 0 <= j < tasks@.len() && old(visited)@[j] ==> visited@[j],
            (ord@ == old(ord)@ && stack@ =~= seq![root]) || (ord@.len() > old(ord)@.len()
                && ord@[old(ord)@.len() as int] == root),
            forall|c: Seq<usize>|
                (#[trigger] chain_seq(tasks@, c)) && c[0] == root && (forall|k: int|
                    0 <= k < c.len() ==> !old(visited)@[#[trigger] c[k] as int]) ==> {
                    let m = ord@.len() - old(ord)@.len();
                    &&& m <= c.len()
                    &&& ord@ == old(ord)@ + c.take(m)
                    &&& stack@ == if m < c.len() {
                        seq![c[m]]
                    } else {
                        Seq::<usize>::empty()
                    }
                },
        decreases tasks@.len() - ord@.len(),
    {
        proof {
            assert forall|p: int|
                0 <= p < (ord@ + stack@).len() implies ((ord@ + stack@)[p] as nat)
                < tasks@.len() by {
                if p < ord@.len() {
                    assert((ord@ + stack@)[p] == ord@[p]);
                } else {
                    assert((ord@ + stack@)[p] == stack@[p - ord@.len()]);
                }
            }
            lemma_distinct_bounded_len(ord@ + stack@, tasks@.len());
        }
        let ghost ord_top = ord@;
        let ghost stack_top = stack@;
        let j = stack.pop().unwrap();
        ord.push(j);
        let ghost ord1 = ord@;
        let ghost stack0 = stack@;
        let ghost vis0 = visited@;
        proof {
            assert(j == stack_top.last());
            assert(stack0 =~= stack_top.drop_last());
            assert(ord1 == ord_top.push(j));
            lemma_rotate_top(ord_top, stack_top);
            assert forall|j2: int|
                0 <= j2 < tasks@.len() implies (vis0[j2] <==> (ord1.contains(j2 as usize)
                || stack0.contains(j2 as usize))) by {
                lemma_concat_contains(ord1, stack0, j2 as usize);
                lemma_concat_contains(ord_top, stack_top, j2 as usize);
                assert((ord1 + stack0).contains(j2 as usize) <==> (ord_top
                    + stack_top).contains(j2 as usize));
            }
            assert((ord1 + stack0).no_duplicates());
            assert forall|p: int| 0 <= p < ord1.len() implies ((#[trigger] ord1[p]) as int)
                < tasks@.len() by {
                if p < ord_top.len() {
                    assert(ord1[p] == ord_top[p]);
                } else {
                    assert(ord1[p] == j);
                }
            }
            assert(walk_state(tasks@, vis0, ord1, stack0));
            // the first emitted index is the root
            if ord_top == old(ord)@ {
                assert(stack_top =~= seq![root]);
                assert(j == root);
                assert(ord1[old(ord)@.len() as int] == root);
            } else {
                assert(ord1[old(ord)@.len() as int] == ord_top[old(ord)@.len() as int]);
            }
            assert(old(ord)@.is_prefix_of(ord1)) by {
                assert forall|l: int| 0 <= l < old(ord)@.len() implies ord1[l] == old(
                    ord,
                )@[l] by {
                    assert(ord1[l] == ord_top[l]);
                }
                assert(old(ord)@ =~= ord1.subrange(0, old(ord)@.len() as int));
            }
        }
        let mut k = n;
        while k > 0
            invariant
                n == tasks@.len(),
                k <= n,
                (j as int) < n,
                ord@ == ord1,
                walk_state(tasks@, visited@, ord@, stack@),
                walk_state(tasks@, vis0, ord1, stack0),
                stack0.is_prefix_of(stack@),
                forall|x: int|
                    k <= x < n && claims(tasks@, x, j as int) && !vis0[x]
                        ==> (#[trigger] stack@.skip(stack0.len() as int).contains(x as usize)),
                forall|l: int|
                    stack0.len() <= l < stack@.len()
                        ==> claims(tasks@, #[trigger] stack@[l] as int, j as int)
                            && !vis0[stack@[l] as int],
                forall|x: int| 0 <= x < n && vis0[x] ==> visited@[x],
                forall|j2: int| 0 <= j2 < tasks@.len() && old(visited)@[j2] ==> visited@[j2],
            decreases k,
        {
            k = k - 1;
            let ghost stk_in = stack@;
            let ghost vis_in = visited@;
            if !visited[k] && claims_at(tasks, k, j) {
                visited.set(k, true);
                stack.push(k);
                proof {
                    assert(stack@ == stk_in.push(k));
                    lemma_concat_contains(ord@, stk_in, k);
                    assert(!(ord@ + stk_in).contains(k));
                    assert(ord@ + stack@ =~= (ord@ + stk_in).push(k));
                    lemma_push_no_dup(ord@ + stk_in, k);
                    assert forall|j2: int|
                        0 <= j2 < tasks@.len() implies (visited@[j2] <==> (ord@.contains(
                        j2 as usize,
                    ) || stack@.contains(j2 as usize))) by {
                        lemma_concat_contains(ord@, stack@, j2 as usize);
                        lemma_concat_contains(ord@, stk_in, j2 as usize);
                        if j2 == k as int {
                            assert(stack@.last() == k);
                            assert(stack@.contains(k));
                        } else {
                            assert((ord@ + stack@).contains(j2 as usize) <==> (ord@
                                + stk_in).contains(j2 as usize)) by {
                                if (ord@ + stack@).contains(j2 as usize) {
                                    let l = choose|l: int|
                                        0 <= l < (ord@ + stack@).len() && (ord@ + stack@)[l]
                                            == j2 as usize;
                                    assert(l < (ord@ + stk_in).len());
                                    assert((ord@ + stk_in)[l] == j2 as usize);
                                }
                                if (ord@ + stk_in).contains(j2 as usize) {
                                    let l = choose|l: int|
                                        0 <= l < (ord@ + stk_in).len() && (ord@ + stk_in)[l]
                                            == j2 as usize;
                                    assert((ord@ + stack@)[l] == j2 as usize);
                                }
                            }
                        }
                    }
                    assert(stack0.is_prefix_of(stack@)) by {
                        assert forall|l: int| 0 <= l < stack0.len() implies stack@[l]
                            == stack0[l] by {
                            assert(stk_in[l] == stack0[l]);
                        }
                        assert(stack0 =~= stack@.subrange(0, stack0.len() as int));
                    }
                    assert forall|x: int|
                        k <= x < n && claims(tasks@, x, j as int) && !vis0[x] implies (
                    #[trigger] stack@.skip(stack0.len() as int).contains(x as usize)) by {
                        let base = stack0.len() as int;
                        if x == k as int {
                            assert(stack@.skip(base).len() > 0);
                            assert(stack@.skip(base).last() == k);
                        } else {
                            assert(stk_in.skip(base).contains(x as usize));
                            let l = choose|l: int|
                                0 <= l < stk_in.skip(base).len() && stk_in.skip(base)[l]
                                    == x as usize;
                            assert(stack@.skip(base)[l] == x as usize);
                        }
                    }
                    assert forall|l: int|
                        stack0.len() <= l < stack@.len() implies claims(
                        tasks@,
                        #[trigger] stack@[l] as int,
                        j as int,
                    ) && !vis0[stack@[l] as int] by {
                        if l < stk_in.len() {
                            assert(stack@[l] == stk_in[l]);
                        } else {
                            assert(stack@[l] == k);
                            assert(!vis_in[k as int]);
                        }
                    }
                }
            } else {
                proof {
                    assert forall|x: int|
                        k <= x < n && claims(tasks@, x, j as int) && !vis0[x] implies (
                    #[trigger] stack@.skip(stack0.len() as int).contains(x as usize)) by {
                        let base = stack0.len() as int;
                        if x == k as int {
                            assert(visited@[x]);
                            lemma_concat_contains(ord@, stack@, k);
                            lemma_concat_contains(ord1, stack0, k);
                            assert(stack@.contains(k));
                            let l = choose|l: int| 0 <= l < stack@.len() && stack@[l] == k;
                            if l < base {
                                assert(stack@[l] == stack0[l]);
                            }
                            assert(l >= base);
                            assert(stack@.skip(base)[l - base] == k);
                        }
                    }
                }
            }
        }
        proof {
            assert(stack@.skip(0) =~= stack@);
            assert forall|c: Seq<usize>|
                (#[trigger] chain_seq(tasks@, c)) && c[0] == root && (forall|k2: int|
                    0 <= k2 < c.len() ==> !old(visited)@[#[trigger] c[k2] as int]) implies {
                let m = ord@.len() - old(ord)@.len();
                &&& m <= c.len()
                &&& ord@ == old(ord)@ + c.take(m)
                &&& stack@ == if m < c.len() {
                    seq![c[m]]
                } else {
                    Seq::<usize>::empty()
                }
            } by {
                // at the top of this iteration the walk stood `m0` steps in
                let m0 = ord_top.len() - old(ord)@.len();
                assert(stack_top.len() > 0);
                assert(0 <= m0 < c.len());
                assert(stack_top == seq![c[m0]]);
                assert(stack0.len() == 0);
                assert(j == c[m0]);
                assert(ord_top == old(ord)@ + c.take(m0));
                let m = m0 + 1;
                assert(old(ord)@ + c.take(m) =~= (old(ord)@ + c.take(m0)).push(c[m0]));
                assert(ord@ == old(ord)@ + c.take(m));
                if m < c.len() {
                    assert(claims(tasks@, c[m] as int, c[m0] as int));
                    assert(!vis0[c[m] as int]) by {
                        lemma_concat_contains(ord1, stack0, c[m]);
                        if ord1.contains(c[m]) {
                            let l = choose|l: int| 0 <= l < ord1.len() && ord1[l] == c[m];
                            if l < old(ord)@.len() {
                                assert(ord1[l] == old(ord)@[l]);
                                assert(old(ord)@.contains(c[m]));
                                lemma_concat_contains(old(ord)@, Seq::empty(), c[m]);
                                assert(old(visited)@[c[m] as int]);
                            } else {
                                assert(ord1[l] == c.take(m)[l - old(ord)@.len()]);
                                assert(c[l - old(ord)@.len()] == c[m]);
                                assert(l - old(ord)@.len() < m);
                            }
                        }
                    }
                    assert(stack@.skip(0).contains(c[m]));
                    assert forall|l: int| 0 <= l < stack@.len() implies stack@[l] == c[m] by {
                        assert(claims(tasks@, stack@[l] as int, c[m0] as int));
                    }
                    assert(stack@.len() <= 1) by {
                        if stack@.len() > 1 {
                            assert((ord@ + stack@)[ord@.len() as int] == stack@[0]);
                            assert((ord@ + stack@)[ord@.len() + 1 as int] == stack@[1]);
                        }
                    }
                    assert(stack@ =~= seq![c[m]]);
                } else {
                    assert(m == c.len());
                    assert(stack@.len() == 0) by {
                        if stack@.len() > 0 {
                            assert(claims(tasks@, stack@[0] as int, c[m0] as int));
                        }
                    }
                    assert(stack@ =~= Seq::<usize>::empty());
                }
            }
        }
    }
    proof {
        assert(stack@ =~= Seq::<usize>::empty());
        assert forall|c: Seq<usize>|
            (#[trigger] chain_seq(tasks@, c)) && c[0] == root && (forall|k: int|
                0 <= k < c.len() ==> !old(visited)@[#[trigger] c[k] as int]) implies ord@ == old(
            ord,
        )@ + c by {
            let m = ord@.len() - old(ord)@.len();
            assert(m == c.len());
            assert(c.take(c.len() as int) =~= c);
        }
    }
}

/// The emission order of the resolver on one bucket, as indices into
/// `tasks`: a chain walk from each root in input order, then the tasks no
/// walk reached ("orphans"), in input order.
fn hierarchy_order(tasks: &Vec<Task>) -> (ord: Vec<usize>)
    ensures
        index_permutation(ord@, tasks@.len()),
        forall|c: Seq<usize>| #[trigger] single_chain_cover(tasks@, c) ==> ord@ == c,
        forall|c1: Seq<usize>, c2: Seq<usize>|
            #[trigger] double_chain_cover(tasks@, c1, c2) ==> ord@ == c1 + c2,
{
    let n = tasks.len();
    let mut visited: Vec<bool> = Vec::new();
    for i in 0..n
        invariant
            visited@.len() == i,
            forall|j: int| 0 <= j < i ==> !visited@[j],
    {
        visited.push(false);
    }
    let mut ord: Vec<usize> = Vec::new();
    proof {
        assert(ord@ + Seq::<usize>::empty() =~= ord@);
    }
    for i in 0..n
        invariant
            n == tasks@.len(),
            walk_state(tasks@, visited@, ord@, Seq::<usize>::empty()),
            forall|c: Seq<usize>|
                #[trigger] single_chain_cover(tasks@, c) ==> if i <= c[0] {
                    ord@ == Seq::<usize>::empty()
                } else {
                    ord@ == c
                },
            forall|c1: Seq<usize>, c2: Seq<usize>|
                #[trigger] double_chain_cover(tasks@, c1, c2) ==> if i <= c1[0] {
                    ord@ == Seq::<usize>::empty()
                } else if i <= c2[0] {
                    ord@ == c1
                } else {
                    ord@ == c1 + c2
                },
    {
        let ghost vis_before = visited@;
        let ghost ord_before = ord@;
        if !visited[i] && is_root_at(tasks, i) {
            walk_from(tasks, &mut visited, &mut ord, i);
            proof {
                assert forall|c: Seq<usize>|
                    #[trigger] single_chain_cover(tasks@, c) implies if i + 1 <= c[0] {
                    ord@ == Seq::<usize>::empty()
                } else {
                    ord@ == c
                } by {
                    assert(c.contains(i as usize));
                    let k = choose|k: int| 0 <= k < c.len() && c[k] == i as usize;
                    if i < c[0] {
                        assert(k != 0);
                        assert(claims(tasks@, c[(k - 1) + 1] as int, c[k - 1] as int));
                        assert(claims(tasks@, c[k] as int, c[k - 1] as int));
                        assert(tasks@[(c[k - 1] as int)].id == tasks@[(c[k - 1] as int)].id);
                        assert(bucket_has_id(tasks@, tasks@[(c[k - 1] as int)].id));
                        assert(!is_root(tasks@, i as int));
                        assert(false);
                    } else if i > c[0] {
                        assert(ord_before == c);
                        assert(ord_before.contains(i as usize));
                        assert(vis_before[i as int]);
                        assert(false);
                    } else {
                        assert(ord_before == Seq::<usize>::empty());
                        assert forall|k2: int| 0 <= k2 < c.len() implies !vis_before[
                            #[trigger] c[k2] as int] by {
                            assert(!ord_before.contains(c[k2]));
                        }
                        assert(chain_seq(tasks@, c) && c[0] == i);
                        assert(ord@ == ord_before + c);
                        assert(ord_before + c =~= c);
                    }
                }
                assert forall|c1: Seq<usize>, c2: Seq<usize>|
                    #[trigger] double_chain_cover(tasks@, c1, c2) implies if i + 1 <= c1[0] {
                    ord@ == Seq::<usize>::empty()
                } else if i + 1 <= c2[0] {
                    ord@ == c1
                } else {
                    ord@ == c1 + c2
                } by {
                    assert(c1.contains(i as usize) || c2.contains(i as usize));
                    if i < c1[0] {
                        if c1.contains(i as usize) {
                            let k = choose|k: int| 0 <= k < c1.len() && c1[k] == i as usize;
                            assert(k != 0);
                            assert(claims(tasks@, c1[(k - 1) + 1] as int, c1[k - 1] as int));
                        assert(claims(tasks@, c1[k] as int, c1[k - 1] as int));
                            assert(bucket_has_id(tasks@, tasks@[(c1[k - 1] as int)].id));
                        } else {
                            let k = choose|k: int| 0 <= k < c2.len() && c2[k] == i as usize;
                            assert(k != 0);
                            assert(claims(tasks@, c2[(k - 1) + 1] as int, c2[k - 1] as int));
                        assert(claims(tasks@, c2[k] as int, c2[k - 1] as int));
                            assert(bucket_has_id(tasks@, tasks@[(c2[k - 1] as int)].id));
                        }
                        assert(!is_root(tasks@, i as int));
                        assert(false);
                    } else if i == c1[0] {
                        assert(ord_before == Seq::<usize>::empty());
                        assert forall|k2: int| 0 <= k2 < c1.len() implies !vis_before[
                            #[trigger] c1[k2] as int] by {
                            assert(!ord_before.contains(c1[k2]));
                        }
                        assert(chain_seq(tasks@, c1) && c1[0] == i);
                        assert(ord@ == ord_before + c1);
                        assert(ord_before + c1 =~= c1);
                        assert(i + 1 <= c2[0]);
                    } else if i < c2[0] {
                        assert(ord_before == c1);
                        assert(!vis_before[i as int] ==> !ord_before.contains(i as usize));
                        if c1.contains(i as usize) {
                            assert(vis_before[i as int]);
                            assert(false);
                        }
                        let k = choose|k: int| 0 <= k < c2.len() && c2[k] == i as usize;
                        assert(k != 0);
                        assert(claims(tasks@, c2[(k - 1) + 1] as int, c2[k - 1] as int));
                        assert(claims(tasks@, c2[k] as int, c2[k - 1] as int));
                        assert(bucket_has_id(tasks@, tasks@[(c2[k - 1] as int)].id));
                        assert(!is_root(tasks@, i as int));
                        assert(false);
                    } else if i == c2[0] {
                        assert(ord_before == c1);
                        assert forall|k2: int| 0 <= k2 < c2.len() implies !vis_before[
                            #[trigger] c2[k2] as int] by {
                            if ord_before.contains(c2[k2]) {
                                let l = choose|l: int|
                                    0 <= l < c1.len() && c1[l] == c2[k2];
                                assert(!c2.contains(c1[l]));
                                assert(c2.contains(c2[k2]));
                            }
                        }
                        assert(chain_seq(tasks@, c2) && c2[0] == i);
                        assert(ord@ == ord_before + c2);
                        assert(ord@ == c1 + c2);
                    } else {
                        assert(ord_before == c1 + c2);
                        lemma_concat_contains(c1, c2, i as usize);
                        assert(ord_before.contains(i as usize));
                        assert(vis_before[i as int]);
                        assert(false);
                    }
                }
            }
        } else {
            proof {
                assert forall|c: Seq<usize>|
                    #[trigger] single_chain_cover(tasks@, c) implies if i + 1 <= c[0] {
                    ord@ == Seq::<usize>::empty()
                } else {
                    ord@ == c
                } by {
                    if i == c[0] {
                        assert(ord_before == Seq::<usize>::empty());
                        assert(!ord_before.contains(c[0]));
                        assert(!vis_before[i as int]);
                        assert(is_root(tasks@, i as int));
                        assert(false);
                    }
                }
                assert forall|c1: Seq<usize>, c2: Seq<usize>|
                    #[trigger] double_chain_cover(tasks@, c1, c2) implies if i + 1 <= c1[0] {
                    ord@ == Seq::<usize>::empty()
                } else if i + 1 <= c2[0] {
                    ord@ == c1
                } else {
                    ord@ == c1 + c2
                } by {
                    if i == c1[0] {
                        assert(ord_before == Seq::<usize>::empty());
                        assert(!ord_before.contains(c1[0]));
                        assert(!vis_before[i as int]);
                        assert(is_root(tasks@, i as int));
                        assert(false);
                    }
                    if i == c2[0] {
                        assert(ord_before == c1);
                        if ord_before.contains(c2[0]) {
                            let l = choose|l: int| 0 <= l < c1.len() && c1[l] == c2[0];
                            assert(!c2.contains(c1[l]));
                            assert(c2.contains(c2[0]));
                        }
                        assert(!vis_before[i as int]);
                        assert(is_root(tasks@, i as int));
                        assert(false);
                    }
                }
            }
        }
    }
    for i in 0..n
        invariant
            n == tasks@.len(),
            walk_state(tasks@, visited@, ord@, Seq::<usize>::empty()),
            forall|j: int| 0 <= j < i ==> visited@[j],
            forall|c: Seq<usize>| #[trigger] single_chain_cover(tasks@, c) ==> ord@ == c,
            forall|c1: Seq<usize>, c2: Seq<usize>|
                #[trigger] double_chain_cover(tasks@, c1, c2) ==> ord@ == c1 + c2,
    {
        let ghost vis_before = visited@;
        let ghost ord_before = ord@;
        if !visited[i] {
            visited.set(i, true);
            ord.push(i);
            proof {
                assert(!ord_before.contains(i as usize));
                assert(ord_before + Seq::<usize>::empty() =~= ord_before);
                lemma_push_no_dup(ord_before, i as usize);
                assert(ord@ == ord_before.push(i as usize));
                assert(ord@ + Seq::<usize>::empty() =~= ord@);
                assert forall|j2: int|
                    0 <= j2 < tasks@.len() implies (visited@[j2] <==> (ord@.contains(
                    j2 as usize,
                ) || Seq::<usize>::empty().contains(j2 as usize))) by {
                    if j2 == i as int {
                        assert(ord@.last() == i as usize);
                        assert(ord@.contains(i as usize));
                    } else {
                        assert((ord@.contains(j2 as usize)) <==> (ord_before.contains(
                            j2 as usize,
                        ))) by {
                            if ord@.contains(j2 as usize) {
                                let l = choose|l: int|
                                    0 <= l < ord@.len() && ord@[l] == j2 as usize;
                                assert(l < ord_before.len());
                                assert(ord_before[l] == j2 as usize);
                            }
                            if ord_before.contains(j2 as usize) {
                                let l = choose|l: int|
                                    0 <= l < ord_before.len() && ord_before[l] == j2 as usize;
                                assert(ord@[l] == j2 as usize);
                            }
                        }
                    }
                }
                assert forall|c: Seq<usize>|
                    #[trigger] single_chain_cover(tasks@, c) implies ord@ == c by {
                    assert(c.contains(i as usize));
                    assert(ord_before == c);
                    assert(vis_before[i as int]);
                    assert(false);
                }
                assert forall|c1: Seq<usize>, c2: Seq<usize>|
                    #[trigger] double_chain_cover(tasks@, c1, c2) implies ord@ == c1 + c2 by {
                    assert(c1.contains(i as usize) || c2.contains(i as usize));
                    assert(ord_before == c1 + c2);
                    lemma_concat_contains(c1, c2, i as usize);
                    assert(vis_before[i as int]);
                    assert(false);
                }
            }
        }
    }
    proof {
        assert(ord@ + Seq::<usize>::empty() =~= ord@);
        assert forall|j: int| 0 <= j < n implies #[trigger] ord@.contains(j as usize) by {
            assert(visited@[j]);
        }
        lemma_covering_distinct_len(ord@, tasks@.len());
    }
    ord
}

// ------------------------------------------------------------------
// The buckets partition the input
// ------------------------------------------------------------------

/// The buckets for the given keys, one after another.
pub open spec fn concat_buckets(tasks: Seq<Task>, keys: Seq<Option<u128>>) -> Seq<Task>
    decreases keys.len(),
{
    if keys.len() == 0 {
        Seq::empty()
    } else {
        concat_buckets(tasks, keys.drop_last()) + bucket_of(tasks, keys.last())
    }
}

/// A filter that accepts every task returns the sequence unchanged.
proof fn lemma_filter_all_tasks(s: Seq<Task>, p: spec_fn(Task) -> bool)
    requires
        forall|i: int| 0 <= i < s.len() ==> p(#[trigger] s[i]),
    ensures
        s.filter(p) == s,
    decreases s.len(),
{
    reveal_with_fuel(Seq::<Task>::filter, 2);
    if s.len() == 0 {
        assert(s.filter(p) =~= s);
    } else {
        lemma_filter_all_tasks(s.drop_last(), p);
        assert(p(s.last()));
        assert(s.drop_last().push(s.last()) =~= s);
    }
}

/// A filter that rejects every task returns the empty sequence.
proof fn lemma_filter_none_tasks(s: Seq<Task>, p: spec_fn(Task) -> bool)
    requires
        forall|i: int| 0 <= i < s.len() ==> !p(#[trigger] s[i]),
    ensures
        s.filter(p) == Seq::<Task>::empty(),
    decreases s.len(),
{
    reveal_with_fuel(Seq::<Task>::filter, 2);
    if s.len() == 0 {
        assert(s.filter(p) =~= Seq::<Task>::empty());
    } else {
        lemma_filter_none_tasks(s.drop_last(), p);
        assert(!p(s.last()));
    }
}

/// A filter that accepts every positioned task returns the sequence
/// unchanged.
proof fn lemma_filter_all_sorted(s: Seq<SortedTask>, p: spec_fn(SortedTask) -> bool)
    requires
        forall|i: int| 0 <= i < s.len() ==> p(#[trigger] s[i]),
    ensures
        s.filter(p) == s,
    decreases s.len(),
{
    reveal_with_fuel(Seq::<SortedTask>::filter, 2);
    if s.len() == 0 {
        assert(s.filter(p) =~= s);
    } else {
        lemma_filter_all_sorted(s.drop_last(), p);
        assert(p(s.last()));
        assert(s.drop_last().push(s.last()) =~= s);
    }
}

/// A filter that rejects every positioned task returns the empty sequence.
proof fn lemma_filter_none_sorted(s: Seq<SortedTask>, p: spec_fn(SortedTask) -> bool)
    requires
        forall|i: int| 0 <= i < s.len() ==> !p(#[trigger] s[i]),
    ensures
        s.filter(p) == Seq::<SortedTask>::empty(),
    decreases s.len(),
{
    reveal_with_fuel(Seq::<SortedTask>::filter, 2);
    if s.len() == 0 {
        assert(s.filter(p) =~= Seq::<SortedTask>::empty());
    } else {
        lemma_filter_none_sorted(s.drop_last(), p);
        assert(!p(s.last()));
    }
}

/// The key list never repeats a key.
proof fn lemma_keys_no_dup(tasks: Seq<Task>)
    ensures
        column_keys(tasks).no_duplicates(),
    decreases tasks.len(),
{
    if tasks.len() > 0 {
        lemma_keys_no_dup(tasks.drop_last());
        let rest = column_keys(tasks.drop_last());
        if !rest.contains(tasks.last().column_id) {
            lemma_push_no_dup(rest, tasks.last().column_id);
        }
    }
}

/// Every key in the key list is some task's key.
proof fn lemma_keys_from_tasks(tasks: Seq<Task>, key: Option<u128>)
    requires
        column_keys(tasks).contains(key),
    ensures
        exists|i: int| 0 <= i < tasks.len() && tasks[i].column_id == key,
    decreases tasks.len(),
{
    let keys = column_keys(tasks);
    if tasks.len() == 0 {
        assert(false);
    } else {
        let s = tasks.drop_last();
        let rest = column_keys(s);
        if tasks.last().column_id == key {
            assert(tasks[tasks.len() - 1].column_id == key);
        } else {
            assert(rest.contains(key)) by {
                let l = choose|l: int| 0 <= l < keys.len() && keys[l] == key;
                if !rest.contains(tasks.last().column_id) {
                    assert(l < rest.len());
                    assert(rest[l] == key);
                }
            }
            lemma_keys_from_tasks(s, key);
            let i = choose|i: int| 0 <= i < s.len() && s[i].column_id == key;
            assert(tasks[i].column_id == key);
        }
    }
}

/// A key that is not in the key list has an empty bucket.
proof fn lemma_nonkey_bucket_empty(tasks: Seq<Task>, key: Option<u128>)
    requires
        !column_keys(tasks).contains(key),
    ensures
        bucket_of(tasks, key) == Seq::<Task>::empty(),
    decreases tasks.len(),
{
    reveal_with_fuel(Seq::<Task>::filter, 2);
    if tasks.len() == 0 {
        assert(bucket_of(tasks, key) =~= Seq::<Task>::empty());
    } else {
        let s = tasks.drop_last();
        let rest = column_keys(s);
        assert(!rest.contains(key)) by {
            if rest.contains(key) {
                let l = choose|l: int| 0 <= l < rest.len() && rest[l] == key;
                assert(column_keys(tasks)[l] == key);
            }
        }
        assert(tasks.last().column_id != key) by {
            if tasks.last().column_id == key {
                assert(column_keys(tasks).last() == key);
            }
        }
        lemma_nonkey_bucket_empty(s, key);
        assert(bucket_of(tasks, key) == bucket_of(s, key));
    }
}

/// Appending a task whose key is outside `keys` leaves those buckets as
/// they were.
proof fn lemma_concat_buckets_same(s: Seq<Task>, t: Task, keys: Seq<Option<u128>>)
    requires
        !keys.contains(t.column_id),
    ensures
        concat_buckets(s.push(t), keys) == concat_buckets(s, keys),
    decreases keys.len(),
{
    reveal_with_fuel(Seq::<Task>::filter, 2);
    if keys.len() > 0 {
        let kl = keys.last();
        assert(keys[keys.len() - 1] == kl);
        assert(kl != t.column_id);
        assert(!keys.drop_last().contains(t.column_id)) by {
            if keys.drop_last().contains(t.column_id) {
                let l = choose|l: int|
                    0 <= l < keys.drop_last().len() && keys.drop_last()[l] == t.column_id;
                assert(keys[l] == t.column_id);
            }
        }
        lemma_concat_buckets_same(s, t, keys.drop_last());
        assert((s.push(t)).drop_last() =~= s);
        assert(bucket_of(s.push(t), kl) == bucket_of(s, kl));
    }
}

/// Appending a task whose key is in `keys` adds exactly that task to the
/// combined contents of the buckets.
proof fn lemma_concat_buckets_push(s: Seq<Task>, t: Task, keys: Seq<Option<u128>>)
    requires
        keys.no_duplicates(),
        keys.contains(t.column_id),
    ensures
        concat_buckets(s.push(t), keys).to_multiset() == concat_buckets(
            s,
            keys,
        ).to_multiset().insert(t),
    decreases keys.len(),
{
    broadcast use vstd::seq_lib::group_to_multiset_ensures;
    broadcast use vstd::multiset::group_multiset_axioms;

    reveal_with_fuel(Seq::<Task>::filter, 2);
    let kl = keys.last();
    let kp = keys.drop_last();
    assert((s.push(t)).drop_last() =~= s);
    if kl == t.column_id {
        assert(!kp.contains(t.column_id)) by {
            if kp.contains(t.column_id) {
                let l = choose|l: int| 0 <= l < kp.len() && kp[l] == t.column_id;
                assert(keys[l] == keys[keys.len() - 1]);
            }
        }
        lemma_concat_buckets_same(s, t, kp);
        assert(bucket_of(s.push(t), kl) == bucket_of(s, kl).push(t));
        vstd::seq_lib::lemma_multiset_commutative(
            concat_buckets(s, kp),
            bucket_of(s, kl).push(t),
        );
        vstd::seq_lib::lemma_multiset_commutative(concat_buckets(s, kp), bucket_of(s, kl));
        assert(concat_buckets(s.push(t), keys).to_multiset() =~= concat_buckets(
            s,
            keys,
        ).to_multiset().insert(t));
    } else {
        assert(kp.contains(t.column_id)) by {
            let l = choose|l: int| 0 <= l < keys.len() && keys[l] == t.column_id;
            assert(l < kp.len());
            assert(kp[l] == t.column_id);
        }
        assert(kp.no_duplicates()) by {
            assert forall|a: int, b: int| 0 <= a < b < kp.len() implies kp[a] != kp[b] by {
                assert(keys[a] == kp[a] && keys[b] == kp[b]);
            }
        }
        lemma_concat_buckets_push(s, t, kp);
        assert(bucket_of(s.push(t), kl) == bucket_of(s, kl));
        vstd::seq_lib::lemma_multiset_commutative(
            concat_buckets(s.push(t), kp),
            bucket_of(s, kl),
        );
        vstd::seq_lib::lemma_multiset_commutative(concat_buckets(s, kp), bucket_of(s, kl));
        assert(concat_buckets(s.push(t), keys).to_multiset() =~= concat_buckets(
            s,
            keys,
        ).to_multiset().insert(t));
    }
}

/// The buckets together hold exactly the input tasks: no task is dropped
/// or duplicated by grouping.
pub proof fn lemma_buckets_partition(tasks: Seq<Task>)
    ensures
        concat_buckets(tasks, column_keys(tasks)).to_multiset() == tasks.to_multiset(),
    decreases tasks.len(),
{
    broadcast use vstd::seq_lib::group_to_multiset_ensures;
    broadcast use vstd::multiset::group_multiset_axioms;

    reveal_with_fuel(Seq::<Task>::filter, 2);
    if tasks.len() == 0 {
        assert(concat_buckets(tasks, column_keys(tasks)) == Seq::<Task>::empty());
        assert(tasks =~= Seq::<Task>::empty());
    } else {
        let s = tasks.drop_last();
        let t = tasks.last();
        assert(s.push(t) =~= tasks);
        lemma_buckets_partition(s);
        lemma_keys_no_dup(s);
        let rest = column_keys(s);
        if rest.contains(t.column_id) {
            assert(column_keys(tasks) == rest);
            lemma_concat_buckets_push(s, t, rest);
            assert(s.push(t).to_multiset() =~= s.to_multiset().insert(t));
        } else {
            assert(column_keys(tasks) == rest.push(t.column_id));
            assert((rest.push(t.column_id)).drop_last() =~= rest);
            assert((rest.push(t.column_id)).last() == t.column_id);
            assert(concat_buckets(tasks, column_keys(tasks)) == concat_buckets(tasks, rest)
                + bucket_of(tasks, t.column_id));
            lemma_concat_buckets_same(s, t, rest);
            lemma_nonkey_bucket_empty(s, t.column_id);
            assert(bucket_of(tasks, t.column_id) == bucket_of(s, t.column_id).push(t));
            assert(bucket_of(tasks, t.column_id) =~= seq![t]);
            vstd::seq_lib::lemma_multiset_commutative(
                concat_buckets(tasks, rest),
                bucket_of(tasks, t.column_id),
            );
            assert(seq![t].to_multiset() =~= Multiset::<Task>::empty().insert(t)) by {
                assert(seq![t] =~= Seq::<Task>::empty().push(t));
            }
            assert(concat_buckets(tasks, column_keys(tasks)).to_multiset()
                =~= tasks.to_multiset());
        }
    }
}

// ------------------------------------------------------------------
// Public resolver entry points
// ------------------------------------------------------------------

/// An equal copy of a task list.
fn duplicate_tasks(tasks: &Vec<Task>) -> (r: Vec<Task>)
    ensures
        r@ == tasks@,
{
    let n = tasks.len();
    let mut r: Vec<Task> = Vec::new();
    for i in 0..n
        invariant
            n == tasks@.len(),
            r@ == tasks@.take(i as int),
    {
        r.push(tasks[i].duplicate());
        proof {
            assert(tasks@.take(i + 1) =~= tasks@.take(i as int).push(tasks@[i as int]));
        }
    }
    proof {
        assert(tasks@.take(n as int) =~= tasks@);
    }
    r
}

/// Order one column's bucket of tasks by its `above_task_id` chains.
///
/// Every task whose reference is `None` or names no task in this bucket
/// starts a chain walk; walks emit claimants in input order with a visited
/// guard; the tasks no walk reached are appended afterwards in input
/// order, keeping their original `above_task_id` (only the emitted order
/// is contractual).  Whatever shape the references take — cycles,
/// self-references, several claimants of one task — every bucket task
/// appears in the result exactly once.
pub fn build_hierarchy_set(tasks: Vec<Task>) -> (r: Vec<Task>)
    ensures
        r@.len() == tasks@.len(),
        exists|p: Seq<usize>|
            index_permutation(p, tasks@.len()) && r@ == #[trigger] select(tasks@, p),
        r@.to_multiset() == tasks@.to_multiset(),
        forall|c: Seq<usize>| #[trigger] single_chain_cover(tasks@, c) ==> r@ == select(tasks@, c),
        forall|c1: Seq<usize>, c2: Seq<usize>|
            #[trigger] double_chain_cover(tasks@, c1, c2) ==> r@ == select(tasks@, c1 + c2),
{
    let ord = hierarchy_order(&tasks);
    let m = ord.len();
    let mut r: Vec<Task> = Vec::new();
    for k in 0..m
        invariant
            m == ord@.len(),
            index_permutation(ord@, tasks@.len()),
            r@ == select(tasks@, ord@.take(k as int)),
    {
        let idx = ord[k];
        r.push(tasks[idx].duplicate());
        proof {
            assert(ord@.take(k + 1) =~= ord@.take(k as int).push(ord@[k as int]));
            assert(select(tasks@, ord@.take(k + 1)) =~= select(tasks@, ord@.take(k as int)).push(
                tasks@[ord@[k as int] as int],
            ));
        }
    }
    proof {
        assert(ord@.take(m as int) =~= ord@);
        assert(r@ == select(tasks@, ord@));
        lemma_select_permutation_multiset(tasks@, ord@);
    }
    r
}

/// The tasks of `r` whose column key is `key`, in order.
pub open spec fn sorted_bucket(r: Seq<SortedTask>, key: Option<u128>) -> Seq<SortedTask> {
    r.filter(|st: SortedTask| st.column_id == key)
}

/// The positions of the tasks of `r` whose column key is `key`, in order.
pub open spec fn positions_of(r: Seq<SortedTask>, key: Option<u128>) -> Seq<usize> {
    sorted_bucket(r, key).map_values(|st: SortedTask| st.position)
}

/// Resolve a board's whole task list: group the tasks by column, order
/// each bucket by its chains, and attach dense zero-based positions per
/// column.  The buckets appear one after another, each as one contiguous
/// run; callers must not depend on the run-to-run order beyond its
/// determinism.
pub fn map_task_db_to_linked(elems: Vec<Task>) -> (r: Vec<SortedTask>)
    ensures
        r@.len() == elems@.len(),
        r@.map_values(|st: SortedTask| task_of(st)).to_multiset() == elems@.to_multiset(),
        forall|key: Option<u128>, p: int|
            0 <= p < positions_of(r@, key).len() ==> (#[trigger] positions_of(r@, key)[p]) == p,
        forall|key: Option<u128>| #[trigger] positions_of(r@, key).len() == bucket_of(
            elems@,
            key,
        ).len(),
{
    broadcast use vstd::seq_lib::group_to_multiset_ensures;

    let groups = grouped_by_column(&elems);
    let g_len = groups.len();
    let ghost keys = column_keys(elems@);
    let mut r: Vec<SortedTask> = Vec::new();
    proof {
        lemma_keys_no_dup(elems@);
        assert(keys.take(0) =~= Seq::<Option<u128>>::empty());
        assert(r@.map_values(|st: SortedTask| task_of(st)) =~= Seq::<Task>::empty());
        assert(concat_buckets(elems@, keys.take(0)) == Seq::<Task>::empty());
        assert(Seq::<Task>::empty().to_multiset() =~= Seq::<Task>::empty().to_multiset());
        assert forall|key: Option<u128>| #[trigger] sorted_bucket(r@, key)
            == Seq::<SortedTask>::empty() by {
            lemma_filter_none_sorted(r@, |st: SortedTask| st.column_id == key);
        }
    }
    for g in 0..g_len
        invariant
            g_len == groups@.len(),
            g_len == keys.len(),
            keys == column_keys(elems@),
            keys.no_duplicates(),
            forall|i: int|
                0 <= i < groups@.len() ==> (#[trigger] groups@[i]).0 == keys[i]
                    && groups@[i].1@ == bucket_of(elems@, keys[i]),
            r@.map_values(|st: SortedTask| task_of(st)).to_multiset() == concat_buckets(
                elems@,
                keys.take(g as int),
            ).to_multiset(),
            forall|key: Option<u128>, p: int|
                0 <= p < positions_of(r@, key).len() ==> (#[trigger] positions_of(r@, key)[p])
                    == p,
            forall|l: int|
                g <= l < keys.len() ==> #[trigger] sorted_bucket(r@, keys[l])
                    == Seq::<SortedTask>::empty(),
            forall|key: Option<u128>|
                (#[trigger] sorted_bucket(r@, key)).len() == if keys.take(g as int).contains(
                    key,
                ) {
                    bucket_of(elems@, key).len()
                } else {
                    0nat
                },
    {
        let ghost r0 = r@;
        let entry = &groups[g];
        let bucket = duplicate_tasks(&entry.1);
        let ordered = build_hierarchy_set(bucket);
        let b_len = ordered.len();
        let ghost key_g = keys[g as int];
        proof {
            assert(ordered@.to_multiset() == bucket_of(elems@, key_g).to_multiset());
            assert forall|i: int|
                0 <= i < ordered@.len() implies (#[trigger] ordered@[i]).column_id == key_g by {
                assert(ordered@.contains(ordered@[i]));
                vstd::seq_lib::to_multiset_contains(ordered@, ordered@[i]);
                vstd::seq_lib::to_multiset_contains(bucket_of(elems@, key_g), ordered@[i]);
                assert(bucket_of(elems@, key_g).contains(ordered@[i]));
                let l = choose|l: int|
                    0 <= l < bucket_of(elems@, key_g).len() && bucket_of(elems@, key_g)[l]
                        == ordered@[i];
                elems@.lemma_filter_pred(|t: Task| t.column_id == key_g, l);
            }
        }
        let ghost block_full = Seq::new(
            b_len as nat,
            |i: int| sorted_task(ordered@[i], i as usize),
        );
        for k in 0..b_len
            invariant
                b_len == ordered@.len(),
                block_full == Seq::new(
                    b_len as nat,
                    |i: int| sorted_task(ordered@[i], i as usize),
                ),
                r@ == r0 + block_full.take(k as int),
        {
            r.push(ordered[k].to_sorted(k));
            proof {
                assert(block_full.take(k + 1) =~= block_full.take(k as int).push(
                    block_full[k as int],
                ));
                assert(r@ =~= r0 + block_full.take(k + 1));
            }
        }
        proof {
            assert(block_full.take(b_len as int) =~= block_full);
            assert(r@ == r0 + block_full);
            // the block's underlying tasks are the ordered bucket
            assert(block_full.map_values(|st: SortedTask| task_of(st)) =~= ordered@);
            // distribute the task view over the concatenation
            assert((r0 + block_full).map_values(|st: SortedTask| task_of(st)) =~= r0.map_values(
                |st: SortedTask| task_of(st),
            ) + block_full.map_values(|st: SortedTask| task_of(st)));
            vstd::seq_lib::lemma_multiset_commutative(
                r0.map_values(|st: SortedTask| task_of(st)),
                block_full.map_values(|st: SortedTask| task_of(st)),
            );
            // one more bucket is accounted for
            assert(keys.take(g + 1).drop_last() =~= keys.take(g as int));
            assert(keys.take(g + 1).last() == key_g);
            assert(concat_buckets(elems@, keys.take(g + 1)) == concat_buckets(
                elems@,
                keys.take(g as int),
            ) + bucket_of(elems@, key_g));
            vstd::seq_lib::lemma_multiset_commutative(
                concat_buckets(elems@, keys.take(g as int)),
                bucket_of(elems@, key_g),
            );
            assert(r@.map_values(|st: SortedTask| task_of(st)).to_multiset()
                =~= concat_buckets(elems@, keys.take(g + 1)).to_multiset());
            // per-key density and untouched buckets
            assert forall|key: Option<u128>| #[trigger] sorted_bucket(r@, key) == (if key
                == key_g {
                block_full
            } else {
                sorted_bucket(r0, key)
            }) by {
                Seq::filter_distributes_over_add(
                    r0,
                    block_full,
                    |st: SortedTask| st.column_id == key,
                );
                if key == key_g {
                    lemma_filter_all_sorted(block_full, |st: SortedTask| st.column_id == key);
                    assert(sorted_bucket(r0, key_g) == Seq::<SortedTask>::empty());
                    assert(Seq::<SortedTask>::empty() + block_full =~= block_full);
                } else {
                    lemma_filter_none_sorted(block_full, |st: SortedTask| st.column_id == key);
                    assert(sorted_bucket(r0, key) + Seq::<SortedTask>::empty() =~= sorted_bucket(
                        r0,
                        key,
                    ));
                }
            }
            assert forall|key: Option<u128>, p: int|
                0 <= p < positions_of(r@, key).len() implies (#[trigger] positions_of(
                r@,
                key,
            )[p]) == p by {
                if key == key_g {
                    assert(sorted_bucket(r@, key) == block_full);
                    assert(positions_of(r@, key)[p] == block_full[p].position);
                } else {
                    assert(sorted_bucket(r@, key) == sorted_bucket(r0, key));
                    assert(positions_of(r0, key)[p] == p);
                }
            }
            // one more bucket's run has its bucket's size
            assert(ordered@.len() == bucket_of(elems@, key_g).len()) by {
                vstd::seq_lib::to_multiset_len(ordered@);
                vstd::seq_lib::to_multiset_len(bucket_of(elems@, key_g));
            }
            assert forall|key: Option<u128>|
                (#[trigger] sorted_bucket(r@, key)).len() == (if keys.take(g + 1).contains(key) {
                    bucket_of(elems@, key).len()
                } else {
                    0nat
                }) by {
                assert(keys.take(g + 1) =~= keys.take(g as int).push(key_g));
                if key == key_g {
                    assert(keys.take(g + 1).last() == key_g);
                    assert(keys.take(g + 1).contains(key_g));
                    assert(sorted_bucket(r@, key) == block_full);
                    assert(block_full.len() == ordered@.len());
                } else {
                    assert(sorted_bucket(r@, key) == sorted_bucket(r0, key));
                    assert(keys.take(g + 1).contains(key) <==> keys.take(g as int).contains(
                        key,
                    )) by {
                        if keys.take(g + 1).contains(key) {
                            let l = choose|l: int|
                                0 <= l < keys.take(g + 1).len() && #[trigger] keys.take(
                                    g + 1,
                                )[l] == key;
                            assert(l < g);
                            assert(keys.take(g as int)[l] == key);
                        }
                        if keys.take(g as int).contains(key) {
                            let l = choose|l: int|
                                0 <= l < g && #[trigger] keys.take(g as int)[l] == key;
                            assert(keys.take(g + 1)[l] == key);
                        }
                    }
                }
            }
        }
    }
    proof {
        assert(keys.take(g_len as int) =~= keys);
        lemma_buckets_partition(elems@);
        assert(r@.map_values(|st: SortedTask| task_of(st)).to_multiset() == elems@.to_multiset());
        assert(r@.map_values(|st: SortedTask| task_of(st)).len() == r@.len());
        vstd::seq_lib::to_multiset_len(r@.map_values(|st: SortedTask| task_of(st)));
        vstd::seq_lib::to_multiset_len(elems@);
        assert forall|key: Option<u128>| #[trigger] positions_of(r@, key).len() == bucket_of(
            elems@,
            key,
        ).len() by {
            if !keys.contains(key) {
                lemma_nonkey_bucket_empty(elems@, key);
            }
        }
    }
    r
}

// ------------------------------------------------------------------
// Grouping is an idempotent partition
// ------------------------------------------------------------------

/// Appending a run of tasks that all share one key extends the key list
/// by at most that key.
proof fn lemma_keys_append_uniform(s: Seq<Task>, t: Seq<Task>, key: Option<u128>)
    requires
        forall|i: int| 0 <= i < t.len() ==> (#[trigger] t[i]).column_id == key,
    ensures
        column_keys(s + t) == if t.len() == 0 {
            column_keys(s)
        } else if column_keys(s).contains(key) {
            column_keys(s)
        } else {
            column_keys(s).push(key)
        },
    decreases t.len(),
{
    if t.len() == 0 {
        assert(s + t =~= s);
    } else {
        let t2 = t.drop_last();
        lemma_keys_append_uniform(s, t2, key);
        assert(s + t =~= (s + t2).push(t.last()));
        assert(((s + t2).push(t.last())).drop_last() =~= s + t2);
        assert(t.last().column_id == key);
        if t2.len() > 0 {
            assert(column_keys(s + t2).contains(key)) by {
                if !column_keys(s).contains(key) {
                    assert(column_keys(s + t2) == column_keys(s).push(key));
                    assert(column_keys(s + t2).last() == key);
                }
            }
        }
    }
}

/// The key list of the concatenated buckets for duplicate-free keys drawn
/// from the input is exactly that key list.
proof fn lemma_concat_keys(tasks: Seq<Task>, kk: Seq<Option<u128>>)
    requires
        kk.no_duplicates(),
        forall|l: int| 0 <= l < kk.len() ==> column_keys(tasks).contains(#[trigger] kk[l]),
    ensures
        column_keys(concat_buckets(tasks, kk)) == kk,
    decreases kk.len(),
{
    if kk.len() == 0 {
        assert(column_keys(concat_buckets(tasks, kk)) =~= kk);
    } else {
        let kp = kk.drop_last();
        let kl = kk.last();
        assert(kp.no_duplicates()) by {
            assert forall|a: int, b: int| 0 <= a < b < kp.len() implies kp[a] != kp[b] by {
                assert(kk[a] == kp[a] && kk[b] == kp[b]);
            }
        }
        lemma_concat_keys(tasks, kp);
        let b = bucket_of(tasks, kl);
        assert forall|i: int| 0 <= i < b.len() implies (#[trigger] b[i]).column_id == kl by {
            tasks.lemma_filter_pred(|x: Task| x.column_id == kl, i);
        }
        assert(column_keys(tasks).contains(kl)) by {
            assert(kk[kk.len() - 1] == kl);
        }
        lemma_keys_from_tasks(tasks, kl);
        let i = choose|i: int| 0 <= i < tasks.len() && tasks[i].column_id == kl;
        tasks.lemma_filter_contains(|x: Task| x.column_id == kl, i);
        assert(b.len() > 0);
        lemma_keys_append_uniform(concat_buckets(tasks, kp), b, kl);
        assert(!kp.contains(kl)) by {
            if kp.contains(kl) {
                let l = choose|l: int| 0 <= l < kp.len() && kp[l] == kl;
                assert(kk[l] == kk[kk.len() - 1]);
            }
        }
        assert(kp.push(kl) =~= kk);
    }
}

/// Filtering the concatenated buckets for duplicate-free keys gives back
/// the single bucket for the filtered key, or nothing.
proof fn lemma_concat_buckets_filter(tasks: Seq<Task>, kk: Seq<Option<u128>>, key: Option<u128>)
    requires
        kk.no_duplicates(),
    ensures
        bucket_of(concat_buckets(tasks, kk), key) == if kk.contains(key) {
            bucket_of(tasks, key)
        } else {
            Seq::<Task>::empty()
        },
    decreases kk.len(),
{
    reveal_with_fuel(Seq::<Task>::filter, 2);
    if kk.len() == 0 {
        assert(bucket_of(concat_buckets(tasks, kk), key) =~= Seq::<Task>::empty());
    } else {
        let kp = kk.drop_last();
        let kl = kk.last();
        assert(kp.no_duplicates()) by {
            assert forall|a: int, b: int| 0 <= a < b < kp.len() implies kp[a] != kp[b] by {
                assert(kk[a] == kp[a] && kk[b] == kp[b]);
            }
        }
        lemma_concat_buckets_filter(tasks, kp, key);
        let b = bucket_of(tasks, kl);
        assert forall|i: int| 0 <= i < b.len() implies (#[trigger] b[i]).column_id == kl by {
            tasks.lemma_filter_pred(|x: Task| x.column_id == kl, i);
        }
        Seq::filter_distributes_over_add(
            concat_buckets(tasks, kp),
            b,
            |x: Task| x.column_id == key,
        );
        assert(!kp.contains(kl)) by {
            if kp.contains(kl) {
                let l = choose|l: int| 0 <= l < kp.len() && kp[l] == kl;
                assert(kk[l] == kk[kk.len() - 1]);
            }
        }
        if key == kl {
            lemma_filter_all_tasks(b, |x: Task| x.column_id == key);
            assert(bucket_of(concat_buckets(tasks, kp), key) == Seq::<Task>::empty());
            assert(Seq::<Task>::empty() + b =~= b);
            assert(kk.contains(key)) by {
                assert(kk[kk.len() - 1] == key);
            }
        } else {
            lemma_filter_none_tasks(b, |x: Task| x.column_id == key);
            assert(bucket_of(concat_buckets(tasks, kk), key) =~= bucket_of(
                concat_buckets(tasks, kp),
                key,
            ));
            assert(kk.contains(key) <==> kp.contains(key)) by {
                if kk.contains(key) {
                    let l = choose|l: int| 0 <= l < kk.len() && kk[l] == key;
                    assert(l < kp.len());
                    assert(kp[l] == key);
                }
                if kp.contains(key) {
                    let l = choose|l: int| 0 <= l < kp.len() && kp[l] == key;
                    assert(kk[l] == key);
                }
            }
        }
    }
}

/// Grouping is an idempotent partition: grouping the concatenation of all
/// of its own output buckets reproduces the same keys and the same
/// buckets.
pub proof fn lemma_grouping_round_trip(tasks: Seq<Task>)
    ensures
        column_keys(concat_buckets(tasks, column_keys(tasks))) == column_keys(tasks),
        forall|key: Option<u128>|
            #[trigger] bucket_of(concat_buckets(tasks, column_keys(tasks)), key) == bucket_of(
                tasks,
                key,
            ),
{
    let keys = column_keys(tasks);
    lemma_keys_no_dup(tasks);
    assert forall|l: int|
        0 <= l < keys.len() implies column_keys(tasks).contains(#[trigger] keys[l]) by {}
    lemma_concat_keys(tasks, keys);
    assert forall|key: Option<u128>|
        #[trigger] bucket_of(concat_buckets(tasks, keys), key) == bucket_of(tasks, key) by {
        lemma_concat_buckets_filter(tasks, keys, key);
        if !keys.contains(key) {
            lemma_nonkey_bucket_empty(tasks, key);
        }
    }
}

} // verus!
