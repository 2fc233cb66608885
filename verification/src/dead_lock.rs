//! Deadlock detection with the banker's algorithm.
use vstd::prelude::*;

verus! {

/// Outcome of a deadlock check.
#[derive(PartialEq, Eq, Structural, Debug, Clone, Copy)]
pub enum DeadlockResult {
    /// Granting the request leaves a way for every task to finish.
    Safe,
    /// Granting the request can leave some task waiting forever.
    Deadlock,
}

/// Every entry of `row` is at most the matching entry of `work`.
pub open spec fn row_fits(row: Seq<u64>, work: Seq<u64>) -> bool {
    forall|j: int| 0 <= j < work.len() ==> row[j] <= work[j]
}

fn row_fits_exec(row: &Vec<u64>, work: &Vec<u64>) -> (r: bool)
    requires
        row.len() == work.len(),
    ensures
        r == row_fits(row@, work@),
{
    let mut j: usize = 0;
    while j < work.len()
        invariant
            row.len() == work.len(),
            j <= work.len(),
            forall|k: int| 0 <= k < j ==> row@[k] <= work@[k],
        decreases work.len() - j,
    {
        if row[j] > work[j] {
            return false;
        }
        j = j + 1;
    }
    true
}


/// Amount of resource `j` held by those tasks `i < n` that `done` lists.
pub open spec fn released(alloc: Seq<Seq<u64>>, done: Seq<int>, n: int, j: int) -> int
    decreases n,
{
    if n <= 0 {
        0
    } else {
        released(alloc, done, n - 1, j) + if done.contains(n - 1) {
            alloc[n - 1][j] as int
        } else {
            0
        }
    }
}

/// Units of resource `j` that are free once the tasks in `done` have finished
/// and given back what they hold.
pub open spec fn work_after(
    avail: Seq<u64>,
    alloc: Seq<Seq<u64>>,
    done: Seq<int>,
    j: int,
) -> int {
    avail[j] + released(alloc, done, alloc.len() as int, j)
}

/// Task `i` can obtain all it still needs once the tasks in `done` have finished.
pub open spec fn can_finish(
    avail: Seq<u64>,
    alloc: Seq<Seq<u64>>,
    need: Seq<Seq<u64>>,
    done: Seq<int>,
    i: int,
) -> bool {
    forall|j: int|
        0 <= j < avail.len() ==> need[i][j] <= #[trigger] work_after(avail, alloc, done, j)
}

/// `order` is a safe sequence: distinct tasks, each of which can finish with what
/// is free plus what the tasks before it give back.
pub open spec fn is_safe_sequence(
    avail: Seq<u64>,
    alloc: Seq<Seq<u64>>,
    need: Seq<Seq<u64>>,
    order: Seq<int>,
) -> bool {
    &&& order.no_duplicates()
    &&& forall|k: int| 0 <= k < order.len() ==> 0 <= #[trigger] order[k] < alloc.len()
    &&& forall|k: int|
        0 <= k < order.len() ==> can_finish(avail, alloc, need, order.take(k), #[trigger] order[k])
}

/// The state is safe for the tasks marked in `live`: some safe sequence lists them all.
pub open spec fn is_safe_state(
    avail: Seq<u64>,
    alloc: Seq<Seq<u64>>,
    need: Seq<Seq<u64>>,
    live: Seq<bool>,
) -> bool {
    exists|order: Seq<int>|
        #[trigger] is_safe_sequence(avail, alloc, need, order) && forall|i: int|
            0 <= i < live.len() && live[i] ==> order.contains(i)
}

/// The matrices describe `live.len()` tasks and `avail.len()` resources.
pub open spec fn well_shaped(
    avail: Seq<u64>,
    alloc: Seq<Seq<u64>>,
    need: Seq<Seq<u64>>,
    live: Seq<bool>,
) -> bool {
    &&& alloc.len() == live.len()
    &&& need.len() == live.len()
    &&& forall|i: int| 0 <= i < live.len() ==> (#[trigger] alloc[i]).len() == avail.len()
    &&& forall|i: int| 0 <= i < live.len() ==> (#[trigger] need[i]).len() == avail.len()
}

/// The tasks `0..n`, in order.
pub open spec fn all_tasks(n: int) -> Seq<int> {
    Seq::new(n as nat, |i: int| i)
}

/// Even when every task has given back what it holds, no resource count exceeds `u64::MAX`.
pub open spec fn totals_fit(avail: Seq<u64>, alloc: Seq<Seq<u64>>) -> bool {
    forall|j: int|
        0 <= j < avail.len() ==> #[trigger] work_after(avail, alloc, all_tasks(alloc.len() as int), j)
            <= u64::MAX
}

proof fn lemma_released_mono(alloc: Seq<Seq<u64>>, a: Seq<int>, b: Seq<int>, n: int, j: int)
    requires
        forall|i: int| 0 <= i < n && a.contains(i) ==> b.contains(i),
    ensures
        released(alloc, a, n, j) <= released(alloc, b, n, j),
    decreases n,
{
    if n > 0 {
        lemma_released_mono(alloc, a, b, n - 1, j);
    }
}

proof fn lemma_released_push(alloc: Seq<Seq<u64>>, done: Seq<int>, x: int, n: int, j: int)
    requires
        !done.contains(x),
    ensures
        released(alloc, done.push(x), n, j) == released(alloc, done, n, j) + if 0 <= x < n {
            alloc[x][j] as int
        } else {
            0
        },
    decreases n,
{
    if n > 0 {
        lemma_released_push(alloc, done, x, n - 1, j);
        assert(done.push(x).contains(n - 1) <==> (done.contains(n - 1) || n - 1 == x)) by {
            if n - 1 == x {
                assert(done.push(x)[done.len() as int] == x);
            }
            if done.contains(n - 1) {
                let k = choose|k: int| 0 <= k < done.len() && done[k] == n - 1;
                assert(done.push(x)[k] == n - 1);
            }
        }
    }
}

proof fn lemma_work_bounded(avail: Seq<u64>, alloc: Seq<Seq<u64>>, done: Seq<int>, j: int)
    requires
        totals_fit(avail, alloc),
        0 <= j < avail.len(),
    ensures
        0 <= work_after(avail, alloc, done, j) <= u64::MAX,
{
    let n = alloc.len() as int;
    assert forall|i: int| 0 <= i < n && done.contains(i) implies all_tasks(n).contains(i) by {
        assert(all_tasks(n)[i] == i);
    }
    lemma_released_mono(alloc, done, all_tasks(n), n, j);
    lemma_released_nonneg(alloc, done, n, j);
    assert(work_after(avail, alloc, all_tasks(n), j) <= u64::MAX);
}

proof fn lemma_released_none(alloc: Seq<Seq<u64>>, done: Seq<int>, n: int, j: int)
    requires
        forall|i: int| 0 <= i < n ==> !done.contains(i),
    ensures
        released(alloc, done, n, j) == 0,
    decreases n,
{
    if n > 0 {
        lemma_released_none(alloc, done, n - 1, j);
    }
}

proof fn lemma_released_nonneg(alloc: Seq<Seq<u64>>, done: Seq<int>, n: int, j: int)
    ensures
        released(alloc, done, n, j) >= 0,
    decreases n,
{
    if n > 0 {
        lemma_released_nonneg(alloc, done, n - 1, j);
    }
}

/// When no unfinished task can finish, every task of a safe sequence has finished.
proof fn lemma_stuck_covers(
    avail: Seq<u64>,
    alloc: Seq<Seq<u64>>,
    need: Seq<Seq<u64>>,
    done: Seq<int>,
    s: Seq<int>,
)
    requires
        is_safe_sequence(avail, alloc, need, s),
        forall|i: int|
            0 <= i < alloc.len() && !done.contains(i) ==> !can_finish(avail, alloc, need, done, i),
    ensures
        forall|k: int| 0 <= k < s.len() ==> done.contains(#[trigger] s[k]),
    decreases s.len(),
{
    if s.len() > 0 {
        let p = s.drop_last();
        let last = s.len() - 1;
        assert forall|k: int| 0 <= k < p.len() implies p.take(k) == s.take(k) && p[k] == s[k] by {
            assert(p.take(k) =~= s.take(k));
        }
        assert(is_safe_sequence(avail, alloc, need, p));
        lemma_stuck_covers(avail, alloc, need, done, p);
        assert(p =~= s.take(last));
        assert forall|i: int| 0 <= i < alloc.len() && p.contains(i) implies done.contains(i) by {
            let k = choose|k: int| 0 <= k < p.len() && p[k] == i;
            assert(done.contains(p[k]));
        }
        assert forall|j: int| 0 <= j < avail.len() implies need[s[last]][j] <= work_after(
            avail,
            alloc,
            done,
            j,
        ) by {
            assert(can_finish(avail, alloc, need, s.take(last), s[last]));
            assert(need[s[last]][j] <= work_after(avail, alloc, s.take(last), j));
            lemma_released_mono(alloc, p, done, alloc.len() as int, j);
        }
        assert(can_finish(avail, alloc, need, done, s[last]));
        assert forall|k: int| 0 <= k < s.len() implies done.contains(#[trigger] s[k]) by {
            if k < last {
                assert(s[k] == p[k]);
            }
        }
    }
}

/// Index of a task that has not finished and whose remaining need fits in `work`,
/// or `None` when there is no such task.
fn find_runnable(need: &Vec<Vec<u64>>, work: &Vec<u64>, finish: &Vec<bool>) -> (r: Option<usize>)
    requires
        need.len() == finish.len(),
        forall|i: int| 0 <= i < need.len() ==> (#[trigger] need[i]).len() == work.len(),
    ensures
        match r {
            Some(i) => i < finish.len() && !finish[i as int] && row_fits(need[i as int]@, work@),
            None => forall|i: int|
                0 <= i < finish.len() ==> finish[i] || !row_fits(#[trigger] need[i]@, work@),
        },
{
    let mut i: usize = 0;
    while i < finish.len()
        invariant
            need.len() == finish.len(),
            forall|k: int| 0 <= k < need.len() ==> (#[trigger] need[k]).len() == work.len(),
            i <= finish.len(),
            forall|k: int| 0 <= k < i ==> finish[k] || !row_fits(#[trigger] need[k]@, work@),
        decreases finish.len() - i,
    {
        if !finish[i] && row_fits_exec(&need[i], work) {
            return Some(i);
        }
        i = i + 1;
    }
    None
}

/// The banker's safety check. Starting from `available`, it repeatedly lets the
/// first unfinished task whose need fits finish and take back its allocation, until
/// no such task is left. Returns true when every task marked in `live` has finished.
pub fn banker_safety_check(
    available: &Vec<u64>,
    allocation: &Vec<Vec<u64>>,
    need: &Vec<Vec<u64>>,
    live: &Vec<bool>,
) -> (safe: bool)
    requires
        well_shaped(available@, allocation.deep_view(), need.deep_view(), live@),
        totals_fit(available@, allocation.deep_view()),
    ensures
        safe == is_safe_state(available@, allocation.deep_view(), need.deep_view(), live@),
{
    let ghost avail = available@;
    let ghost alloc = allocation.deep_view();
    let ghost needs = need.deep_view();
    let n = live.len();
    let m = available.len();
    assert forall|i: int| 0 <= i < n implies (#[trigger] need[i]).len() == m by {
        assert(needs[i].len() == m);
    }
    assert forall|i: int| 0 <= i < n implies (#[trigger] allocation[i]).len() == m by {
        assert(alloc[i].len() == m);
    }
    let mut work: Vec<u64> = available.clone();
    let mut finish: Vec<bool> = Vec::new();
    let mut k: usize = 0;
    while k < n
        invariant
            k <= n,
            n == live.len(),
            finish.len() == k,
            forall|i: int| 0 <= i < k ==> !finish[i],
        decreases n - k,
    {
        finish.push(false);
        k = k + 1;
    }
    let ghost mut order: Seq<int> = Seq::empty();
    assert forall|j: int| 0 <= j < m implies work[j] == work_after(avail, alloc, order, j) by {
        lemma_released_none(alloc, order, n as int, j);
    }
    let mut stuck = false;
    while !stuck
        invariant
            n == live.len(),
            m == available.len(),
            avail == available@,
            alloc == allocation.deep_view(),
            needs == need.deep_view(),
            well_shaped(avail, alloc, needs, live@),
            totals_fit(avail, alloc),
            forall|i: int| 0 <= i < n ==> (#[trigger] need[i]).len() == m,
            forall|i: int| 0 <= i < n ==> (#[trigger] allocation[i]).len() == m,
            finish.len() == n,
            work.len() == m,
            is_safe_sequence(avail, alloc, needs, order),
            forall|i: int| 0 <= i < n ==> finish[i] == order.contains(i),
            forall|j: int| 0 <= j < m ==> work[j] == work_after(avail, alloc, order, j),
            order.len() <= n,
            stuck ==> forall|i: int|
                0 <= i < n ==> finish[i] || !row_fits(#[trigger] need[i]@, work@),
        decreases n - order.len() + if stuck { 0int } else { 1int },
    {
        match find_runnable(need, &work, &finish) {
            None => {
                stuck = true;
            },
            Some(i) => {
                let ghost old_order = order;
                let ghost old_work = work@;
                assert(can_finish(avail, alloc, needs, order, i as int)) by {
                    assert forall|j: int| 0 <= j < m implies needs[i as int][j] <= work_after(
                        avail,
                        alloc,
                        order,
                        j,
                    ) by {
                        assert(need[i as int]@[j] <= work@[j]);
                    }
                }
                finish.set(i, true);
                proof {
                    order = order.push(i as int);
                    assert forall|kk: int| 0 <= kk < old_order.len() implies order.take(kk)
                        == old_order.take(kk) && order[kk] == old_order[kk] by {
                        assert(order.take(kk) =~= old_order.take(kk));
                    }
                    assert(order.take(old_order.len() as int) =~= old_order);
                    assert(order[old_order.len() as int] == i as int);
                    assert forall|a: int, b: int|
                        0 <= a < b < order.len() implies order[a] != order[b] by {
                        if b == old_order.len() {
                            assert(old_order.contains(old_order[a]));
                        }
                    }
                }
                let mut j: usize = 0;
                while j < m
                    invariant
                        j <= m,
                        m == available.len(),
                        n == live.len(),
                        i < n,
                        alloc == allocation.deep_view(),
                        totals_fit(avail, alloc),
                        avail.len() == m,
                        alloc.len() == n,
                        !old_order.contains(i as int),
                        order == old_order.push(i as int),
                        allocation[i as int].len() == m,
                        work.len() == m,
                        forall|jj: int| 0 <= jj < j ==> work[jj] == work_after(avail, alloc, order, jj),
                        forall|jj: int| j <= jj < m ==> work[jj] == old_work[jj],
                        forall|jj: int|
                            0 <= jj < m ==> old_work[jj] == work_after(avail, alloc, old_order, jj),
                    decreases m - j,
                {
                    proof {
                        lemma_released_push(alloc, old_order, i as int, n as int, j as int);
                        lemma_work_bounded(avail, alloc, order, j as int);
                        assert(alloc[i as int][j as int] == allocation[i as int][j as int]);
                        assert(old_work[j as int] == work_after(avail, alloc, old_order, j as int));
                        assert(work@[j as int] == old_work[j as int]);
                        assert(work_after(avail, alloc, order, j as int) == work_after(
                            avail,
                            alloc,
                            old_order,
                            j as int,
                        ) + alloc[i as int][j as int]);
                    }
                    work.set(j, work[j] + allocation[i][j]);
                    j = j + 1;
                }
                proof {
                    assert forall|x: int| 0 <= x < n implies finish[x] == order.contains(x) by {
                        if x == i as int {
                            assert(order[old_order.len() as int] == x);
                        } else {
                            if order.contains(x) {
                                let kk = choose|kk: int| 0 <= kk < order.len() && order[kk] == x;
                                assert(old_order[kk] == x);
                            }
                            if old_order.contains(x) {
                                let kk = choose|kk: int|
                                    0 <= kk < old_order.len() && old_order[kk] == x;
                                assert(order[kk] == x);
                            }
                        }
                    }
                    assert(order.to_set().subset_of(vstd::set_lib::set_int_range(0, n as int)));
                    vstd::set_lib::lemma_int_range(0, n as int);
                    vstd::set_lib::lemma_len_subset(
                        order.to_set(),
                        vstd::set_lib::set_int_range(0, n as int),
                    );
                    order.unique_seq_to_set();
                }
            },
        }
    }
    proof {
        assert forall|i: int|
            0 <= i < alloc.len() && !order.contains(i) implies !can_finish(
            avail,
            alloc,
            needs,
            order,
            i,
        ) by {
            assert(!finish[i]);
            assert(!row_fits(need[i]@, work@));
            let j = choose|j: int| 0 <= j < m && !(need[i]@[j] <= work@[j]);
            assert(needs[i][j] == need[i]@[j]);
        }
    }
    let mut all_done = true;
    let mut t: usize = 0;
    while t < n
        invariant
            t <= n,
            n == live.len(),
            finish.len() == n,
            all_done == forall|i: int| 0 <= i < t && live[i] ==> finish[i],
        decreases n - t,
    {
        if live[t] && !finish[t] {
            all_done = false;
        }
        t = t + 1;
    }
    proof {
        if all_done {
            assert forall|i: int| 0 <= i < live.len() && live@[i] implies order.contains(i) by {
                assert(finish[i]);
            }
            assert(is_safe_sequence(avail, alloc, needs, order));
        } else {
            if is_safe_state(avail, alloc, needs, live@) {
                let s = choose|s: Seq<int>|
                    #[trigger] is_safe_sequence(avail, alloc, needs, s) && forall|i: int|
                        0 <= i < live.len() && live@[i] ==> s.contains(i);
                lemma_stuck_covers(avail, alloc, needs, order, s);
                let x = choose|x: int| 0 <= x < n && live@[x] && !finish[x];
                assert(s.contains(x));
                let k = choose|k: int| 0 <= k < s.len() && s[k] == x;
                assert(order.contains(s[k]));
            }
        }
    }
    all_done
}


/// A task-by-resource matrix whose only nonzero entry is a 1 at `mark`, if given.
pub open spec fn marked_matrix(n: nat, m: nat, mark: Option<(int, int)>) -> Seq<Seq<u64>> {
    Seq::new(
        n,
        |i: int|
            Seq::new(
                m,
                |j: int|
                    if mark == Some((i, j)) {
                        1u64
                    } else {
                        0u64
                    },
            ),
    )
}

fn marked_matrix_exec(n: usize, m: usize, mark: Option<(usize, usize)>) -> (r: Vec<Vec<u64>>)
    ensures
        r.len() == n,
        forall|i: int|
            0 <= i < n ==> (#[trigger] r[i])@ == marked_matrix(
                n as nat,
                m as nat,
                match mark {
                    Some((a, b)) => Some((a as int, b as int)),
                    None => None,
                },
            )[i],
        r.deep_view() == marked_matrix(
            n as nat,
            m as nat,
            match mark {
                Some((a, b)) => Some((a as int, b as int)),
                None => None,
            },
        ),
{
    let ghost gmark = match mark {
        Some((a, b)) => Some((a as int, b as int)),
        None => None,
    };
    let ghost target = marked_matrix(n as nat, m as nat, gmark);
    let mut rows: Vec<Vec<u64>> = Vec::new();
    let mut i: usize = 0;
    while i < n
        invariant
            i <= n,
            rows.len() == i,
            gmark == match mark {
                Some((a, b)) => Some((a as int, b as int)),
                None => None,
            },
            target == marked_matrix(n as nat, m as nat, gmark),
            forall|k: int| 0 <= k < i ==> (#[trigger] rows[k])@ == target[k],
        decreases n - i,
    {
        let mut row: Vec<u64> = Vec::new();
        let mut j: usize = 0;
        while j < m
            invariant
                j <= m,
                i < n,
                row.len() == j,
                gmark == match mark {
                    Some((a, b)) => Some((a as int, b as int)),
                    None => None,
                },
                target == marked_matrix(n as nat, m as nat, gmark),
                forall|k: int| 0 <= k < j ==> row[k] == target[i as int][k],
            decreases m - j,
        {
            let hit = match mark {
                Some((a, b)) => a == i && b == j,
                None => false,
            };
            row.push(if hit { 1 } else { 0 });
            j = j + 1;
        }
        assert(row@ =~= target[i as int]);
        rows.push(row);
        i = i + 1;
    }
    assert forall|k: int| 0 <= k < n implies rows.deep_view()[k] == target[k] by {
        assert(rows[k].deep_view() =~= rows[k]@);
    }
    assert(rows.deep_view() =~= target);
    rows
}

fn all_true(n: usize) -> (r: Vec<bool>)
    ensures
        r@ == Seq::new(n as nat, |i: int| true),
{
    let mut v: Vec<bool> = Vec::new();
    let mut i: usize = 0;
    while i < n
        invariant
            i <= n,
            v.len() == i,
            forall|k: int| 0 <= k < i ==> v[k],
        decreases n - i,
    {
        v.push(true);
        i = i + 1;
    }
    assert(v@ =~= Seq::new(n as nat, |i: int| true));
    v
}

proof fn lemma_released_zero(alloc: Seq<Seq<u64>>, done: Seq<int>, n: int, j: int)
    requires
        forall|i: int| 0 <= i < n ==> alloc[i][j] == 0,
    ensures
        released(alloc, done, n, j) == 0,
    decreases n,
{
    if n > 0 {
        lemma_released_zero(alloc, done, n - 1, j);
    }
}

/// What a mutex slot holds, as far as the deadlock check is concerned.
#[derive(PartialEq, Eq, Structural, Debug, Clone, Copy)]
pub enum MutexState {
    /// The mutex can be taken.
    Unlocked,
    /// Some task holds the mutex.
    Locked,
}

/// Free units of each mutex: one for an unlocked mutex, none for a locked or
/// missing one.
pub open spec fn mutex_available(mutexes: Seq<Option<MutexState>>) -> Seq<u64> {
    Seq::new(
        mutexes.len(),
        |i: int|
            if mutexes[i] == Some(MutexState::Unlocked) {
                1u64
            } else {
                0u64
            },
    )
}

/// The banker's view of a mutex request: nothing is allocated, and the only
/// need is one unit of `mutex_id` for `current_tid`.
pub open spec fn mutex_request_is_safe(
    task_count: nat,
    mutexes: Seq<Option<MutexState>>,
    current_tid: int,
    mutex_id: int,
) -> bool {
    is_safe_state(
        mutex_available(mutexes),
        marked_matrix(task_count, mutexes.len(), None),
        marked_matrix(task_count, mutexes.len(), Some((current_tid, mutex_id))),
        Seq::new(task_count, |i: int| true),
    )
}

/// A mutex request is safe exactly when the requested mutex exists and is unlocked:
/// no task holds anything else, so only the requester can ever wait.
pub proof fn lemma_mutex_request_safe_iff_unlocked(
    task_count: nat,
    mutexes: Seq<Option<MutexState>>,
    current_tid: int,
    mutex_id: int,
)
    requires
        0 <= current_tid < task_count,
        0 <= mutex_id < mutexes.len(),
    ensures
        mutex_request_is_safe(task_count, mutexes, current_tid, mutex_id) <==> mutexes[mutex_id]
            == Some(MutexState::Unlocked),
{
    let m = mutexes.len();
    let avail = mutex_available(mutexes);
    let alloc = marked_matrix(task_count, m, None);
    let need = marked_matrix(task_count, m, Some((current_tid, mutex_id)));
    let live = Seq::new(task_count, |i: int| true);
    assert forall|done: Seq<int>, j: int| 0 <= j < m implies work_after(avail, alloc, done, j)
        == avail[j] by {
        lemma_released_zero(alloc, done, task_count as int, j);
    }
    if mutexes[mutex_id] == Some(MutexState::Unlocked) {
        let order = all_tasks(task_count as int);
        assert forall|k: int| 0 <= k < order.len() implies can_finish(
            avail,
            alloc,
            need,
            order.take(k),
            #[trigger] order[k],
        ) by {
            assert forall|j: int| 0 <= j < avail.len() implies need[order[k]][j] <= work_after(
                avail,
                alloc,
                order.take(k),
                j,
            ) by {
                assert(work_after(avail, alloc, order.take(k), j) == avail[j]);
            }
        }
        assert(is_safe_sequence(avail, alloc, need, order));
        assert forall|i: int| 0 <= i < live.len() && live[i] implies order.contains(i) by {
            assert(order[i] == i);
        }
    } else {
        if mutex_request_is_safe(task_count, mutexes, current_tid, mutex_id) {
            let s = choose|s: Seq<int>|
                #[trigger] is_safe_sequence(avail, alloc, need, s) && forall|i: int|
                    0 <= i < live.len() && live[i] ==> s.contains(i);
            assert(live[current_tid]);
            let k = choose|k: int| 0 <= k < s.len() && s[k] == current_tid;
            assert(can_finish(avail, alloc, need, s.take(k), s[k]));
            assert(need[current_tid][mutex_id] <= work_after(avail, alloc, s.take(k), mutex_id));
        }
    }
}

/// Checks whether `current_tid` taking mutex `mutex_id` can deadlock.
///
/// `task_count` is the number of task slots of the process and `mutexes` its
/// mutex table. With detection disabled the answer is always `Safe`.
pub fn detect_mutex_deadlock(
    enable_deadlock_detect: bool,
    current_tid: usize,
    task_count: usize,
    mutexes: &Vec<Option<MutexState>>,
    mutex_id: usize,
) -> (r: DeadlockResult)
    requires
        enable_deadlock_detect ==> current_tid < task_count && mutex_id < mutexes.len(),
    ensures
        (r == DeadlockResult::Safe) <==> (!enable_deadlock_detect || mutex_request_is_safe(
            task_count as nat,
            mutexes@,
            current_tid as int,
            mutex_id as int,
        )),
        (r == DeadlockResult::Deadlock) <==> (enable_deadlock_detect && mutexes@[mutex_id as int]
            != Some(MutexState::Unlocked)),
{
    if !enable_deadlock_detect {
        return DeadlockResult::Safe;
    }
    let mutex_count = mutexes.len();
    let mut available: Vec<u64> = Vec::new();
    let mut i: usize = 0;
    while i < mutex_count
        invariant
            i <= mutex_count,
            mutex_count == mutexes.len(),
            available.len() == i,
            forall|k: int| 0 <= k < i ==> available[k] == mutex_available(mutexes@)[k],
        decreases mutex_count - i,
    {
        let free = match mutexes[i] {
            Some(MutexState::Unlocked) => 1,
            _ => 0,
        };
        available.push(free);
        i = i + 1;
    }
    assert(available@ =~= mutex_available(mutexes@));
    let allocation = marked_matrix_exec(task_count, mutex_count, None);
    let need = marked_matrix_exec(task_count, mutex_count, Some((current_tid, mutex_id)));
    let live = all_true(task_count);
    proof {
        let alloc = allocation.deep_view();
        assert forall|j: int| 0 <= j < mutex_count implies #[trigger] work_after(
            available@,
            alloc,
            all_tasks(task_count as int),
            j,
        ) <= u64::MAX by {
            lemma_released_zero(alloc, all_tasks(task_count as int), task_count as int, j);
        }
        lemma_mutex_request_safe_iff_unlocked(
            task_count as nat,
            mutexes@,
            current_tid as int,
            mutex_id as int,
        );
    }
    if banker_safety_check(&available, &allocation, &need, &live) {
        DeadlockResult::Safe
    } else {
        DeadlockResult::Deadlock
    }
}


/// A semaphore as the deadlock check sees it.
pub struct SemaphoreState {
    /// The semaphore's counter; a positive value is the number of free units.
    pub count: isize,
    /// Ids of the tasks holding a unit, one entry per unit held.
    pub allocated: Vec<usize>,
    /// Ids of the tasks blocked on the semaphore, one entry per waiting request.
    pub waiting: Vec<usize>,
}

/// Number of times `t` occurs in `q`.
pub open spec fn occurrences(q: Seq<usize>, t: int) -> nat
    decreases q.len(),
{
    if q.len() == 0 {
        0
    } else {
        occurrences(q.drop_last(), t) + if q.last() == t {
            1nat
        } else {
            0nat
        }
    }
}

/// Free units of each semaphore: its counter when positive, otherwise none.
pub open spec fn sem_available(sems: Seq<Option<SemaphoreState>>) -> Seq<u64> {
    Seq::new(
        sems.len(),
        |i: int|
            match sems[i] {
                Some(s) => if s.count > 0 {
                    s.count as u64
                } else {
                    0u64
                },
                None => 0u64,
            },
    )
}

/// Units of semaphore `i` held by task `t`.
pub open spec fn sem_allocation(sems: Seq<Option<SemaphoreState>>, task_count: nat) -> Seq<
    Seq<u64>,
> {
    Seq::new(
        task_count,
        |t: int|
            Seq::new(
                sems.len(),
                |i: int|
                    match sems[i] {
                        Some(s) => occurrences(s.allocated@, t) as u64,
                        None => 0u64,
                    },
            ),
    )
}

/// Units of semaphore `i` that task `t` waits for, counting the new request of
/// `current_tid` for `sem_id`.
pub open spec fn sem_need(
    sems: Seq<Option<SemaphoreState>>,
    task_count: nat,
    current_tid: int,
    sem_id: int,
) -> Seq<Seq<u64>> {
    Seq::new(
        task_count,
        |t: int|
            Seq::new(
                sems.len(),
                |i: int|
                    (match sems[i] {
                        Some(s) => occurrences(s.waiting@, t),
                        None => 0,
                    } + if t == current_tid && i == sem_id {
                        1nat
                    } else {
                        0nat
                    }) as u64,
            ),
    )
}

/// The tasks named in a semaphore's queues are task slots of the process, and its
/// counts stay within `isize`.
pub open spec fn sem_queues_valid(sems: Seq<Option<SemaphoreState>>, task_count: nat) -> bool {
    forall|i: int|
        0 <= i < sems.len() && (#[trigger] sems[i]) is Some ==> {
            let s = sems[i]->Some_0;
            &&& forall|k: int| 0 <= k < s.allocated.len() ==> s.allocated@[k] < task_count
            &&& forall|k: int| 0 <= k < s.waiting.len() ==> s.waiting@[k] < task_count
            &&& (if s.count > 0 {
                s.count as int
            } else {
                0
            }) + s.allocated.len() <= isize::MAX
            &&& s.waiting.len() < isize::MAX
        }
}

/// The banker's view of a semaphore request by `current_tid` for `sem_id` is a
/// safe state for the tasks that exist.
pub open spec fn sem_request_is_safe(
    tasks: Seq<bool>,
    sems: Seq<Option<SemaphoreState>>,
    current_tid: int,
    sem_id: int,
) -> bool {
    is_safe_state(
        sem_available(sems),
        sem_allocation(sems, tasks.len()),
        sem_need(sems, tasks.len(), current_tid, sem_id),
        tasks,
    )
}

proof fn lemma_occurrences_take(q: Seq<usize>, k: int, t: int)
    requires
        0 <= k < q.len(),
    ensures
        occurrences(q.take(k + 1), t) == occurrences(q.take(k), t) + if q[k] == t {
            1nat
        } else {
            0nat
        },
{
    assert(q.take(k + 1).drop_last() =~= q.take(k));
}

proof fn lemma_occurrences_le_len(q: Seq<usize>, t: int)
    ensures
        occurrences(q, t) <= q.len(),
    decreases q.len(),
{
    if q.len() > 0 {
        lemma_occurrences_le_len(q.drop_last(), t);
    }
}

/// Sum over the tasks `t < n` of the occurrences of `t` in `q`.
spec fn occurrence_sum(q: Seq<usize>, n: int) -> int
    decreases n,
{
    if n <= 0 {
        0
    } else {
        occurrence_sum(q, n - 1) + occurrences(q, n - 1)
    }
}

proof fn lemma_occurrence_sum_le_len(q: Seq<usize>, n: int)
    ensures
        0 <= occurrence_sum(q, n) <= q.len(),
    decreases q.len(), n,
{
    if q.len() == 0 {
        lemma_occurrence_sum_empty(q, n);
    } else {
        lemma_occurrence_sum_le_len(q.drop_last(), n);
        lemma_occurrence_sum_step(q, n);
    }
}

proof fn lemma_occurrence_sum_empty(q: Seq<usize>, n: int)
    requires
        q.len() == 0,
    ensures
        occurrence_sum(q, n) == 0,
    decreases n,
{
    if n > 0 {
        lemma_occurrence_sum_empty(q, n - 1);
    }
}

proof fn lemma_occurrence_sum_step(q: Seq<usize>, n: int)
    requires
        q.len() > 0,
    ensures
        occurrence_sum(q, n) == occurrence_sum(q.drop_last(), n) + if 0 <= q.last() < n {
            1int
        } else {
            0int
        },
    decreases n,
{
    if n > 0 {
        lemma_occurrence_sum_step(q, n - 1);
    }
}

proof fn lemma_sem_column_total(
    sems: Seq<Option<SemaphoreState>>,
    task_count: nat,
    n: int,
    j: int,
)
    requires
        0 <= n <= task_count,
        0 <= j < sems.len(),
        sems[j] is Some,
        forall|t: int|
            0 <= t < task_count ==> occurrences(sems[j]->Some_0.allocated@, t) <= u64::MAX,
    ensures
        released(sem_allocation(sems, task_count), all_tasks(task_count as int), n, j)
            == occurrence_sum(sems[j]->Some_0.allocated@, n),
    decreases n,
{
    if n > 0 {
        lemma_sem_column_total(sems, task_count, n - 1, j);
        assert(all_tasks(task_count as int)[n - 1] == n - 1);
    }
}

/// Checks whether `current_tid` waiting on semaphore `sem_id` can deadlock.
///
/// `tasks` marks which task slots of the process hold a task, and `semaphores` is
/// its semaphore table. With detection disabled, or without semaphores, the answer
/// is always `Safe`. Otherwise only the tasks that exist must be able to finish.
pub fn detect_semaphore_deadlock(
    enable_deadlock_detect: bool,
    current_tid: usize,
    tasks: &Vec<bool>,
    semaphores: &Vec<Option<SemaphoreState>>,
    sem_id: usize,
) -> (r: DeadlockResult)
    requires
        enable_deadlock_detect && semaphores.len() > 0 ==> {
            &&& current_tid < tasks.len()
            &&& sem_id < semaphores.len()
            &&& sem_queues_valid(semaphores@, tasks.len() as nat)
        },
    ensures
        (r == DeadlockResult::Safe) <==> (!enable_deadlock_detect || semaphores.len() == 0
            || sem_request_is_safe(tasks@, semaphores@, current_tid as int, sem_id as int)),
{
    if !enable_deadlock_detect {
        return DeadlockResult::Safe;
    }
    let sem_count = semaphores.len();
    if sem_count == 0 {
        return DeadlockResult::Safe;
    }
    let task_count = tasks.len();
    let ghost sems = semaphores@;
    let mut available: Vec<u64> = Vec::new();
    let mut i: usize = 0;
    while i < sem_count
        invariant
            i <= sem_count,
            sem_count == semaphores.len(),
            sems == semaphores@,
            available.len() == i,
            forall|k: int| 0 <= k < i ==> available[k] == sem_available(sems)[k],
        decreases sem_count - i,
    {
        let free: u64 = match &semaphores[i] {
            Some(s) => if s.count > 0 {
                s.count as u64
            } else {
                0
            },
            None => 0,
        };
        available.push(free);
        i = i + 1;
    }
    assert(available@ =~= sem_available(sems));
    let mut allocation = marked_matrix_exec(task_count, sem_count, None);
    let mut i: usize = 0;
    while i < sem_count
        invariant
            i <= sem_count,
            sem_count == semaphores.len(),
            task_count == tasks.len(),
            sems == semaphores@,
            sem_queues_valid(sems, task_count as nat),
            allocation.len() == task_count,
            forall|t: int| 0 <= t < task_count ==> (#[trigger] allocation[t]).len() == sem_count,
            forall|t: int, c: int|
                0 <= t < task_count && 0 <= c < sem_count ==> #[trigger] allocation[t]@[c] == if c
                    < i {
                    sem_allocation(sems, task_count as nat)[t][c]
                } else {
                    0
                },
        decreases sem_count - i,
    {
        if let Some(sem) = &semaphores[i] {
            let mut k: usize = 0;
            while k < sem.allocated.len()
                invariant
                    k <= sem.allocated.len(),
                    i < sem_count,
                    sem_count == semaphores.len(),
                    task_count == tasks.len(),
                    sems == semaphores@,
                    sems[i as int] == Some(*sem),
                    sem_queues_valid(sems, task_count as nat),
                    allocation.len() == task_count,
                    forall|t: int|
                        0 <= t < task_count ==> (#[trigger] allocation[t]).len() == sem_count,
                    forall|t: int, c: int|
                        0 <= t < task_count && 0 <= c < sem_count ==> #[trigger] allocation[t]@[c]
                            == if c < i {
                            sem_allocation(sems, task_count as nat)[t][c]
                        } else if c == i {
                            occurrences(sem.allocated@.take(k as int), t) as u64
                        } else {
                            0
                        },
                decreases sem.allocated.len() - k,
            {
                let tid = sem.allocated[k];
                proof {
                    assert(sems[i as int] is Some);
                    assert(tid < task_count);
                    assert forall|t: int| 0 <= t < task_count implies occurrences(
                        sem.allocated@.take(k as int + 1),
                        t,
                    ) == occurrences(sem.allocated@.take(k as int), t) + if t == tid {
                        1nat
                    } else {
                        0nat
                    } by {
                        lemma_occurrences_take(sem.allocated@, k as int, t);
                    }
                    lemma_occurrences_le_len(sem.allocated@.take(k as int), tid as int);
                }
                allocation[tid][i] += 1;
                k = k + 1;
            }
            assert(sem.allocated@.take(sem.allocated.len() as int) =~= sem.allocated@);
        }
        i = i + 1;
    }
    proof {
        assert forall|t: int| 0 <= t < task_count implies allocation[t]@ == sem_allocation(
            sems,
            task_count as nat,
        )[t] by {
            assert(allocation[t]@ =~= sem_allocation(sems, task_count as nat)[t]);
        }
        assert forall|t: int| 0 <= t < task_count implies allocation.deep_view()[t] == sem_allocation(
            sems,
            task_count as nat,
        )[t] by {
            assert(allocation[t].deep_view() =~= allocation[t]@);
        }
        assert(allocation.deep_view() =~= sem_allocation(sems, task_count as nat));
    }
    let mut need = marked_matrix_exec(task_count, sem_count, None);
    let mut i: usize = 0;
    while i < sem_count
        invariant
            i <= sem_count,
            sem_count == semaphores.len(),
            task_count == tasks.len(),
            sems == semaphores@,
            sem_queues_valid(sems, task_count as nat),
            need.len() == task_count,
            forall|t: int| 0 <= t < task_count ==> (#[trigger] need[t]).len() == sem_count,
            forall|t: int, c: int|
                0 <= t < task_count && 0 <= c < sem_count ==> #[trigger] need[t]@[c] == if c < i {
                    match sems[c] {
                        Some(s) => occurrences(s.waiting@, t) as u64,
                        None => 0u64,
                    }
                } else {
                    0
                },
        decreases sem_count - i,
    {
        if let Some(sem) = &semaphores[i] {
            let mut k: usize = 0;
            while k < sem.waiting.len()
                invariant
                    k <= sem.waiting.len(),
                    i < sem_count,
                    sem_count == semaphores.len(),
                    task_count == tasks.len(),
                    sems == semaphores@,
                    sems[i as int] == Some(*sem),
                    sem_queues_valid(sems, task_count as nat),
                    need.len() == task_count,
                    forall|t: int| 0 <= t < task_count ==> (#[trigger] need[t]).len() == sem_count,
                    forall|t: int, c: int|
                        0 <= t < task_count && 0 <= c < sem_count ==> #[trigger] need[t]@[c] == if c
                            < i {
                            match sems[c] {
                                Some(s) => occurrences(s.waiting@, t) as u64,
                                None => 0u64,
                            }
                        } else if c == i {
                            occurrences(sem.waiting@.take(k as int), t) as u64
                        } else {
                            0
                        },
                decreases sem.waiting.len() - k,
            {
                let tid = sem.waiting[k];
                proof {
                    assert(sems[i as int] is Some);
                    assert(tid < task_count);
                    assert forall|t: int| 0 <= t < task_count implies occurrences(
                        sem.waiting@.take(k as int + 1),
                        t,
                    ) == occurrences(sem.waiting@.take(k as int), t) + if t == tid {
                        1nat
                    } else {
                        0nat
                    } by {
                        lemma_occurrences_take(sem.waiting@, k as int, t);
                    }
                    lemma_occurrences_le_len(sem.waiting@.take(k as int), tid as int);
                }
                need[tid][i] += 1;
                k = k + 1;
            }
            assert(sem.waiting@.take(sem.waiting.len() as int) =~= sem.waiting@);
        }
        i = i + 1;
    }
    proof {
        assert(semaphores@[sem_id as int] == sems[sem_id as int]);
        if sems[sem_id as int] is Some {
            lemma_occurrences_le_len(sems[sem_id as int]->Some_0.waiting@, current_tid as int);
        }
    }
    need[current_tid][sem_id] += 1;
    proof {
        let target = sem_need(sems, task_count as nat, current_tid as int, sem_id as int);
        assert forall|t: int| 0 <= t < task_count implies need.deep_view()[t] == target[t] by {
            assert(need[t].deep_view() =~= need[t]@);
            assert forall|c: int| 0 <= c < sem_count implies need[t]@[c] == target[t][c] by {
                if sems[c] is Some {
                    lemma_occurrences_le_len(sems[c]->Some_0.waiting@, t);
                }
            }
            assert(need[t]@ =~= target[t]);
        }
        assert(need.deep_view() =~= target);
        let avail = available@;
        let alloc = allocation.deep_view();
        assert forall|j: int| 0 <= j < sem_count implies #[trigger] work_after(
            avail,
            alloc,
            all_tasks(task_count as int),
            j,
        ) <= u64::MAX by {
            if sems[j] is Some {
                let q = sems[j]->Some_0.allocated@;
                assert forall|t: int| 0 <= t < task_count implies occurrences(q, t) <= u64::MAX by {
                    lemma_occurrences_le_len(q, t);
                }
                lemma_sem_column_total(sems, task_count as nat, task_count as int, j);
                lemma_occurrence_sum_le_len(q, task_count as int);
            } else {
                lemma_released_zero(alloc, all_tasks(task_count as int), task_count as int, j);
            }
        }
    }
    if banker_safety_check(&available, &allocation, &need, tasks) {
        DeadlockResult::Safe
    } else {
        DeadlockResult::Deadlock
    }
}


/// With nobody waiting on any semaphore, a request for a semaphore that has a free
/// unit is safe.
pub proof fn lemma_free_semaphore_request_safe(
    tasks: Seq<bool>,
    sems: Seq<Option<SemaphoreState>>,
    current_tid: int,
    sem_id: int,
)
    requires
        0 <= current_tid < tasks.len(),
        0 <= sem_id < sems.len(),
        sems[sem_id] matches Some(s) && s.count > 0,
        forall|i: int|
            0 <= i < sems.len() && (#[trigger] sems[i]) is Some ==> sems[i]->Some_0.waiting.len()
                == 0,
    ensures
        sem_request_is_safe(tasks, sems, current_tid, sem_id),
{
    let n = tasks.len();
    let avail = sem_available(sems);
    let alloc = sem_allocation(sems, n);
    let need = sem_need(sems, n, current_tid, sem_id);
    let order = all_tasks(n as int);
    assert forall|k: int| 0 <= k < order.len() implies can_finish(
        avail,
        alloc,
        need,
        order.take(k),
        #[trigger] order[k],
    ) by {
        assert forall|j: int| 0 <= j < avail.len() implies need[order[k]][j] <= work_after(
            avail,
            alloc,
            order.take(k),
            j,
        ) by {
            lemma_released_nonneg(alloc, order.take(k), n as int, j);
            if sems[j] is Some {
                assert(sems[j]->Some_0.waiting@.len() == 0);
            }
        }
    }
    assert(is_safe_sequence(avail, alloc, need, order));
    assert forall|i: int| 0 <= i < tasks.len() && tasks[i] implies order.contains(i) by {
        assert(order[i] == i);
    }
}

/// A task that exists and waits on a semaphore with no free unit, which no task
/// holds, can never go on: the request is a deadlock.
pub proof fn lemma_unheld_empty_semaphore_request_deadlocks(
    tasks: Seq<bool>,
    sems: Seq<Option<SemaphoreState>>,
    current_tid: int,
    sem_id: int,
)
    requires
        0 <= current_tid < tasks.len(),
        tasks[current_tid],
        0 <= sem_id < sems.len(),
        sems[sem_id] matches Some(s) && s.count <= 0 && s.allocated.len() == 0,
        sem_queues_valid(sems, tasks.len()),
    ensures
        !sem_request_is_safe(tasks, sems, current_tid, sem_id),
{
    let n = tasks.len();
    let avail = sem_available(sems);
    let alloc = sem_allocation(sems, n);
    let need = sem_need(sems, n, current_tid, sem_id);
    if sem_request_is_safe(tasks, sems, current_tid, sem_id) {
        let s = choose|s: Seq<int>|
            #[trigger] is_safe_sequence(avail, alloc, need, s) && forall|i: int|
                0 <= i < tasks.len() && tasks[i] ==> s.contains(i);
        let k = choose|k: int| 0 <= k < s.len() && s[k] == current_tid;
        assert(can_finish(avail, alloc, need, s.take(k), s[k]));
        lemma_released_zero(alloc, s.take(k), n as int, sem_id);
        lemma_occurrences_le_len(sems[sem_id]->Some_0.waiting@, current_tid);
        assert(need[current_tid][sem_id] <= work_after(avail, alloc, s.take(k), sem_id));
    }
}

/// Two semaphore tables that hold the same semaphores with the same queues, where
/// each counter of `more` is at least that of `fewer`.
pub open spec fn at_least_as_many_units(
    fewer: Seq<Option<SemaphoreState>>,
    more: Seq<Option<SemaphoreState>>,
) -> bool {
    &&& fewer.len() == more.len()
    &&& forall|i: int|
        0 <= i < fewer.len() ==> (#[trigger] fewer[i] is Some) == (more[i] is Some)
    &&& forall|i: int|
        0 <= i < fewer.len() && (#[trigger] fewer[i]) is Some ==> {
            &&& fewer[i]->Some_0.allocated@ == more[i]->Some_0.allocated@
            &&& fewer[i]->Some_0.waiting@ == more[i]->Some_0.waiting@
            &&& fewer[i]->Some_0.count <= more[i]->Some_0.count
        }
}

/// More free semaphore units never turn a safe request into a deadlock.
pub proof fn lemma_more_units_stay_safe(
    tasks: Seq<bool>,
    fewer: Seq<Option<SemaphoreState>>,
    more: Seq<Option<SemaphoreState>>,
    current_tid: int,
    sem_id: int,
)
    requires
        at_least_as_many_units(fewer, more),
        sem_request_is_safe(tasks, fewer, current_tid, sem_id),
    ensures
        sem_request_is_safe(tasks, more, current_tid, sem_id),
{
    let n = tasks.len();
    let a1 = sem_available(fewer);
    let a2 = sem_available(more);
    let alloc1 = sem_allocation(fewer, n);
    let alloc2 = sem_allocation(more, n);
    let need1 = sem_need(fewer, n, current_tid, sem_id);
    let need2 = sem_need(more, n, current_tid, sem_id);
    assert forall|t: int| 0 <= t < n implies alloc1[t] == alloc2[t] by {
        assert forall|i: int| 0 <= i < fewer.len() implies alloc1[t][i] == alloc2[t][i] by {
            assert(fewer[i] is Some == more[i] is Some);
        }
        assert(alloc1[t] =~= alloc2[t]);
    }
    assert(alloc1 =~= alloc2);
    assert forall|t: int| 0 <= t < n implies need1[t] == need2[t] by {
        assert forall|i: int| 0 <= i < fewer.len() implies need1[t][i] == need2[t][i] by {
            assert(fewer[i] is Some == more[i] is Some);
        }
        assert(need1[t] =~= need2[t]);
    }
    assert(need1 =~= need2);
    assert forall|j: int| 0 <= j < a1.len() implies a1[j] <= a2[j] by {
        assert(fewer[j] is Some == more[j] is Some);
    }
    let s = choose|s: Seq<int>|
        #[trigger] is_safe_sequence(a1, alloc1, need1, s) && forall|i: int|
            0 <= i < tasks.len() && tasks[i] ==> s.contains(i);
    assert forall|k: int| 0 <= k < s.len() implies can_finish(
        a2,
        alloc2,
        need2,
        s.take(k),
        #[trigger] s[k],
    ) by {
        assert(can_finish(a1, alloc1, need1, s.take(k), s[k]));
        assert forall|j: int| 0 <= j < a2.len() implies need2[s[k]][j] <= work_after(
            a2,
            alloc2,
            s.take(k),
            j,
        ) by {
            assert(need1[s[k]][j] <= work_after(a1, alloc1, s.take(k), j));
        }
    }
    assert(is_safe_sequence(a2, alloc2, need2, s));
}


/// Free units of semaphore `s`: its counter when positive, otherwise none.
pub open spec fn free_units(s: SemaphoreState) -> int {
    if s.count > 0 {
        s.count as int
    } else {
        0
    }
}

/// Task `t` is stuck on semaphore `i` once `current_tid` asks for `sem_id`: the
/// semaphore has fewer free units than the requests `t` has pending on it, those in
/// its wait queue and the new request when it is `t`'s.
pub open spec fn stuck_on(
    sems: Seq<Option<SemaphoreState>>,
    t: int,
    i: int,
    current_tid: int,
    sem_id: int,
) -> bool {
    &&& 0 <= i < sems.len()
    &&& sems[i] is Some
    &&& free_units(sems[i]->Some_0) < occurrences(sems[i]->Some_0.waiting@, t) + if t
        == current_tid && i == sem_id {
        1int
    } else {
        0int
    }
}

/// Task `t` holds a unit of some semaphore.
pub open spec fn holds_some_unit(sems: Seq<Option<SemaphoreState>>, t: int) -> bool {
    exists|i: int|
        0 <= i < sems.len() && sems[i] is Some && #[trigger] occurrences(
            sems[i]->Some_0.allocated@,
            t,
        ) > 0
}

proof fn lemma_released_by_empty_holders(alloc: Seq<Seq<u64>>, done: Seq<int>, n: int, j: int)
    requires
        forall|i: int| 0 <= i < n && done.contains(i) ==> alloc[i][j] == 0,
    ensures
        released(alloc, done, n, j) == 0,
    decreases n,
{
    if n > 0 {
        lemma_released_by_empty_holders(alloc, done, n - 1, j);
    }
}

/// Index of the first task of `s`, from `m` on, that the predicate `stuck` marks.
proof fn lemma_first_marked(s: Seq<int>, stuck: spec_fn(int) -> bool, m: int) -> (k: int)
    requires
        0 <= m <= s.len(),
        forall|x: int| 0 <= x < m ==> !stuck(#[trigger] s[x]),
        exists|x: int| m <= x < s.len() && stuck(#[trigger] s[x]),
    ensures
        m <= k < s.len(),
        stuck(s[k]),
        forall|x: int| 0 <= x < k ==> !stuck(#[trigger] s[x]),
    decreases s.len() - m,
{
    if stuck(s[m]) {
        m
    } else {
        lemma_first_marked(s, stuck, m + 1)
    }
}

/// A request is a deadlock when nobody can make the first move: the requesting
/// task exists, and every task that exists or holds a unit is stuck on some
/// semaphore, waiting (in its queue or by this request) for more units than are
/// free. Then no task can finish and give its units back.
pub proof fn lemma_nobody_can_move_deadlocks(
    tasks: Seq<bool>,
    sems: Seq<Option<SemaphoreState>>,
    current_tid: int,
    sem_id: int,
)
    requires
        0 <= current_tid < tasks.len(),
        tasks[current_tid],
        0 <= sem_id < sems.len(),
        sem_queues_valid(sems, tasks.len()),
        forall|t: int|
            0 <= t < tasks.len() && (tasks[t] || holds_some_unit(sems, t)) ==> exists|i: int|
                #[trigger] stuck_on(sems, t, i, current_tid, sem_id),
    ensures
        !sem_request_is_safe(tasks, sems, current_tid, sem_id),
{
    let n = tasks.len();
    let avail = sem_available(sems);
    let alloc = sem_allocation(sems, n);
    let need = sem_need(sems, n, current_tid, sem_id);
    if sem_request_is_safe(tasks, sems, current_tid, sem_id) {
        let s = choose|s: Seq<int>|
            #[trigger] is_safe_sequence(avail, alloc, need, s) && forall|i: int|
                0 <= i < tasks.len() && tasks[i] ==> s.contains(i);
        let stuck = |t: int| exists|i: int| #[trigger] stuck_on(sems, t, i, current_tid, sem_id);
        assert(s.contains(current_tid));
        let kc = choose|x: int| 0 <= x < s.len() && s[x] == current_tid;
        assert(stuck(s[kc]));
        let k = lemma_first_marked(s, stuck, 0);
        let t0 = s[k];
        let i = choose|i: int| #[trigger] stuck_on(sems, t0, i, current_tid, sem_id);
        let done = s.take(k);
        assert forall|x: int| 0 <= x < n && done.contains(x) implies alloc[x][i] == 0 by {
            let y = choose|y: int| 0 <= y < done.len() && done[y] == x;
            assert(s[y] == x);
            assert(!stuck(s[y]));
            assert(!tasks[x] && !holds_some_unit(sems, x));
            assert(!(occurrences(sems[i]->Some_0.allocated@, x) > 0));
        }
        lemma_released_by_empty_holders(alloc, done, n as int, i);
        assert(can_finish(avail, alloc, need, done, t0));
        assert(need[t0][i] <= work_after(avail, alloc, done, i));
        let sem = sems[i]->Some_0;
        lemma_occurrences_le_len(sem.waiting@, t0);
        assert(sems[i] is Some);
        assert(need[t0][i] == occurrences(sem.waiting@, t0) + if t0 == current_tid && i
            == sem_id {
            1int
        } else {
            0int
        });
    }
}

} // verus!
