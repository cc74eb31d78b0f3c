//! Which tasks of a todo list the display shows, and in what order.
//!
//! Only tasks with the `home` context are shown. Open tasks come before completed
//! ones; among them, those due before the cutoff come first, soonest first; then tasks
//! by priority (`A` first, tasks without a priority last). Tasks that tie keep the
//! order of the list. The first `limit` of them are shown.
use vstd::prelude::*;
use vstd::string::StringExecFns;
use crate::text::{join, join_strings, push_char, split_whitespace, words};

verus! {

/// A calendar date.
#[derive(Debug, Clone, Copy, PartialEq, Eq)]
pub struct Date {
    pub year: i32,
    pub month: u32,
    pub day: u32,
}

/// Whether `a` is an earlier date than `b`.
pub open spec fn date_before(a: Date, b: Date) -> bool {
    a.year < b.year || (a.year == b.year && (a.month < b.month || (a.month == b.month && a.day < b.day)))
}

fn before(a: &Date, b: &Date) -> (r: bool)
    ensures
        r == date_before(*a, *b),
{
    a.year < b.year || (a.year == b.year && (a.month < b.month || (a.month == b.month && a.day < b.day)))
}

/// A task of the todo list.
pub struct Task {
    pub completed: bool,
    pub priority: Option<char>,
    pub due: Option<Date>,
    pub contexts: Vec<String>,
    pub description: String,
}

/// Whether the task has the `home` context.
pub open spec fn is_home(t: Task) -> bool {
    exists|i: int| 0 <= i < t.contexts@.len() && #[trigger] t.contexts@[i]@ == "home"@
}

/// The tasks with the `home` context, in list order.
pub open spec fn home_tasks(tasks: Seq<Task>) -> Seq<Task> {
    tasks.filter(|t: Task| is_home(t))
}

/// The due date of a task that falls before `cutoff`.
pub open spec fn due_soon(t: Task, cutoff: Date) -> Option<Date> {
    match t.due {
        Some(d) => if date_before(d, cutoff) { Some(d) } else { None },
        None => None,
    }
}

/// What tasks are ordered by: completion, whether a due date is near, that date,
/// whether there is a priority, that priority. An absent date or priority is held as
/// zero, and only ever compared with another absent one.
#[derive(Clone, Copy)]
pub struct SortKey {
    pub completed: bool,
    pub not_due_soon: bool,
    pub due: Date,
    pub no_priority: bool,
    pub priority: u32,
}

pub open spec fn sort_key(t: Task, cutoff: Date) -> SortKey {
    let soon = due_soon(t, cutoff);
    SortKey {
        completed: t.completed,
        not_due_soon: soon is None,
        due: match soon {
            Some(d) => d,
            None => Date { year: 0, month: 0, day: 0 },
        },
        no_priority: t.priority is None,
        priority: match t.priority {
            Some(c) => c as u32,
            None => 0,
        },
    }
}

pub open spec fn bool_lt(a: bool, b: bool) -> bool {
    !a && b
}

/// The order of keys: field by field, `false` before `true`.
pub open spec fn key_lt(a: SortKey, b: SortKey) -> bool {
    if a.completed != b.completed {
        bool_lt(a.completed, b.completed)
    } else if a.not_due_soon != b.not_due_soon {
        bool_lt(a.not_due_soon, b.not_due_soon)
    } else if a.due != b.due {
        date_before(a.due, b.due)
    } else if a.no_priority != b.no_priority {
        bool_lt(a.no_priority, b.no_priority)
    } else {
        a.priority < b.priority
    }
}

/// The order of task `i` before task `j` of `home`: by key, then by list position.
pub open spec fn task_before(home: Seq<Task>, cutoff: Date, i: int, j: int) -> bool {
    let a = sort_key(home[i], cutoff);
    let b = sort_key(home[j], cutoff);
    key_lt(a, b) || (a == b && i < j)
}

/// `order` lists every position of `home` once, each task before the next.
pub open spec fn is_display_order(order: Seq<int>, home: Seq<Task>, cutoff: Date) -> bool {
    &&& order.len() == home.len()
    &&& forall|k: int| 0 <= k < order.len() ==> 0 <= #[trigger] order[k] < home.len()
    &&& forall|i: int| 0 <= i < home.len() ==> #[trigger] order.contains(i)
    &&& forall|a: int, b: int|
        #![trigger order[a], order[b]]
        0 <= a < b < order.len() ==> task_before(home, cutoff, order[a], order[b])
}

/// How many tasks are shown out of `available`.
pub open spec fn shown(limit: usize, available: nat) -> nat {
    if limit < available { limit as nat } else { available }
}

/// Keys are ordered totally: irreflexively, asymmetrically, transitively, and any two
/// different keys one way or the other.
pub proof fn lemma_key_order(a: SortKey, b: SortKey, c: SortKey)
    ensures
        !key_lt(a, a),
        key_lt(a, b) ==> !key_lt(b, a),
        key_lt(a, b) && key_lt(b, c) ==> key_lt(a, c),
        a != b ==> key_lt(a, b) || key_lt(b, a),
{
}

/// Tasks at different positions are ordered one way or the other, never both, and the
/// order is transitive.
pub proof fn lemma_task_order(home: Seq<Task>, cutoff: Date, i: int, j: int, k: int)
    ensures
        i != j ==> task_before(home, cutoff, i, j) || task_before(home, cutoff, j, i),
        task_before(home, cutoff, i, j) ==> !task_before(home, cutoff, j, i),
        task_before(home, cutoff, i, j) && task_before(home, cutoff, j, k) ==> task_before(home, cutoff, i, k),
{
    lemma_key_order(sort_key(home[i], cutoff), sort_key(home[j], cutoff), sort_key(home[k], cutoff));
    lemma_key_order(sort_key(home[j], cutoff), sort_key(home[i], cutoff), sort_key(home[k], cutoff));
    lemma_key_order(sort_key(home[i], cutoff), sort_key(home[k], cutoff), sort_key(home[j], cutoff));
}

/// There is only one display order: tasks that tie on their keys are kept in list
/// order, so every position has exactly one place.
pub proof fn lemma_display_order_unique(o1: Seq<int>, o2: Seq<int>, home: Seq<Task>, cutoff: Date)
    requires
        is_display_order(o1, home, cutoff),
        is_display_order(o2, home, cutoff),
    ensures
        o1 == o2,
{
    if o1.len() > 0 {
        lemma_display_orders_agree(o1, o2, home, cutoff, o1.len() - 1);
    }
    assert(o1 =~= o2);
}

/// Dates are ordered chronologically: by year, then month, then day. The order is
/// strict and total.
pub proof fn lemma_date_order(a: Date, b: Date, c: Date)
    ensures
        a.year < b.year ==> date_before(a, b),
        a.year == b.year && a.month < b.month ==> date_before(a, b),
        a.year == b.year && a.month == b.month && a.day < b.day ==> date_before(a, b),
        !date_before(a, a),
        date_before(a, b) ==> !date_before(b, a),
        date_before(a, b) && date_before(b, c) ==> date_before(a, c),
        a != b ==> date_before(a, b) || date_before(b, a),
{
}

/// The candidates are exactly the listed tasks that have `home` among their contexts,
/// at any position.
pub proof fn lemma_home_tasks_by_context(tasks: Seq<Task>)
    ensures
        forall|t: Task| #[trigger] home_tasks(tasks).contains(t) <==> (tasks.contains(t) && exists|i: int|
            0 <= i < t.contexts@.len() && #[trigger] t.contexts@[i]@ == "home"@),
{
    assert forall|t: Task| #[trigger] home_tasks(tasks).contains(t) <==> (tasks.contains(t) && exists|i: int|
        0 <= i < t.contexts@.len() && #[trigger] t.contexts@[i]@ == "home"@) by {
        if home_tasks(tasks).contains(t) {
            tasks.lemma_filter_contains_rev(|t: Task| is_home(t), t);
        }
        if tasks.contains(t) && is_home(t) {
            let k = choose|k: int| 0 <= k < tasks.len() && tasks[k] == t;
            tasks.lemma_filter_contains(|t: Task| is_home(t), k);
        }
    }
}

/// A task with `home` among its contexts (at any position), listed alone, is shown
/// whenever the limit allows one task.
pub proof fn lemma_lone_home_task_shown(t: Task, cutoff: Date, limit: usize, r: Seq<Task>)
    requires
        exists|i: int| 0 <= i < t.contexts@.len() && #[trigger] t.contexts@[i]@ == "home"@,
        limit >= 1,
        shows(seq![t], cutoff, limit, r),
    ensures
        r == seq![t],
{
    let tasks = seq![t];
    let home = home_tasks(tasks);
    lemma_home_tasks_by_context(tasks);
    assert(tasks.contains(t) && tasks[0] == t);
    assert(home.contains(t));
    assert(home.len() <= 1) by {
        tasks.lemma_filter_len(|t: Task| is_home(t));
    }
    assert(home.len() == 1 && home[0] == t);
    let order = choose|order: Seq<int>| {
        &&& is_display_order(order, home, cutoff)
        &&& r == order.take(shown(limit, home.len()) as int).map_values(|i: int| home[i])
    };
    assert(order.len() == 1);
    assert(0 <= order[0] < 1);
    assert(r =~= seq![t]);
}

proof fn lemma_display_orders_agree(o1: Seq<int>, o2: Seq<int>, home: Seq<Task>, cutoff: Date, k: int)
    requires
        is_display_order(o1, home, cutoff),
        is_display_order(o2, home, cutoff),
        0 <= k < o1.len(),
    ensures
        forall|m: int| 0 <= m <= k ==> o1[m] == o2[m],
    decreases k,
{
    if k > 0 {
        lemma_display_orders_agree(o1, o2, home, cutoff, k - 1);
    }
    let x = o1[k];
    let y = o2[k];
    assert(o1.contains(y));
    assert(o2.contains(x));
    let p = choose|p: int| 0 <= p < o1.len() && o1[p] == y;
    let q = choose|q: int| 0 <= q < o2.len() && o2[q] == x;
    lemma_task_order(home, cutoff, x, y, x);
    lemma_task_order(home, cutoff, y, y, y);
    lemma_task_order(home, cutoff, x, x, x);
    if p < k {
        assert(o2[p] == y);
        assert(task_before(home, cutoff, o2[p], o2[k]));
    }
    if q < k {
        assert(o1[q] == x);
        assert(task_before(home, cutoff, o1[q], o1[k]));
    }
    if p > k && q > k {
        assert(task_before(home, cutoff, o1[k], o1[p]));
        assert(task_before(home, cutoff, o2[k], o2[q]));
    }
}


// ---------------------------------------------------------------------------
// Selection.
// ---------------------------------------------------------------------------

fn has_context(t: &Task, context: &String) -> (r: bool)
    ensures
        r == exists|i: int| 0 <= i < t.contexts@.len() && #[trigger] t.contexts@[i]@ == context@,
{
    let mut i: usize = 0;
    while i < t.contexts.len()
        invariant
            i <= t.contexts@.len(),
            forall|k: int| 0 <= k < i ==> #[trigger] t.contexts@[k]@ != context@,
        decreases t.contexts@.len() - i,
    {
        if t.contexts[i] == *context {
            return true;
        }
        i = i + 1;
    }
    false
}

fn task_key(t: &Task, cutoff: &Date) -> (r: SortKey)
    ensures
        r == sort_key(*t, *cutoff),
{
    let (not_due_soon, due) = match t.due {
        Some(d) => if before(&d, cutoff) {
            (false, d)
        } else {
            (true, Date { year: 0, month: 0, day: 0 })
        },
        None => (true, Date { year: 0, month: 0, day: 0 }),
    };
    let (no_priority, priority) = match t.priority {
        Some(c) => (false, c as u32),
        None => (true, 0u32),
    };
    SortKey { completed: t.completed, not_due_soon, due, no_priority, priority }
}

fn key_less(a: &SortKey, b: &SortKey) -> (r: bool)
    ensures
        r == key_lt(*a, *b),
{
    if a.completed != b.completed {
        !a.completed && b.completed
    } else if a.not_due_soon != b.not_due_soon {
        !a.not_due_soon && b.not_due_soon
    } else if a.due.year != b.due.year || a.due.month != b.due.month || a.due.day != b.due.day {
        before(&a.due, &b.due)
    } else if a.no_priority != b.no_priority {
        !a.no_priority && b.no_priority
    } else {
        a.priority < b.priority
    }
}

fn key_same(a: &SortKey, b: &SortKey) -> (r: bool)
    ensures
        r == (*a == *b),
{
    a.completed == b.completed && a.not_due_soon == b.not_due_soon && a.due.year == b.due.year
        && a.due.month == b.due.month && a.due.day == b.due.day && a.no_priority == b.no_priority
        && a.priority == b.priority
}

/// A shown task with its key and its position among the `home` tasks.
struct Entry {
    key: SortKey,
    pos: usize,
    task: Task,
}

fn entry_before(a: &Entry, b: &Entry) -> (r: bool)
    ensures
        r == (key_lt(a.key, b.key) || (a.key == b.key && a.pos < b.pos)),
{
    key_less(&a.key, &b.key) || (key_same(&a.key, &b.key) && a.pos < b.pos)
}

/// The `home` tasks, each with its key and position.
fn home_entries(tasks: Vec<Task>, cutoff: Date) -> (r: Vec<Entry>)
    ensures
        r@.len() == home_tasks(tasks@).len(),
        forall|k: int| 0 <= k < r@.len() ==> {
            &&& (#[trigger] r@[k]).task == home_tasks(tasks@)[k]
            &&& r@[k].pos == k
            &&& r@[k].key == sort_key(r@[k].task, cutoff)
        },
{
    let ghost orig = tasks@;
    let home_context = String::from_str("home");
    proof {
        reveal_strlit("home");
    }
    let mut rest = tasks;
    let mut entries: Vec<Entry> = Vec::new();
    let ghost mut taken: int = 0;
    assert(orig.take(0).filter(|t: Task| is_home(t)) =~= Seq::<Task>::empty()) by {
        reveal_with_fuel(Seq::filter, 1);
    }
    assert(orig.skip(0) =~= orig);
    while rest.len() > 0
        invariant
            0 <= taken <= orig.len(),
            rest@ == orig.skip(taken),
            home_context@ == "home"@,
            entries@.len() == home_tasks(orig.take(taken)).len(),
            forall|k: int| 0 <= k < entries@.len() ==> {
                &&& (#[trigger] entries@[k]).task == home_tasks(orig.take(taken))[k]
                &&& entries@[k].pos == k
                &&& entries@[k].key == sort_key(entries@[k].task, cutoff)
            },
        decreases rest@.len(),
    {
        let t = rest.remove(0);
        let ghost prev = home_tasks(orig.take(taken));
        assert(orig.take(taken + 1).drop_last() =~= orig.take(taken));
        assert(orig.take(taken + 1).last() == t);
        assert(home_tasks(orig.take(taken + 1)) == if is_home(t) { prev.push(t) } else { prev }) by {
            reveal_with_fuel(Seq::filter, 1);
        }
        if has_context(&t, &home_context) {
            let key = task_key(&t, &cutoff);
            let pos = entries.len();
            entries.push(Entry { key, pos, task: t });
        }
        proof {
            taken = taken + 1;
            assert(rest@ =~= orig.skip(taken));
        }
    }
    assert(orig.take(orig.len() as int) =~= orig);
    entries
}

/// `r` is the first `limit` of the `home` tasks of `tasks` in display order.
pub open spec fn shows(tasks: Seq<Task>, cutoff: Date, limit: usize, r: Seq<Task>) -> bool {
    exists|order: Seq<int>| {
        &&& is_display_order(order, home_tasks(tasks), cutoff)
        &&& r == order.take(shown(limit, home_tasks(tasks).len()) as int).map_values(|i: int| home_tasks(tasks)[i])
    }
}

/// What a shown list promises: it holds only `home` tasks, as many as the limit allows;
/// open tasks come before completed ones, and a completed task is shown only when every
/// open `home` task is.
pub proof fn lemma_open_tasks_first(tasks: Seq<Task>, cutoff: Date, limit: usize, r: Seq<Task>)
    requires
        shows(tasks, cutoff, limit, r),
    ensures
        r.len() == shown(limit, home_tasks(tasks).len()),
        forall|i: int| 0 <= i < r.len() ==> is_home(#[trigger] r[i]),
        forall|i: int, j: int| 0 <= i < j < r.len() && (#[trigger] r[i]).completed ==> (#[trigger] r[j]).completed,
        (exists|i: int| 0 <= i < r.len() && (#[trigger] r[i]).completed) ==> forall|k: int|
            0 <= k < home_tasks(tasks).len() && !(#[trigger] home_tasks(tasks)[k]).completed ==> r.contains(
                home_tasks(tasks)[k],
            ),
{
    let home = home_tasks(tasks);
    let n = shown(limit, home.len()) as int;
    let order = choose|order: Seq<int>| {
        &&& is_display_order(order, home, cutoff)
        &&& r == order.take(n).map_values(|i: int| home[i])
    };
    assert forall|i: int| 0 <= i < r.len() implies is_home(#[trigger] r[i]) by {
        tasks.lemma_filter_pred(|t: Task| is_home(t), order[i]);
    }
    assert forall|i: int, j: int| 0 <= i < j < r.len() && (#[trigger] r[i]).completed implies (#[trigger] r[j]).completed by {
        assert(task_before(home, cutoff, order[i], order[j]));
    }
    if exists|i: int| 0 <= i < r.len() && (#[trigger] r[i]).completed {
        let i = choose|i: int| 0 <= i < r.len() && (#[trigger] r[i]).completed;
        assert forall|k: int| 0 <= k < home.len() && !(#[trigger] home[k]).completed implies r.contains(home[k]) by {
            assert(order.contains(k));
            let m = choose|m: int| 0 <= m < order.len() && order[m] == k;
            if m >= n {
                assert(task_before(home, cutoff, order[i], order[m]));
            }
            assert(r[m] == home[k]);
        }
    }
}

/// Among the open tasks shown, those due before the cutoff come first, soonest first;
/// the others follow by priority (`A` first), tasks without a priority last.
pub proof fn lemma_due_soon_lead(tasks: Seq<Task>, cutoff: Date, limit: usize, r: Seq<Task>)
    requires
        shows(tasks, cutoff, limit, r),
    ensures
        forall|i: int, j: int|
            0 <= i < j < r.len() && !(#[trigger] r[j]).completed && due_soon(r[j], cutoff) is Some ==> {
                &&& due_soon(#[trigger] r[i], cutoff) is Some
                &&& !date_before(due_soon(r[j], cutoff)->0, due_soon(r[i], cutoff)->0)
            },
        forall|i: int, j: int|
            0 <= i < j < r.len() && !(#[trigger] r[j]).completed && due_soon(r[j], cutoff) is None
                && due_soon(#[trigger] r[i], cutoff) is None && r[j].priority is Some ==> {
                &&& r[i].priority is Some
                &&& (r[i].priority->0 as u32) <= (r[j].priority->0 as u32)
            },
{
    let home = home_tasks(tasks);
    let n = shown(limit, home.len()) as int;
    let order = choose|order: Seq<int>| {
        &&& is_display_order(order, home, cutoff)
        &&& r == order.take(n).map_values(|i: int| home[i])
    };
    assert forall|i: int, j: int|
        0 <= i < j < r.len() && !(#[trigger] r[j]).completed && due_soon(r[j], cutoff) is Some implies {
            &&& due_soon(#[trigger] r[i], cutoff) is Some
            &&& !date_before(due_soon(r[j], cutoff)->0, due_soon(r[i], cutoff)->0)
        } by {
        assert(task_before(home, cutoff, order[i], order[j]));
    }
    assert forall|i: int, j: int|
        0 <= i < j < r.len() && !(#[trigger] r[j]).completed && due_soon(r[j], cutoff) is None
            && due_soon(#[trigger] r[i], cutoff) is None && r[j].priority is Some implies {
            &&& r[i].priority is Some
            &&& (r[i].priority->0 as u32) <= (r[j].priority->0 as u32)
        } by {
        assert(task_before(home, cutoff, order[i], order[j]));
    }
}

/// The tasks to show: the first `limit` of the `home` tasks in display order.
pub fn top_tasks(tasks: Vec<Task>, cutoff: Date, limit: usize) -> (r: Vec<Task>)
    ensures
        shows(tasks@, cutoff, limit, r@),
{
    let ghost home = home_tasks(tasks@);
    let mut entries = home_entries(tasks, cutoff);
    let n = entries.len();
    let ghost mut perm: Seq<int> = Seq::new(n as nat, |k: int| k);
    assert forall|x: int| 0 <= x < n implies #[trigger] perm.contains(x) by {
        assert(perm[x] == x);
    }
    let mut i: usize = 0;
    while i < n
        invariant
            i <= n,
            n == entries@.len(),
            n == home.len(),
            perm.len() == n,
            forall|k: int| 0 <= k < n ==> 0 <= #[trigger] perm[k] < n,
            forall|x: int| 0 <= x < n ==> #[trigger] perm.contains(x),
            forall|a: int, b: int| 0 <= a < n && 0 <= b < n && a != b ==> #[trigger] perm[a] != #[trigger] perm[b],
            forall|k: int| 0 <= k < n ==> {
                &&& (#[trigger] entries@[k]).task == home[perm[k]]
                &&& entries@[k].pos == perm[k]
                &&& entries@[k].key == sort_key(home[perm[k]], cutoff)
            },
            forall|a: int, b: int|
                #![trigger perm[a], perm[b]]
                0 <= a < b < i ==> task_before(home, cutoff, perm[a], perm[b]),
        decreases n - i,
    {
        let mut j: usize = i;
        while j > 0 && entry_before(&entries[j], &entries[j - 1])
            invariant
                j <= i < n,
                n == entries@.len(),
                perm.len() == n,
                forall|k: int| 0 <= k < n ==> 0 <= #[trigger] perm[k] < n,
                forall|x: int| 0 <= x < n ==> #[trigger] perm.contains(x),
                forall|a: int, b: int| 0 <= a < n && 0 <= b < n && a != b ==> #[trigger] perm[a] != #[trigger] perm[b],
                forall|k: int| 0 <= k < n ==> {
                    &&& (#[trigger] entries@[k]).task == home[perm[k]]
                    &&& entries@[k].pos == perm[k]
                    &&& entries@[k].key == sort_key(home[perm[k]], cutoff)
                },
                forall|a: int, b: int|
                    #![trigger perm[a], perm[b]]
                    0 <= a < b <= i && a != j && b != j ==> task_before(home, cutoff, perm[a], perm[b]),
                forall|b: int| #![trigger perm[b]] j < b <= i ==> task_before(home, cutoff, perm[j as int], perm[b]),
            decreases j,
        {
            assert(task_before(home, cutoff, perm[j as int], perm[j - 1]));
            let e = entries.remove(j);
            entries.insert(j - 1, e);
            proof {
                let old_perm = perm;
                perm = perm.update(j - 1, old_perm[j as int]).update(j as int, old_perm[j - 1]);
                assert forall|x: int| 0 <= x < n implies #[trigger] perm.contains(x) by {
                    assert(old_perm.contains(x));
                    let k = choose|k: int| 0 <= k < n && old_perm[k] == x;
                    if k == j {
                        assert(perm[j - 1] == x);
                    } else if k == j - 1 {
                        assert(perm[j as int] == x);
                    } else {
                        assert(perm[k] == x);
                    }
                }
            }
            j = j - 1;
        }
        proof {
            if j > 0 {
                lemma_task_order(home, cutoff, perm[j as int], perm[j - 1], perm[j as int]);
                assert(task_before(home, cutoff, perm[j - 1], perm[j as int]));
                assert forall|a: int| 0 <= a < j implies #[trigger] task_before(home, cutoff, perm[a], perm[j as int]) by {
                    if a < j - 1 {
                        assert(task_before(home, cutoff, perm[a], perm[j - 1]));
                        lemma_task_order(home, cutoff, perm[a], perm[j - 1], perm[j as int]);
                    }
                }
            }
        }
        i = i + 1;
    }
    let n_out: usize = if limit < n { limit } else { n };
    let ghost sorted = entries@;
    let mut out: Vec<Task> = Vec::new();
    let mut k: usize = 0;
    while k < n_out
        invariant
            k <= n_out <= n,
            n == sorted.len(),
            entries@ == sorted.skip(k as int),
            out@ == Seq::new(k as nat, |m: int| sorted[m].task),
        decreases n_out - k,
    {
        let e = entries.remove(0);
        out.push(e.task);
        k = k + 1;
        assert(entries@ =~= sorted.skip(k as int));
        assert(out@ =~= Seq::new(k as nat, |m: int| sorted[m].task));
    }
    assert(is_display_order(perm, home, cutoff));
    assert(out@ =~= perm.take(n_out as int).map_values(|i: int| home[i]));
    out
}


/// The date `days` days after the calendar date `year`-`month`-`day`, as chrono counts;
/// `None` where that is no calendar date or the result is out of chrono's range.
pub uninterp spec fn chrono_days_later(year: i32, month: u32, day: u32, days: u64) -> Option<(i32, u32, u32)>;

/// `chrono::NaiveDate::from_ymd_opt`, then `NaiveDate::checked_add_days`: the date `days`
/// days after `date`.
#[verifier::external_body]
fn days_later(date: Date, days: u64) -> (r: Option<Date>)
    ensures
        r matches Some(d) ==> chrono_days_later(date.year, date.month, date.day, days) == Some((d.year, d.month, d.day)),
        r is None ==> chrono_days_later(date.year, date.month, date.day, days) is None,
{
    match chrono::NaiveDate::from_ymd_opt(date.year, date.month, date.day) {
        Some(start) => match start.checked_add_days(chrono::Days::new(days)) {
            Some(end) => Some(Date {
                year: chrono::Datelike::year(&end),
                month: chrono::Datelike::month(&end),
                day: chrono::Datelike::day(&end),
            }),
            None => None,
        },
        None => None,
    }
}

/// How many days after today a due date still counts as near.
pub const DUE_SOON_DAYS: u64 = 3;

/// The tasks shown on `today`: the first `limit` of the `home` tasks in display order,
/// where a due date counts as near when it falls before the day `DUE_SOON_DAYS` days
/// after `today`. `None` where chrono cannot count those days on from `today` (`today`
/// is no calendar date, or lies at the end of chrono's range).
pub fn top_todos(tasks: Vec<Task>, today: Date, limit: usize) -> (r: Option<Vec<Task>>)
    ensures
        match chrono_days_later(today.year, today.month, today.day, DUE_SOON_DAYS) {
            Some((year, month, day)) => r matches Some(v) && shows(tasks@, (Date { year, month, day }), limit, v@),
            None => r is None,
        },
{
    match days_later(today, DUE_SOON_DAYS) {
        Some(cutoff) => Some(top_tasks(tasks, cutoff, limit)),
        None => None,
    }
}

// ---------------------------------------------------------------------------
// Rendering.
// ---------------------------------------------------------------------------

/// The words of a description, without the `@home` tag.
pub open spec fn shown_words(description: Seq<char>) -> Seq<Seq<char>> {
    words(description).filter(|w: Seq<char>| w != "@home"@)
}

/// The words shown for a description: a word is shown exactly when it is a word of the
/// description other than `@home` (so other `@context` tags stay), and only the `@home`
/// words are left out.
pub proof fn lemma_shown_words(description: Seq<char>)
    ensures
        forall|w: Seq<char>| #[trigger] shown_words(description).contains(w) <==> (words(description).contains(w)
            && w != "@home"@),
        shown_words(description).len() + words(description).filter(|w: Seq<char>| w == "@home"@).len()
            == words(description).len(),
{
    lemma_filter_split(words(description), |w: Seq<char>| w != "@home"@, |w: Seq<char>| w == "@home"@);
}

proof fn lemma_filter_split(ws: Seq<Seq<char>>, p: spec_fn(Seq<char>) -> bool, q: spec_fn(Seq<char>) -> bool)
    requires
        forall|w: Seq<char>| #[trigger] q(w) == !p(w),
    ensures
        forall|w: Seq<char>| #[trigger] ws.filter(p).contains(w) <==> (ws.contains(w) && p(w)),
        ws.filter(p).len() + ws.filter(q).len() == ws.len(),
    decreases ws.len(),
{
    reveal_with_fuel(Seq::filter, 1);
    if ws.len() > 0 {
        let prev = ws.drop_last();
        lemma_filter_split(prev, p, q);
        let x = ws.last();
        let f = prev.filter(p);
        assert forall|w: Seq<char>| #[trigger] ws.filter(p).contains(w) <==> (ws.contains(w) && p(w)) by {
            if ws.contains(w) {
                let k = choose|k: int| 0 <= k < ws.len() && ws[k] == w;
                if k < ws.len() - 1 {
                    assert(prev[k] == w);
                }
            }
            if prev.contains(w) {
                let k = choose|k: int| 0 <= k < prev.len() && prev[k] == w;
                assert(ws[k] == w);
            }
            if p(x) {
                assert(ws.filter(p) == f.push(x));
                if f.push(x).contains(w) {
                    let k = choose|k: int| 0 <= k < f.len() + 1 && f.push(x)[k] == w;
                    if k < f.len() {
                        assert(f[k] == w);
                    }
                }
                if f.contains(w) {
                    let k = choose|k: int| 0 <= k < f.len() && f[k] == w;
                    assert(f.push(x)[k] == w);
                }
                assert(f.push(x)[f.len() as int] == x);
            } else {
                assert(ws.filter(p) == f);
            }
            assert(ws[ws.len() - 1] == x);
        }
    }
}

/// The line a task is shown as: a check box, the priority in parentheses where there
/// is one, then the description's words (without `@home`) separated by single spaces.
pub open spec fn todo_line_text(completed: bool, priority: Option<char>, description: Seq<char>) -> Seq<char> {
    (if completed { "[x]"@ } else { "[ ]"@ }) + match priority {
        Some(p) => " ("@ + seq![p] + ") "@,
        None => " "@,
    } + join(shown_words(description), " "@)
}

/// The line `task` is shown as.
pub fn todo_line(task: &Task) -> (r: String)
    ensures
        r@ == todo_line_text(task.completed, task.priority, task.description@),
{
    let all = split_whitespace(task.description.as_str());
    let home_tag = String::from_str("@home");
    let ghost views = all@.map_values(|w: String| w@);
    let mut kept: Vec<String> = Vec::new();
    let mut i: usize = 0;
    assert(views.take(0).filter(|w: Seq<char>| w != "@home"@) =~= Seq::<Seq<char>>::empty()) by {
        reveal_with_fuel(Seq::filter, 1);
    }
    while i < all.len()
        invariant
            i <= all@.len(),
            views == all@.map_values(|w: String| w@),
            home_tag@ == "@home"@,
            kept@.map_values(|w: String| w@) == views.take(i as int).filter(|w: Seq<char>| w != "@home"@),
        decreases all@.len() - i,
    {
        let ghost prev = kept@.map_values(|w: String| w@);
        assert(views.take(i + 1).drop_last() =~= views.take(i as int));
        assert(views.take(i + 1).filter(|w: Seq<char>| w != "@home"@) == if views[i as int] != "@home"@ {
            views.take(i as int).filter(|w: Seq<char>| w != "@home"@).push(views[i as int])
        } else {
            views.take(i as int).filter(|w: Seq<char>| w != "@home"@)
        }) by {
            reveal_with_fuel(Seq::filter, 1);
        }
        if all[i] != home_tag {
            kept.push(all[i].clone());
            assert(kept@.map_values(|w: String| w@) =~= prev.push(views[i as int]));
        }
        i = i + 1;
    }
    assert(views.take(all@.len() as int) =~= views);
    let description = join_strings(&kept, " ");
    let mut out = if task.completed {
        String::from_str("[x]")
    } else {
        String::from_str("[ ]")
    };
    match task.priority {
        Some(p) => {
            out.append(" (");
            push_char(&mut out, p);
            out.append(") ");
        },
        None => {
            out.append(" ");
        },
    }
    out.append(description.as_str());
    out
}

/// The text of the task list: one line per task.
pub fn todo_text(tasks: &Vec<Task>) -> (r: String)
    ensures
        r@ == join(
            tasks@.map_values(|t: Task| todo_line_text(t.completed, t.priority, t.description@)),
            "\n"@,
        ),
{
    let mut lines: Vec<String> = Vec::new();
    let mut i: usize = 0;
    while i < tasks.len()
        invariant
            i <= tasks@.len(),
            lines@.len() == i,
            forall|k: int| 0 <= k < i ==> (#[trigger] lines@[k])@ == todo_line_text(
                tasks@[k].completed,
                tasks@[k].priority,
                tasks@[k].description@,
            ),
        decreases tasks@.len() - i,
    {
        let line = todo_line(&tasks[i]);
        lines.push(line);
        i = i + 1;
    }
    assert(lines@.map_values(|w: String| w@) =~= tasks@.map_values(
        |t: Task| todo_line_text(t.completed, t.priority, t.description@),
    ));
    join_strings(&lines, "\n")
}

} // verus!
