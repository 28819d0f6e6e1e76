//! The manager: the facade over the task store, the context store and
//! the scheduler. It enforces the context-activation invariant — the
//! scheduler's live timers are exactly the tasks tagged with the current
//! context — and drives the expire-on-read sweep for one-shot tasks.
//! The current context is, by definition, the first entry of the
//! context store; the store always holds at least the built-in default
//! context.

use vstd::prelude::*;

use crate::FmnError;
use crate::clock::ClockType;
use crate::scheduler::{Scheduler, SchedulerCommand};
use crate::store::SimpleStore;
use crate::strutil::{spec_starts_with, str_starts_with};
use crate::task::{Task, TaskContext, TaskID, TaskView, default_context, spec_default_context};

verus! {

/// No two stored tasks share an id. Ids are random and 21 characters
/// long, so a collision never arises in practice; a store file holding
/// one is rejected at load.
pub open spec fn distinct_ids(ts: Seq<Task>) -> bool {
    forall|i: int, j: int| 0 <= i < j < ts.len() ==> ts[i]@.task_id != ts[j]@.task_id
}

/// The ids of the tasks in `ts` tagged with the context `ctx`.
pub open spec fn ids_in_context(ts: Seq<Task>, ctx: Seq<char>) -> Set<Seq<char>> {
    Set::new(
        |id: Seq<char>|
            exists|i: int|
                0 <= i < ts.len() && (#[trigger] ts[i])@.context == ctx && ts[i]@.task_id == id,
    )
}

/// The first task whose id starts with `prefix`, if any.
pub open spec fn first_match(ts: Seq<Task>, prefix: Seq<char>) -> Option<int>
    decreases ts.len(),
{
    if ts.len() == 0 {
        None
    } else if spec_starts_with(ts[0]@.task_id, prefix) {
        Some(0)
    } else {
        match first_match(ts.drop_first(), prefix) {
            Some(j) => Some(j + 1),
            None => None,
        }
    }
}

/// The first context entry named `name`, if any.
pub open spec fn first_ctx(cs: Seq<String>, name: Seq<char>) -> Option<int>
    decreases cs.len(),
{
    if cs.len() == 0 {
        None
    } else if cs[0]@ == name {
        Some(0)
    } else {
        match first_ctx(cs.drop_first(), name) {
            Some(j) => Some(j + 1),
            None => None,
        }
    }
}

/// Whether `t` survives the expiry sweep at time `now`: one-shot tasks
/// whose firing time has passed are swept out, everything else stays.
pub open spec fn spec_keep(t: Task, now: int) -> bool {
    match t@.clock_type {
        ClockType::Once(fire_at) => fire_at > now,
        _ => true,
    }
}

/// The tasks of `ts` that survive the sweep at `now`, in order.
pub open spec fn sweep(ts: Seq<Task>, now: int) -> Seq<Task>
    decreases ts.len(),
{
    if ts.len() == 0 {
        Seq::empty()
    } else {
        let pre = sweep(ts.drop_last(), now);
        if spec_keep(ts.last(), now) {
            pre.push(ts.last())
        } else {
            pre
        }
    }
}

/// The tasks of `ts` not tagged with `ctx`, in order.
pub open spec fn remove_ctx_tasks(ts: Seq<Task>, ctx: Seq<char>) -> Seq<Task>
    decreases ts.len(),
{
    if ts.len() == 0 {
        Seq::empty()
    } else {
        let pre = remove_ctx_tasks(ts.drop_last(), ctx);
        if ts.last()@.context != ctx {
            pre.push(ts.last())
        } else {
            pre
        }
    }
}

/// The `Add` commands the scheduler queues when the tasks of `ts`
/// tagged `ctx` are activated, in store order.
pub open spec fn add_cmds(ts: Seq<Task>, ctx: Seq<char>) -> Seq<SchedulerCommand>
    decreases ts.len(),
{
    if ts.len() == 0 {
        Seq::empty()
    } else {
        let pre = add_cmds(ts.drop_last(), ctx);
        if ts.last()@.context == ctx {
            pre.push(SchedulerCommand::Add(ts.last()))
        } else {
            pre
        }
    }
}

/// The `Cancel` commands the scheduler queues when the tasks of `ts`
/// tagged `ctx` are deactivated, in store order.
pub open spec fn cancel_cmds(ts: Seq<Task>, ctx: Seq<char>) -> Seq<SchedulerCommand>
    decreases ts.len(),
{
    if ts.len() == 0 {
        Seq::empty()
    } else {
        let pre = cancel_cmds(ts.drop_last(), ctx);
        if ts.last()@.context == ctx {
            pre.push(SchedulerCommand::Cancel(ts.last()))
        } else {
            pre
        }
    }
}

/// The facade combining the stores and the scheduler.
pub struct TaskManager {
    pub scheduler: Scheduler,
    pub tasks: SimpleStore<Task>,
    pub contexts: SimpleStore<TaskContext>,
}

impl TaskManager {
    /// The name of the current context: the first entry of the context
    /// store. Reordering that store is the sole mechanism that tracks
    /// which context is current.
    pub open spec fn spec_current(&self) -> Seq<char> {
        self.contexts@[0]@
    }

    /// Well-formedness: the context store is never empty and always
    /// holds the built-in default context; task ids are distinct; and
    /// the scheduler's live timers are exactly the tasks of the current
    /// context.
    pub open spec fn wf(&self) -> bool {
        &&& self.contexts@.len() >= 1
        &&& first_ctx(self.contexts@, spec_default_context()) is Some
        &&& distinct_ids(self.tasks@)
        &&& self.scheduler.live_ids() == ids_in_context(self.tasks@, self.spec_current())
    }
}

// ---------------------------------------------------------------------
// Searching lemmas: the recursive "first index" functions mean what a
// left-to-right scan finds.
// ---------------------------------------------------------------------

pub proof fn lemma_first_match_at(ts: Seq<Task>, prefix: Seq<char>, i: int)
    requires
        0 <= i < ts.len(),
        spec_starts_with(ts[i]@.task_id, prefix),
        forall|j: int| 0 <= j < i ==> !spec_starts_with((#[trigger] ts[j])@.task_id, prefix),
    ensures
        first_match(ts, prefix) == Some(i),
    decreases i,
{
    if i == 0 {
    } else {
        assert(!spec_starts_with(ts[0]@.task_id, prefix));
        let q = ts.drop_first();
        assert(q[i - 1] == ts[i]);
        assert(forall|j: int| 0 <= j < i - 1 ==> (#[trigger] q[j]) == ts[j + 1]);
        lemma_first_match_at(q, prefix, i - 1);
    }
}

pub proof fn lemma_first_match_none(ts: Seq<Task>, prefix: Seq<char>)
    requires
        forall|j: int| 0 <= j < ts.len() ==> !spec_starts_with((#[trigger] ts[j])@.task_id, prefix),
    ensures
        first_match(ts, prefix) is None,
    decreases ts.len(),
{
    if ts.len() > 0 {
        let q = ts.drop_first();
        assert(forall|j: int| 0 <= j < q.len() ==> (#[trigger] q[j]) == ts[j + 1]);
        lemma_first_match_none(q, prefix);
    }
}

pub proof fn lemma_first_ctx_at(cs: Seq<String>, name: Seq<char>, i: int)
    requires
        0 <= i < cs.len(),
        cs[i]@ == name,
        forall|j: int| 0 <= j < i ==> (#[trigger] cs[j])@ != name,
    ensures
        first_ctx(cs, name) == Some(i),
    decreases i,
{
    if i == 0 {
    } else {
        assert(cs[0]@ != name);
        let q = cs.drop_first();
        assert(q[i - 1] == cs[i]);
        assert(forall|j: int| 0 <= j < i - 1 ==> (#[trigger] q[j]) == cs[j + 1]);
        lemma_first_ctx_at(q, name, i - 1);
    }
}

pub proof fn lemma_first_ctx_none(cs: Seq<String>, name: Seq<char>)
    requires
        forall|j: int| 0 <= j < cs.len() ==> (#[trigger] cs[j])@ != name,
    ensures
        first_ctx(cs, name) is None,
    decreases cs.len(),
{
    if cs.len() > 0 {
        let q = cs.drop_first();
        assert(forall|j: int| 0 <= j < q.len() ==> (#[trigger] q[j]) == cs[j + 1]);
        lemma_first_ctx_none(q, name);
    }
}

/// What `first_ctx` returns is an occurrence, and the earliest one.
pub proof fn lemma_first_ctx_props(cs: Seq<String>, name: Seq<char>)
    ensures
        match first_ctx(cs, name) {
            Some(i) => 0 <= i < cs.len() && cs[i]@ == name && forall|j: int|
                0 <= j < i ==> (#[trigger] cs[j])@ != name,
            None => forall|j: int| 0 <= j < cs.len() ==> (#[trigger] cs[j])@ != name,
        },
    decreases cs.len(),
{
    if cs.len() > 0 && cs[0]@ != name {
        let q = cs.drop_first();
        lemma_first_ctx_props(q, name);
        if first_ctx(q, name) is Some {
            let jq = first_ctx(q, name).unwrap();
            assert(cs[jq + 1] == q[jq]);
            assert forall|j: int| 0 <= j < jq + 1 implies (#[trigger] cs[j])@ != name by {
                if j > 0 {
                    assert(cs[j] == q[j - 1]);
                }
            }
        } else {
            assert forall|j: int| 0 <= j < cs.len() implies (#[trigger] cs[j])@ != name by {
                if j > 0 {
                    assert(cs[j] == q[j - 1]);
                }
            }
        }
    }
}

/// Appending one task grows the context's id set by its id exactly
/// when the task is tagged with that context.
pub proof fn lemma_ids_snoc(ts: Seq<Task>, t: Task, ctx: Seq<char>)
    ensures
        t@.context == ctx ==> ids_in_context(ts.push(t), ctx) == ids_in_context(ts, ctx).insert(
            t@.task_id,
        ),
        t@.context != ctx ==> ids_in_context(ts.push(t), ctx) == ids_in_context(ts, ctx),
{
    let grown = ts.push(t);
    let l = ids_in_context(grown, ctx);
    let r = ids_in_context(ts, ctx);
    assert forall|id: Seq<char>| r.contains(id) implies l.contains(id) by {
        let i = choose|i: int|
            0 <= i < ts.len() && (#[trigger] ts[i])@.context == ctx && ts[i]@.task_id == id;
        assert(grown[i] == ts[i]);
    }
    if t@.context == ctx {
        assert(grown[ts.len() as int] == t);
        assert(l.contains(t@.task_id));
        assert forall|id: Seq<char>| l.contains(id) implies r.insert(t@.task_id).contains(id) by {
            let i = choose|i: int|
                0 <= i < grown.len() && (#[trigger] grown[i])@.context == ctx && grown[i]@.task_id
                    == id;
            if i < ts.len() {
                assert(ts[i] == grown[i]);
                assert(r.contains(id));
            }
        }
        assert(l =~= r.insert(t@.task_id));
    } else {
        assert forall|id: Seq<char>| l.contains(id) implies r.contains(id) by {
            let i = choose|i: int|
                0 <= i < grown.len() && (#[trigger] grown[i])@.context == ctx && grown[i]@.task_id
                    == id;
            assert(i < ts.len());
            assert(ts[i] == grown[i]);
        }
        assert(l =~= r);
    }
}

// ---------------------------------------------------------------------
// The free helper the request layer uses.
// ---------------------------------------------------------------------

/// The current context of an ordered context list: its first entry.
pub fn current_context(contexts: &[TaskContext]) -> (r: TaskContext)
    requires
        contexts@.len() > 0,
    ensures
        r@ == contexts@[0]@,
{
    contexts[0].clone()
}

impl TaskManager {
    /// A manager over freshly loaded stores. The scheduler must be
    /// fresh (no live timers). Loaded stores are normalized: an empty
    /// or default-less context list gains the built-in default context
    /// at the end, and a store holding two tasks with one id is
    /// rejected as corrupt. Every task of the current context is
    /// activated.
    pub fn new(tasks: Vec<Task>, contexts: Vec<TaskContext>, scheduler: Scheduler) -> (r: Result<
        TaskManager,
        FmnError,
    >)
        requires
            scheduler.live_ids() == Set::<Seq<char>>::empty(),
            scheduler.pending@.len() == 0,
        ensures
            r is Ok <==> distinct_ids(tasks@),
            match r {
                Ok(m) => {
                    &&& m.wf()
                    &&& m.tasks@ == tasks@
                    &&& (if first_ctx(contexts@, spec_default_context()) is Some {
                        m.contexts@ == contexts@
                    } else {
                        m.contexts@.len() == contexts@.len() + 1 && m.contexts@.take(
                            contexts@.len() as int,
                        ) == contexts@ && m.contexts@.last()@ == spec_default_context()
                    })
                    &&& m.scheduler.pending@ == add_cmds(tasks@, m.spec_current())
                },
                Err(e) => e is Persistence,
            },
    {
        // reject a corrupt store: two tasks sharing an id
        let n: usize = tasks.len();
        let mut i: usize = 0;
        while i < n
            invariant
                i <= n,
                n == tasks@.len(),
                forall|a: int, b: int| 0 <= a < b < i ==> tasks@[a]@.task_id != tasks@[b]@.task_id,
            decreases n - i,
        {
            let mut j: usize = 0;
            while j < i
                invariant
                    j <= i < n,
                    n == tasks@.len(),
                    forall|b: int| 0 <= b < j ==> tasks@[b]@.task_id != tasks@[i as int]@.task_id,
                decreases i - j,
            {
                if tasks[j].task_id == tasks[i].task_id {
                    proof {
                        assert(!distinct_ids(tasks@));
                    }
                    return Err(
                        FmnError::Persistence(
                            String::from_str("task store holds two tasks with one id"),
                        ),
                    );
                }
                j = j + 1;
            }
            i = i + 1;
        }
        // make sure the built-in default context is present
        let mut contexts = contexts;
        let ghost orig_ctxs = contexts@;
        let mut found_default: bool = false;
        let mut k: usize = 0;
        let dflt = default_context();
        while k < contexts.len() && !found_default
            invariant
                k <= contexts@.len(),
                dflt@ == spec_default_context(),
                !found_default ==> forall|j: int|
                    0 <= j < k ==> (#[trigger] contexts@[j])@ != spec_default_context(),
                found_default ==> first_ctx(contexts@, spec_default_context()) is Some,
            decreases contexts@.len() - k,
        {
            if contexts[k] == dflt {
                proof {
                    lemma_first_ctx_at(contexts@, spec_default_context(), k as int);
                }
                found_default = true;
            }
            k = k + 1;
        }
        if !found_default {
            proof {
                lemma_first_ctx_none(contexts@, spec_default_context());
            }
            contexts.push(dflt);
            proof {
                assert(contexts@.take(orig_ctxs.len() as int) =~= orig_ctxs);
                lemma_first_ctx_props(orig_ctxs, spec_default_context());
                lemma_first_ctx_at(contexts@, spec_default_context(), orig_ctxs.len() as int);
            }
        }
        // activate the tasks of the current context
        let current = current_context(contexts.as_slice());
        let mut scheduler = scheduler;
        let mut a: usize = 0;
        proof {
            assert(tasks@.take(0) =~= Seq::<Task>::empty());
            assert(add_cmds(tasks@.take(0), current@) =~= Seq::<SchedulerCommand>::empty());
            assert(scheduler.live_ids() =~= ids_in_context(tasks@.take(0), current@));
        }
        while a < n
            invariant
                a <= n,
                n == tasks@.len(),
                scheduler.live_ids() == ids_in_context(tasks@.take(a as int), current@),
                scheduler.pending@ == add_cmds(tasks@.take(a as int), current@),
            decreases n - a,
        {
            let ghost pre = tasks@.take(a as int);
            let ghost post = tasks@.take(a + 1);
            proof {
                assert(post.drop_last() =~= pre);
                assert(post.last() == tasks@[a as int]);
            }
            let t = &tasks[a];
            proof {
                assert(post =~= pre.push(tasks@[a as int]));
                lemma_ids_snoc(pre, tasks@[a as int], current@);
            }
            if t.context == current {
                let copy = t.clone();
                let _ = scheduler.add_task(copy);
            }
            a = a + 1;
        }
        proof {
            assert(tasks@.take(n as int) =~= tasks@);
        }
        let m = TaskManager {
            scheduler,
            tasks: SimpleStore::new(tasks),
            contexts: SimpleStore::new(contexts),
        };
        Ok(m)
    }

    /// The name of the current context.
    pub fn current_context(&self) -> (r: TaskContext)
        requires
            self.wf(),
        ensures
            r@ == self.spec_current(),
    {
        self.contexts.get(0).clone()
    }

    /// All stored tasks, in store order, whatever their context.
    pub fn get_tasks(&self) -> (r: Vec<Task>)
        ensures
            r@ == self.tasks@,
    {
        self.tasks.inner()
    }

    /// All contexts, in store order: the current context first.
    pub fn list_context(&self) -> (r: Vec<TaskContext>)
        ensures
            r@ == self.contexts@,
    {
        self.contexts.inner()
    }

    /// Append a context definition. Defining a name twice yields two
    /// entries; duplicates are not checked.
    pub fn define_context(&mut self, context: TaskContext) -> (r: Result<(), FmnError>)
        requires
            old(self).wf(),
        ensures
            r is Ok,
            final(self).contexts@ == old(self).contexts@.push(context),
            final(self).tasks@ == old(self).tasks@,
            final(self).scheduler == old(self).scheduler,
            final(self).wf(),
    {
        self.contexts.push(context);
        proof {
            let cs = self.contexts@;
            let old_cs = old(self).contexts@;
            lemma_first_ctx_props(old_cs, spec_default_context());
            let d = first_ctx(old_cs, spec_default_context()).unwrap();
            lemma_first_ctx_at(cs, spec_default_context(), d);
        }
        Ok(())
    }
}

/// Swap-removing the task at `i` takes exactly its id out of its
/// context's id set, and leaves every other context's set alone.
pub proof fn lemma_ids_swap_remove(ts: Seq<Task>, i: int, ctx: Seq<char>)
    requires
        distinct_ids(ts),
        0 <= i < ts.len(),
    ensures
        ts[i]@.context == ctx ==> ids_in_context(ts.update(i, ts.last()).drop_last(), ctx)
            == ids_in_context(ts, ctx).remove(ts[i]@.task_id),
        ts[i]@.context != ctx ==> ids_in_context(ts.update(i, ts.last()).drop_last(), ctx)
            == ids_in_context(ts, ctx),
{
    let u = ts.update(i, ts.last()).drop_last();
    let l = ids_in_context(u, ctx);
    let r = ids_in_context(ts, ctx);
    assert forall|id: Seq<char>| l.contains(id) implies r.contains(id) && id != ts[i]@.task_id by {
        let k = choose|k: int|
            0 <= k < u.len() && (#[trigger] u[k])@.context == ctx && u[k]@.task_id == id;
        if k == i {
            assert(u[k] == ts[ts.len() - 1]);
        } else {
            assert(u[k] == ts[k]);
        }
    }
    if ts[i]@.context == ctx {
        assert forall|id: Seq<char>| r.remove(ts[i]@.task_id).contains(id) implies l.contains(
            id,
        ) by {
            let k = choose|k: int|
                0 <= k < ts.len() && (#[trigger] ts[k])@.context == ctx && ts[k]@.task_id == id;
            assert(k != i);
            if k == ts.len() - 1 {
                assert(u[i] == ts[k]);
            } else {
                assert(u[k] == ts[k]);
            }
        }
        assert(l =~= r.remove(ts[i]@.task_id));
    } else {
        assert forall|id: Seq<char>| r.contains(id) implies l.contains(id) by {
            let k = choose|k: int|
                0 <= k < ts.len() && (#[trigger] ts[k])@.context == ctx && ts[k]@.task_id == id;
            assert(k != i);
            if k == ts.len() - 1 {
                assert(u[i] == ts[k]);
            } else {
                assert(u[k] == ts[k]);
            }
        }
        assert(l =~= r);
    }
}

/// Every task the sweep keeps was stored and survives the sweep test;
/// every stored task that survives the test is kept.
pub proof fn lemma_sweep_elems(ts: Seq<Task>, now: int)
    ensures
        forall|k: int|
            0 <= k < sweep(ts, now).len() ==> spec_keep(#[trigger] sweep(ts, now)[k], now) && exists|
                k2: int,
            | 0 <= k2 < ts.len() && ts[k2] == sweep(ts, now)[k],
        forall|k2: int|
            0 <= k2 < ts.len() && spec_keep(#[trigger] ts[k2], now) ==> exists|k: int|
                0 <= k < sweep(ts, now).len() && sweep(ts, now)[k] == ts[k2],
    decreases ts.len(),
{
    if ts.len() > 0 {
        let pre = ts.drop_last();
        lemma_sweep_elems(pre, now);
        let s = sweep(ts, now);
        let sp = sweep(pre, now);
        assert forall|k: int| 0 <= k < s.len() implies spec_keep(#[trigger] s[k], now) && exists|
            k2: int,
        | 0 <= k2 < ts.len() && ts[k2] == s[k] by {
            if k < sp.len() {
                assert(s[k] == sp[k]);
                let k2 = choose|k2: int| 0 <= k2 < pre.len() && pre[k2] == sp[k];
                assert(ts[k2] == s[k]);
            } else {
                assert(s[k] == ts.last());
                assert(ts[ts.len() - 1] == s[k]);
            }
        }
        assert forall|k2: int| 0 <= k2 < ts.len() && spec_keep(#[trigger] ts[k2], now) implies
            exists|k: int| 0 <= k < s.len() && s[k] == ts[k2] by {
            if k2 < ts.len() - 1 {
                assert(pre[k2] == ts[k2]);
                let k = choose|k: int| 0 <= k < sp.len() && sp[k] == pre[k2];
                assert(s[k] == ts[k2]);
            } else {
                assert(s[s.len() - 1] == ts[k2]);
            }
        }
    }
}

/// The sweep keeps ids distinct.
pub proof fn lemma_sweep_distinct(ts: Seq<Task>, now: int)
    requires
        distinct_ids(ts),
    ensures
        distinct_ids(sweep(ts, now)),
    decreases ts.len(),
{
    if ts.len() > 0 {
        let pre = ts.drop_last();
        assert(distinct_ids(pre)) by {
            assert forall|i: int, j: int| 0 <= i < j < pre.len() implies pre[i]@.task_id
                != pre[j]@.task_id by {
                assert(pre[i] == ts[i] && pre[j] == ts[j]);
            }
        }
        lemma_sweep_distinct(pre, now);
        lemma_sweep_elems(pre, now);
        let s = sweep(ts, now);
        let sp = sweep(pre, now);
        if spec_keep(ts.last(), now) {
            assert forall|i: int, j: int| 0 <= i < j < s.len() implies s[i]@.task_id
                != s[j]@.task_id by {
                if j < sp.len() {
                    assert(s[i] == sp[i] && s[j] == sp[j]);
                } else {
                    assert(s[i] == sp[i]);
                    assert(s[j] == ts.last());
                    let k2 = choose|k2: int| 0 <= k2 < pre.len() && pre[k2] == sp[i];
                    assert(ts[k2] == sp[i]);
                    assert(ts[k2]@.task_id != ts[ts.len() - 1]@.task_id);
                }
            }
        }
    }
}

/// The sweep only ever shrinks a context's id set.
pub proof fn lemma_sweep_ids_subset(ts: Seq<Task>, now: int, ctx: Seq<char>)
    ensures
        ids_in_context(sweep(ts, now), ctx).subset_of(ids_in_context(ts, ctx)),
{
    lemma_sweep_elems(ts, now);
    let s = sweep(ts, now);
    assert forall|id: Seq<char>| ids_in_context(s, ctx).contains(id) implies ids_in_context(
        ts,
        ctx,
    ).contains(id) by {
        let k = choose|k: int|
            0 <= k < s.len() && (#[trigger] s[k])@.context == ctx && s[k]@.task_id == id;
        let k2 = choose|k2: int| 0 <= k2 < ts.len() && ts[k2] == s[k];
        assert(ts[k2]@.context == ctx && ts[k2]@.task_id == id);
    }
}

/// Every task the purge keeps was stored and is not tagged `rem`;
/// every stored task not tagged `rem` is kept.
pub proof fn lemma_purge_elems(ts: Seq<Task>, rem: Seq<char>)
    ensures
        forall|k: int|
            0 <= k < remove_ctx_tasks(ts, rem).len() ==> (#[trigger] remove_ctx_tasks(ts, rem)[k])@.context
                != rem && exists|k2: int| 0 <= k2 < ts.len() && ts[k2] == remove_ctx_tasks(ts, rem)[k],
        forall|k2: int|
            0 <= k2 < ts.len() && (#[trigger] ts[k2])@.context != rem ==> exists|k: int|
                0 <= k < remove_ctx_tasks(ts, rem).len() && remove_ctx_tasks(ts, rem)[k] == ts[k2],
    decreases ts.len(),
{
    if ts.len() > 0 {
        let pre = ts.drop_last();
        lemma_purge_elems(pre, rem);
        let s = remove_ctx_tasks(ts, rem);
        let sp = remove_ctx_tasks(pre, rem);
        assert forall|k: int| 0 <= k < s.len() implies (#[trigger] s[k])@.context != rem && exists|
            k2: int,
        | 0 <= k2 < ts.len() && ts[k2] == s[k] by {
            if k < sp.len() {
                assert(s[k] == sp[k]);
                let k2 = choose|k2: int| 0 <= k2 < pre.len() && pre[k2] == sp[k];
                assert(ts[k2] == s[k]);
            } else {
                assert(s[k] == ts.last());
                assert(ts[ts.len() - 1] == s[k]);
            }
        }
        assert forall|k2: int| 0 <= k2 < ts.len() && (#[trigger] ts[k2])@.context != rem implies
            exists|k: int| 0 <= k < s.len() && s[k] == ts[k2] by {
            if k2 < ts.len() - 1 {
                assert(pre[k2] == ts[k2]);
                let k = choose|k: int| 0 <= k < sp.len() && sp[k] == pre[k2];
                assert(s[k] == ts[k2]);
            } else {
                assert(s[s.len() - 1] == ts[k2]);
            }
        }
    }
}

/// The purge keeps ids distinct.
pub proof fn lemma_purge_distinct(ts: Seq<Task>, rem: Seq<char>)
    requires
        distinct_ids(ts),
    ensures
        distinct_ids(remove_ctx_tasks(ts, rem)),
    decreases ts.len(),
{
    if ts.len() > 0 {
        let pre = ts.drop_last();
        assert(distinct_ids(pre)) by {
            assert forall|i: int, j: int| 0 <= i < j < pre.len() implies pre[i]@.task_id
                != pre[j]@.task_id by {
                assert(pre[i] == ts[i] && pre[j] == ts[j]);
            }
        }
        lemma_purge_distinct(pre, rem);
        lemma_purge_elems(pre, rem);
        let s = remove_ctx_tasks(ts, rem);
        let sp = remove_ctx_tasks(pre, rem);
        if ts.last()@.context != rem {
            assert forall|i: int, j: int| 0 <= i < j < s.len() implies s[i]@.task_id
                != s[j]@.task_id by {
                if j < sp.len() {
                    assert(s[i] == sp[i] && s[j] == sp[j]);
                } else {
                    assert(s[i] == sp[i]);
                    assert(s[j] == ts.last());
                    let k2 = choose|k2: int| 0 <= k2 < pre.len() && pre[k2] == sp[i];
                    assert(ts[k2] == sp[i]);
                    assert(ts[k2]@.task_id != ts[ts.len() - 1]@.task_id);
                }
            }
        }
    }
}

/// Purging a context empties its id set and leaves every other
/// context's id set alone.
pub proof fn lemma_purge_ids(ts: Seq<Task>, rem: Seq<char>, ctx: Seq<char>)
    ensures
        ctx == rem ==> ids_in_context(remove_ctx_tasks(ts, rem), ctx) == Set::<Seq<char>>::empty(),
        ctx != rem ==> ids_in_context(remove_ctx_tasks(ts, rem), ctx) == ids_in_context(ts, ctx),
{
    lemma_purge_elems(ts, rem);
    let s = remove_ctx_tasks(ts, rem);
    if ctx == rem {
        assert forall|id: Seq<char>| !ids_in_context(s, ctx).contains(id) by {
            if ids_in_context(s, ctx).contains(id) {
                let k = choose|k: int|
                    0 <= k < s.len() && (#[trigger] s[k])@.context == ctx && s[k]@.task_id == id;
            }
        }
        assert(ids_in_context(s, ctx) =~= Set::<Seq<char>>::empty());
    } else {
        assert forall|id: Seq<char>| ids_in_context(s, ctx).contains(id) implies ids_in_context(
            ts,
            ctx,
        ).contains(id) by {
            let k = choose|k: int|
                0 <= k < s.len() && (#[trigger] s[k])@.context == ctx && s[k]@.task_id == id;
            let k2 = choose|k2: int| 0 <= k2 < ts.len() && ts[k2] == s[k];
            assert(ts[k2]@.context == ctx && ts[k2]@.task_id == id);
        }
        assert forall|id: Seq<char>| ids_in_context(ts, ctx).contains(id) implies ids_in_context(
            s,
            ctx,
        ).contains(id) by {
            let k2 = choose|k2: int|
                0 <= k2 < ts.len() && (#[trigger] ts[k2])@.context == ctx && ts[k2]@.task_id == id;
            assert(ts[k2]@.context != rem);
            let k = choose|k: int| 0 <= k < s.len() && s[k] == ts[k2];
            assert(s[k]@.context == ctx && s[k]@.task_id == id);
        }
        assert(ids_in_context(s, ctx) =~= ids_in_context(ts, ctx));
    }
}

impl TaskManager {
    /// Tag `task` with the current context, store it, and register a
    /// live timer for it. The task's id must be fresh; ids are random
    /// and 21 characters long, so a collision never arises in practice.
    pub fn add_task(&mut self, task: Task) -> (r: Result<(), FmnError>)
        requires
            old(self).wf(),
            forall|i: int|
                0 <= i < old(self).tasks@.len() ==> (#[trigger] old(self).tasks@[i])@.task_id
                    != task@.task_id,
        ensures
            r is Ok,
            final(self).contexts@ == old(self).contexts@,
            final(self).tasks@.len() == old(self).tasks@.len() + 1,
            final(self).tasks@.drop_last() == old(self).tasks@,
            final(self).tasks@.last()@ == (TaskView { context: old(self).spec_current(), ..task@ }),
            final(self).scheduler.live_ids() == old(self).scheduler.live_ids().insert(
                task@.task_id,
            ),
            final(self).scheduler.pending@ == old(self).scheduler.pending@.push(
                SchedulerCommand::Add(final(self).tasks@.last()),
            ),
            final(self).wf(),
    {
        let current = self.current_context();
        let tagged = task.with_context(current);
        let copy = tagged.clone();
        self.tasks.push(copy);
        let ghost stored = old(self).tasks@.push(copy);
        let _ = self.scheduler.add_task(tagged);
        proof {
            assert(self.tasks@ == stored);
            assert(self.tasks@.drop_last() =~= old(self).tasks@);
            lemma_ids_snoc(old(self).tasks@, copy, old(self).spec_current());
            assert(distinct_ids(self.tasks@)) by {
                assert(forall|i: int|
                    0 <= i < old(self).tasks@.len() ==> #[trigger] stored[i] == old(
                        self,
                    ).tasks@[i]);
            }
        }
        Ok(())
    }

    /// Cancel the first task whose id starts with `task_id`: remove it
    /// from the store (the last task takes its place) and signal its
    /// timer. Fails with `NotFound`, changing nothing, exactly when no
    /// stored id starts with the prefix.
    pub fn cancel_task(&mut self, task_id: TaskID) -> (r: Result<(), FmnError>)
        requires
            old(self).wf(),
        ensures
            final(self).contexts@ == old(self).contexts@,
            final(self).wf(),
            match first_match(old(self).tasks@, task_id@) {
                Some(i) => {
                    &&& r is Ok
                    &&& final(self).tasks@ == old(self).tasks@.update(
                        i,
                        old(self).tasks@.last(),
                    ).drop_last()
                    &&& final(self).scheduler.live_ids() == old(self).scheduler.live_ids().remove(
                        old(self).tasks@[i]@.task_id,
                    )
                    &&& final(self).scheduler.pending@ == old(self).scheduler.pending@.push(
                        SchedulerCommand::Cancel(old(self).tasks@[i]),
                    )
                },
                None => {
                    &&& r matches Err(FmnError::NotFound(_))
                    &&& final(self).tasks@ == old(self).tasks@
                    &&& final(self).scheduler == old(self).scheduler
                },
            },
    {
        let n: usize = self.tasks.len();
        let mut i: usize = 0;
        while i < n
            invariant
                i <= n,
                n == self.tasks@.len(),
                *self == *old(self),
                old(self).wf(),
                forall|j: int|
                    0 <= j < i ==> !spec_starts_with(
                        (#[trigger] self.tasks@[j])@.task_id,
                        task_id@,
                    ),
            decreases n - i,
        {
            if str_starts_with(self.tasks.get(i).task_id.as_str(), task_id.as_str()) {
                proof {
                    lemma_first_match_at(self.tasks@, task_id@, i as int);
                }
                let removed = self.tasks.swap_remove(i);
                let ghost removed_view = removed@;
                let _ = self.scheduler.cancel_task(removed);
                proof {
                    lemma_ids_swap_remove(old(self).tasks@, i as int, old(self).spec_current());
                    let u = self.tasks@;
                    let ts = old(self).tasks@;
                    assert(distinct_ids(u)) by {
                        assert forall|a: int, b: int| 0 <= a < b < u.len() implies u[a]@.task_id
                            != u[b]@.task_id by {
                            let a2: int = if a == i { ts.len() - 1 } else { a };
                            let b2: int = if b == i { ts.len() - 1 } else { b };
                            assert(u[a] == ts[a2] && u[b] == ts[b2]);
                        }
                    }
                    if removed_view.context != old(self).spec_current() {
                        assert(!old(self).scheduler.live_ids().contains(removed_view.task_id))
                            by {
                            if ids_in_context(ts, old(self).spec_current()).contains(
                                removed_view.task_id,
                            ) {
                                let k = choose|k: int|
                                    0 <= k < ts.len() && (#[trigger] ts[k])@.context == old(
                                        self,
                                    ).spec_current() && ts[k]@.task_id == removed_view.task_id;
                                assert(k != i);
                                assert(ts[k]@.task_id != ts[i as int]@.task_id);
                            }
                        }
                        assert(self.scheduler.live_ids() =~= old(self).scheduler.live_ids());
                        assert(ids_in_context(u, old(self).spec_current()) =~= old(
                            self,
                        ).scheduler.live_ids());
                    }
                }
                return Ok(());
            }
            i = i + 1;
        }
        proof {
            lemma_first_match_none(self.tasks@, task_id@);
        }
        let msg = String::from_str("no such task found: ").concat(task_id.as_str());
        Err(FmnError::NotFound(msg))
    }

    /// Sweep out every one-shot task whose firing time has passed. Such
    /// a task either already fired (its timer is terminal) or missed
    /// its window across a daemon restart; either way it is gone from
    /// the store, and with it from everything `get_tasks` shows and the
    /// store file holds.
    pub fn refresh_at(&mut self, now: i64) -> (r: Result<(), FmnError>)
        requires
            old(self).wf(),
        ensures
            r is Ok,
            final(self).tasks@ == sweep(old(self).tasks@, now as int),
            final(self).contexts@ == old(self).contexts@,
            final(self).scheduler.pending@ == old(self).scheduler.pending@,
            final(self).wf(),
    {
        let n: usize = self.tasks.len();
        let mut kept: Vec<Task> = Vec::new();
        let mut i: usize = 0;
        proof {
            assert(self.tasks@.take(0) =~= Seq::<Task>::empty());
        }
        while i < n
            invariant
                i <= n,
                n == self.tasks@.len(),
                *self == *old(self),
                kept@ == sweep(self.tasks@.take(i as int), now as int),
            decreases n - i,
        {
            let ghost pre = self.tasks@.take(i as int);
            let ghost post = self.tasks@.take(i + 1);
            proof {
                assert(post.drop_last() =~= pre);
                assert(post.last() == self.tasks@[i as int]);
            }
            let t = self.tasks.get(i);
            let keep = match t.clock_type {
                ClockType::Once(fire_at) => fire_at > now,
                _ => true,
            };
            if keep {
                kept.push(t.clone());
            }
            i = i + 1;
        }
        proof {
            assert(self.tasks@.take(n as int) =~= self.tasks@);
        }
        let ghost ts = old(self).tasks@;
        let ghost cur = old(self).spec_current();
        self.tasks = SimpleStore::new(kept);
        proof {
            lemma_sweep_distinct(ts, now as int);
            lemma_sweep_ids_subset(ts, now as int, cur);
        }
        self.scheduler.retire_to(Ghost(ids_in_context(sweep(ts, now as int), cur)));
        Ok(())
    }

    /// Sweep expired one-shot tasks at the current time.
    pub fn refresh(&mut self) -> (r: Result<(), FmnError>)
        requires
            old(self).wf(),
        ensures
            r is Ok,
            final(self).contexts@ == old(self).contexts@,
            final(self).scheduler.pending@ == old(self).scheduler.pending@,
            final(self).wf(),
            exists|now: int| final(self).tasks@ == sweep(old(self).tasks@, now),
    {
        let now = crate::sys::now_unix();
        let r = self.refresh_at(now);
        proof {
            assert(self.tasks@ == sweep(old(self).tasks@, now as int));
        }
        r
    }

    /// Signal the timer of every task tagged `ctx`, in store order.
    fn deactivate_context(&mut self, ctx: &TaskContext)
        ensures
            final(self).tasks@ == old(self).tasks@,
            final(self).contexts@ == old(self).contexts@,
            final(self).scheduler.live_ids() == old(self).scheduler.live_ids().difference(
                ids_in_context(old(self).tasks@, ctx@),
            ),
            final(self).scheduler.pending@ == old(self).scheduler.pending@ + cancel_cmds(
                old(self).tasks@,
                ctx@,
            ),
    {
        let n: usize = self.tasks.len();
        let mut i: usize = 0;
        proof {
            assert(self.tasks@.take(0) =~= Seq::<Task>::empty());
            assert(self.scheduler.live_ids() =~= old(self).scheduler.live_ids().difference(
                ids_in_context(self.tasks@.take(0), ctx@),
            ));
            assert(self.scheduler.pending@ =~= old(self).scheduler.pending@ + cancel_cmds(
                self.tasks@.take(0),
                ctx@,
            ));
        }
        while i < n
            invariant
                i <= n,
                n == self.tasks@.len(),
                self.tasks@ == old(self).tasks@,
                self.contexts@ == old(self).contexts@,
                self.scheduler.live_ids() == old(self).scheduler.live_ids().difference(
                    ids_in_context(self.tasks@.take(i as int), ctx@),
                ),
                self.scheduler.pending@ == old(self).scheduler.pending@ + cancel_cmds(
                    self.tasks@.take(i as int),
                    ctx@,
                ),
            decreases n - i,
        {
            let ghost pre = self.tasks@.take(i as int);
            let ghost post = self.tasks@.take(i + 1);
            proof {
                assert(post.drop_last() =~= pre);
                assert(post.last() == self.tasks@[i as int]);
                assert(post =~= pre.push(self.tasks@[i as int]));
                lemma_ids_snoc(pre, self.tasks@[i as int], ctx@);
            }
            let t = self.tasks.get(i).clone();
            if t.context == *ctx {
                let ghost id = t@.task_id;
                let _ = self.scheduler.cancel_task(t);
                proof {
                    assert(self.scheduler.live_ids() =~= old(self).scheduler.live_ids().difference(
                        ids_in_context(post, ctx@),
                    ));
                }
            }
            i = i + 1;
        }
        proof {
            assert(self.tasks@.take(n as int) =~= self.tasks@);
        }
    }

    /// Register a timer for every task tagged `ctx`, in store order.
    fn activate_context(&mut self, ctx: &TaskContext)
        ensures
            final(self).tasks@ == old(self).tasks@,
            final(self).contexts@ == old(self).contexts@,
            final(self).scheduler.live_ids() == old(self).scheduler.live_ids().union(
                ids_in_context(old(self).tasks@, ctx@),
            ),
            final(self).scheduler.pending@ == old(self).scheduler.pending@ + add_cmds(
                old(self).tasks@,
                ctx@,
            ),
    {
        let n: usize = self.tasks.len();
        let mut i: usize = 0;
        proof {
            assert(self.tasks@.take(0) =~= Seq::<Task>::empty());
            assert(self.scheduler.live_ids() =~= old(self).scheduler.live_ids().union(
                ids_in_context(self.tasks@.take(0), ctx@),
            ));
            assert(self.scheduler.pending@ =~= old(self).scheduler.pending@ + add_cmds(
                self.tasks@.take(0),
                ctx@,
            ));
        }
        while i < n
            invariant
                i <= n,
                n == self.tasks@.len(),
                self.tasks@ == old(self).tasks@,
                self.contexts@ == old(self).contexts@,
                self.scheduler.live_ids() == old(self).scheduler.live_ids().union(
                    ids_in_context(self.tasks@.take(i as int), ctx@),
                ),
                self.scheduler.pending@ == old(self).scheduler.pending@ + add_cmds(
                    self.tasks@.take(i as int),
                    ctx@,
                ),
            decreases n - i,
        {
            let ghost pre = self.tasks@.take(i as int);
            let ghost post = self.tasks@.take(i + 1);
            proof {
                assert(post.drop_last() =~= pre);
                assert(post.last() == self.tasks@[i as int]);
                assert(post =~= pre.push(self.tasks@[i as int]));
                lemma_ids_snoc(pre, self.tasks@[i as int], ctx@);
            }
            let t = self.tasks.get(i).clone();
            if t.context == *ctx {
                let _ = self.scheduler.add_task(t);
                proof {
                    assert(self.scheduler.live_ids() =~= old(self).scheduler.live_ids().union(
                        ids_in_context(post, ctx@),
                    ));
                }
            }
            i = i + 1;
        }
        proof {
            assert(self.tasks@.take(n as int) =~= self.tasks@);
        }
    }

    /// Make `new_context` current: a no-op when it already is; an error
    /// when it is not defined. Otherwise every timer of the old current
    /// context is cancelled, every task of `new_context` is activated,
    /// and the context store is reordered so `new_context` stands
    /// first.
    pub fn switch_context(&mut self, new_context: TaskContext) -> (r: Result<(), FmnError>)
        requires
            old(self).wf(),
        ensures
            final(self).tasks@ == old(self).tasks@,
            final(self).wf(),
            new_context@ == old(self).spec_current() ==> r is Ok && final(self).contexts@ == old(
                self,
            ).contexts@ && final(self).scheduler == old(self).scheduler,
            new_context@ != old(self).spec_current() && first_ctx(old(self).contexts@,
            new_context@) is None ==> (r matches Err(FmnError::NotFound(_))) && final(self).contexts@
                == old(self).contexts@ && final(self).scheduler == old(self).scheduler,
            new_context@ != old(self).spec_current() && first_ctx(old(self).contexts@,
            new_context@) is Some ==> {
                let p = first_ctx(old(self).contexts@, new_context@).unwrap();
                &&& r is Ok
                &&& final(self).contexts@ == old(self).contexts@.update(
                    0,
                    old(self).contexts@[p],
                ).update(p, old(self).contexts@[0])
                &&& final(self).scheduler.live_ids() == ids_in_context(
                    old(self).tasks@,
                    new_context@,
                )
                &&& final(self).scheduler.pending@ == old(self).scheduler.pending@ + cancel_cmds(
                    old(self).tasks@,
                    old(self).spec_current(),
                ) + add_cmds(old(self).tasks@, new_context@)
            },
    {
        let current = self.current_context();
        if new_context == current {
            return Ok(());
        }
        let n_ctx: usize = self.contexts.len();
        let mut k: usize = 0;
        let mut found = false;
        let mut found_at: usize = 0;
        while k < n_ctx && !found
            invariant
                k <= n_ctx,
                n_ctx == self.contexts@.len(),
                *self == *old(self),
                new_context@ != old(self).spec_current(),
                !found ==> forall|j: int|
                    0 <= j < k ==> (#[trigger] self.contexts@[j])@ != new_context@,
                found ==> first_ctx(self.contexts@, new_context@) == Some(found_at as int)
                    && found_at < n_ctx && self.contexts@[found_at as int]@ == new_context@,
            decreases n_ctx - k,
        {
            if *self.contexts.get(k) == new_context {
                proof {
                    lemma_first_ctx_at(self.contexts@, new_context@, k as int);
                }
                found = true;
                found_at = k;
            }
            k = k + 1;
        }
        if !found {
            proof {
                lemma_first_ctx_none(self.contexts@, new_context@);
            }
            let msg = String::from_str("no such context: ").concat(new_context.as_str());
            return Err(FmnError::NotFound(msg));
        }
        self.deactivate_context(&current);
        proof {
            assert(self.scheduler.live_ids() =~= Set::<Seq<char>>::empty());
        }
        self.activate_context(&new_context);
        proof {
            assert(self.scheduler.live_ids() =~= ids_in_context(old(self).tasks@, new_context@));
            assert(found_at != 0);
        }
        self.contexts.swap(0, found_at);
        proof {
            let cs = self.contexts@;
            let old_cs = old(self).contexts@;
            lemma_first_ctx_props(old_cs, spec_default_context());
            let d = first_ctx(old_cs, spec_default_context()).unwrap();
            let witness: int = if d == 0 {
                found_at as int
            } else if d == found_at {
                0int
            } else {
                d
            };
            assert(cs[witness]@ == spec_default_context());
            lemma_first_ctx_props(cs, spec_default_context());
            if first_ctx(cs, spec_default_context()) is None {
                assert(cs[witness]@ != spec_default_context());
            }
            assert(self.scheduler.pending@ == old(self).scheduler.pending@ + cancel_cmds(
                old(self).tasks@,
                old(self).spec_current(),
            ) + add_cmds(old(self).tasks@, new_context@)) by {
                assert((old(self).scheduler.pending@ + cancel_cmds(
                    old(self).tasks@,
                    old(self).spec_current(),
                )) + add_cmds(old(self).tasks@, new_context@) =~= old(self).scheduler.pending@
                    + cancel_cmds(old(self).tasks@, old(self).spec_current()) + add_cmds(
                    old(self).tasks@,
                    new_context@,
                ));
            }
        }
        Ok(())
    }

    /// Delete every task tagged `ctx` from the store, keeping the order
    /// of the rest. The scheduler is not touched.
    fn purge_tasks(&mut self, ctx: &TaskContext)
        ensures
            final(self).tasks@ == remove_ctx_tasks(old(self).tasks@, ctx@),
            final(self).contexts@ == old(self).contexts@,
            final(self).scheduler == old(self).scheduler,
    {
        let n: usize = self.tasks.len();
        let mut kept: Vec<Task> = Vec::new();
        let mut i: usize = 0;
        proof {
            assert(self.tasks@.take(0) =~= Seq::<Task>::empty());
        }
        while i < n
            invariant
                i <= n,
                n == self.tasks@.len(),
                *self == *old(self),
                kept@ == remove_ctx_tasks(self.tasks@.take(i as int), ctx@),
            decreases n - i,
        {
            let ghost pre = self.tasks@.take(i as int);
            let ghost post = self.tasks@.take(i + 1);
            proof {
                assert(post.drop_last() =~= pre);
                assert(post.last() == self.tasks@[i as int]);
            }
            let t = self.tasks.get(i);
            if !(t.context == *ctx) {
                kept.push(t.clone());
            }
            i = i + 1;
        }
        proof {
            assert(self.tasks@.take(n as int) =~= self.tasks@);
        }
        self.tasks = SimpleStore::new(kept);
    }

    /// Destroy a context: all tasks tagged with it are deleted, and its
    /// entry leaves the context store. Removing the current context
    /// first switches to the built-in default context. The built-in
    /// default context itself cannot leave the store: removing it only
    /// deletes its tasks. Removing an unknown context deletes nothing
    /// and is not an error.
    pub fn remove_context(&mut self, context: TaskContext) -> (r: Result<(), FmnError>)
        requires
            old(self).wf(),
        ensures
            r is Ok,
            final(self).wf(),
            final(self).tasks@ == remove_ctx_tasks(old(self).tasks@, context@),
            context@ == spec_default_context() ==> final(self).contexts@ == old(self).contexts@,
            context@ != spec_default_context() ==> ({
                let cs1 = if old(self).spec_current() == context@ {
                    let p = first_ctx(old(self).contexts@, spec_default_context()).unwrap();
                    old(self).contexts@.update(0, old(self).contexts@[p]).update(
                        p,
                        old(self).contexts@[0],
                    )
                } else {
                    old(self).contexts@
                };
                match first_ctx(cs1, context@) {
                    Some(q) => final(self).contexts@ == cs1.remove(q),
                    None => final(self).contexts@ == cs1,
                }
            }),
            (context@ == spec_default_context() && old(self).spec_current()
                == spec_default_context()) ==> final(self).scheduler.pending@
                == old(self).scheduler.pending@ + cancel_cmds(old(self).tasks@, context@),
            (context@ == spec_default_context() && old(self).spec_current()
                != spec_default_context()) ==> final(self).scheduler.pending@
                == old(self).scheduler.pending@,
            (context@ != spec_default_context() && old(self).spec_current() == context@)
                ==> final(self).scheduler.pending@ == old(self).scheduler.pending@
                + cancel_cmds(old(self).tasks@, context@)
                + add_cmds(old(self).tasks@, spec_default_context()),
            (context@ != spec_default_context() && old(self).spec_current() != context@)
                ==> final(self).scheduler.pending@ == old(self).scheduler.pending@,
    {
        let dflt = default_context();
        if context == dflt {
            let current = self.current_context();
            if current == dflt {
                self.deactivate_context(&context);
                proof {
                    assert(self.scheduler.live_ids() =~= Set::<Seq<char>>::empty());
                }
            }
            self.purge_tasks(&context);
            proof {
                lemma_purge_distinct(old(self).tasks@, context@);
                lemma_purge_ids(old(self).tasks@, context@, self.spec_current());
            }
            return Ok(());
        }
        let current = self.current_context();
        if current == context {
            let sw = self.switch_context(dflt);
            proof {
                assert(first_ctx(old(self).contexts@, spec_default_context()) is Some);
                lemma_first_ctx_props(old(self).contexts@, spec_default_context());
                let p = first_ctx(old(self).contexts@, spec_default_context()).unwrap();
                assert(old(self).contexts@[p]@ == spec_default_context());
                assert(p != 0);
                assert(sw is Ok);
                assert(self.contexts@[0] == old(self).contexts@[p]);
                assert(self.spec_current() == spec_default_context());
            }
        }
        // the context is no longer current; take its entry out of the store
        let ghost cs1 = self.contexts@;
        let ghost sched_snap = self.scheduler;
        let ghost tasks_snap = self.tasks@;
        let n_ctx: usize = self.contexts.len();
        let mut k: usize = 0;
        let mut found = false;
        let mut found_at: usize = 0;
        while k < n_ctx && !found
            invariant
                k <= n_ctx,
                n_ctx == self.contexts@.len(),
                self.contexts@ == cs1,
                self.tasks@ == tasks_snap,
                self.scheduler == sched_snap,
                !found ==> forall|j: int|
                    0 <= j < k ==> (#[trigger] self.contexts@[j])@ != context@,
                found ==> first_ctx(cs1, context@) == Some(found_at as int) && found_at < n_ctx
                    && cs1[found_at as int]@ == context@,
            decreases n_ctx - k,
        {
            if *self.contexts.get(k) == context {
                proof {
                    lemma_first_ctx_at(self.contexts@, context@, k as int);
                }
                found = true;
                found_at = k;
            }
            k = k + 1;
        }
        proof {
            assert(self.spec_current() != context@);
            assert(first_ctx(cs1, spec_default_context()) is Some);
        }
        if found {
            proof {
                assert(cs1[0]@ != context@);
                assert(found_at != 0);
                lemma_first_ctx_props(cs1, spec_default_context());
                let d1 = first_ctx(cs1, spec_default_context()).unwrap();
                assert(cs1[d1]@ == spec_default_context());
                assert(d1 != found_at);
            }
            let _ = self.contexts.remove(found_at);
            proof {
                let cs2 = self.contexts@;
                lemma_first_ctx_props(cs1, spec_default_context());
                let d1 = first_ctx(cs1, spec_default_context()).unwrap();
                let d2: int = if d1 < found_at as int {
                    d1
                } else {
                    d1 - 1
                };
                assert(cs2[d2] == cs1[if d1 < found_at as int {
                    d1
                } else {
                    d1 + 1 - 1
                }]);
                assert(cs2[d2]@ == spec_default_context());
                lemma_first_ctx_props(cs2, spec_default_context());
                if first_ctx(cs2, spec_default_context()) is None {
                    assert(cs2[d2]@ != spec_default_context());
                }
                assert(cs2[0] == cs1[0]);
            }
        } else {
            proof {
                lemma_first_ctx_none(cs1, context@);
            }
        }
        self.purge_tasks(&context);
        proof {
            lemma_purge_distinct(tasks_snap, context@);
            lemma_purge_ids(tasks_snap, context@, self.spec_current());
        }
        Ok(())
    }

    /// The exact contents the task store file must hold: the stores
    /// converge with their files by rewriting the file to this after
    /// every mutation.
    pub fn render_task_store(&self) -> (r: String)
        ensures
            r@ == crate::codec::enc_task_lines(crate::codec::task_views(self.tasks@)),
    {
        crate::codec::encode_tasks(&self.tasks.mem)
    }

    /// The exact contents the context store file must hold.
    pub fn render_context_store(&self) -> (r: String)
        ensures
            r@ == crate::codec::enc_ctx_lines(crate::codec::ctx_views(self.contexts@)),
    {
        crate::codec::encode_contexts(&self.contexts.mem)
    }
}

// ---------------------------------------------------------------------
// Laws of the manager.
// ---------------------------------------------------------------------

/// Cancellation is idempotent: once the task at `i` has been cancelled
/// by its full id, a second cancel of that id matches nothing, so by
/// `cancel_task`'s contract it returns `NotFound` and leaves every
/// remaining task untouched. The premise says no other task's id merely
/// extends this one, which holds of the library's ids: they are all 21
/// characters long, and two distinct equal-length ids never start with
/// one another.
pub proof fn lemma_cancel_idempotent(ts: Seq<Task>, i: int)
    requires
        distinct_ids(ts),
        0 <= i < ts.len(),
        forall|j: int|
            0 <= j < ts.len() && j != i ==> !spec_starts_with(
                (#[trigger] ts[j])@.task_id,
                ts[i]@.task_id,
            ),
    ensures
        first_match(ts, ts[i]@.task_id) == Some(i),
        first_match(ts.update(i, ts.last()).drop_last(), ts[i]@.task_id) is None,
{
    let id = ts[i]@.task_id;
    assert(spec_starts_with(id, id)) by {
        assert(id.take(id.len() as int) =~= id);
    }
    lemma_first_match_at(ts, id, i);
    let u = ts.update(i, ts.last()).drop_last();
    assert forall|j: int| 0 <= j < u.len() implies !spec_starts_with(
        (#[trigger] u[j])@.task_id,
        id,
    ) by {
        if j == i {
            assert(u[j] == ts[ts.len() - 1]);
            assert(ts.len() - 1 != i);
        } else {
            assert(u[j] == ts[j]);
        }
    }
    lemma_first_match_none(u, id);
}

/// The expiry sweep leaves no matured one-shot task behind, and the
/// store file rewritten for the swept store decodes to exactly the
/// swept tasks: an expired task is gone from the listing and from
/// persistent storage alike.
pub proof fn lemma_expiry_sweep(ts: Seq<Task>, now: int)
    ensures
        forall|k: int|
            0 <= k < sweep(ts, now).len() ==> spec_keep(#[trigger] sweep(ts, now)[k], now),
        crate::codec::parse_task_lines(
            crate::codec::enc_task_lines(crate::codec::task_views(sweep(ts, now))),
        ) == Some(crate::codec::task_views(sweep(ts, now))),
{
    lemma_sweep_elems(ts, now);
    let vs = crate::codec::task_views(sweep(ts, now));
    assert forall|k: int| 0 <= k < vs.len() implies crate::codec::task_view_wf(
        #[trigger] vs[k],
    ) by {
        assert(vs[k] == sweep(ts, now)[k]@);
    }
    crate::codec::lemma_tasks_round_trip(vs);
}

/// Context isolation: a task holds a live timer exactly when its
/// context is the current one. Tasks defined under another context are
/// not scheduled; switching activates exactly the tasks of the new
/// current context.
pub proof fn lemma_context_isolation(m: TaskManager, k: int)
    requires
        m.wf(),
        0 <= k < m.tasks@.len(),
    ensures
        m.scheduler.live_ids().contains(m.tasks@[k]@.task_id) <==> m.tasks@[k]@.context
            == m.spec_current(),
{
    let ts = m.tasks@;
    let id = ts[k]@.task_id;
    if m.scheduler.live_ids().contains(id) {
        let k2 = choose|k2: int|
            0 <= k2 < ts.len() && (#[trigger] ts[k2])@.context == m.spec_current()
                && ts[k2]@.task_id == id;
        assert(k2 == k);
    }
}

/// The current context always stands first in what `list_context`
/// returns, and the first entry after a switch to a defined context is
/// that context.
pub proof fn lemma_current_is_first(m: TaskManager, name: Seq<char>)
    requires
        m.wf(),
    ensures
        m.spec_current() == m.contexts@[0]@,
        first_ctx(m.contexts@, name) is Some ==> ({
            let p = first_ctx(m.contexts@, name).unwrap();
            m.contexts@.update(0, m.contexts@[p]).update(p, m.contexts@[0])[0]@ == name
        }),
{
    if first_ctx(m.contexts@, name) is Some {
        lemma_first_ctx_props(m.contexts@, name);
    }
}

} // verus!
