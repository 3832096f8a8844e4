use vstd::prelude::*;
use crate::clock::now_millis;
use crate::ids::{short_id, fresh_uuid, is_hex_char, lemma_hex_digits_shape};
use crate::task::{Task, TaskError, TaskStatus};
use crate::text::eq_str;
use crate::seqs::{lemma_filter_take_step, lemma_take_all, lemma_filter_members, lemma_filter_keeps};

verus! {

/// Most tasks the registry keeps; the oldest go first.
pub const MAX_TASKS: usize = 200;
/// Finished tasks older than this (milliseconds) are dropped.
pub const TASK_MAX_AGE_MS: i64 = 3_600_000;
/// Most idempotency keys the registry keeps.
pub const MAX_IDEM: usize = 200;
/// Idempotency keys, and the tasks they point at, expire after this (milliseconds).
pub const IDEM_MAX_AGE_MS: i64 = 86_400_000;

/// An idempotency key and the task it was first used for.
#[derive(Debug, PartialEq, Eq)]
pub struct IdemEntry {
    pub key: String,
    pub task_id: String,
    /// When the key was recorded, in milliseconds since the epoch.
    pub created_at: i64,
}

impl Clone for IdemEntry {
    fn clone(&self) -> (r: Self)
        ensures
            r == *self,
    {
        IdemEntry { key: self.key.clone(), task_id: self.task_id.clone(), created_at: self.created_at }
    }
}

// ---------------------------------------------------------------------------
// Tasks, in creation order
// ---------------------------------------------------------------------------

/// Some task of `s` has id `id`.
pub open spec fn has_id(s: Seq<Task>, id: Seq<char>) -> bool {
    exists|i: int| 0 <= i < s.len() && (#[trigger] s[i]).id@ == id
}

/// No two tasks of `s` share an id.
pub open spec fn ids_distinct(s: Seq<Task>) -> bool {
    forall|i: int, j: int| 0 <= i < s.len() && 0 <= j < s.len() && i != j ==> (#[trigger] s[i]).id@ != (#[trigger] s[j]).id@
}

/// The position of the task with id `id` in `s` (meaningful when `has_id(s, id)`).
pub open spec fn index_of_id(s: Seq<Task>, id: Seq<char>) -> int {
    choose|i: int| 0 <= i < s.len() && (#[trigger] s[i]).id@ == id
}

/// The task of `s` with id `id`, if any.
pub open spec fn lookup(s: Seq<Task>, id: Seq<char>) -> Option<Task> {
    if has_id(s, id) {
        Some(s[index_of_id(s, id)])
    } else {
        None
    }
}

/// `s` after storing `t`: a task with the same id is replaced, and `t` becomes the newest.
pub open spec fn with_task(s: Seq<Task>, t: Task) -> Seq<Task> {
    if has_id(s, t.id@) {
        s.remove(index_of_id(s, t.id@)).push(t)
    } else {
        s.push(t)
    }
}

/// The newest `MAX_TASKS` tasks of `s`.
pub open spec fn capped(s: Seq<Task>) -> Seq<Task> {
    if s.len() > MAX_TASKS {
        s.subrange(s.len() - MAX_TASKS, s.len() as int)
    } else {
        s
    }
}

/// The task finished more than `TASK_MAX_AGE_MS` before `now`.
pub open spec fn expired(t: Task, now: i64) -> bool {
    match t.finished_at {
        Some(f) => f < now - TASK_MAX_AGE_MS,
        None => false,
    }
}

pub open spec fn not_expired(now: i64) -> spec_fn(Task) -> bool {
    |t: Task| !expired(t, now)
}

/// What pruning at `now` keeps of `s`: the newest `MAX_TASKS`, less the expired ones.
pub open spec fn pruned(s: Seq<Task>, now: i64) -> Seq<Task> {
    capped(s).filter(not_expired(now))
}

pub proof fn lemma_lookup_at(s: Seq<Task>, i: int)
    requires
        ids_distinct(s),
        0 <= i < s.len(),
    ensures
        has_id(s, s[i].id@),
        index_of_id(s, s[i].id@) == i,
        lookup(s, s[i].id@) == Some(s[i]),
{
    assert(has_id(s, s[i].id@));
}

/// Replacing a task by one with the same id changes what that id looks up, and nothing else.
pub proof fn lemma_lookup_update(s: Seq<Task>, i: int, t: Task, id: Seq<char>)
    requires
        ids_distinct(s),
        0 <= i < s.len(),
        t.id@ == s[i].id@,
    ensures
        ids_distinct(s.update(i, t)),
        lookup(s.update(i, t), id) == if id == t.id@ { Some(t) } else { lookup(s, id) },
{
    let u = s.update(i, t);
    assert forall|a: int, b: int| 0 <= a < u.len() && 0 <= b < u.len() && a != b
        implies (#[trigger] u[a]).id@ != (#[trigger] u[b]).id@ by {
        assert(u[a].id@ == s[a].id@);
        assert(u[b].id@ == s[b].id@);
    }
    if id == t.id@ {
        lemma_lookup_at(u, i);
    } else {
        if has_id(u, id) {
            let j = index_of_id(u, id);
            assert(j != i);
            assert(u[j] == s[j]);
            lemma_lookup_at(u, j);
            lemma_lookup_at(s, j);
        } else {
            if has_id(s, id) {
                let j = index_of_id(s, id);
                assert(j != i);
                assert(u[j] == s[j]);
            }
        }
    }
}

// ---------------------------------------------------------------------------
// Idempotency keys
// ---------------------------------------------------------------------------

pub open spec fn has_key(s: Seq<IdemEntry>, key: Seq<char>) -> bool {
    exists|i: int| 0 <= i < s.len() && (#[trigger] s[i]).key@ == key
}

pub open spec fn keys_distinct(s: Seq<IdemEntry>) -> bool {
    forall|i: int, j: int| 0 <= i < s.len() && 0 <= j < s.len() && i != j ==> (#[trigger] s[i]).key@ != (#[trigger] s[j]).key@
}

pub open spec fn index_of_key(s: Seq<IdemEntry>, key: Seq<char>) -> int {
    choose|i: int| 0 <= i < s.len() && (#[trigger] s[i]).key@ == key
}

pub open spec fn lookup_key(s: Seq<IdemEntry>, key: Seq<char>) -> Option<IdemEntry> {
    if has_key(s, key) {
        Some(s[index_of_key(s, key)])
    } else {
        None
    }
}

/// `s` after recording `e`: an entry with the same key is overwritten in place.
pub open spec fn with_entry(s: Seq<IdemEntry>, e: IdemEntry) -> Seq<IdemEntry> {
    if has_key(s, e.key@) {
        s.update(index_of_key(s, e.key@), e)
    } else {
        s.push(e)
    }
}

/// An idempotency key recorded by `e` still holds at `now`: it was recorded less than
/// `IDEM_MAX_AGE_MS` before.
pub open spec fn binding_live(e: IdemEntry, now: i64) -> bool {
    now - e.created_at < IDEM_MAX_AGE_MS
}

/// An entry survives pruning at `now` when its task still exists and neither the task nor
/// the entry is older than `IDEM_MAX_AGE_MS`.
pub open spec fn entry_live(tasks: Seq<Task>, now: i64, e: IdemEntry) -> bool {
    match lookup(tasks, e.task_id@) {
        Some(t) => t.created_at >= now - IDEM_MAX_AGE_MS && e.created_at >= now - IDEM_MAX_AGE_MS,
        None => false,
    }
}

pub open spec fn live_entries(tasks: Seq<Task>, now: i64) -> spec_fn(IdemEntry) -> bool {
    |e: IdemEntry| entry_live(tasks, now, e)
}

/// When the task an entry points at was created (meaningful when the task exists).
pub open spec fn entry_age_key(tasks: Seq<Task>, e: IdemEntry) -> int {
    lookup(tasks, e.task_id@).unwrap().created_at as int
}

/// `after` is what pruning keeps of the idempotency entries `before`: the live ones, and
/// of those at most `MAX_IDEM`, dropping the ones whose tasks are oldest.
pub open spec fn idem_pruned(tasks: Seq<Task>, now: i64, before: Seq<IdemEntry>, after: Seq<IdemEntry>) -> bool {
    let live = before.filter(live_entries(tasks, now));
    &&& after.len() == if live.len() > MAX_IDEM { MAX_IDEM as nat } else { live.len() }
    &&& live.len() <= MAX_IDEM ==> after == live
    &&& forall|i: int| 0 <= i < after.len() ==> live.contains(#[trigger] after[i])
    &&& forall|d: IdemEntry, f: IdemEntry|
        #![trigger live.contains(d), after.contains(f)]
        live.contains(d) && !after.contains(d) && after.contains(f)
            ==> entry_age_key(tasks, d) <= entry_age_key(tasks, f)
}

pub proof fn lemma_lookup_key_at(s: Seq<IdemEntry>, i: int)
    requires
        keys_distinct(s),
        0 <= i < s.len(),
    ensures
        has_key(s, s[i].key@),
        index_of_key(s, s[i].key@) == i,
        lookup_key(s, s[i].key@) == Some(s[i]),
{
    assert(has_key(s, s[i].key@));
}

/// The text of the error a reused idempotency key gives.
pub open spec fn conflict_message(task_type: Seq<char>) -> Seq<char> {
    "idempotency key already used for task type '"@ + task_type + "'"@
}

/// `r` is what checking an idempotency key for a request of type `expected` gives when the
/// key names `found`: the task when it is of that type, else an `IDEMPOTENCY_CONFLICT`
/// error that names the other type.
pub open spec fn conflict_checked(r: Result<Option<Task>, TaskError>, found: Option<Task>, expected: Seq<char>) -> bool {
    match found {
        Some(t) => if t.task_type@ != expected {
            r matches Err(e) && e.code@ == "IDEMPOTENCY_CONFLICT"@ && e.message@ == conflict_message(t.task_type@)
        } else {
            r == Ok::<Option<Task>, TaskError>(Some(t))
        },
        None => r == Ok::<Option<Task>, TaskError>(None),
    }
}

/// `t` marked running, started at `now`.
pub open spec fn started(t: Task, now: i64) -> Task {
    Task { status: TaskStatus::Running, started_at: Some(now), ..t }
}

/// `t` finished at `now` with `outcome`: succeeded with its value, or failed with its error.
pub open spec fn finished(t: Task, outcome: Result<Option<String>, TaskError>, now: i64) -> Task {
    match outcome {
        Ok(r) => Task { status: TaskStatus::Succeeded, result: r, finished_at: Some(now), ..t },
        Err(e) => Task {
            status: TaskStatus::Failed,
            error_code: Some(e.code),
            error: Some(e.message),
            finished_at: Some(now),
            ..t
        },
    }
}

// ---------------------------------------------------------------------------
// The registry

// ---------------------------------------------------------------------------

/// All tasks of the control plane, and the idempotency keys that map to them.
#[derive(Debug)]
pub struct TaskRegistry {
    tasks: Vec<Task>,
    idem: Vec<IdemEntry>,
}

impl TaskRegistry {
    /// The tasks, oldest first.
    pub closed spec fn tasks_seq(&self) -> Seq<Task> {
        self.tasks@
    }

    /// The idempotency entries.
    pub closed spec fn idem_seq(&self) -> Seq<IdemEntry> {
        self.idem@
    }

    /// Ids and keys are unique, and both lists stay within their caps.
    pub open spec fn wf(&self) -> bool {
        &&& ids_distinct(self.tasks_seq())
        &&& keys_distinct(self.idem_seq())
        &&& self.tasks_seq().len() <= MAX_TASKS
        &&& self.idem_seq().len() <= MAX_IDEM
    }

    /// The task with id `id`, as `get` reports it.
    pub open spec fn spec_get(&self, id: Seq<char>) -> Option<Task> {
        lookup(self.tasks_seq(), id)
    }

    /// The task recorded under idempotency key `key`, as `get_idempotent` reports it at
    /// `now`: nothing once the key was recorded `IDEM_MAX_AGE_MS` or more before `now`.
    pub open spec fn spec_get_idempotent(&self, key: Seq<char>, now: i64) -> Option<Task> {
        match lookup_key(self.idem_seq(), key) {
            Some(e) => if binding_live(e, now) { lookup(self.tasks_seq(), e.task_id@) } else { None },
            None => None,
        }
    }

    pub fn new() -> (r: TaskRegistry)
        ensures
            r.wf(),
            r.tasks_seq() == Seq::<Task>::empty(),
            r.idem_seq() == Seq::<IdemEntry>::empty(),
    {
        TaskRegistry { tasks: Vec::new(), idem: Vec::new() }
    }

    /// How many tasks are kept.
    pub fn len(&self) -> (n: usize)
        ensures
            n == self.tasks_seq().len(),
    {
        self.tasks.len()
    }

    /// How many idempotency keys are kept.
    pub fn idem_len(&self) -> (n: usize)
        ensures
            n == self.idem_seq().len(),
    {
        self.idem.len()
    }

    fn find_task(&self, id: &str) -> (r: Option<usize>)
        ensures
            match r {
                Some(i) => i < self.tasks@.len() && self.tasks@[i as int].id@ == id@,
                None => !has_id(self.tasks@, id@),
            },
    {
        let mut i: usize = 0;
        while i < self.tasks.len()
            invariant
                i <= self.tasks@.len(),
                forall|j: int| 0 <= j < i ==> (#[trigger] self.tasks@[j]).id@ != id@,
            decreases self.tasks@.len() - i,
        {
            if eq_str(self.tasks[i].id.as_str(), id) {
                return Some(i);
            }
            i = i + 1;
        }
        None
    }

    fn find_key(&self, key: &str) -> (r: Option<usize>)
        ensures
            match r {
                Some(i) => i < self.idem@.len() && self.idem@[i as int].key@ == key@,
                None => !has_key(self.idem@, key@),
            },
    {
        let mut i: usize = 0;
        while i < self.idem.len()
            invariant
                i <= self.idem@.len(),
                forall|j: int| 0 <= j < i ==> (#[trigger] self.idem@[j]).key@ != key@,
            decreases self.idem@.len() - i,
        {
            if eq_str(self.idem[i].key.as_str(), key) {
                return Some(i);
            }
            i = i + 1;
        }
        None
    }


    /// Drops the oldest tasks beyond `MAX_TASKS`, then every task that finished more than
    /// `TASK_MAX_AGE_MS` before `now`.
    fn prune_at(&mut self, now: i64)
        requires
            ids_distinct(old(self).tasks@),
        ensures
            final(self).tasks@ == pruned(old(self).tasks@, now),
            final(self).idem@ == old(self).idem@,
            ids_distinct(final(self).tasks@),
            final(self).tasks@.len() <= MAX_TASKS,
    {
        if self.tasks.len() > MAX_TASKS {
            let k = self.tasks.len() - MAX_TASKS;
            let newest = self.tasks.split_off(k);
            self.tasks = newest;
        }
        let ghost c = self.tasks@;
        assert(c == capped(old(self).tasks@));
        assert(ids_distinct(c));
        let mut kept: Vec<Task> = Vec::new();
        let mut i: usize = 0;
        while i < self.tasks.len()
            invariant
                self.tasks@ == c,
                ids_distinct(c),
                c.len() <= MAX_TASKS,
                i <= c.len(),
                kept@ == c.take(i as int).filter(not_expired(now)),
                kept@.len() <= i,
                forall|a: int| #![trigger kept@[a]] 0 <= a < kept@.len() ==> exists|j: int| 0 <= j < i && #[trigger] c[j] == kept@[a],
                ids_distinct(kept@),
            decreases c.len() - i,
        {
            proof {
                lemma_filter_take_step(c, i as int, not_expired(now));
            }
            let gone = match self.tasks[i].finished_at {
                Some(f) => (f as i128) < (now as i128) - (TASK_MAX_AGE_MS as i128),
                None => false,
            };
            if !gone {
                let t = self.tasks[i].clone();
                proof {
                    assert forall|a: int| 0 <= a < kept@.len() implies (#[trigger] kept@[a]).id@ != t.id@ by {
                        let j = choose|j: int| 0 <= j < i && #[trigger] c[j] == kept@[a];
                        assert(c[j].id@ != c[i as int].id@);
                    }
                }
                kept.push(t);
                proof {
                    assert forall|a: int| #![trigger kept@[a]] 0 <= a < kept@.len() implies exists|j: int| 0 <= j < i + 1 && #[trigger] c[j] == kept@[a] by {
                        if a == kept@.len() - 1 {
                            assert(c[i as int] == kept@[a]);
                        } else {
                            let j = choose|j: int| 0 <= j < i && #[trigger] c[j] == kept@[a];
                            assert(c[j] == kept@[a]);
                        }
                    }
                }
            } else {
                proof {
                    assert forall|a: int| #![trigger kept@[a]] 0 <= a < kept@.len() implies exists|j: int| 0 <= j < i + 1 && #[trigger] c[j] == kept@[a] by {
                        let j = choose|j: int| 0 <= j < i && #[trigger] c[j] == kept@[a];
                        assert(c[j] == kept@[a]);
                    }
                }
            }
            i = i + 1;
        }
        proof {
            lemma_take_all(c);
        }
        self.tasks = kept;
    }

    /// Registers a new pending task of type `task_type` whose id comes from the UUID `uuid`,
    /// created at `now`, then prunes at `now`. A task that had the same id is replaced.
    pub fn create_at(&mut self, task_type: &str, uuid: u128, now: i64) -> (t: Task)
        requires
            old(self).wf(),
        ensures
            final(self).wf(),
            t.is_new(short_id(uuid), task_type@, now),
            final(self).tasks_seq() == pruned(with_task(old(self).tasks_seq(), t), now),
            final(self).idem_seq() == old(self).idem_seq(),
            final(self).spec_get(t.id@) == Some(t),
    {
        let task = Task::new_at(task_type, uuid, now);
        let ghost s0 = self.tasks@;
        match self.find_task(task.id.as_str()) {
            Some(i) => {
                proof {
                    lemma_lookup_at(s0, i as int);
                }
                self.tasks.remove(i);
                proof {
                    assert forall|j: int| 0 <= j < self.tasks@.len() implies (#[trigger] self.tasks@[j]).id@ != task.id@ by {
                        if j < i {
                            assert(self.tasks@[j] == s0[j]);
                        } else {
                            assert(self.tasks@[j] == s0[j + 1]);
                        }
                    }
                }
            },
            None => {},
        }
        let ghost before_push = self.tasks@;
        self.tasks.push(task.clone());
        proof {
            assert(self.tasks@ == with_task(s0, task));
            assert forall|a: int, b: int| 0 <= a < self.tasks@.len() && 0 <= b < self.tasks@.len() && a != b
                implies (#[trigger] self.tasks@[a]).id@ != (#[trigger] self.tasks@[b]).id@ by {
                if a < before_push.len() && b < before_push.len() {
                    assert(self.tasks@[a] == before_push[a]);
                    assert(self.tasks@[b] == before_push[b]);
                }
            }
        }
        let ghost w = self.tasks@;
        self.prune_at(now);
        proof {
            let c = capped(w);
            let last = w.len() - 1;
            assert(w[last] == task);
            assert(c[c.len() - 1] == task);
            lemma_filter_keeps(c, not_expired(now));
            assert(c.filter(not_expired(now)).contains(c[c.len() - 1]));
            let k = choose|k: int| 0 <= k < self.tasks@.len() && self.tasks@[k] == task;
            lemma_lookup_at(self.tasks@, k);
        }
        task
    }

    /// Registers a new pending task of type `task_type` with a fresh random id, created now,
    /// then prunes; `None`, with nothing changed, when the random source fails.
    pub fn create(&mut self, task_type: &str) -> (r: Option<Task>)
        requires
            old(self).wf(),
        ensures
            final(self).wf(),
            r is None ==> *final(self) == *old(self),
            r matches Some(t) ==> {
                &&& t.is_new(t.id@, task_type@, t.created_at)
                &&& exists|uuid: u128| #[trigger] short_id(uuid) == t.id@
                &&& t.id@.len() == 16
                &&& forall|i: int| 0 <= i < 16 ==> is_hex_char(#[trigger] t.id@[i])
                &&& final(self).tasks_seq() == pruned(with_task(old(self).tasks_seq(), t), t.created_at)
                &&& final(self).idem_seq() == old(self).idem_seq()
                &&& final(self).spec_get(t.id@) == Some(t)
            },
    {
        let uuid = match fresh_uuid() {
            Some(u) => u,
            None => return None,
        };
        let now = now_millis();
        proof {
            lemma_hex_digits_shape((uuid >> 64u128) as nat, 16);
        }
        Some(self.create_at(task_type, uuid, now))
    }

    /// The task with id `id`, to change in place. Changing its id breaks `wf`.
    pub fn get_mut(&mut self, id: &str) -> (r: Option<&mut Task>)
        requires
            old(self).wf(),
        ensures
            r is Some == has_id(old(self).tasks_seq(), id@),
            r matches Some(t) ==> {
                let i = index_of_id(old(self).tasks_seq(), id@);
                &&& *t == old(self).tasks_seq()[i]
                &&& final(self).tasks_seq() == old(self).tasks_seq().update(i, *final(t))
                &&& final(self).idem_seq() == old(self).idem_seq()
            },
            r is None ==> *final(self) == *old(self),
    {
        match self.find_task(id) {
            Some(i) => {
                proof {
                    lemma_lookup_at(self.tasks@, i as int);
                }
                Some(&mut self.tasks[i])
            },
            None => None,
        }
    }


    /// Replaces the task at `i` by `t`, which has the same id.
    fn put_back(&mut self, i: usize, t: Task)
        requires
            ids_distinct(old(self).tasks@),
            i < old(self).tasks@.len(),
            t.id@ == old(self).tasks@[i as int].id@,
        ensures
            final(self).tasks@ == old(self).tasks@.update(i as int, t),
            final(self).idem@ == old(self).idem@,
            ids_distinct(final(self).tasks@),
    {
        self.tasks.set(i, t);
        proof {
            let s = self.tasks@;
            assert forall|a: int, b: int| 0 <= a < s.len() && 0 <= b < s.len() && a != b
                implies (#[trigger] s[a]).id@ != (#[trigger] s[b]).id@ by {
                assert(s[a].id@ == old(self).tasks@[a].id@);
                assert(s[b].id@ == old(self).tasks@[b].id@);
            }
        }
    }

    /// Marks the task with id `id` running, started at `now`; false when there is none.
    pub fn start_task_at(&mut self, id: &str, now: i64) -> (found: bool)
        requires
            old(self).wf(),
        ensures
            final(self).wf(),
            found == has_id(old(self).tasks_seq(), id@),
            final(self).tasks_seq() == if found {
                let i = index_of_id(old(self).tasks_seq(), id@);
                old(self).tasks_seq().update(i, started(old(self).tasks_seq()[i], now))
            } else {
                old(self).tasks_seq()
            },
            final(self).idem_seq() == old(self).idem_seq(),
            found ==> forall|other: Seq<char>| #[trigger] final(self).spec_get(other) == if other == id@ {
                Some(started(old(self).spec_get(id@).unwrap(), now))
            } else {
                old(self).spec_get(other)
            },
    {
        match self.find_task(id) {
            Some(i) => {
                proof {
                    lemma_lookup_at(self.tasks@, i as int);
                }
                let mut t = self.tasks[i].clone();
                t.start_at(now);
                let ghost s0 = self.tasks@;
                self.put_back(i, t);
                proof {
                    assert forall|other: Seq<char>| #[trigger] lookup(self.tasks@, other) == if other == id@ {
                        Some(started(lookup(s0, id@).unwrap(), now))
                    } else {
                        lookup(s0, other)
                    } by {
                        lemma_lookup_update(s0, i as int, t, other);
                    }
                }
                true
            },
            None => false,
        }
    }

    /// Marks the task with id `id` running, started now; false when there is none.
    pub fn start_task(&mut self, id: &str) -> (found: bool)
        requires
            old(self).wf(),
        ensures
            final(self).wf(),
            found == has_id(old(self).tasks_seq(), id@),
            found ==> {
                let i = index_of_id(old(self).tasks_seq(), id@);
                final(self).tasks_seq() == old(self).tasks_seq().update(
                    i, started(old(self).tasks_seq()[i], final(self).tasks_seq()[i].started_at.unwrap()))
            },
            !found ==> final(self).tasks_seq() == old(self).tasks_seq(),
            final(self).idem_seq() == old(self).idem_seq(),
    {
        self.start_task_at(id, now_millis())
    }

    /// Marks the task with id `task_id` running before its work is handed out.
    pub fn submit(&mut self, task_id: &str)
        requires
            old(self).wf(),
        ensures
            final(self).wf(),
            has_id(old(self).tasks_seq(), task_id@) ==> {
                let i = index_of_id(old(self).tasks_seq(), task_id@);
                final(self).tasks_seq() == old(self).tasks_seq().update(
                    i, started(old(self).tasks_seq()[i], final(self).tasks_seq()[i].started_at.unwrap()))
            },
            !has_id(old(self).tasks_seq(), task_id@) ==> final(self).tasks_seq() == old(self).tasks_seq(),
            final(self).idem_seq() == old(self).idem_seq(),
    {
        self.start_task(task_id);
    }

    /// Records the outcome of the task with id `id`, finished at `now`: succeeded with the
    /// value, or failed with the error. False when there is no such task.
    pub fn finish_task_at(&mut self, id: &str, outcome: Result<Option<String>, TaskError>, now: i64) -> (found: bool)
        requires
            old(self).wf(),
        ensures
            final(self).wf(),
            found == has_id(old(self).tasks_seq(), id@),
            final(self).tasks_seq() == if found {
                let i = index_of_id(old(self).tasks_seq(), id@);
                old(self).tasks_seq().update(i, finished(old(self).tasks_seq()[i], outcome, now))
            } else {
                old(self).tasks_seq()
            },
            final(self).idem_seq() == old(self).idem_seq(),
            found ==> forall|other: Seq<char>| #[trigger] final(self).spec_get(other) == if other == id@ {
                Some(finished(old(self).spec_get(id@).unwrap(), outcome, now))
            } else {
                old(self).spec_get(other)
            },
    {
        match self.find_task(id) {
            Some(i) => {
                proof {
                    lemma_lookup_at(self.tasks@, i as int);
                }
                let mut t = self.tasks[i].clone();
                let ghost out = outcome;
                match outcome {
                    Ok(r) => t.succeed_at(r, now),
                    Err(e) => t.fail_at(e, now),
                }
                let ghost s0 = self.tasks@;
                self.put_back(i, t);
                proof {
                    assert forall|other: Seq<char>| #[trigger] lookup(self.tasks@, other) == if other == id@ {
                        Some(finished(lookup(s0, id@).unwrap(), out, now))
                    } else {
                        lookup(s0, other)
                    } by {
                        lemma_lookup_update(s0, i as int, t, other);
                    }
                }
                true
            },
            None => false,
        }
    }

    /// Records the outcome of the task with id `id`, finished now.
    pub fn finish_task(&mut self, id: &str, outcome: Result<Option<String>, TaskError>) -> (found: bool)
        requires
            old(self).wf(),
        ensures
            final(self).wf(),
            found == has_id(old(self).tasks_seq(), id@),
            found ==> {
                let i = index_of_id(old(self).tasks_seq(), id@);
                final(self).tasks_seq() == old(self).tasks_seq().update(
                    i, finished(old(self).tasks_seq()[i], outcome, final(self).tasks_seq()[i].finished_at.unwrap()))
            },
            !found ==> final(self).tasks_seq() == old(self).tasks_seq(),
            final(self).idem_seq() == old(self).idem_seq(),
    {
        self.finish_task_at(id, outcome, now_millis())
    }


    /// When the task of the entry at `k` was created.
    fn entry_task_created(&self, k: usize) -> (c: i64)
        requires
            ids_distinct(self.tasks@),
            k < self.idem@.len(),
            has_id(self.tasks@, self.idem@[k as int].task_id@),
        ensures
            c == entry_age_key(self.tasks@, self.idem@[k as int]),
    {
        match self.find_task(self.idem[k].task_id.as_str()) {
            Some(j) => {
                proof {
                    lemma_lookup_at(self.tasks@, j as int);
                }
                self.tasks[j].created_at
            },
            None => {
                proof {
                    assert(false);
                }
                0
            },
        }
    }

    /// The entry whose task is oldest (the first such entry).
    fn oldest_entry(&self) -> (m: usize)
        requires
            ids_distinct(self.tasks@),
            self.idem@.len() > 0,
            forall|k: int| 0 <= k < self.idem@.len() ==> has_id(self.tasks@, (#[trigger] self.idem@[k]).task_id@),
        ensures
            m < self.idem@.len(),
            forall|k: int| 0 <= k < self.idem@.len() ==>
                entry_age_key(self.tasks@, self.idem@[m as int]) <= entry_age_key(self.tasks@, #[trigger] self.idem@[k]),
    {
        let mut m: usize = 0;
        let mut best = self.entry_task_created(0);
        let mut k: usize = 1;
        while k < self.idem.len()
            invariant
                ids_distinct(self.tasks@),
                forall|q: int| 0 <= q < self.idem@.len() ==> has_id(self.tasks@, (#[trigger] self.idem@[q]).task_id@),
                1 <= k <= self.idem@.len(),
                m < k,
                best == entry_age_key(self.tasks@, self.idem@[m as int]),
                forall|q: int| 0 <= q < k ==> best <= entry_age_key(self.tasks@, #[trigger] self.idem@[q]),
            decreases self.idem@.len() - k,
        {
            let c = self.entry_task_created(k);
            if c < best {
                best = c;
                m = k;
            }
            k = k + 1;
        }
        m
    }

    /// Drops idempotency entries whose task is gone or older than `IDEM_MAX_AGE_MS`, or that
    /// are older than that themselves; then, beyond `MAX_IDEM`, the entries whose tasks are
    /// oldest.
    fn prune_idem_at(&mut self, now: i64)
        requires
            ids_distinct(old(self).tasks@),
            keys_distinct(old(self).idem@),
        ensures
            final(self).tasks@ == old(self).tasks@,
            idem_pruned(old(self).tasks@, now, old(self).idem@, final(self).idem@),
            keys_distinct(final(self).idem@),
            final(self).idem@.len() <= MAX_IDEM,
    {
        let ghost s = self.idem@;
        let ghost ts = self.tasks@;
        let ghost p = live_entries(ts, now);
        let mut kept: Vec<IdemEntry> = Vec::new();
        let mut i: usize = 0;
        while i < self.idem.len()
            invariant
                self.idem@ == s,
                self.tasks@ == ts,
                ids_distinct(ts),
                keys_distinct(s),
                p == live_entries(ts, now),
                i <= s.len(),
                kept@ == s.take(i as int).filter(p),
                forall|a: int| #![trigger kept@[a]] 0 <= a < kept@.len() ==> exists|j: int| 0 <= j < i && #[trigger] s[j] == kept@[a],
                keys_distinct(kept@),
            decreases s.len() - i,
        {
            proof {
                lemma_filter_take_step(s, i as int, p);
            }
            let live = match self.find_task(self.idem[i].task_id.as_str()) {
                Some(j) => {
                    proof {
                        lemma_lookup_at(ts, j as int);
                    }
                    let cutoff = (now as i128) - (IDEM_MAX_AGE_MS as i128);
                    (self.tasks[j].created_at as i128) >= cutoff && (self.idem[i].created_at as i128) >= cutoff
                },
                None => false,
            };
            assert(live == p(s[i as int]));
            if live {
                let e = self.idem[i].clone();
                proof {
                    assert forall|a: int| 0 <= a < kept@.len() implies (#[trigger] kept@[a]).key@ != e.key@ by {
                        let j = choose|j: int| 0 <= j < i && #[trigger] s[j] == kept@[a];
                        assert(s[j].key@ != s[i as int].key@);
                    }
                }
                kept.push(e);
                proof {
                    assert forall|a: int| #![trigger kept@[a]] 0 <= a < kept@.len() implies exists|j: int| 0 <= j < i + 1 && #[trigger] s[j] == kept@[a] by {
                        if a == kept@.len() - 1 {
                            assert(s[i as int] == kept@[a]);
                        } else {
                            let j = choose|j: int| 0 <= j < i && #[trigger] s[j] == kept@[a];
                            assert(s[j] == kept@[a]);
                        }
                    }
                }
            } else {
                proof {
                    assert forall|a: int| #![trigger kept@[a]] 0 <= a < kept@.len() implies exists|j: int| 0 <= j < i + 1 && #[trigger] s[j] == kept@[a] by {
                        let j = choose|j: int| 0 <= j < i && #[trigger] s[j] == kept@[a];
                        assert(s[j] == kept@[a]);
                    }
                }
            }
            i = i + 1;
        }
        proof {
            lemma_take_all(s);
            lemma_filter_members(s, p);
        }
        self.idem = kept;
        let ghost live = self.idem@;
        assert(live == s.filter(p));
        assert forall|q: int| 0 <= q < live.len() implies has_id(ts, (#[trigger] live[q]).task_id@) by {
            assert(live.contains(live[q]));
        }
        while self.idem.len() > MAX_IDEM
            invariant
                self.tasks@ == ts,
                ids_distinct(ts),
                keys_distinct(self.idem@),
                forall|q: int| 0 <= q < live.len() ==> has_id(ts, (#[trigger] live[q]).task_id@),
                forall|q: int| 0 <= q < self.idem@.len() ==> live.contains(#[trigger] self.idem@[q]),
                live.len() > MAX_IDEM ==> self.idem@.len() >= MAX_IDEM,
                live.len() <= MAX_IDEM ==> self.idem@ == live,
                forall|d: IdemEntry, f: IdemEntry|
                    #![trigger live.contains(d), self.idem@.contains(f)]
                    live.contains(d) && !self.idem@.contains(d) && self.idem@.contains(f)
                        ==> entry_age_key(ts, d) <= entry_age_key(ts, f),
            decreases self.idem@.len(),
        {
            let ghost before = self.idem@;
            proof {
                assert forall|k: int| 0 <= k < before.len() implies has_id(ts, (#[trigger] before[k]).task_id@) by {
                    assert(live.contains(before[k]));
                    let q = choose|q: int| 0 <= q < live.len() && live[q] == before[k];
                    assert(has_id(ts, live[q].task_id@));
                }
            }
            let m = self.oldest_entry();
            self.idem.remove(m);
            proof {
                let after = self.idem@;
                assert forall|k: int| 0 <= k < after.len() implies before.contains(#[trigger] after[k]) by {
                    if k < m {
                        assert(after[k] == before[k]);
                    } else {
                        assert(after[k] == before[k + 1]);
                    }
                }
                assert forall|q: int| 0 <= q < after.len() implies live.contains(#[trigger] after[q]) by {
                    assert(before.contains(after[q]));
                    let k = choose|k: int| 0 <= k < before.len() && before[k] == after[q];
                    assert(live.contains(before[k]));
                }
                assert forall|a: int, b: int| 0 <= a < after.len() && 0 <= b < after.len() && a != b
                    implies (#[trigger] after[a]).key@ != (#[trigger] after[b]).key@ by {
                    let a0 = if a < m { a } else { a + 1 };
                    let b0 = if b < m { b } else { b + 1 };
                    assert(after[a] == before[a0]);
                    assert(after[b] == before[b0]);
                }
                assert forall|d: IdemEntry, f: IdemEntry|
                    #![trigger live.contains(d), after.contains(f)]
                    live.contains(d) && !after.contains(d) && after.contains(f)
                        implies entry_age_key(ts, d) <= entry_age_key(ts, f) by {
                    let kf = choose|kf: int| 0 <= kf < after.len() && after[kf] == f;
                    assert(before.contains(after[kf]));
                    let bf = choose|bf: int| 0 <= bf < before.len() && before[bf] == f;
                    if before.contains(d) {
                        let kd = choose|kd: int| 0 <= kd < before.len() && before[kd] == d;
                        if kd != m {
                            let ka = if kd < m { kd } else { kd - 1 };
                            assert(after[ka] == d);
                            assert(false);
                        }
                        assert(entry_age_key(ts, before[m as int]) <= entry_age_key(ts, before[bf]));
                    }
                }
            }
        }
    }

    /// The task recorded under idempotency key `key`, read at `now`: while that task still
    /// exists and the key was recorded less than `IDEM_MAX_AGE_MS` before `now`.
    pub fn get_idempotent_at(&self, key: &str, now: i64) -> (r: Option<Task>)
        requires
            self.wf(),
        ensures
            r == self.spec_get_idempotent(key@, now),
    {
        match self.find_key(key) {
            Some(i) => {
                proof {
                    lemma_lookup_key_at(self.idem@, i as int);
                }
                if (now as i128) - (self.idem[i].created_at as i128) < IDEM_MAX_AGE_MS as i128 {
                    self.get(self.idem[i].task_id.as_str())
                } else {
                    None
                }
            },
            None => None,
        }
    }

    /// The task recorded under idempotency key `key`, read now.
    pub fn get_idempotent(&self, key: &str) -> (r: Option<Task>)
        requires
            self.wf(),
        ensures
            exists|now: i64| r == #[trigger] self.spec_get_idempotent(key@, now),
    {
        let now = now_millis();
        self.get_idempotent_at(key, now)
    }

    /// Records that idempotency key `key` was used for task `task_id` at `now`, then prunes
    /// the idempotency entries at `now`.
    pub fn set_idempotent_at(&mut self, key: String, task_id: String, now: i64)
        requires
            old(self).wf(),
        ensures
            final(self).wf(),
            final(self).tasks_seq() == old(self).tasks_seq(),
            idem_pruned(
                old(self).tasks_seq(),
                now,
                with_entry(old(self).idem_seq(), IdemEntry { key: key, task_id: task_id, created_at: now }),
                final(self).idem_seq(),
            ),
            // With room under the cap, a key recorded for a task that exists and is younger
            // than `IDEM_MAX_AGE_MS` reads back that task.
            old(self).idem_seq().len() < MAX_IDEM && has_id(old(self).tasks_seq(), task_id@)
                && lookup(old(self).tasks_seq(), task_id@).unwrap().created_at >= now - IDEM_MAX_AGE_MS
                ==> lookup_key(final(self).idem_seq(), key@) == Some(IdemEntry { key: key, task_id: task_id, created_at: now })
                    && final(self).spec_get_idempotent(key@, now) == lookup(old(self).tasks_seq(), task_id@),
    {
        let ghost s0 = self.idem@;
        let e = IdemEntry { key, task_id, created_at: now };
        let ghost eg = e;
        match self.find_key(e.key.as_str()) {
            Some(i) => {
                proof {
                    lemma_lookup_key_at(s0, i as int);
                }
                self.idem.set(i, e);
                proof {
                    let s1 = self.idem@;
                    assert forall|a: int, b: int| 0 <= a < s1.len() && 0 <= b < s1.len() && a != b
                        implies (#[trigger] s1[a]).key@ != (#[trigger] s1[b]).key@ by {
                        assert(s1[a].key@ == s0[a].key@);
                        assert(s1[b].key@ == s0[b].key@);
                    }
                }
            },
            None => {
                self.idem.push(e);
                proof {
                    let s1 = self.idem@;
                    assert forall|a: int, b: int| 0 <= a < s1.len() && 0 <= b < s1.len() && a != b
                        implies (#[trigger] s1[a]).key@ != (#[trigger] s1[b]).key@ by {
                        if a < s0.len() && b < s0.len() {
                            assert(s1[a] == s0[a]);
                            assert(s1[b] == s0[b]);
                        } else if a < s0.len() {
                            assert(s1[a] == s0[a]);
                        } else {
                            assert(s1[b] == s0[b]);
                        }
                    }
                }
            },
        }
        assert(self.idem@ == with_entry(s0, eg));
        let ghost w = self.idem@;
        self.prune_idem_at(now);
        proof {
            if s0.len() < MAX_IDEM && has_id(self.tasks@, eg.task_id@)
                && lookup(self.tasks@, eg.task_id@).unwrap().created_at >= now - IDEM_MAX_AGE_MS {
                let p = live_entries(self.tasks@, now);
                lemma_filter_keeps(w, p);
                let k = if has_key(s0, eg.key@) { index_of_key(s0, eg.key@) } else { s0.len() as int };
                assert(w[k] == eg);
                assert(p(w[k]));
                assert(w.filter(p).contains(eg));
                assert(self.idem@ == w.filter(p));
                let q = choose|q: int| 0 <= q < self.idem@.len() && self.idem@[q] == eg;
                lemma_lookup_key_at(self.idem@, q);
            }
        }
    }

    /// Records that idempotency key `key` was used for task `task_id`, now, then prunes.
    pub fn set_idempotent(&mut self, key: String, task_id: String)
        requires
            old(self).wf(),
        ensures
            final(self).wf(),
            final(self).tasks_seq() == old(self).tasks_seq(),
            exists|now: i64| idem_pruned(
                old(self).tasks_seq(),
                now,
                #[trigger] with_entry(old(self).idem_seq(), IdemEntry { key: key, task_id: task_id, created_at: now }),
                final(self).idem_seq(),
            ),
    {
        self.set_idempotent_at(key, task_id, now_millis())
    }

    /// The task already recorded under `key` at `now`, if any; an `IDEMPOTENCY_CONFLICT` error
    /// when that task is of another type than `expected_type`.
    pub fn check_idempotent_conflict_at(&self, key: &str, expected_type: &str, now: i64) -> (r: Result<Option<Task>, TaskError>)
        requires
            self.wf(),
        ensures
            conflict_checked(r, self.spec_get_idempotent(key@, now), expected_type@),
    {
        match self.get_idempotent_at(key, now) {
            Some(t) => {
                if !eq_str(t.task_type.as_str(), expected_type) {
                    let mut msg = String::from_str("idempotency key already used for task type '");
                    msg.append(t.task_type.as_str());
                    msg.append("'");
                    Err(TaskError { code: String::from_str("IDEMPOTENCY_CONFLICT"), message: msg })
                } else {
                    Ok(Some(t))
                }
            },
            None => Ok(None),
        }
    }

    /// The task already recorded under `key`, read now; see `check_idempotent_conflict_at`.
    pub fn check_idempotent_conflict(&self, key: &str, expected_type: &str) -> (r: Result<Option<Task>, TaskError>)
        requires
            self.wf(),
        ensures
            exists|now: i64| #[trigger] conflict_checked(r, self.spec_get_idempotent(key@, now), expected_type@),
    {
        let now = now_millis();
        self.check_idempotent_conflict_at(key, expected_type, now)
    }

    /// The task with id `id`.
    pub fn get(&self, id: &str) -> (r: Option<Task>)
        requires
            self.wf(),
        ensures
            r == self.spec_get(id@),
    {
        match self.find_task(id) {
            Some(i) => {
                proof {
                    lemma_lookup_at(self.tasks@, i as int);
                }
                Some(self.tasks[i].clone())
            },
            None => None,
        }
    }
}

} // verus!
