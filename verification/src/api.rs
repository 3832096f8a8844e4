use vstd::prelude::*;
use crate::auth::{AuthGate, refused};
use crate::clock::now_millis;
use crate::docker::FakeDocker;
use crate::endpoint::Endpoint;
use crate::errors::ApiError;
use crate::ids::{new_short_id, is_hex_char, random_u32};
use crate::pool::{Pool, MAX_POOL, CREATE_RETRIES, ep_name, converged, add_error, names_of, lemma_names_of};
use crate::keyed::{has_entry, entry_index};
use crate::registry::{TaskRegistry, IdemEntry, lookup, lookup_key, MAX_IDEM, IDEM_MAX_AGE_MS, started, pruned, with_task, with_entry, idem_pruned, index_of_id};
use crate::seqs::{lemma_filter_take_step, lemma_take_all};
use crate::summary::{count_healthy, status_of, PoolSummary};
use crate::task::{Task, TaskError, TaskStatus};
use crate::ids::short_id;
use crate::text::eq_str;
use crate::json::JsonValue;
use crate::schemas::{validate_scale_target, scale_target_of, validate_proxy_name, proxy_name_of, validate_rotate_scope, rotate_scope_of};
use crate::docker::{container_id_for, DockerView};
use crate::ids::{name_suffix, name_suffix_of};
use crate::registry::conflict_message;

verus! {

/// What the work of a task came to, before it is rendered as the task's JSON result.
#[derive(Debug, PartialEq, Eq)]
pub enum Outcome {
    /// The pool converged: its target and counts afterwards.
    Scaled { target: usize, pool_size: usize, healthy: usize, degraded: usize },
    /// A proxy was created and joined the pool.
    Created(Endpoint),
    /// The named proxy was removed.
    Removed(String),
    /// The proxy's container was recreated.
    Rotated,
    /// The proxy's container was recreated with this id.
    Restarted(String),
    /// These proxies had their containers recreated.
    RotatedAll(Vec<String>),
}

/// How a mutating request was handled.
#[derive(Debug)]
pub enum Dispatch {
    /// The request repeats an earlier one with the same idempotency key: that request's task.
    Replay(Task),
    /// A new task, now running, and what its work came to; it is finished with that outcome.
    Ran { task_id: String, outcome: Result<Outcome, TaskError> },
}

/// `t` is a running task of type `ty` with id `id`, created and started at `now`.
pub open spec fn started_new(t: Task, id: Seq<char>, ty: Seq<char>, now: i64) -> bool {
    &&& t.id@ == id
    &&& t.task_type@ == ty
    &&& t.status == TaskStatus::Running
    &&& t.result is None
    &&& t.error is None
    &&& t.error_code is None
    &&& t.created_at == now
    &&& t.started_at == Some(now)
    &&& t.finished_at is None
}

/// The other task type an idempotency key was already used for at `now`, if it was.
pub open spec fn key_conflict(reg: TaskRegistry, key: Option<String>, ty: Seq<char>, now: i64) -> Option<Seq<char>> {
    match key {
        Some(k) => match reg.spec_get_idempotent(k@, now) {
            Some(t) => if t.task_type@ != ty { Some(t.task_type@) } else { None },
            None => None,
        },
        None => None,
    }
}

/// The earlier task an idempotency key names, when it is of type `ty`.
pub open spec fn replay_of(reg: TaskRegistry, key: Option<String>, ty: Seq<char>, now: i64) -> Option<Task> {
    match key {
        Some(k) => match reg.spec_get_idempotent(k@, now) {
            Some(t) => if t.task_type@ == ty { Some(t) } else { None },
            None => None,
        },
        None => None,
    }
}

/// `after` is `before` with the new task `t` stored and the registry pruned at `now` (as
/// `TaskRegistry::create_at` does), the idempotency key (if any) recorded for `t` at `now`
/// (as `TaskRegistry::set_idempotent_at` does), and `t` then started at `now`.
pub open spec fn stored_and_started(before: TaskRegistry, after: TaskRegistry, key: Option<String>, t: Task, now: i64) -> bool {
    let mid = pruned(with_task(before.tasks_seq(), t), now);
    &&& after.tasks_seq() == mid.update(index_of_id(mid, t.id@), started(t, now))
    &&& match key {
        None => after.idem_seq() == before.idem_seq(),
        Some(k) => idem_pruned(
            mid,
            now,
            with_entry(before.idem_seq(), IdemEntry { key: k, task_id: t.id, created_at: now }),
            after.idem_seq(),
        ),
    }
}

/// A new task `id` of type `ty` was opened: it was stored and started, the earlier tasks
/// and keys were kept as pruning keeps them, and a given idempotency key finds it (when the
/// registry had room for the key).
pub open spec fn opened(before: TaskRegistry, after: TaskRegistry, key: Option<String>, id: Seq<char>, ty: Seq<char>, draws: Draws) -> bool {
    &&& id == short_id(draws.uuid)
    &&& after.spec_get(id) matches Some(t) && started_new(t, id, ty, draws.now)
    &&& exists|t: Task| t.is_new(id, ty, draws.now) && #[trigger] stored_and_started(before, after, key, t, draws.now)
    &&& key matches Some(k) ==> (before.idem_seq().len() < MAX_IDEM ==> {
        &&& lookup_key(after.idem_seq(), k@) matches Some(e) && e.task_id@ == id && e.created_at == draws.now
        &&& after.spec_get_idempotent(k@, draws.now) == after.spec_get(id)
    })
}

/// The values an operation draws from chance and the clock: a UUID for the task it creates,
/// the current time, and random numbers for the names of new containers.
#[derive(Debug)]
pub struct Draws {
    pub uuid: u128,
    pub now: i64,
    pub suffixes: Vec<u32>,
}

/// Random numbers an operation may need: `CREATE_RETRIES` per endpoint of a full pool.
pub const SUFFIXES_NEEDED: usize = 60;

pub open spec fn suffixes_needed() -> nat {
    SUFFIXES_NEEDED as nat
}

/// The first candidate of each of the first `slots` name slots (`sfx[3k]`) differs from
/// that of every other slot.
pub open spec fn first_draws_distinct(sfx: Seq<u32>, slots: int) -> bool {
    forall|a: int, b: int| 0 <= a < b < slots ==> #[trigger] sfx[3 * a] != #[trigger] sfx[3 * b]
}

/// Whether `r` is already the first candidate of a slot in `sfx`.
fn first_taken(sfx: &Vec<u32>, r: u32) -> (b: bool)
    ensures
        b == exists|a: int| 0 <= a && 3 * a < sfx@.len() && #[trigger] sfx@[3 * a] == r,
{
    let mut j: usize = 0;
    while j < sfx.len()
        invariant
            j <= sfx@.len() + 2,
            j % 3 == 0,
            forall|a: int| 0 <= a && 3 * a < j && 3 * a < sfx@.len() ==> #[trigger] sfx@[3 * a] != r,
        decreases sfx@.len() + 3 - j,
    {
        if sfx[j] == r {
            assert(sfx@[3 * (j as int / 3)] == r);
            return true;
        }
        j = j + 3;
    }
    false
}

impl Draws {
    /// Fresh values: a random version-4 UUID, the current time, and `suffixes_needed()`
    /// random numbers in which the first candidates of the name slots differ from each
    /// other (a repeated one is drawn again, up to 16 times); `None` when the random source
    /// fails or keeps repeating.
    pub fn fresh() -> (d: Option<Draws>)
        ensures
            d matches Some(d) ==> {
                &&& d.suffixes@.len() == suffixes_needed()
                &&& (d.uuid >> 76u128) & 0xfu128 == 4 && (d.uuid >> 62u128) & 3u128 == 2
                &&& first_draws_distinct(d.suffixes@, MAX_POOL as int)
            },
    {
        let uuid = crate::ids::fresh_uuid()?;
        let now = now_millis();
        let n = SUFFIXES_NEEDED;
        let mut suffixes: Vec<u32> = Vec::new();
        let mut i: usize = 0;
        while i < n
            invariant
                i <= n,
                n == suffixes_needed(),
                suffixes@.len() == i,
                forall|a: int, b: int| 0 <= a < b && 3 * b < i ==> #[trigger] suffixes@[3 * a] != #[trigger] suffixes@[3 * b],
            decreases n - i,
        {
            let mut r = random_u32()?;
            if i % 3 == 0 {
                let mut tries: usize = 0;
                while first_taken(&suffixes, r)
                    invariant
                        tries <= 16,
                        suffixes@.len() == i,
                    decreases 16 - tries,
                {
                    if tries == 16 {
                        return None;
                    }
                    r = random_u32()?;
                    tries = tries + 1;
                }
            }
            let ghost before = suffixes@;
            suffixes.push(r);
            proof {
                assert forall|a: int, b: int| 0 <= a < b && 3 * b < i + 1
                    implies #[trigger] suffixes@[3 * a] != #[trigger] suffixes@[3 * b] by {
                    assert(suffixes@[3 * a] == before[3 * a]);
                    if 3 * b < i {
                        assert(suffixes@[3 * b] == before[3 * b]);
                    } else {
                        assert(3 * b == i);
                        assert(suffixes@[3 * b] == r);
                        assert(before[3 * a] != r);
                    }
                }
            }
            i = i + 1;
        }
        assert(first_draws_distinct(suffixes@, MAX_POOL as int));
        Some(Draws { uuid, now, suffixes })
    }
}

/// A fresh request id: 16 lower-case hexadecimal digits of a random UUID; `None` when the
/// random source fails.
pub fn new_request_id() -> (rid: Option<String>)
    ensures
        rid matches Some(r) ==> r@.len() == 16 && forall|i: int| 0 <= i < 16 ==> is_hex_char(#[trigger] r@[i]),
{
    new_short_id()
}

/// `/v1/tasks/{task_id}`, where a task's progress is polled.
pub fn task_location(task_id: &str) -> (loc: String)
    ensures
        loc@ == "/v1/tasks/"@ + task_id@,
{
    let mut loc = String::from_str("/v1/tasks/");
    loc.append(task_id);
    loc
}

/// The health report: the pool's state word and counts.
#[derive(Debug, PartialEq, Eq)]
pub struct HealthReport {
    pub status: &'static str,
    pub pool_size: usize,
    pub healthy: usize,
    pub degraded: usize,
}

/// The state behind the API: the pool, the Docker stand-in, the task registry and the
/// authentication gate.
#[derive(Debug)]
pub struct ControlPlane {
    pub pool: Pool,
    pub docker: FakeDocker,
    pub registry: TaskRegistry,
    pub auth: AuthGate,
}

/// The `listing` query of `GET /v1/pool` is absent, `proxies` or `none`.
pub open spec fn listing_valid(listing: Option<Seq<char>>) -> bool {
    match listing {
        None => true,
        Some(q) => q == "proxies"@ || q == "none"@,
    }
}

/// The `healthy` query of `GET /v1/proxies` as a filter: none, or the flag to match.
pub open spec fn healthy_filter(q: Option<Seq<char>>) -> Option<Option<bool>> {
    match q {
        None => Some(None),
        Some(t) => if t == "true"@ {
            Some(Some(true))
        } else if t == "false"@ {
            Some(Some(false))
        } else {
            None
        },
    }
}

pub open spec fn health_matches(f: Option<bool>) -> spec_fn(Endpoint) -> bool {
    |e: Endpoint| match f {
        None => true,
        Some(b) => e.healthy == b,
    }
}

pub open spec fn opt_str(o: Option<&str>) -> Option<Seq<char>> {
    match o {
        Some(s) => Some(s@),
        None => None,
    }
}

/// The name a create request's container gets: the explicit name, else `egressd-` and eight
/// hexadecimal digits of the first random number.
pub open spec fn create_name(explicit: Option<Seq<char>>, draws: Draws) -> Seq<char> {
    match explicit {
        Some(n) => n,
        None => "egressd-"@ + name_suffix(draws.suffixes@[0]),
    }
}

/// Why a create request is refused before any task is opened, if it is.
pub open spec fn create_refusal(c: ControlPlane, idem_key: Option<String>, body: Option<JsonValue>, now: i64) -> Option<(u16, Seq<char>, Seq<char>)> {
    let conflict = key_conflict(c.registry, idem_key, "proxy.create"@, now);
    if conflict is Some {
        Some((409u16, "IDEMPOTENCY_CONFLICT"@, conflict_message(conflict.unwrap())))
    } else if c.pool.endpoints().len() >= MAX_POOL {
        Some((409u16, "POOL_AT_CAPACITY"@, "pool at max size (20)"@))
    } else if body is Some {
        match proxy_name_of(body) {
            Err(msg) => Some((422u16, "VALIDATION_ERROR"@, msg)),
            Ok(Some(n)) => if has_entry(c.pool.endpoints(), ep_name(), n) {
                Some((409u16, "PROXY_EXISTS"@, "proxy "@ + n + " already exists"@))
            } else {
                None
            },
            Ok(None) => None,
        }
    } else {
        None
    }
}

/// `s` with the endpoint named `name` no longer busy.
pub open spec fn released(s: Seq<Endpoint>, name: Seq<char>) -> Seq<Endpoint> {
    if has_entry(s, ep_name(), name) {
        let i = entry_index(s, ep_name(), name);
        s.update(i, Endpoint { busy: false, ..s[i] })
    } else {
        s
    }
}

/// The endpoints a bulk rotation with `scope` covers: all of them, or the unhealthy ones.
pub open spec fn in_scope(scope: Seq<char>) -> spec_fn(Endpoint) -> bool {
    |e: Endpoint| scope == "all"@ || !e.healthy
}

/// The stand-in after recreating the containers `names`, in order.
pub open spec fn recreated_all(d: DockerView, names: Seq<Seq<char>>) -> DockerView
    decreases names.len(),
{
    if names.len() == 0 {
        d
    } else {
        recreated_all(d, names.drop_last()).removed(names.last()).created(names.last())
    }
}

/// `text` is the message `{what} {id} not found`.
pub open spec fn not_found_msg(what: Seq<char>, id: Seq<char>) -> Seq<char> {
    what + " "@ + id + " not found"@
}

impl ControlPlane {
    pub open spec fn wf(&self) -> bool {
        &&& self.pool.wf()
        &&& self.docker.wf()
        &&& self.registry.wf()
        &&& self.auth.wf()
    }

    /// The state of a new control plane: an empty pool wanting `target` endpoints (at most
    /// `MAX_POOL`), no containers, no tasks, and `api_key` (if any) required of requests.
    pub fn new(target: usize, api_key: Option<String>) -> (c: ControlPlane)
        ensures
            c.wf(),
            c.pool.endpoints() == Seq::<Endpoint>::empty(),
            c.pool.spec_target() == if target < MAX_POOL { target } else { MAX_POOL },
            c.registry.tasks_seq() == Seq::<Task>::empty(),
            c.registry.idem_seq() == Seq::<crate::registry::IdemEntry>::empty(),
            c.docker@.containers == Map::<Seq<char>, crate::docker::ContainerView>::empty(),
            c.docker@.names == Map::<Seq<char>, Seq<char>>::empty(),
            c.docker@.volumes == Set::<Seq<char>>::empty(),
            c.auth.key() == match api_key { Some(k) => Some(k@), None => None::<Seq<char>> },
            c.auth.failures() == Map::<Seq<char>, Seq<i64>>::empty(),
    {
        ControlPlane {
            pool: Pool::new(target),
            docker: FakeDocker::new(),
            registry: TaskRegistry::new(),
            auth: AuthGate::new(api_key),
        }
    }

    /// The health report; it needs no authentication.
    pub fn health(&self) -> (h: HealthReport)
        ensures
            h.pool_size == self.pool.endpoints().len(),
            h.healthy == count_healthy(self.pool.endpoints()),
            h.degraded == self.pool.endpoints().len() - count_healthy(self.pool.endpoints()),
            h.status@ == status_of(h.pool_size, h.degraded),
    {
        let s = self.pool.summary(false);
        HealthReport { status: s.status(), pool_size: s.pool_size, healthy: s.healthy, degraded: s.degraded }
    }


    /// Runs the authentication gate for a request at `now`; see `AuthGate::check_at`.
    fn authorize(&mut self, auth: &str, now: i64) -> (r: Result<(), ApiError>)
        requires
            old(self).wf(),
        ensures
            final(self).wf(),
            final(self).pool == old(self).pool,
            final(self).docker == old(self).docker,
            final(self).registry == old(self).registry,
            final(self).auth.key() == old(self).auth.key(),
            old(self).auth.accepts(auth@) ==> r is Ok && final(self).auth.failures() == old(self).auth.failures(),
            !old(self).auth.accepts(auth@) ==> (r matches Err(e) && refused(old(self).auth, final(self).auth, "client"@, now, e)),
    {
        self.auth.check_at(auth, "client", now)
    }

    /// `GET /v1/pool`: the pool summary, listing the proxies unless `listing` is `none`.
    pub fn get_pool(&mut self, auth: &str, listing: Option<&str>, rid: &str, now: i64) -> (r: Result<PoolSummary, ApiError>)
        requires
            old(self).wf(),
        ensures
            final(self).wf(),
            final(self).auth.key() == old(self).auth.key(),
            final(self).pool == old(self).pool,
            final(self).docker == old(self).docker,
            final(self).registry == old(self).registry,
            !old(self).auth.accepts(auth@) ==> (r matches Err(e) && refused(old(self).auth, final(self).auth, "client"@, now, e)),
            old(self).auth.accepts(auth@) ==> {
                let eps = old(self).pool.endpoints();
                &&& final(self).auth.failures() == old(self).auth.failures()
                &&& listing_valid(opt_str(listing)) ==> (r matches Ok(s)
                    && s.target == old(self).pool.spec_target()
                    && s.pool_size == eps.len()
                    && s.healthy == count_healthy(eps)
                    && s.degraded == eps.len() - count_healthy(eps)
                    && s.endpoints@ == if opt_str(listing) == Some("none"@) { Seq::<Endpoint>::empty() } else { eps })
                &&& !listing_valid(opt_str(listing)) ==> (r matches Err(e)
                    && e.is(422, "VALIDATION_ERROR"@, "include must be 'proxies' or 'none'"@, rid@))
            },
    {
        self.authorize(auth, now)?;
        let none = match listing {
            None => false,
            Some(q) => {
                if eq_str(q, "none") {
                    true
                } else if eq_str(q, "proxies") {
                    false
                } else {
                    return Err(ApiError::validation("include must be 'proxies' or 'none'", rid));
                }
            },
        };
        Ok(self.pool.summary(!none))
    }

    /// `GET /v1/proxies`: the endpoints, or only those whose health flag is `healthy`.
    pub fn list_proxies(&mut self, auth: &str, healthy: Option<&str>, rid: &str, now: i64) -> (r: Result<Vec<Endpoint>, ApiError>)
        requires
            old(self).wf(),
        ensures
            final(self).wf(),
            final(self).auth.key() == old(self).auth.key(),
            final(self).pool == old(self).pool,
            final(self).docker == old(self).docker,
            final(self).registry == old(self).registry,
            !old(self).auth.accepts(auth@) ==> (r matches Err(e) && refused(old(self).auth, final(self).auth, "client"@, now, e)),
            old(self).auth.accepts(auth@) ==> {
                &&& final(self).auth.failures() == old(self).auth.failures()
                &&& match healthy_filter(opt_str(healthy)) {
                    Some(f) => r matches Ok(v) && v@ == old(self).pool.endpoints().filter(health_matches(f)),
                    None => r matches Err(e) && e.is(422, "VALIDATION_ERROR"@, "healthy must be 'true' or 'false'"@, rid@),
                }
            },
    {
        self.authorize(auth, now)?;
        let filter: Option<bool> = match healthy {
            None => None,
            Some(q) => {
                if eq_str(q, "true") {
                    Some(true)
                } else if eq_str(q, "false") {
                    Some(false)
                } else {
                    return Err(ApiError::validation("healthy must be 'true' or 'false'", rid));
                }
            },
        };
        let snap = self.pool.snapshot();
        let ghost s = snap@;
        let ghost p = health_matches(filter);
        let mut out: Vec<Endpoint> = Vec::new();
        let mut i: usize = 0;
        while i < snap.len()
            invariant
                snap@ == s,
                i <= s.len(),
                p == health_matches(filter),
                out@ == s.take(i as int).filter(p),
            decreases s.len() - i,
        {
            proof {
                lemma_filter_take_step(s, i as int, p);
            }
            let keep = match filter {
                None => true,
                Some(b) => snap[i].healthy == b,
            };
            if keep {
                out.push(snap[i].clone());
            }
            i = i + 1;
        }
        proof {
            lemma_take_all(s);
        }
        Ok(out)
    }

    /// `GET /v1/proxies/{proxy_id}`.
    pub fn get_proxy(&mut self, auth: &str, proxy_id: &str, rid: &str, now: i64) -> (r: Result<Endpoint, ApiError>)
        requires
            old(self).wf(),
        ensures
            final(self).wf(),
            final(self).auth.key() == old(self).auth.key(),
            final(self).pool == old(self).pool,
            final(self).docker == old(self).docker,
            final(self).registry == old(self).registry,
            !old(self).auth.accepts(auth@) ==> (r matches Err(e) && refused(old(self).auth, final(self).auth, "client"@, now, e)),
            old(self).auth.accepts(auth@) ==> {
                &&& final(self).auth.failures() == old(self).auth.failures()
                &&& match old(self).pool.spec_find(proxy_id@) {
                    Some(ep) => r == Ok::<Endpoint, ApiError>(ep),
                    None => r matches Err(e) && e.is(404, "PROXY_NOT_FOUND"@, not_found_msg("proxy"@, proxy_id@), rid@),
                }
            },
    {
        self.authorize(auth, now)?;
        match self.pool.get(proxy_id) {
            Some(ep) => Ok(ep),
            None => {
                let m = ControlPlane::not_found_text("proxy", proxy_id);
                Err(ApiError::not_found("PROXY_NOT_FOUND", m.as_str(), rid))
            },
        }
    }

    /// `GET /v1/tasks/{task_id}`.
    pub fn get_task(&mut self, auth: &str, task_id: &str, rid: &str, now: i64) -> (r: Result<Task, ApiError>)
        requires
            old(self).wf(),
        ensures
            final(self).wf(),
            final(self).auth.key() == old(self).auth.key(),
            final(self).pool == old(self).pool,
            final(self).docker == old(self).docker,
            final(self).registry == old(self).registry,
            !old(self).auth.accepts(auth@) ==> (r matches Err(e) && refused(old(self).auth, final(self).auth, "client"@, now, e)),
            old(self).auth.accepts(auth@) ==> {
                &&& final(self).auth.failures() == old(self).auth.failures()
                &&& match old(self).registry.spec_get(task_id@) {
                    Some(t) => r == Ok::<Task, ApiError>(t),
                    None => r matches Err(e) && e.is(404, "TASK_NOT_FOUND"@, not_found_msg("task"@, task_id@), rid@),
                }
            },
    {
        self.authorize(auth, now)?;
        match self.registry.get(task_id) {
            Some(t) => Ok(t),
            None => {
                let m = ControlPlane::not_found_text("task", task_id);
                Err(ApiError::not_found("TASK_NOT_FOUND", m.as_str(), rid))
            },
        }
    }


    /// Creates and starts a task of type `task_type` whose id comes from `draws.uuid`, and
    /// records `idem_key` for it.
    fn open_task(&mut self, task_type: &str, idem_key: Option<String>, draws: &Draws) -> (id: String)
        requires
            old(self).wf(),
        ensures
            final(self).wf(),
            final(self).pool == old(self).pool,
            final(self).docker == old(self).docker,
            final(self).auth == old(self).auth,
            opened(old(self).registry, final(self).registry, idem_key, id@, task_type@, *draws),
    {
        let now = draws.now;
        let t = self.registry.create_at(task_type, draws.uuid, now);
        let ghost r1 = self.registry;
        let ghost key = idem_key;
        match idem_key {
            Some(k) => {
                self.registry.set_idempotent_at(k, t.id.clone(), now);
            },
            None => {},
        }
        let ghost r2 = self.registry;
        let found = self.registry.start_task_at(t.id.as_str(), now);
        proof {
            assert(found);
            let mid = pruned(with_task(old(self).registry.tasks_seq(), t), now);
            assert(r1.tasks_seq() == mid);
            assert(r2.tasks_seq() == mid);
            crate::registry::lemma_lookup_at(mid, index_of_id(mid, t.id@));
            assert(stored_and_started(old(self).registry, self.registry, key, t, now));
            if let Some(k) = key {
              if old(self).registry.idem_seq().len() < MAX_IDEM {
                assert(r1.spec_get(t.id@) == Some(t));
                let e = lookup_key(r2.idem_seq(), k@).unwrap();
                assert(e.task_id@ == t.id@);
                assert(e.created_at == now);
                assert(lookup_key(self.registry.idem_seq(), k@) == Some(e));
                assert(self.registry.spec_get_idempotent(k@, now) == self.registry.spec_get(e.task_id@));
              }
            }
        }
        t.id
    }


    /// `PATCH /v1/pool`: sets the target and converges the pool towards it. A request that
    /// repeats the idempotency key of an earlier scale (within a day) gets that scale's task
    /// back; a key used for another type of task is a conflict.
    pub fn patch_pool(&mut self, auth: &str, idem_key: Option<String>, body: &JsonValue, rid: &str, draws: &Draws) -> (r: Result<Dispatch, ApiError>)
        requires
            old(self).wf(),
            draws.suffixes@.len() >= suffixes_needed(),
        ensures
            final(self).wf(),
            final(self).auth.key() == old(self).auth.key(),
            !old(self).auth.accepts(auth@) ==> (r matches Err(e) && refused(old(self).auth, final(self).auth, "client"@, draws.now, e))
                && final(self).pool == old(self).pool && final(self).docker == old(self).docker
                && final(self).registry == old(self).registry,
            old(self).auth.accepts(auth@) ==> {
                &&& final(self).auth.failures() == old(self).auth.failures()
                &&& match replay_of(old(self).registry, idem_key, "pool.scale"@, draws.now) {
                    Some(t) => (r matches Ok(Dispatch::Replay(u)) && u == t)
                        && final(self).pool == old(self).pool && final(self).docker == old(self).docker
                        && final(self).registry == old(self).registry,
                    None => if key_conflict(old(self).registry, idem_key, "pool.scale"@, draws.now) is Some {
                        (r matches Err(e) && e.is(409, "IDEMPOTENCY_CONFLICT"@,
                            conflict_message(key_conflict(old(self).registry, idem_key, "pool.scale"@, draws.now).unwrap()), rid@))
                        && final(self).pool == old(self).pool && final(self).docker == old(self).docker
                        && final(self).registry == old(self).registry
                    } else { match scale_target_of(Some(*body)) {
                        Err(msg) => (r matches Err(e) && e.is(422, "VALIDATION_ERROR"@, msg, rid@))
                            && final(self).pool == old(self).pool && final(self).docker == old(self).docker
                            && final(self).registry == old(self).registry,
                        Ok(n) => r matches Ok(Dispatch::Ran { task_id, outcome }) && {
                            let eps = final(self).pool.endpoints();
                            &&& opened(old(self).registry, final(self).registry, idem_key, task_id@, "pool.scale"@, *draws)
                            &&& final(self).pool.spec_target() == n
                            &&& converged(old(self).pool.endpoints(), n as usize, old(self).docker@, "egressd-"@,
                                draws.suffixes@, draws.now, eps, final(self).docker@)
                            &&& outcome == Ok::<Outcome, TaskError>(Outcome::Scaled {
                                target: n as usize,
                                pool_size: eps.len() as usize,
                                healthy: count_healthy(eps) as usize,
                                degraded: (eps.len() - count_healthy(eps)) as usize,
                            })
                        },
                    } },
                }
            },
    {
        self.authorize(auth, draws.now)?;
        match &idem_key {
            Some(k) => {
                match self.registry.check_idempotent_conflict_at(k.as_str(), "pool.scale", draws.now) {
                    Ok(Some(existing)) => return Ok(Dispatch::Replay(existing)),
                    Err(e) => return Err(ApiError::conflict("IDEMPOTENCY_CONFLICT", e.message.as_str(), rid)),
                    Ok(None) => {},
                }
            },
            None => {},
        }
        let target = match validate_scale_target(Some(body)) {
            Ok(n) => n,
            Err(e) => return Err(ApiError::validation(e.0.as_str(), rid)),
        };
        let task_id = self.open_task("pool.scale", idem_key, draws);
        self.pool.set_target(target);
        self.pool.ensure_count_with(&mut self.docker, "egressd-", &draws.suffixes, draws.now);
        let s = self.pool.summary(false);
        Ok(Dispatch::Ran {
            task_id,
            outcome: Ok(Outcome::Scaled { target: s.target, pool_size: s.pool_size, healthy: s.healthy, degraded: s.degraded }),
        })
    }


    /// `POST /v1/proxies`: creates a proxy container (named by the body, or generated) and
    /// adds it to the pool, raising the target. A request that repeats the idempotency key of
    /// an earlier create gets that task back; a key used for another type of task is a
    /// conflict.
    pub fn create_proxy(&mut self, auth: &str, idem_key: Option<String>, body: Option<&JsonValue>, rid: &str, draws: &Draws) -> (r: Result<Dispatch, ApiError>)
        requires
            old(self).wf(),
            draws.suffixes@.len() >= suffixes_needed(),
        ensures
            final(self).wf(),
            final(self).auth.key() == old(self).auth.key(),
            !old(self).auth.accepts(auth@) ==> (r matches Err(e) && refused(old(self).auth, final(self).auth, "client"@, draws.now, e))
                && final(self).pool == old(self).pool && final(self).docker == old(self).docker
                && final(self).registry == old(self).registry,
            old(self).auth.accepts(auth@) ==> {
                let b = match body { Some(v) => Some(*v), None => None };
                &&& final(self).auth.failures() == old(self).auth.failures()
                &&& match replay_of(old(self).registry, idem_key, "proxy.create"@, draws.now) {
                    Some(t) => (r matches Ok(Dispatch::Replay(u)) && u == t)
                        && final(self).pool == old(self).pool && final(self).docker == old(self).docker
                        && final(self).registry == old(self).registry,
                    None => match create_refusal(*old(self), idem_key, b, draws.now) {
                        Some((status, code, msg)) => (r matches Err(e) && e.is(status, code, msg, rid@))
                            && final(self).pool == old(self).pool && final(self).docker == old(self).docker
                            && final(self).registry == old(self).registry,
                        None => r matches Ok(Dispatch::Ran { task_id, outcome }) && {
                            let explicit = match proxy_name_of(b) { Ok(Some(n)) => Some(n), _ => None };
                            let name = create_name(explicit, *draws);
                            &&& opened(old(self).registry, final(self).registry, idem_key, task_id@, "proxy.create"@, *draws)
                            &&& final(self).docker@ == old(self).docker@.created(name)
                            &&& match add_error(old(self).pool.endpoints(), name) {
                                Some(m) => (outcome matches Err(e) && e.code@ == "CREATE_FAILED"@ && e.message@ == m)
                                    && final(self).pool == old(self).pool,
                                None => outcome matches Ok(Outcome::Created(ep))
                                    && Endpoint::fresh(name, container_id_for(name), draws.now, ep)
                                    && final(self).pool.endpoints() == old(self).pool.endpoints().push(ep)
                                    && final(self).pool.spec_target() == if old(self).pool.spec_target() + 1 < MAX_POOL {
                                        (old(self).pool.spec_target() + 1) as usize
                                    } else {
                                        MAX_POOL
                                    },
                            }
                        },
                    },
                }
            },
    {
        self.authorize(auth, draws.now)?;
        proof {
            reveal_strlit("pool at max size (20)");
        }
        match &idem_key {
            Some(k) => {
                match self.registry.check_idempotent_conflict_at(k.as_str(), "proxy.create", draws.now) {
                    Ok(Some(existing)) => return Ok(Dispatch::Replay(existing)),
                    Err(e) => {
                        let code = if eq_str(e.code.as_str(), "IDEMPOTENCY_CONFLICT") { "IDEMPOTENCY_CONFLICT" } else { "CONFLICT" };
                        return Err(ApiError::conflict(code, e.message.as_str(), rid));
                    },
                    Ok(None) => {},
                }
            },
            None => {},
        }
        if self.pool.pool_size() >= MAX_POOL {
            return Err(ApiError::conflict("POOL_AT_CAPACITY", "pool at max size (20)", rid));
        }
        let mut explicit: Option<String> = None;
        if let Some(b) = body {
            match validate_proxy_name(Some(b)) {
                Err(e) => return Err(ApiError::validation(e.0.as_str(), rid)),
                Ok(Some(name)) => {
                    if self.pool.contains(name.as_str()) {
                        let mut m = String::from_str("proxy ");
                        m.append(name.as_str());
                        m.append(" already exists");
                        return Err(ApiError::conflict("PROXY_EXISTS", m.as_str(), rid));
                    }
                    explicit = Some(name);
                },
                Ok(None) => {},
            }
        }
        let task_id = self.open_task("proxy.create", idem_key, draws);
        let name = match explicit {
            Some(n) => n,
            None => {
                let mut n = String::from_str("egressd-");
                let sfx = name_suffix_of(draws.suffixes[0]);
                n.append(sfx.as_str());
                n
            },
        };
        let cid = self.docker.create(name.as_str(), "warpgate:local", "egressd-net");
        let outcome = match self.pool.add_proxy_at(name, cid, draws.now) {
            Ok(ep) => Ok(Outcome::Created(ep)),
            Err(m) => Err(TaskError { code: String::from_str("CREATE_FAILED"), message: m }),
        };
        Ok(Dispatch::Ran { task_id, outcome })
    }


    /// `DELETE /v1/proxies/{proxy_id}`: removes the proxy, its container and volumes, and
    /// lowers the target.
    pub fn delete_proxy(&mut self, auth: &str, proxy_id: &str, rid: &str, draws: &Draws) -> (r: Result<Dispatch, ApiError>)
        requires
            old(self).wf(),
        ensures
            final(self).wf(),
            final(self).auth.key() == old(self).auth.key(),
            !old(self).auth.accepts(auth@) ==> (r matches Err(e) && refused(old(self).auth, final(self).auth, "client"@, draws.now, e))
                && final(self).pool == old(self).pool && final(self).docker == old(self).docker
                && final(self).registry == old(self).registry,
            old(self).auth.accepts(auth@) ==> {
                &&& final(self).auth.failures() == old(self).auth.failures()
                &&& !has_entry(old(self).pool.endpoints(), ep_name(), proxy_id@) ==>
                    (r matches Err(e) && e.is(404, "PROXY_NOT_FOUND"@, not_found_msg("proxy"@, proxy_id@), rid@))
                    && final(self).pool == old(self).pool && final(self).docker == old(self).docker
                    && final(self).registry == old(self).registry
                &&& has_entry(old(self).pool.endpoints(), ep_name(), proxy_id@) ==>
                    (r matches Ok(Dispatch::Ran { task_id, outcome }) && {
                        &&& opened(old(self).registry, final(self).registry, None, task_id@, "proxy.remove"@, *draws)
                        &&& final(self).pool.endpoints() == old(self).pool.endpoints().remove(
                            entry_index(old(self).pool.endpoints(), ep_name(), proxy_id@))
                        &&& final(self).pool.spec_target() == if old(self).pool.spec_target() > 0 {
                            (old(self).pool.spec_target() - 1) as usize
                        } else {
                            0
                        }
                        &&& final(self).docker@ == old(self).docker@.removed(proxy_id@)
                        &&& outcome matches Ok(Outcome::Removed(n)) && n@ == proxy_id@
                    })
            },
    {
        self.authorize(auth, draws.now)?;
        if !self.pool.contains(proxy_id) {
            let m = ControlPlane::not_found_text("proxy", proxy_id);
            return Err(ApiError::not_found("PROXY_NOT_FOUND", m.as_str(), rid));
        }
        let task_id = self.open_task("proxy.remove", None, draws);
        let outcome = if !self.pool.remove_proxy(&mut self.docker, proxy_id) {
            let m = ControlPlane::not_found_text("proxy", proxy_id);
            Err(TaskError { code: String::from_str("PROXY_NOT_FOUND"), message: m })
        } else {
            Ok(Outcome::Removed(proxy_id.to_owned()))
        };
        Ok(Dispatch::Ran { task_id, outcome })
    }

    /// Recreates the container of the proxy `name` while it is marked busy; it ends not busy.
    fn recreate(&mut self, name: &str)
        requires
            old(self).wf(),
        ensures
            final(self).wf(),
            final(self).registry == old(self).registry,
            final(self).auth == old(self).auth,
            final(self).pool.spec_target() == old(self).pool.spec_target(),
            final(self).pool.endpoints() == released(old(self).pool.endpoints(), name@),
            final(self).docker@ == old(self).docker@.removed(name@).created(name@),
    {
        let ghost s0 = self.pool.endpoints();
        self.pool.set_busy(name, true);
        let _ = self.docker.remove(name);
        let _cid = self.docker.create(name, "warpgate:local", "egressd-net");
        let ghost s1 = self.pool.endpoints();
        self.pool.set_busy(name, false);
        proof {
            if has_entry(s0, ep_name(), name@) {
                let i = entry_index(s0, ep_name(), name@);
                crate::keyed::lemma_entry_at(s1, ep_name(), i);
                assert(self.pool.endpoints() =~= released(s0, name@));
            }
        }
    }

    /// `POST /v1/proxies/{proxy_id}/rotate`: recreates the proxy's container, keeping its name
    /// and volumes; the proxy is busy meanwhile.
    pub fn rotate_proxy(&mut self, auth: &str, proxy_id: &str, rid: &str, draws: &Draws) -> (r: Result<Dispatch, ApiError>)
        requires
            old(self).wf(),
        ensures
            final(self).wf(),
            final(self).auth.key() == old(self).auth.key(),
            !old(self).auth.accepts(auth@) ==> (r matches Err(e) && refused(old(self).auth, final(self).auth, "client"@, draws.now, e))
                && final(self).pool == old(self).pool && final(self).docker == old(self).docker
                && final(self).registry == old(self).registry,
            old(self).auth.accepts(auth@) ==> {
                &&& final(self).auth.failures() == old(self).auth.failures()
                &&& !has_entry(old(self).pool.endpoints(), ep_name(), proxy_id@) ==>
                    (r matches Err(e) && e.is(404, "PROXY_NOT_FOUND"@, not_found_msg("proxy"@, proxy_id@), rid@))
                    && final(self).pool == old(self).pool && final(self).docker == old(self).docker
                    && final(self).registry == old(self).registry
                &&& has_entry(old(self).pool.endpoints(), ep_name(), proxy_id@) ==>
                    (r matches Ok(Dispatch::Ran { task_id, outcome }) && {
                        &&& opened(old(self).registry, final(self).registry, None, task_id@, "proxy.rotate"@, *draws)
                        &&& final(self).pool.spec_target() == old(self).pool.spec_target()
                        &&& final(self).pool.endpoints() == released(old(self).pool.endpoints(), proxy_id@)
                        &&& final(self).docker@ == old(self).docker@.removed(proxy_id@).created(proxy_id@)
                        &&& outcome == Ok::<Outcome, TaskError>(Outcome::Rotated)
                    })
            },
    {
        self.authorize(auth, draws.now)?;
        if !self.pool.contains(proxy_id) {
            let m = ControlPlane::not_found_text("proxy", proxy_id);
            return Err(ApiError::not_found("PROXY_NOT_FOUND", m.as_str(), rid));
        }
        let task_id = self.open_task("proxy.rotate", None, draws);
        self.recreate(proxy_id);
        Ok(Dispatch::Ran { task_id, outcome: Ok(Outcome::Rotated) })
    }

    /// `POST /v1/proxies/{proxy_id}/restart`: removes the proxy's container by its id and
    /// creates it again; the proxy is busy meanwhile.
    pub fn restart_proxy(&mut self, auth: &str, proxy_id: &str, rid: &str, draws: &Draws) -> (r: Result<Dispatch, ApiError>)
        requires
            old(self).wf(),
        ensures
            final(self).wf(),
            final(self).auth.key() == old(self).auth.key(),
            !old(self).auth.accepts(auth@) ==> (r matches Err(e) && refused(old(self).auth, final(self).auth, "client"@, draws.now, e))
                && final(self).pool == old(self).pool && final(self).docker == old(self).docker
                && final(self).registry == old(self).registry,
            old(self).auth.accepts(auth@) ==> {
                &&& final(self).auth.failures() == old(self).auth.failures()
                &&& !has_entry(old(self).pool.endpoints(), ep_name(), proxy_id@) ==>
                    (r matches Err(e) && e.is(404, "PROXY_NOT_FOUND"@, not_found_msg("proxy"@, proxy_id@), rid@))
                    && final(self).pool == old(self).pool && final(self).docker == old(self).docker
                    && final(self).registry == old(self).registry
                &&& has_entry(old(self).pool.endpoints(), ep_name(), proxy_id@) ==>
                    (r matches Ok(Dispatch::Ran { task_id, outcome }) && {
                        let d = old(self).docker@;
                        let d1 = if d.names.contains_key(proxy_id@) { d.removed(d.names[proxy_id@]) } else { d };
                        &&& opened(old(self).registry, final(self).registry, None, task_id@, "proxy.restart"@, *draws)
                        &&& final(self).pool.spec_target() == old(self).pool.spec_target()
                        &&& final(self).pool.endpoints() == released(old(self).pool.endpoints(), proxy_id@)
                        &&& final(self).docker@ == d1.created(proxy_id@)
                        &&& outcome matches Ok(Outcome::Restarted(cid)) && cid@ == container_id_for(proxy_id@)
                    })
            },
    {
        self.authorize(auth, draws.now)?;
        if !self.pool.contains(proxy_id) {
            let m = ControlPlane::not_found_text("proxy", proxy_id);
            return Err(ApiError::not_found("PROXY_NOT_FOUND", m.as_str(), rid));
        }
        let task_id = self.open_task("proxy.restart", None, draws);
        let ghost s0 = self.pool.endpoints();
        self.pool.set_busy(proxy_id, true);
        let old_cid = self.docker.container_id_of(proxy_id);
        if let Some(cid) = old_cid {
            let _ = self.docker.remove(cid.as_str());
        }
        let new_cid = self.docker.create(proxy_id, "warpgate:local", "egressd-net");
        let ghost s1 = self.pool.endpoints();
        self.pool.set_busy(proxy_id, false);
        proof {
            let i = entry_index(s0, ep_name(), proxy_id@);
            crate::keyed::lemma_entry_at(s1, ep_name(), i);
            assert(self.pool.endpoints() =~= released(s0, proxy_id@));
        }
        Ok(Dispatch::Ran { task_id, outcome: Ok(Outcome::Restarted(new_cid)) })
    }


    /// `POST /v1/proxies/rotate`: recreates the containers of every proxy the scope covers
    /// (`unhealthy` by default, or `all`), each busy meanwhile.
    pub fn rotate_proxies_bulk(&mut self, auth: &str, body: Option<&JsonValue>, rid: &str, draws: &Draws) -> (r: Result<Dispatch, ApiError>)
        requires
            old(self).wf(),
        ensures
            final(self).wf(),
            final(self).auth.key() == old(self).auth.key(),
            !old(self).auth.accepts(auth@) ==> (r matches Err(e) && refused(old(self).auth, final(self).auth, "client"@, draws.now, e))
                && final(self).pool == old(self).pool && final(self).docker == old(self).docker
                && final(self).registry == old(self).registry,
            old(self).auth.accepts(auth@) ==> {
                let b = match body { Some(v) => Some(*v), None => None };
                &&& final(self).auth.failures() == old(self).auth.failures()
                &&& match rotate_scope_of(b) {
                    Err(msg) => (r matches Err(e) && e.is(422, "VALIDATION_ERROR"@, msg, rid@))
                        && final(self).pool == old(self).pool && final(self).docker == old(self).docker
                        && final(self).registry == old(self).registry,
                    Ok(scope) => r matches Ok(Dispatch::Ran { task_id, outcome }) && {
                        let s = old(self).pool.endpoints();
                        let names = names_of(s.filter(in_scope(scope)));
                        let f = final(self).pool.endpoints();
                        &&& opened(old(self).registry, final(self).registry, None, task_id@, "proxy.rotate_bulk"@, *draws)
                        &&& final(self).pool.spec_target() == old(self).pool.spec_target()
                        &&& f.len() == s.len()
                        &&& forall|i: int| 0 <= i < s.len() ==> #[trigger] f[i] == if (in_scope(scope))(s[i]) {
                            Endpoint { busy: false, ..s[i] }
                        } else {
                            s[i]
                        }
                        &&& final(self).docker@ == recreated_all(old(self).docker@, names)
                        &&& outcome matches Ok(Outcome::RotatedAll(v)) && v@.len() == names.len()
                            && forall|k: int| 0 <= k < names.len() ==> (#[trigger] v@[k])@ == names[k]
                    },
                }
            },
    {
        self.authorize(auth, draws.now)?;
        let scope = match validate_rotate_scope(body) {
            Ok(sc) => sc,
            Err(e) => return Err(ApiError::validation(e.0.as_str(), rid)),
        };
        let task_id = self.open_task("proxy.rotate_bulk", None, draws);
        let ghost reg1 = self.registry;
        let ghost auth1 = self.auth;
        let all = eq_str(scope.as_str(), "all");
        let snap = self.pool.snapshot();
        let ghost s0 = snap@;
        let ghost p = in_scope(scope@);
        let mut sel: Vec<Endpoint> = Vec::new();
        let mut i: usize = 0;
        while i < snap.len()
            invariant
                snap@ == s0,
                i <= s0.len(),
                p == in_scope(scope@),
                all == (scope@ == "all"@),
                sel@ == s0.take(i as int).filter(p),
            decreases s0.len() - i,
        {
            proof {
                lemma_filter_take_step(s0, i as int, p);
            }
            if all || !snap[i].healthy {
                sel.push(snap[i].clone());
            }
            i = i + 1;
        }
        proof {
            lemma_take_all(s0);
            crate::keyed::lemma_keyed_filter(s0, ep_name(), |e: Endpoint| (), p);
            crate::seqs::lemma_filter_members(s0, p);
            crate::seqs::lemma_filter_keeps(s0, p);
            lemma_names_of(sel@);
        }
        let ghost names = names_of(sel@);
        let ghost d0 = self.docker@;
        let mut names_out: Vec<String> = Vec::new();
        let mut k: usize = 0;
        while k < sel.len()
            invariant
                self.wf(),
                sel@ == s0.filter(p),
                names == names_of(sel@),
                names.len() == sel@.len(),
                forall|q: int| 0 <= q < sel@.len() ==> #[trigger] names[q] == sel@[q].name@,
                crate::keyed::keys_unique(sel@, ep_name()),
                crate::keyed::keys_unique(s0, ep_name()),
                forall|x: Endpoint| #[trigger] sel@.contains(x) ==> p(x) && s0.contains(x),
                p == in_scope(scope@),
                s0 == old(self).pool.endpoints(),
                d0 == old(self).docker@,
                self.registry == reg1,
                self.auth == auth1,
                self.pool.spec_target() == old(self).pool.spec_target(),
                k <= sel@.len(),
                names_out@.len() == k,
                forall|q: int| 0 <= q < k ==> (#[trigger] names_out@[q])@ == names[q],
                self.pool.endpoints().len() == s0.len(),
                forall|j: int| 0 <= j < s0.len() ==> #[trigger] self.pool.endpoints()[j] == if names.take(k as int).contains(s0[j].name@) {
                    Endpoint { busy: false, ..s0[j] }
                } else {
                    s0[j]
                },
                self.docker@ == recreated_all(d0, names.take(k as int)),
            decreases sel@.len() - k,
        {
            let n = sel[k].name.clone();
            let ghost eps = self.pool.endpoints();
            proof {
                assert(sel@.contains(sel@[k as int]));
                let j = choose|j: int| 0 <= j < s0.len() && s0[j] == sel@[k as int];
                assert(s0[j].name@ == n@);
                assert(eps[j].name@ == n@);
                crate::keyed::lemma_entry_at(eps, ep_name(), j);
                assert(!names.take(k as int).contains(n@)) by {
                    if names.take(k as int).contains(n@) {
                        let q = choose|q: int| 0 <= q < k && names.take(k as int)[q] == n@;
                        assert(names[q] == sel@[q].name@);
                        assert(sel@[q].name@ == sel@[k as int].name@);
                    }
                }
                let t1 = names.take(k + 1);
                let t0 = names.take(k as int);
                assert(t1.drop_last() =~= t0);
                assert(t1.last() == n@);
                assert forall|jj: int| 0 <= jj < s0.len() implies #[trigger] t1.contains(s0[jj].name@)
                    == (t0.contains(s0[jj].name@) || s0[jj].name@ == n@) by {
                    if t1.contains(s0[jj].name@) {
                        let q = choose|q: int| 0 <= q < t1.len() && t1[q] == s0[jj].name@;
                        if q < k {
                            assert(t0[q] == s0[jj].name@);
                        }
                    }
                    if t0.contains(s0[jj].name@) {
                        let q = choose|q: int| 0 <= q < t0.len() && t0[q] == s0[jj].name@;
                        assert(t1[q] == s0[jj].name@);
                    }
                    if s0[jj].name@ == n@ {
                        assert(t1[k as int] == n@);
                    }
                }
                assert forall|jj: int| 0 <= jj < s0.len() && jj != j implies s0[jj].name@ != n@ by {}
            }
            self.recreate(n.as_str());
            names_out.push(n);
            k = k + 1;
        }
        proof {
            assert(names.take(sel@.len() as int) =~= names);
            let f = self.pool.endpoints();
            assert forall|j: int| 0 <= j < s0.len() implies #[trigger] f[j] == if p(s0[j]) {
                Endpoint { busy: false, ..s0[j] }
            } else {
                s0[j]
            } by {
                if p(s0[j]) {
                    assert(sel@.contains(s0[j]));
                    let q = choose|q: int| 0 <= q < sel@.len() && sel@[q] == s0[j];
                    assert(names[q] == s0[j].name@);
                    assert(names.contains(s0[j].name@));
                } else {
                    if names.contains(s0[j].name@) {
                        let q = choose|q: int| 0 <= q < names.len() && names[q] == s0[j].name@;
                        assert(sel@.contains(sel@[q]));
                        let jj = choose|jj: int| 0 <= jj < s0.len() && s0[jj] == sel@[q];
                        assert(s0[jj].name@ == s0[j].name@);
                        assert(jj == j);
                    }
                }
            }
        }
        Ok(Dispatch::Ran { task_id, outcome: Ok(Outcome::RotatedAll(names_out)) })
    }

    /// `message` for a 404 about the `what` named `id`.
    fn not_found_text(what: &str, id: &str) -> (m: String)
        ensures
            m@ == not_found_msg(what@, id@),
    {
        let mut m = what.to_owned();
        m.append(" ");
        m.append(id);
        m.append(" not found");
        m
    }
}

} // verus!
