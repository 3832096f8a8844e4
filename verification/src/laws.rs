use vstd::prelude::*;
use crate::docker::{DockerView, container_id_for, data_volume, cache_volume};
use crate::endpoint::Endpoint;
use crate::health::HealthResult;
use crate::keyed::{has_entry, entry_index};
use crate::pool::{MAX_POOL, ep_name, names_of, candidate, pick, fill, evicted, count_idle, survives, converged, add_error, probed, probe_all, probe_for};
use crate::registry::{TaskRegistry, MAX_IDEM, MAX_TASKS, IDEM_MAX_AGE_MS, started, finished, with_task, IdemEntry, with_entry, keys_distinct, has_key, index_of_key, lookup_key, lemma_lookup_key_at, idem_pruned, entry_live, live_entries, binding_live, lookup, entry_age_key, lemma_lookup_at, pruned, capped, expired, not_expired, ids_distinct, has_id, index_of_id};
use crate::task::{Task, TaskError, TaskStatus};
use crate::api::{opened, replay_of, stored_and_started, first_draws_distinct, Draws};
use crate::ids::{short_id, name_suffix, is_hex_char, lemma_hex_digits_shape};
use crate::text::{hex_digits, hex_char};
use crate::seqs::{lemma_filter_keeps, lemma_filter_members};
use crate::summary::count_healthy;

verus! {

/// Scaling down by `k` never takes out a busy endpoint: each busy endpoint of `s` is still
/// in the pool afterwards.
pub proof fn law_shrink_keeps_busy(s: Seq<Endpoint>, k: nat)
    ensures
        forall|i: int| 0 <= i < s.len() && s[i].busy ==> evicted(s, k).contains(#[trigger] s[i]),
    decreases s.len(),
{
    if s.len() > 0 {
        let rest = s.drop_first();
        let k2: nat = if k > 0 && !s[0].busy { (k - 1) as nat } else { k };
        law_shrink_keeps_busy(rest, k2);
        let out = evicted(s, k);
        assert forall|i: int| 0 <= i < s.len() && s[i].busy implies out.contains(#[trigger] s[i]) by {
            if i == 0 {
                assert(out == seq![s[0]] + evicted(rest, k));
                assert(out[0] == s[0]);
            } else {
                assert(s[i] == rest[i - 1]);
                let e = evicted(rest, k2);
                assert(e.contains(rest[i - 1]));
                let j = choose|j: int| 0 <= j < e.len() && e[j] == rest[i - 1];
                if k > 0 && !s[0].busy {
                    assert(out == e);
                } else {
                    assert(out == seq![s[0]] + e);
                    assert(out[j + 1] == e[j]);
                }
            }
        }
    }
}

/// Scaling down by `k` removes `k` endpoints, or every endpoint that is not busy when there
/// are fewer.
pub proof fn law_shrink_size(s: Seq<Endpoint>, k: nat)
    ensures
        count_idle(s) <= s.len(),
        evicted(s, k).len() == s.len() - if k <= count_idle(s) { k } else { count_idle(s) },
    decreases s.len(),
{
    if s.len() > 0 {
        let rest = s.drop_first();
        if k > 0 && !s[0].busy {
            law_shrink_size(rest, (k - 1) as nat);
        } else {
            law_shrink_size(rest, k);
        }
    }
}

/// Converging a pool that is over its target `t` leaves exactly `t` endpoints when enough of
/// them are idle, else only the busy ones; no busy endpoint goes.
pub proof fn law_scale_down(
    s: Seq<Endpoint>,
    t: usize,
    d: DockerView,
    prefix: Seq<char>,
    sfx: Seq<u32>,
    now: i64,
    after: Seq<Endpoint>,
    d2: DockerView,
)
    requires
        s.len() > t,
        converged(s, t, d, prefix, sfx, now, after, d2),
    ensures
        count_idle(s) >= s.len() - t ==> after.len() == t,
        count_idle(s) < s.len() - t ==> after.len() == s.len() - count_idle(s),
        forall|i: int| 0 <= i < s.len() && s[i].busy ==> after.contains(#[trigger] s[i]),
{
    law_shrink_size(s, (s.len() - t) as nat);
    law_shrink_keeps_busy(s, (s.len() - t) as nat);
}

/// The first candidate name of each slot in `slot .. slots`.
pub open spec fn first_candidates(prefix: Seq<char>, sfx: Seq<u32>, slot: nat, slots: nat) -> Seq<Seq<char>> {
    Seq::new((slots - slot) as nat, |j: int| candidate(prefix, sfx[3 * (slot + j)]))
}

/// When the first candidate of every slot is free and no two of them are equal, every slot
/// gets a name.
proof fn lemma_fill_full(taken: Seq<Seq<char>>, prefix: Seq<char>, sfx: Seq<u32>, slot: nat, slots: nat)
    requires
        slot <= slots,
        first_candidates(prefix, sfx, slot, slots).no_duplicates(),
        forall|j: int| 0 <= j < slots - slot ==> !taken.contains(#[trigger] first_candidates(prefix, sfx, slot, slots)[j]),
    ensures
        fill(taken, prefix, sfx, slot, slots).len() == slots - slot,
    decreases slots - slot,
{
    if slot < slots {
        let fc = first_candidates(prefix, sfx, slot, slots);
        let c0 = candidate(prefix, sfx[3 * (slot as int)]);
        assert(fc[0] == c0);
        assert(!taken.contains(c0));
        assert(pick(taken, prefix, sfx, slot as int) == Some(c0));
        let fc2 = first_candidates(prefix, sfx, slot + 1, slots);
        assert forall|j: int| 0 <= j < fc2.len() implies fc2[j] == fc[j + 1] by {}
        assert forall|a: int, b: int| 0 <= a < fc2.len() && 0 <= b < fc2.len() && a != b implies fc2[a] != fc2[b] by {
            assert(fc2[a] == fc[a + 1]);
            assert(fc2[b] == fc[b + 1]);
        }
        assert forall|j: int| 0 <= j < slots - (slot + 1) implies !taken.push(c0).contains(#[trigger] fc2[j]) by {
            assert(fc2[j] == fc[j + 1]);
            assert(fc[j + 1] != fc[0]);
            assert(!taken.contains(fc[j + 1]));
            if taken.push(c0).contains(fc2[j]) {
                let q = choose|q: int| 0 <= q < taken.push(c0).len() && taken.push(c0)[q] == fc2[j];
                if q < taken.len() {
                    assert(taken[q] == fc2[j]);
                }
            }
        }
        lemma_fill_full(taken.push(c0), prefix, sfx, slot + 1, slots);
    }
}

/// Converging a pool that is under its target `t` reaches `t` endpoints when the first
/// random name drawn for each missing endpoint is free and no two of them are equal; the
/// endpoints that were there stay, in front.
pub proof fn law_scale_up(
    s: Seq<Endpoint>,
    t: usize,
    d: DockerView,
    prefix: Seq<char>,
    sfx: Seq<u32>,
    now: i64,
    after: Seq<Endpoint>,
    d2: DockerView,
)
    requires
        s.len() < t,
        converged(s, t, d, prefix, sfx, now, after, d2),
        first_candidates(prefix, sfx, 0, (t - s.len()) as nat).no_duplicates(),
        forall|j: int| 0 <= j < t - s.len()
            ==> !names_of(s).contains(#[trigger] first_candidates(prefix, sfx, 0, (t - s.len()) as nat)[j]),
    ensures
        after.len() == t,
        after.subrange(0, s.len() as int) == s,
{
    lemma_fill_full(names_of(s), prefix, sfx, 0, (t - s.len()) as nat);
}

/// Converging is idempotent: once the pool is at its target, converging again changes
/// neither the pool nor the containers.
pub proof fn law_converge_idempotent(
    s: Seq<Endpoint>,
    t: usize,
    d: DockerView,
    prefix: Seq<char>,
    sfx: Seq<u32>,
    now: i64,
    after: Seq<Endpoint>,
    d2: DockerView,
    again: Seq<Endpoint>,
    d3: DockerView,
)
    requires
        converged(s, t, d, prefix, sfx, now, after, d2),
        after.len() == t,
        converged(after, t, d2, prefix, sfx, now, again, d3),
    ensures
        again == after,
        d3 == d2,
{
}

/// What a health cycle against `d` with the probe results `probes` leaves of the endpoints `s`.
pub open spec fn cycled(s: Seq<Endpoint>, d: DockerView, probes: Seq<(String, HealthResult)>) -> Seq<Endpoint> {
    s.filter(survives(d)).map_values(probe_all(probes))
}

/// A health cycle against the containers `d` with the probe results `probes` keeps exactly
/// the endpoints whose container is still known by name and the busy ones, in order; each
/// that stays keeps its name and is healthy exactly when its probe result says so (an
/// endpoint without a probe result keeps its flags).
pub proof fn law_health_cycle_keeps(s: Seq<Endpoint>, d: DockerView, probes: Seq<(String, HealthResult)>)
    ensures
        cycled(s, d, probes).len() <= s.len(),
        forall|i: int| 0 <= i < s.len() && (s[i].busy || d.names.contains_key(s[i].name@))
            ==> cycled(s, d, probes).contains(#[trigger] probed(s[i], probes)),
        cycled(s, d, probes).len() == s.filter(survives(d)).len(),
        forall|k: int| 0 <= k < cycled(s, d, probes).len() ==> {
            let e = s.filter(survives(d))[k];
            &&& #[trigger] cycled(s, d, probes)[k] == probed(e, probes)
            &&& s.contains(e)
            &&& e.busy || d.names.contains_key(e.name@)
        },
        forall|k: int| 0 <= k < cycled(s, d, probes).len() ==> (#[trigger] cycled(s, d, probes)[k]).healthy
            == match probe_for(probes, cycled(s, d, probes)[k].name@) {
                Some(h) => h.spec_healthy(),
                None => s.filter(survives(d))[k].healthy,
            },
{
    let t = s.filter(survives(d));
    let after = cycled(s, d, probes);
    assert(after == t.map_values(probe_all(probes)));
    lemma_filter_keeps(s, survives(d));
    lemma_filter_members(s, survives(d));
    assert forall|i: int| 0 <= i < s.len() && (s[i].busy || d.names.contains_key(s[i].name@))
        implies after.contains(#[trigger] probed(s[i], probes)) by {
        assert(t.contains(s[i]));
        let k = choose|k: int| 0 <= k < t.len() && t[k] == s[i];
        assert(after[k] == probed(s[i], probes));
    }
    assert forall|k: int| 0 <= k < after.len() implies {
        let e = t[k];
        &&& #[trigger] after[k] == probed(e, probes)
        &&& s.contains(e)
        &&& e.busy || d.names.contains_key(e.name@)
    } by {
        assert(t.contains(t[k]));
    }
    assert forall|k: int| 0 <= k < after.len() implies (#[trigger] after[k]).healthy == match probe_for(probes, after[k].name@) {
        Some(h) => h.spec_healthy(),
        None => t[k].healthy,
    } by {
        assert(after[k] == probed(t[k], probes));
        assert(after[k].name@ == t[k].name@);
    }
}

/// Adding a proxy and removing it again gives back the pool and the target it had, when
/// the add succeeded and the target was below `MAX_POOL`; in between, the proxy is found by
/// its name.
pub proof fn law_add_then_remove(s: Seq<Endpoint>, e: Endpoint, t: usize)
    requires
        add_error(s, e.name@) is None,
        t < MAX_POOL,
    ensures
        has_entry(s.push(e), ep_name(), e.name@),
        s.push(e)[entry_index(s.push(e), ep_name(), e.name@)] == e,
        s.push(e).remove(entry_index(s.push(e), ep_name(), e.name@)) == s,
        ({
            let raised: usize = if t + 1 < MAX_POOL { (t + 1) as usize } else { MAX_POOL };
            (if raised > 0 { (raised - 1) as usize } else { 0 }) == t
        }),
{
    let s2 = s.push(e);
    assert(s2[s.len() as int] == e);
    assert(has_entry(s2, ep_name(), e.name@));
    let i = entry_index(s2, ep_name(), e.name@);
    if i < s.len() {
        assert(s2[i] == s[i]);
        assert(has_entry(s, ep_name(), e.name@));
    }
    assert(i == s.len());
    assert(s2.remove(i) =~= s);
}

/// Creating a container and removing it by name leaves no container, name or volume of it
/// behind.
pub proof fn law_create_then_remove(d: DockerView, name: Seq<char>)
    ensures
        d.created(name).removes(name),
        !d.created(name).removed(name).names.contains_key(name),
        !d.created(name).removed(name).containers.contains_key(container_id_for(name)),
        !d.created(name).removed(name).volumes.contains(data_volume(name)),
        !d.created(name).removed(name).volumes.contains(cache_volume(name)),
{
}

/// A container just created is found by its name, runs under id `cid-{name}`, and has its
/// two volumes.
pub proof fn law_create_then_read(d: DockerView, name: Seq<char>)
    ensures
        d.created(name).names.contains_key(name),
        d.created(name).names[name] == container_id_for(name),
        d.created(name).containers.contains_key(container_id_for(name)),
        d.created(name).containers[container_id_for(name)].name == name,
        d.created(name).containers[container_id_for(name)].running,
        d.created(name).volumes.contains(data_volume(name)),
        d.created(name).volumes.contains(cache_volume(name)),
{
}

/// Storing a task keeps the ids distinct.
proof fn lemma_with_task_distinct(s: Seq<Task>, t: Task)
    requires
        ids_distinct(s),
    ensures
        ids_distinct(with_task(s, t)),
        with_task(s, t).len() <= s.len() + 1,
        with_task(s, t).last() == t,
{
    let w = with_task(s, t);
    if has_id(s, t.id@) {
        let k = index_of_id(s, t.id@);
        let r = s.remove(k);
        assert forall|a: int, b: int| 0 <= a < w.len() && 0 <= b < w.len() && a != b
            implies (#[trigger] w[a]).id@ != (#[trigger] w[b]).id@ by {
            if a < r.len() && b < r.len() {
                let a2 = if a < k { a } else { a + 1 };
                let b2 = if b < k { b } else { b + 1 };
                assert(w[a] == s[a2] && w[b] == s[b2]);
            } else if a < r.len() {
                let a2 = if a < k { a } else { a + 1 };
                assert(w[a] == s[a2]);
                assert(a2 != k);
            } else {
                let b2 = if b < k { b } else { b + 1 };
                assert(w[b] == s[b2]);
                assert(b2 != k);
            }
        }
    } else {
        assert forall|a: int, b: int| 0 <= a < w.len() && 0 <= b < w.len() && a != b
            implies (#[trigger] w[a]).id@ != (#[trigger] w[b]).id@ by {
            if a < s.len() && b < s.len() {
                assert(w[a] == s[a] && w[b] == s[b]);
            } else if a < s.len() {
                assert(w[a] == s[a]);
            } else {
                assert(w[b] == s[b]);
            }
        }
    }
}

/// Creating a task and pruning, as `TaskRegistry::create_at` does: with at most
/// `MAX_TASKS` tasks before, at most `MAX_TASKS` remain and the new task is among them; no
/// remaining task is expired; a task that is not expired is removed only by the cap, which
/// takes the oldest ones (those stored first); and every remaining task was stored before.
pub proof fn law_create_prunes(s: Seq<Task>, t: Task, now: i64)
    requires
        ids_distinct(s),
        s.len() <= MAX_TASKS,
        t.finished_at is None,
    ensures
        ({
            let w = with_task(s, t);
            let r = pruned(w, now);
            &&& r.len() <= MAX_TASKS
            &&& r.contains(t)
            &&& forall|x: Task| #[trigger] r.contains(x) ==> w.contains(x) && !expired(x, now)
            &&& forall|i: int| 0 <= i < w.len() && w.len() - MAX_TASKS <= i && !expired(w[i], now)
                ==> r.contains(#[trigger] w[i])
            &&& forall|i: int| 0 <= i < w.len() - MAX_TASKS ==> !r.contains(#[trigger] w[i])
        }),
{
    let w = with_task(s, t);
    lemma_with_task_distinct(s, t);
    let c = capped(w);
    let p = not_expired(now);
    let r = c.filter(p);
    lemma_filter_keeps(c, p);
    lemma_filter_members(c, p);
    let off: int = if w.len() > MAX_TASKS { w.len() - MAX_TASKS } else { 0 };
    assert(c.len() == w.len() - off);
    assert forall|j: int| 0 <= j < c.len() implies #[trigger] c[j] == w[j + off] by {}
    assert(c[c.len() - 1] == t);
    assert(p(c[c.len() - 1]));
    assert forall|x: Task| #[trigger] r.contains(x) implies w.contains(x) && !expired(x, now) by {
        assert(c.contains(x));
        let j = choose|j: int| 0 <= j < c.len() && c[j] == x;
        assert(w[j + off] == x);
    }
    assert forall|i: int| 0 <= i < w.len() && w.len() - MAX_TASKS <= i && !expired(w[i], now)
        implies r.contains(#[trigger] w[i]) by {
        assert(c[i - off] == w[i]);
        assert(p(c[i - off]));
    }
    assert forall|i: int| 0 <= i < w.len() - MAX_TASKS implies !r.contains(#[trigger] w[i]) by {
        if r.contains(w[i]) {
            assert(c.contains(w[i]));
            let j = choose|j: int| 0 <= j < c.len() && c[j] == w[i];
            assert(w[j + off] == w[i]);
            assert(j + off != i);
        }
    }
}

/// In `with_entry(s, e)`, only `e` has `e`'s key, and it is there.
proof fn lemma_with_entry_key(s: Seq<IdemEntry>, e: IdemEntry)
    requires
        keys_distinct(s),
    ensures
        with_entry(s, e).contains(e),
        with_entry(s, e).len() <= s.len() + 1,
        forall|x: IdemEntry| #[trigger] with_entry(s, e).contains(x) && x.key@ == e.key@ ==> x == e,
{
    let w = with_entry(s, e);
    if has_key(s, e.key@) {
        let k = index_of_key(s, e.key@);
        assert(w[k] == e);
        assert forall|x: IdemEntry| #[trigger] w.contains(x) && x.key@ == e.key@ implies x == e by {
            let j = choose|j: int| 0 <= j < w.len() && w[j] == x;
            if j != k {
                assert(w[j] == s[j]);
            }
        }
    } else {
        assert(w[s.len() as int] == e);
        assert forall|x: IdemEntry| #[trigger] w.contains(x) && x.key@ == e.key@ implies x == e by {
            let j = choose|j: int| 0 <= j < w.len() && w[j] == x;
            if j < s.len() {
                assert(w[j] == s[j]);
            }
        }
    }
}

/// Recording idempotency key `key` for task `task_id` at `now`, as
/// `TaskRegistry::set_idempotent_at` does: at most `MAX_IDEM` keys remain, each names an
/// existing task created, and was recorded, no more than `IDEM_MAX_AGE_MS` before `now`.
/// With room under the cap, the key then reads back the task `task_id` names, or nothing
/// when there is no such task (a key recorded again replaces the old binding).
pub proof fn law_set_idempotent(
    tasks: Seq<Task>,
    before: Seq<IdemEntry>,
    key: String,
    task_id: String,
    now: i64,
    after: Seq<IdemEntry>,
)
    requires
        keys_distinct(before),
        keys_distinct(after),
        idem_pruned(tasks, now, with_entry(before, IdemEntry { key: key, task_id: task_id, created_at: now }), after),
    ensures
        after.len() <= MAX_IDEM,
        forall|i: int| 0 <= i < after.len() ==> entry_live(tasks, now, #[trigger] after[i]),
        before.len() < MAX_IDEM && (!has_id(tasks, task_id@)
            || lookup(tasks, task_id@).unwrap().created_at >= now - IDEM_MAX_AGE_MS) ==> (
            match lookup_key(after, key@) {
                Some(e) => if binding_live(e, now) { lookup(tasks, e.task_id@) } else { None },
                None => None,
            }) == lookup(tasks, task_id@),
        // A live new binding is dropped only when the cap is full of bindings whose tasks
        // were created no earlier than its own.
        ({
            let e = IdemEntry { key: key, task_id: task_id, created_at: now };
            entry_live(tasks, now, e) && !after.contains(e) ==> {
                &&& after.len() == MAX_IDEM
                &&& forall|f: IdemEntry| #[trigger] after.contains(f)
                    ==> entry_age_key(tasks, f) >= lookup(tasks, task_id@).unwrap().created_at
            }
        }),
{
    let e = IdemEntry { key: key, task_id: task_id, created_at: now };
    let w = with_entry(before, e);
    let p = live_entries(tasks, now);
    let live = w.filter(p);
    lemma_with_entry_key(before, e);
    lemma_filter_keeps(w, p);
    lemma_filter_members(w, p);
    if entry_live(tasks, now, e) && !after.contains(e) {
        let j = choose|j: int| 0 <= j < w.len() && w[j] == e;
        assert(p(w[j]));
        assert(live.contains(e));
        assert(live.len() > MAX_IDEM);
        assert forall|f: IdemEntry| #[trigger] after.contains(f)
            implies entry_age_key(tasks, f) >= lookup(tasks, task_id@).unwrap().created_at by {
            assert(entry_age_key(tasks, e) <= entry_age_key(tasks, f));
        }
    }
    assert forall|i: int| 0 <= i < after.len() implies entry_live(tasks, now, #[trigger] after[i]) by {
        assert(live.contains(after[i]));
    }
    if before.len() < MAX_IDEM && (!has_id(tasks, task_id@)
        || lookup(tasks, task_id@).unwrap().created_at >= now - IDEM_MAX_AGE_MS) {
        assert(after == live);
        if has_id(tasks, task_id@) {
            assert(p(e));
            let j = choose|j: int| 0 <= j < w.len() && w[j] == e;
            assert(live.contains(e));
            let q = choose|q: int| 0 <= q < after.len() && after[q] == e;
            lemma_lookup_key_at(after, q);
        } else {
            if has_key(after, key@) {
                let q = index_of_key(after, key@);
                assert(live.contains(after[q]));
                assert(w.contains(after[q]));
                assert(after[q] == e);
                assert(!p(e));
            }
        }
    }
}

/// Storing `t` changes nothing that another id looks up.
proof fn lemma_with_task_lookup(s: Seq<Task>, t: Task, id: Seq<char>)
    requires
        ids_distinct(s),
        id != t.id@,
    ensures
        lookup(with_task(s, t), id) == lookup(s, id),
{
    let w = with_task(s, t);
    lemma_with_task_distinct(s, t);
    if has_id(s, id) {
        let i = index_of_id(s, id);
        lemma_lookup_at(s, i);
        let x = s[i];
        assert(w.contains(x)) by {
            if has_id(s, t.id@) {
                let k = index_of_id(s, t.id@);
                assert(i != k);
                let j = if i < k { i } else { i - 1 };
                assert(w[j] == s[i]);
            } else {
                assert(w[i] == s[i]);
            }
        }
        let q = choose|q: int| 0 <= q < w.len() && w[q] == x;
        lemma_lookup_at(w, q);
    } else {
        if has_id(w, id) {
            let q = index_of_id(w, id);
            if q < w.len() - 1 {
                if has_id(s, t.id@) {
                    let k = index_of_id(s, t.id@);
                    let j = if q < k { q } else { q + 1 };
                    assert(w[q] == s[j]);
                } else {
                    assert(w[q] == s[q]);
                }
            } else {
                assert(w[q] == t);
            }
        }
    }
}

/// A request that opens another task keeps an earlier task and an earlier idempotency
/// binding: with room for the new task (and for its key, if it has one), a task `id` that is
/// not expired at the new request's time, and a binding of another key `k` to `id` that is
/// still live then, the task reads back the same afterwards and `k` stays bound, so a
/// repeated request with `k` is answered as it would have been before.
pub proof fn law_open_keeps_others(
    before: TaskRegistry,
    after: TaskRegistry,
    key2: Option<String>,
    id2: Seq<char>,
    ty2: Seq<char>,
    draws2: Draws,
    k: String,
    id: Seq<char>,
    ty: Seq<char>,
)
    requires
        before.wf(),
        after.wf(),
        opened(before, after, key2, id2, ty2, draws2),
        id != id2,
        before.tasks_seq().len() < MAX_TASKS,
        before.spec_get(id) matches Some(t0) && !expired(t0, draws2.now),
        key2 matches Some(k2) ==> k2@ != k@ && before.idem_seq().len() < MAX_IDEM,
        lookup_key(before.idem_seq(), k@) matches Some(e) && e.task_id@ == id
            && entry_live(before.tasks_seq(), draws2.now, e),
    ensures
        after.spec_get(id) == before.spec_get(id),
        lookup_key(after.idem_seq(), k@) == lookup_key(before.idem_seq(), k@),
        forall|later: i64| #[trigger] replay_of(after, Some(k), ty, later) == replay_of(before, Some(k), ty, later),
{
    let now = draws2.now;
    let t = choose|t: Task| t.is_new(id2, ty2, now) && #[trigger] stored_and_started(before, after, key2, t, now);
    let s = before.tasks_seq();
    let w = with_task(s, t);
    lemma_with_task_distinct(s, t);
    lemma_with_task_lookup(s, t, id);
    let p = not_expired(now);
    let mid = pruned(w, now);
    assert(capped(w) == w);
    assert(mid == w.filter(p));
    lemma_filter_keeps(w, p);
    lemma_filter_members(w, p);
    let t0 = before.spec_get(id).unwrap();
    // The new task and the earlier one both stay through pruning.
    assert(w[w.len() - 1] == t);
    assert(mid.contains(t));
    let i0 = index_of_id(w, id);
    lemma_lookup_at(w, i0);
    assert(w[i0] == t0);
    assert(mid.contains(t0));
    // Pruning kept the ids distinct: starting the new task changes no id.
    let i2 = index_of_id(mid, id2);
    let q2 = choose|q: int| 0 <= q < mid.len() && mid[q] == t;
    assert(has_id(mid, id2));
    let u = mid.update(i2, started(t, now));
    assert(after.tasks_seq() == u);
    assert forall|a: int, b: int| 0 <= a < mid.len() && 0 <= b < mid.len() && a != b
        implies (#[trigger] mid[a]).id@ != (#[trigger] mid[b]).id@ by {
        assert(mid[a].id@ == u[a].id@);
        assert(mid[b].id@ == u[b].id@);
    }
    let q0 = choose|q: int| 0 <= q < mid.len() && mid[q] == t0;
    lemma_lookup_at(mid, q0);
    assert(lookup(mid, id) == Some(t0));
    crate::registry::lemma_lookup_update(mid, i2, started(t, now), id);
    assert(after.spec_get(id) == Some(t0));
    // The binding of `k` stays.
    let e = lookup_key(before.idem_seq(), k@).unwrap();
    match key2 {
        None => {},
        Some(k2) => {
            let e2 = IdemEntry { key: k2, task_id: t.id, created_at: now };
            let we = with_entry(before.idem_seq(), e2);
            let pe = live_entries(mid, now);
            lemma_filter_keeps(we, pe);
            let ie = index_of_key(before.idem_seq(), k@);
            lemma_lookup_key_at(before.idem_seq(), ie);
            assert(we.contains(e)) by {
                if has_key(before.idem_seq(), k2@) {
                    let kk = index_of_key(before.idem_seq(), k2@);
                    assert(kk != ie);
                    assert(we[ie] == e);
                } else {
                    assert(we[ie] == e);
                }
            }
            let je = choose|j: int| 0 <= j < we.len() && we[j] == e;
            assert(pe(we[je]));
            assert(we.filter(pe).contains(e));
            assert(after.idem_seq() == we.filter(pe));
            let qe = choose|q: int| 0 <= q < after.idem_seq().len() && after.idem_seq()[q] == e;
            lemma_lookup_key_at(after.idem_seq(), qe);
        },
    }
}

/// A request that opened a task under an idempotency key is answered with that same task
/// when it is repeated less than `IDEM_MAX_AGE_MS` later, and not replayed from then on
/// (given the registry had room for the key, and nothing changed it in between).
pub proof fn law_idempotent_replay(
    before: TaskRegistry,
    after: TaskRegistry,
    key: String,
    id: Seq<char>,
    task_type: Seq<char>,
    draws: Draws,
    later: i64,
)
    requires
        opened(before, after, Some(key), id, task_type, draws),
        before.idem_seq().len() < MAX_IDEM,
        draws.now <= later,
    ensures
        later - draws.now < IDEM_MAX_AGE_MS ==> replay_of(after, Some(key), task_type, later) == after.spec_get(id),
        later - draws.now < IDEM_MAX_AGE_MS ==> replay_of(after, Some(key), task_type, later) is Some,
        later - draws.now >= IDEM_MAX_AGE_MS ==> replay_of(after, Some(key), task_type, later) is None,
{
}
/// A request that opened a task under idempotency key `k` is still answered with that task
/// when it is repeated less than `IDEM_MAX_AGE_MS` later, after another request opened a
/// task of its own (with another key or none) in between, given room in the registry for
/// the tasks and keys.
pub proof fn law_replay_across_request(
    r0: TaskRegistry,
    r1: TaskRegistry,
    r2: TaskRegistry,
    k: String,
    id: Seq<char>,
    ty: Seq<char>,
    draws: Draws,
    key2: Option<String>,
    id2: Seq<char>,
    ty2: Seq<char>,
    draws2: Draws,
    later: i64,
)
    requires
        r1.wf(),
        r2.wf(),
        opened(r0, r1, Some(k), id, ty, draws),
        r0.idem_seq().len() < MAX_IDEM,
        opened(r1, r2, key2, id2, ty2, draws2),
        id != id2,
        r1.tasks_seq().len() < MAX_TASKS,
        key2 matches Some(k2) ==> k2@ != k@ && r1.idem_seq().len() < MAX_IDEM,
        draws.now <= draws2.now <= later,
        later - draws.now < IDEM_MAX_AGE_MS,
    ensures
        replay_of(r2, Some(k), ty, later) == r2.spec_get(id),
        replay_of(r2, Some(k), ty, later) is Some,
{
    law_open_keeps_others(r1, r2, key2, id2, ty2, draws2, k, id, ty);
}



/// Starting and then finishing a task keeps its id, type and creation time, and leaves it
/// succeeded or failed as the outcome says, with both times recorded.
pub proof fn law_task_lifecycle(t: Task, start: i64, outcome: Result<Option<String>, TaskError>, end: i64)
    ensures
        ({
            let f = finished(started(t, start), outcome, end);
            &&& f.id == t.id
            &&& f.task_type == t.task_type
            &&& f.created_at == t.created_at
            &&& f.started_at == Some(start)
            &&& f.finished_at == Some(end)
            &&& f.status == if outcome is Ok { TaskStatus::Succeeded } else { TaskStatus::Failed }
        }),
{
}

/// The endpoints whose `healthy` flag is set.
pub open spec fn healthy_flag() -> spec_fn(Endpoint) -> bool {
    |e: Endpoint| e.healthy
}

/// An endpoint is counted healthy exactly when its `healthy` flag is set: the healthy count
/// of a summary (and of the health report) is the number of endpoints with the flag set.
pub proof fn law_healthy_count(s: Seq<Endpoint>)
    ensures
        count_healthy(s) == s.filter(healthy_flag()).len(),
        forall|e: Endpoint| s.contains(e) && !e.healthy ==> !#[trigger] s.filter(healthy_flag()).contains(e),
        count_healthy(s) <= s.len(),
    decreases s.len(),
{
    reveal(Seq::filter);
    let p = healthy_flag();
    lemma_filter_members(s, p);
    lemma_filter_keeps(s, p);
    if s.len() > 0 {
        law_healthy_count(s.drop_last());
    }
}

/// Pruning at `now` keeps, within the cap of the newest `MAX_TASKS`, every task that is
/// unfinished or finished at most an hour (3 600 000 ms) before `now`, and keeps no other.
pub proof fn law_prune_keeps_recent(s: Seq<Task>, now: i64)
    ensures
        forall|i: int| 0 <= i < s.len() && s.len() - MAX_TASKS <= i
            && (s[i].finished_at is None || s[i].finished_at.unwrap() >= now - 3_600_000)
            ==> pruned(s, now).contains(#[trigger] s[i]),
        forall|x: Task| #[trigger] pruned(s, now).contains(x)
            ==> s.contains(x) && (x.finished_at is None || x.finished_at.unwrap() >= now - 3_600_000),
        pruned(s, now).len() <= MAX_TASKS,
{
    let c = capped(s);
    let p = not_expired(now);
    lemma_filter_keeps(c, p);
    lemma_filter_members(c, p);
    let off: int = if s.len() > MAX_TASKS { s.len() - MAX_TASKS } else { 0 };
    assert forall|j: int| 0 <= j < c.len() implies #[trigger] c[j] == s[j + off] by {}
    assert forall|i: int| 0 <= i < s.len() && s.len() - MAX_TASKS <= i
        && (s[i].finished_at is None || s[i].finished_at.unwrap() >= now - 3_600_000)
        implies pruned(s, now).contains(#[trigger] s[i]) by {
        assert(c[i - off] == s[i]);
        assert(p(c[i - off]));
    }
    assert forall|x: Task| #[trigger] pruned(s, now).contains(x)
        implies s.contains(x) && (x.finished_at is None || x.finished_at.unwrap() >= now - 3_600_000) by {
        assert(c.contains(x));
        let j = choose|j: int| 0 <= j < c.len() && c[j] == x;
        assert(s[j + off] == x);
    }
}

/// Creating a task keeps every earlier task that is unfinished or finished less than an
/// hour before the create, when there is room under the cap: `get` returns it unchanged.
pub proof fn law_create_keeps_recent(before: TaskRegistry, after: TaskRegistry, t: Task, now: i64, id: Seq<char>)
    requires
        before.wf(),
        after.wf(),
        after.tasks_seq() == pruned(with_task(before.tasks_seq(), t), now),
        before.tasks_seq().len() < MAX_TASKS,
        id != t.id@,
        before.spec_get(id) matches Some(x) && (x.finished_at is None || x.finished_at.unwrap() >= now - 3_600_000),
    ensures
        after.spec_get(id) == before.spec_get(id),
{
    let s = before.tasks_seq();
    let w = with_task(s, t);
    lemma_with_task_distinct(s, t);
    lemma_with_task_lookup(s, t, id);
    law_prune_keeps_recent(w, now);
    let x = before.spec_get(id).unwrap();
    let i = index_of_id(w, id);
    lemma_lookup_at(w, i);
    assert(w[i] == x);
    assert(pruned(w, now).contains(x));
    let q = choose|q: int| 0 <= q < after.tasks_seq().len() && after.tasks_seq()[q] == x;
    lemma_lookup_at(after.tasks_seq(), q);
}

/// `probe_for` picks the first probe result for a name, and none when no result has it.
proof fn lemma_probe_for(probes: Seq<(String, HealthResult)>, name: Seq<char>)
    ensures
        forall|j: int| 0 <= j < probes.len() && probes[j].0@ == name
            && (forall|i: int| 0 <= i < j ==> probes[i].0@ != name)
            ==> probe_for(probes, name) == Some(#[trigger] probes[j].1),
        (forall|j: int| 0 <= j < probes.len() ==> (#[trigger] probes[j]).0@ != name) ==> probe_for(probes, name) is None,
    decreases probes.len(),
{
    if probes.len() > 0 {
        let rest = probes.drop_first();
        lemma_probe_for(rest, name);
        assert forall|j: int| 0 <= j < probes.len() && probes[j].0@ == name
            && (forall|i: int| 0 <= i < j ==> probes[i].0@ != name)
            implies probe_for(probes, name) == Some(#[trigger] probes[j].1) by {
            if j > 0 {
                assert(probes[0].0@ != name);
                assert(rest[j - 1] == probes[j]);
                assert forall|i: int| 0 <= i < j - 1 implies rest[i].0@ != name by {
                    assert(rest[i] == probes[i + 1]);
                }
            }
        }
        if forall|j: int| 0 <= j < probes.len() ==> (#[trigger] probes[j]).0@ != name {
            assert(probes[0].0@ != name);
            assert forall|j: int| 0 <= j < rest.len() implies (#[trigger] rest[j]).0@ != name by {
                assert(rest[j] == probes[j + 1]);
            }
        }
    }
}

/// After a health cycle, every endpoint that stays keeps its name, container, creation
/// time and busy flag; when the probes hold a result for it, the first such result `h`
/// gives its flags: `socks5_ok` is `h.socks5`, `http_ok` is `h.http`, `tunnel_connected`
/// and `tunnel_detail` are the tunnel's, and it is healthy exactly when `h` ran and passed
/// all three probes; without a result it is unchanged.
pub proof fn law_health_cycle_fields(s: Seq<Endpoint>, d: DockerView, probes: Seq<(String, HealthResult)>)
    ensures
        forall|k: int| 0 <= k < cycled(s, d, probes).len() ==> {
            let e = s.filter(survives(d))[k];
            let r = #[trigger] cycled(s, d, probes)[k];
            &&& r.name == e.name
            &&& r.container_id == e.container_id
            &&& r.created_at == e.created_at
            &&& r.busy == e.busy
            &&& forall|j: int| 0 <= j < probes.len() && probes[j].0@ == e.name@
                && (forall|i: int| 0 <= i < j ==> probes[i].0@ != e.name@) ==> {
                    let h = #[trigger] probes[j].1;
                    &&& r.socks5_ok == h.socks5
                    &&& r.http_ok == h.http
                    &&& r.tunnel_connected == h.tunnel_connected
                    &&& r.tunnel_detail == h.tunnel_detail
                    &&& r.healthy == (h.running && h.socks5 && h.http && h.tunnel_connected)
                }
            &&& (forall|j: int| 0 <= j < probes.len() ==> (#[trigger] probes[j]).0@ != e.name@) ==> r == e
        },
{
    let t = s.filter(survives(d));
    assert forall|k: int| 0 <= k < cycled(s, d, probes).len() implies {
        let e = t[k];
        let r = #[trigger] cycled(s, d, probes)[k];
        &&& r.name == e.name
        &&& r.container_id == e.container_id
        &&& r.created_at == e.created_at
        &&& r.busy == e.busy
        &&& forall|j: int| 0 <= j < probes.len() && probes[j].0@ == e.name@
            && (forall|i: int| 0 <= i < j ==> probes[i].0@ != e.name@) ==> {
                let h = #[trigger] probes[j].1;
                &&& r.socks5_ok == h.socks5
                &&& r.http_ok == h.http
                &&& r.tunnel_connected == h.tunnel_connected
                &&& r.tunnel_detail == h.tunnel_detail
                &&& r.healthy == (h.running && h.socks5 && h.http && h.tunnel_connected)
            }
        &&& (forall|j: int| 0 <= j < probes.len() ==> (#[trigger] probes[j]).0@ != e.name@) ==> r == e
    } by {
        let e = t[k];
        assert(cycled(s, d, probes)[k] == probed(e, probes));
        lemma_probe_for(probes, e.name@);
    }
}

/// `16` to the power `n`.
pub open spec fn pow16(n: nat) -> nat
    decreases n,
{
    if n == 0 { 1 } else { 16 * pow16((n - 1) as nat) }
}

/// Different numbers below `16^n` have different `n`-digit hexadecimal renderings.
proof fn lemma_hex_digits_injective(x: nat, y: nat, n: nat)
    requires
        x < pow16(n),
        y < pow16(n),
        hex_digits(x, n) == hex_digits(y, n),
    ensures
        x == y,
    decreases n,
{
    if n > 0 {
        let hx = hex_digits(x, n);
        let hy = hex_digits(y, n);
        assert(hx.last() == hy.last());
        assert(hx.drop_last() =~= hex_digits(x / 16, (n - 1) as nat));
        assert(hy.drop_last() =~= hex_digits(y / 16, (n - 1) as nat));
        let dx = (x % 16) as int;
        let dy = (y % 16) as int;
        assert(hex_char(dx) == hex_char(dy));
        assert(dx == dy) by {
            if dx < 10 && dy < 10 {
                assert((48 + dx) as char as int == 48 + dx);
                assert((48 + dy) as char as int == 48 + dy);
            } else if dx >= 10 && dy >= 10 {
                assert((87 + dx) as char as int == 87 + dx);
                assert((87 + dy) as char as int == 87 + dy);
            } else if dx < 10 {
                assert((48 + dx) as char as int == 48 + dx);
                assert((87 + dy) as char as int == 87 + dy);
            } else {
                assert((87 + dx) as char as int == 87 + dx);
                assert((48 + dy) as char as int == 48 + dy);
            }
        }
        lemma_hex_digits_injective(x / 16, y / 16, (n - 1) as nat);
    } else {
        assert(x == 0 && y == 0);
    }
}

/// Different random numbers give different candidate names.
proof fn lemma_candidate_injective(prefix: Seq<char>, r1: u32, r2: u32)
    requires
        r1 != r2,
    ensures
        candidate(prefix, r1) != candidate(prefix, r2),
{
    assert(pow16(8) == 0x1_0000_0000) by {
        reveal_with_fuel(pow16, 9);
    }
    if candidate(prefix, r1) == candidate(prefix, r2) {
        let c1 = candidate(prefix, r1);
        let c2 = candidate(prefix, r2);
        assert(c1.subrange(prefix.len() as int, c1.len() as int) =~= name_suffix(r1));
        assert(c2.subrange(prefix.len() as int, c2.len() as int) =~= name_suffix(r2));
        lemma_hex_digits_injective(r1 as nat, r2 as nat, 8);
    }
}

/// Scaling an empty pool to a target of at most `MAX_POOL` with draws like those of
/// `Draws::fresh` (whose first candidates differ from slot to slot) creates exactly that
/// many endpoints.
pub proof fn law_fresh_scale_up(
    t: usize,
    d: DockerView,
    prefix: Seq<char>,
    sfx: Seq<u32>,
    now: i64,
    after: Seq<Endpoint>,
    d2: DockerView,
)
    requires
        t <= MAX_POOL,
        sfx.len() >= 3 * MAX_POOL,
        first_draws_distinct(sfx, MAX_POOL as int),
        converged(Seq::<Endpoint>::empty(), t, d, prefix, sfx, now, after, d2),
    ensures
        after.len() == t,
{
    if t > 0 {
        let fc = first_candidates(prefix, sfx, 0, t as nat);
        assert forall|a: int, b: int| 0 <= a < fc.len() && 0 <= b < fc.len() && a != b implies fc[a] != fc[b] by {
            if a < b {
                assert(sfx[3 * a] != sfx[3 * b]);
            } else {
                assert(sfx[3 * b] != sfx[3 * a]);
            }
            lemma_candidate_injective(prefix, sfx[3 * a], sfx[3 * b]);
        }
        assert(names_of(Seq::<Endpoint>::empty()) =~= Seq::<Seq<char>>::empty());
        law_scale_up(Seq::<Endpoint>::empty(), t, d, prefix, sfx, now, after, d2);
    }
}

/// The id of a task opened with a version-4 UUID (as `Draws::fresh` gives) is 16 lower-case
/// hexadecimal digits whose thirteenth is the version digit `4`; in particular it is never
/// all zeros.
pub proof fn law_fresh_task_id(uuid: u128)
    requires
        (uuid >> 76u128) & 0xfu128 == 4,
    ensures
        short_id(uuid).len() == 16,
        short_id(uuid)[12] == '4',
        forall|i: int| 0 <= i < 16 ==> is_hex_char(#[trigger] short_id(uuid)[i]),
{
    let x: u128 = uuid >> 64u128;
    lemma_hex_digits_shape(x as nat, 16);
    assert((x / 4096) % 16 == 4) by (bit_vector)
        requires
            x == uuid >> 64u128,
            (uuid >> 76u128) & 0xfu128 == 4,
    ;
    let h = hex_digits(x as nat, 16);
    assert(hex_digits(x as nat, 16) =~= hex_digits(x as nat / 16, 15).push(hex_char((x as nat % 16) as int)));
    assert(hex_digits(x as nat / 16, 15) =~= hex_digits(x as nat / 16 / 16, 14).push(hex_char((x as nat / 16 % 16) as int)));
    assert(hex_digits(x as nat / 16 / 16, 14) =~= hex_digits(x as nat / 16 / 16 / 16, 13).push(hex_char((x as nat / 16 / 16 % 16) as int)));
    assert(hex_digits(x as nat / 16 / 16 / 16, 13) =~= hex_digits(x as nat / 16 / 16 / 16 / 16, 12).push(hex_char((x as nat / 16 / 16 / 16 % 16) as int)));
    assert(x as nat / 16 / 16 / 16 == x as nat / 4096);
    assert(h[12] == hex_char(4));
}

} // verus!
