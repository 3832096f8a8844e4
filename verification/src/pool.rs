use vstd::prelude::*;
use crate::docker::{FakeDocker, DockerView, container_id_for, data_volume, cache_volume};
use crate::endpoint::Endpoint;
use crate::health::HealthResult;
use crate::keyed::{keys_unique, has_entry, entry_index, lemma_entry_at};
use crate::summary::{PoolSummary, count_healthy};
use crate::text::eq_str;
use crate::ids::{name_suffix, name_suffix_of};
use crate::seqs::{lemma_filter_take_step, lemma_take_all};
use crate::keyed::lemma_keyed_remove;
use crate::clock::now_millis;

verus! {

/// Largest pool the control plane runs.
pub const MAX_POOL: usize = 20;
/// Random names tried per container before giving up on it.
pub const CREATE_RETRIES: usize = 3;

pub open spec fn ep_name() -> spec_fn(Endpoint) -> Seq<char> {
    |e: Endpoint| e.name@
}

/// The names of the endpoints, in order.
pub open spec fn names_of(s: Seq<Endpoint>) -> Seq<Seq<char>> {
    s.map_values(|e: Endpoint| e.name@)
}

/// A name is taken in `s` exactly when some endpoint has it.
pub proof fn lemma_names_of(s: Seq<Endpoint>)
    ensures
        names_of(s).len() == s.len(),
        forall|i: int| 0 <= i < s.len() ==> #[trigger] names_of(s)[i] == s[i].name@,
        forall|n: Seq<char>| #[trigger] names_of(s).contains(n) == has_entry(s, ep_name(), n),
{
    assert forall|n: Seq<char>| #[trigger] names_of(s).contains(n) == has_entry(s, ep_name(), n) by {
        if names_of(s).contains(n) {
            let i = choose|i: int| 0 <= i < names_of(s).len() && names_of(s)[i] == n;
            assert(s[i].name@ == n);
        }
        if has_entry(s, ep_name(), n) {
            let i = entry_index(s, ep_name(), n);
            assert(names_of(s)[i] == n);
        }
    }
}

/// The name tried for a new container: `prefix` and eight hexadecimal digits of `r`.
pub open spec fn candidate(prefix: Seq<char>, r: u32) -> Seq<char> {
    prefix + name_suffix(r)
}

/// The name slot `slot` gets: the first of its `CREATE_RETRIES` candidates (drawn from
/// `sfx[3 * slot ..]`) not yet taken.
pub open spec fn pick(taken: Seq<Seq<char>>, prefix: Seq<char>, sfx: Seq<u32>, slot: int) -> Option<Seq<char>> {
    let c0 = candidate(prefix, sfx[3 * (slot as int)]);
    let c1 = candidate(prefix, sfx[3 * (slot as int) + 1]);
    let c2 = candidate(prefix, sfx[3 * (slot as int) + 2]);
    if !taken.contains(c0) {
        Some(c0)
    } else if !taken.contains(c1) {
        Some(c1)
    } else if !taken.contains(c2) {
        Some(c2)
    } else {
        None
    }
}

/// The names created for slots `slot .. slots`, given the names already taken.
pub open spec fn fill(taken: Seq<Seq<char>>, prefix: Seq<char>, sfx: Seq<u32>, slot: nat, slots: nat) -> Seq<Seq<char>>
    decreases slots - slot,
{
    if slot >= slots {
        Seq::empty()
    } else {
        match pick(taken, prefix, sfx, slot as int) {
            Some(n) => seq![n] + fill(taken.push(n), prefix, sfx, slot + 1, slots),
            None => fill(taken, prefix, sfx, slot + 1, slots),
        }
    }
}

/// The stand-in after creating the containers `names`, in order.
pub open spec fn created_all(d: DockerView, names: Seq<Seq<char>>) -> DockerView
    decreases names.len(),
{
    if names.len() == 0 {
        d
    } else {
        created_all(d, names.drop_last()).created(names.last())
    }
}

/// The stand-in after removing `names`, the last one first.
pub open spec fn removed_from_end(d: DockerView, names: Seq<Seq<char>>) -> DockerView
    decreases names.len(),
{
    if names.len() == 0 {
        d
    } else {
        removed_from_end(d.removed(names.last()), names.drop_last())
    }
}

/// `s` less its first `k` endpoints that are not busy.
pub open spec fn evicted(s: Seq<Endpoint>, k: nat) -> Seq<Endpoint>
    decreases s.len(),
{
    if s.len() == 0 {
        s
    } else if k > 0 && !s[0].busy {
        evicted(s.drop_first(), (k - 1) as nat)
    } else {
        seq![s[0]] + evicted(s.drop_first(), k)
    }
}

/// The names of the first `k` endpoints of `s` that are not busy.
pub open spec fn evicted_names(s: Seq<Endpoint>, k: nat) -> Seq<Seq<char>>
    decreases s.len(),
{
    if s.len() == 0 {
        Seq::empty()
    } else if k > 0 && !s[0].busy {
        seq![s[0].name@] + evicted_names(s.drop_first(), (k - 1) as nat)
    } else {
        evicted_names(s.drop_first(), k)
    }
}

/// How many endpoints of `s` are not busy.
pub open spec fn count_idle(s: Seq<Endpoint>) -> nat
    decreases s.len(),
{
    if s.len() == 0 {
        0
    } else {
        count_idle(s.drop_first()) + if s[0].busy { 0nat } else { 1nat }
    }
}

/// An endpoint survives a health cycle when its container is still known by name, or it is
/// busy.
pub open spec fn survives(d: DockerView) -> spec_fn(Endpoint) -> bool {
    |e: Endpoint| d.names.contains_key(e.name@) || e.busy
}

/// The first probe result for `name` in `probes`.
pub open spec fn probe_for(probes: Seq<(String, HealthResult)>, name: Seq<char>) -> Option<HealthResult>
    decreases probes.len(),
{
    if probes.len() == 0 {
        None
    } else if probes[0].0@ == name {
        Some(probes[0].1)
    } else {
        probe_for(probes.drop_first(), name)
    }
}

/// `e` after a health cycle with the probe results `probes`: its health flags, probe flags
/// and tunnel detail taken from the probe result for its name, when there is one.
pub open spec fn probed(e: Endpoint, probes: Seq<(String, HealthResult)>) -> Endpoint {
    match probe_for(probes, e.name@) {
        Some(h) => Endpoint {
            healthy: h.spec_healthy(),
            socks5_ok: h.socks5,
            http_ok: h.http,
            tunnel_connected: h.tunnel_connected,
            tunnel_detail: h.tunnel_detail,
            ..e
        },
        None => e,
    }
}

pub open spec fn probe_all(probes: Seq<(String, HealthResult)>) -> spec_fn(Endpoint) -> Endpoint {
    |e: Endpoint| probed(e, probes)
}

/// The names of the endpoints of `s` that a health cycle against `d` evicts, in order.
pub open spec fn gone_names(s: Seq<Endpoint>, d: DockerView) -> Seq<Seq<char>>
    decreases s.len(),
{
    if s.len() == 0 {
        Seq::empty()
    } else if (survives(d))(s.last()) {
        gone_names(s.drop_last(), d)
    } else {
        gone_names(s.drop_last(), d).push(s.last().name@)
    }
}

/// The stand-in after deleting the two volumes of each of `names`, in order.
pub open spec fn volumes_dropped(d: DockerView, names: Seq<Seq<char>>) -> DockerView
    decreases names.len(),
{
    if names.len() == 0 {
        d
    } else {
        volumes_dropped(d, names.drop_last()).without_volume(data_volume(names.last())).without_volume(
            cache_volume(names.last()),
        )
    }
}

/// No more names are created than slots remain, and every one starts with `prefix`.
pub proof fn lemma_fill_shape(taken: Seq<Seq<char>>, prefix: Seq<char>, sfx: Seq<u32>, slot: nat, slots: nat)
    ensures
        fill(taken, prefix, sfx, slot, slots).len() <= if slot <= slots { slots - slot } else { 0 },
        forall|k: int| 0 <= k < fill(taken, prefix, sfx, slot, slots).len()
            ==> prefix.is_prefix_of(#[trigger] fill(taken, prefix, sfx, slot, slots)[k]),
        forall|k: int| #![trigger fill(taken, prefix, sfx, slot, slots)[k]]
            0 <= k < fill(taken, prefix, sfx, slot, slots).len()
            ==> exists|r: u32| #[trigger] candidate(prefix, r) == fill(taken, prefix, sfx, slot, slots)[k],
    decreases slots - slot,
{
    if slot < slots {
        match pick(taken, prefix, sfx, slot as int) {
            Some(n) => {
                lemma_fill_shape(taken.push(n), prefix, sfx, slot + 1, slots);
                let rest = fill(taken.push(n), prefix, sfx, slot + 1, slots);
                let all = fill(taken, prefix, sfx, slot, slots);
                assert(all == seq![n] + rest);
                assert(prefix.is_prefix_of(n)) by {
                    let r0 = candidate(prefix, sfx[3 * (slot as int)]);
                    let r1 = candidate(prefix, sfx[3 * (slot as int) + 1]);
                    let r2 = candidate(prefix, sfx[3 * (slot as int) + 2]);
                    assert(prefix.is_prefix_of(r0)) by { assert(r0.subrange(0, prefix.len() as int) =~= prefix); }
                    assert(prefix.is_prefix_of(r1)) by { assert(r1.subrange(0, prefix.len() as int) =~= prefix); }
                    assert(prefix.is_prefix_of(r2)) by { assert(r2.subrange(0, prefix.len() as int) =~= prefix); }
                }
                assert forall|k: int| 0 <= k < all.len() implies prefix.is_prefix_of(#[trigger] all[k]) by {
                    if k > 0 {
                        assert(all[k] == rest[k - 1]);
                    }
                }
                assert(exists|r: u32| #[trigger] candidate(prefix, r) == n) by {
                    let r0 = sfx[3 * (slot as int)];
                    let r1 = sfx[3 * (slot as int) + 1];
                    let r2 = sfx[3 * (slot as int) + 2];
                    if n == candidate(prefix, r0) {
                    } else if n == candidate(prefix, r1) {
                    } else {
                        assert(n == candidate(prefix, r2));
                    }
                }
                assert forall|k: int| #![trigger all[k]] 0 <= k < all.len() implies exists|r: u32| #[trigger] candidate(prefix, r) == all[k] by {
                    if k > 0 {
                        assert(all[k] == rest[k - 1]);
                    }
                }
            },
            None => {
                lemma_fill_shape(taken, prefix, sfx, slot + 1, slots);
            },
        }
    }
}

/// `after` and `d2` are what converging the pool `s` (against the stand-in `d`) towards the
/// target `t` leaves, with new containers named from `prefix` and the candidates `sfx`, and
/// created at `now`: nothing changes at the target; below it, the endpoints named by `fill`
/// are appended and their containers created; above it, the first endpoints that are not
/// busy are removed with their containers, the last one first.
pub open spec fn converged(
    s: Seq<Endpoint>,
    t: usize,
    d: DockerView,
    prefix: Seq<char>,
    sfx: Seq<u32>,
    now: i64,
    after: Seq<Endpoint>,
    d2: DockerView,
) -> bool {
    &&& s.len() == t ==> after == s && d2 == d
    &&& s.len() < t ==> {
        let names = fill(names_of(s), prefix, sfx, 0, (t - s.len()) as nat);
        &&& after.len() == s.len() + names.len()
        &&& after.subrange(0, s.len() as int) == s
        &&& forall|k: int| 0 <= k < names.len() ==> Endpoint::fresh(
            #[trigger] names[k],
            container_id_for(names[k]),
            now,
            after[s.len() + k],
        )
        &&& d2 == created_all(d, names)
    }
    &&& s.len() > t ==> {
        &&& after == evicted(s, (s.len() - t) as nat)
        &&& d2 == removed_from_end(d, evicted_names(s, (s.len() - t) as nat))
    }
}

/// The error `add_proxy` gives, if any.
pub open spec fn add_error(s: Seq<Endpoint>, name: Seq<char>) -> Option<Seq<char>> {
    if has_entry(s, ep_name(), name) {
        Some("proxy "@ + name + " already exists"@)
    } else if s.len() >= MAX_POOL {
        Some("pool at max size (20)"@)
    } else {
        None
    }
}

/// The desired-state pool of proxy endpoints: a target size and the endpoints that exist.
#[derive(Debug)]
pub struct Pool {
    pool: Vec<Endpoint>,
    target: usize,
}

impl Pool {
    /// The endpoints, in the order they joined.
    pub closed spec fn endpoints(&self) -> Seq<Endpoint> {
        self.pool@
    }

    /// The desired pool size.
    pub closed spec fn spec_target(&self) -> usize {
        self.target
    }

    /// Names are unique, and neither the pool nor its target exceeds `MAX_POOL`.
    pub open spec fn wf(&self) -> bool {
        &&& keys_unique(self.endpoints(), ep_name())
        &&& self.endpoints().len() <= MAX_POOL
        &&& self.spec_target() <= MAX_POOL
    }

    /// The endpoint named `name`, if any.
    pub open spec fn spec_find(&self, name: Seq<char>) -> Option<Endpoint> {
        if has_entry(self.endpoints(), ep_name(), name) {
            Some(self.endpoints()[entry_index(self.endpoints(), ep_name(), name)])
        } else {
            None
        }
    }

    /// An empty pool that wants `target` endpoints, capped at `MAX_POOL`.
    pub fn new(target: usize) -> (p: Pool)
        ensures
            p.wf(),
            p.endpoints() == Seq::<Endpoint>::empty(),
            p.spec_target() == if target < MAX_POOL { target } else { MAX_POOL },
    {
        Pool { pool: Vec::new(), target: if target < MAX_POOL { target } else { MAX_POOL } }
    }

    pub fn target(&self) -> (t: usize)
        ensures
            t == self.spec_target(),
    {
        self.target
    }

    /// Sets the desired size, capped at `MAX_POOL`.
    pub fn set_target(&mut self, n: usize)
        requires
            old(self).wf(),
        ensures
            final(self).wf(),
            final(self).spec_target() == if n < MAX_POOL { n } else { MAX_POOL },
            final(self).endpoints() == old(self).endpoints(),
    {
        self.target = if n < MAX_POOL { n } else { MAX_POOL };
    }

    pub fn pool_size(&self) -> (n: usize)
        ensures
            n == self.endpoints().len(),
    {
        self.pool.len()
    }

    /// A copy of the endpoints.
    pub fn snapshot(&self) -> (v: Vec<Endpoint>)
        ensures
            v@ == self.endpoints(),
    {
        let v = self.pool.clone();
        assert(v@ =~= self.pool@);
        v
    }

    /// The summary of the pool, listing the endpoints only when `include_proxies`.
    pub fn summary(&self, include_proxies: bool) -> (s: PoolSummary)
        ensures
            s.target == self.spec_target(),
            s.pool_size == self.endpoints().len(),
            s.healthy == count_healthy(self.endpoints()),
            s.degraded == self.endpoints().len() - count_healthy(self.endpoints()),
            s.endpoints@ == if include_proxies { self.endpoints() } else { Seq::<Endpoint>::empty() },
    {
        let eps = self.snapshot();
        let mut s = PoolSummary::from_endpoints(self.target, eps);
        if !include_proxies {
            s.endpoints.clear();
        }
        s
    }

    fn find(&self, name: &str) -> (r: Option<usize>)
        requires
            self.wf(),
        ensures
            match r {
                Some(i) => i < self.pool@.len() && self.pool@[i as int].name@ == name@
                    && has_entry(self.pool@, ep_name(), name@)
                    && entry_index(self.pool@, ep_name(), name@) == i,
                None => !has_entry(self.pool@, ep_name(), name@),
            },
    {
        let mut i: usize = 0;
        while i < self.pool.len()
            invariant
                self.wf(),
                i <= self.pool@.len(),
                forall|j: int| 0 <= j < i ==> (#[trigger] self.pool@[j]).name@ != name@,
            decreases self.pool@.len() - i,
        {
            if eq_str(self.pool[i].name.as_str(), name) {
                proof {
                    lemma_entry_at(self.pool@, ep_name(), i as int);
                }
                return Some(i);
            }
            i = i + 1;
        }
        None
    }

    /// The endpoint named `name`.
    pub fn get(&self, name: &str) -> (r: Option<Endpoint>)
        requires
            self.wf(),
        ensures
            r == self.spec_find(name@),
    {
        match self.find(name) {
            Some(i) => Some(self.pool[i].clone()),
            None => None,
        }
    }


    /// Registers the created container `name` (created at `now`) and raises the target by one,
    /// up to `MAX_POOL`. Refused when the name is taken or the pool is full.
    pub fn add_proxy_at(&mut self, name: String, container_id: String, now: i64) -> (r: Result<Endpoint, String>)
        requires
            old(self).wf(),
        ensures
            final(self).wf(),
            match add_error(old(self).endpoints(), name@) {
                Some(msg) => r matches Err(m) && m@ == msg && *final(self) == *old(self),
                None => r matches Ok(e) && Endpoint::fresh(name@, container_id@, now, e)
                    && final(self).endpoints() == old(self).endpoints().push(e)
                    && final(self).spec_target() == if old(self).spec_target() + 1 < MAX_POOL {
                        (old(self).spec_target() + 1) as usize
                    } else {
                        MAX_POOL
                    },
            },
    {
        if self.contains(name.as_str()) {
            let mut m = String::from_str("proxy ");
            m.append(name.as_str());
            m.append(" already exists");
            return Err(m);
        }
        if self.pool.len() >= MAX_POOL {
            proof {
                reveal_strlit("pool at max size (20)");
            }
            return Err(String::from_str("pool at max size (20)"));
        }
        let ep = Endpoint::new_at(name.as_str(), container_id.as_str(), now);
        let ghost before = self.pool@;
        self.pool.push(ep.clone());
        proof {
            crate::keyed::lemma_keyed_push(before, ep_name(), |e: Endpoint| (), ep);
        }
        let cur = self.target;
        self.target = if cur + 1 < MAX_POOL { cur + 1 } else { MAX_POOL };
        Ok(ep)
    }

    /// Registers the created container `name`, created now, and raises the target by one.
    pub fn add_proxy(&mut self, name: String, container_id: String) -> (r: Result<Endpoint, String>)
        requires
            old(self).wf(),
        ensures
            final(self).wf(),
            match add_error(old(self).endpoints(), name@) {
                Some(msg) => r matches Err(m) && m@ == msg && *final(self) == *old(self),
                None => r matches Ok(e) && Endpoint::fresh(name@, container_id@, e.created_at, e)
                    && final(self).endpoints() == old(self).endpoints().push(e)
                    && final(self).spec_target() == if old(self).spec_target() + 1 < MAX_POOL {
                        (old(self).spec_target() + 1) as usize
                    } else {
                        MAX_POOL
                    },
            },
    {
        self.add_proxy_at(name, container_id, now_millis())
    }

    /// Takes the endpoint `name` out of the pool, lowers the target by one (not below zero)
    /// and removes its container and volumes. False when there is no such endpoint.
    pub fn remove_proxy(&mut self, docker: &mut FakeDocker, name: &str) -> (found: bool)
        requires
            old(self).wf(),
            old(docker).wf(),
        ensures
            final(self).wf(),
            final(docker).wf(),
            found == has_entry(old(self).endpoints(), ep_name(), name@),
            found ==> final(self).endpoints() == old(self).endpoints().remove(entry_index(old(self).endpoints(), ep_name(), name@))
                && final(self).spec_target() == if old(self).spec_target() > 0 { (old(self).spec_target() - 1) as usize } else { 0 }
                && final(docker)@ == old(docker)@.removed(name@),
            !found ==> *final(self) == *old(self) && *final(docker) == *old(docker),
    {
        match self.find(name) {
            None => false,
            Some(pos) => {
                proof {
                    lemma_keyed_remove(self.pool@, ep_name(), |e: Endpoint| (), pos as int);
                }
                self.pool.remove(pos);
                self.target = if self.target > 0 { self.target - 1 } else { 0 };
                docker.remove(name);
                true
            },
        }
    }

    /// Overwrites the endpoint at `i` with `e`, which has the same name.
    fn put_back(&mut self, i: usize, e: Endpoint)
        requires
            old(self).wf(),
            i < old(self).pool@.len(),
            e.name@ == old(self).pool@[i as int].name@,
        ensures
            final(self).wf(),
            final(self).pool@ == old(self).pool@.update(i as int, e),
            final(self).target == old(self).target,
    {
        proof {
            crate::keyed::lemma_keyed_update(self.pool@, ep_name(), |x: Endpoint| (), i as int, e);
        }
        self.pool.set(i, e);
    }

    /// Marks the endpoint `name` busy (or not); a busy endpoint is never evicted.
    pub fn set_busy(&mut self, name: &str, busy: bool)
        requires
            old(self).wf(),
        ensures
            final(self).wf(),
            final(self).spec_target() == old(self).spec_target(),
            final(self).endpoints() == if has_entry(old(self).endpoints(), ep_name(), name@) {
                let i = entry_index(old(self).endpoints(), ep_name(), name@);
                old(self).endpoints().update(i, Endpoint { busy: busy, ..old(self).endpoints()[i] })
            } else {
                old(self).endpoints()
            },
    {
        if let Some(i) = self.find(name) {
            let mut e = self.pool[i].clone();
            e.busy = busy;
            self.put_back(i, e);
        }
    }

    /// Sets the health flag of the endpoint `name`.
    pub fn set_healthy(&mut self, name: &str, healthy: bool)
        requires
            old(self).wf(),
        ensures
            final(self).wf(),
            final(self).spec_target() == old(self).spec_target(),
            final(self).endpoints() == if has_entry(old(self).endpoints(), ep_name(), name@) {
                let i = entry_index(old(self).endpoints(), ep_name(), name@);
                old(self).endpoints().update(i, Endpoint { healthy: healthy, ..old(self).endpoints()[i] })
            } else {
                old(self).endpoints()
            },
    {
        if let Some(i) = self.find(name) {
            let mut e = self.pool[i].clone();
            e.healthy = healthy;
            self.put_back(i, e);
        }
    }


    /// The position of the first probe result for `name`.
    fn find_probe(probes: &Vec<(String, HealthResult)>, name: &str) -> (r: Option<usize>)
        ensures
            match r {
                Some(k) => k < probes@.len() && probe_for(probes@, name@) == Some(probes@[k as int].1),
                None => probe_for(probes@, name@) is None,
            },
    {
        let mut k: usize = 0;
        proof {
            assert(probes@.skip(0) =~= probes@);
        }
        while k < probes.len()
            invariant
                k <= probes@.len(),
                probe_for(probes@, name@) == probe_for(probes@.skip(k as int), name@),
            decreases probes@.len() - k,
        {
            let ghost rest = probes@.skip(k as int);
            proof {
                assert(rest[0] == probes@[k as int]);
                assert(rest.drop_first() =~= probes@.skip(k + 1));
            }
            if eq_str(probes[k].0.as_str(), name) {
                return Some(k);
            }
            k = k + 1;
        }
        proof {
            assert(probes@.skip(k as int).len() == 0);
        }
        None
    }

    /// `e` with the flags of the probe result for its name, if there is one.
    fn apply_probe(e: &Endpoint, probes: &Vec<(String, HealthResult)>) -> (r: Endpoint)
        ensures
            r == probed(*e, probes@),
    {
        match Pool::find_probe(probes, e.name.as_str()) {
            Some(k) => {
                let h = &probes[k].1;
                let mut u = e.clone();
                u.healthy = h.healthy();
                u.socks5_ok = h.socks5;
                u.http_ok = h.http;
                u.tunnel_connected = h.tunnel_connected;
                u.tunnel_detail = h.tunnel_detail.clone();
                u
            },
            None => e.clone(),
        }
    }

    /// One health cycle: evicts every endpoint whose container is gone (no container goes by
    /// its name) unless it is busy, deletes the two volumes of each evicted endpoint, and sets
    /// the health flags of each endpoint that stays from its probe result in `probes` (the
    /// first one for its name; an endpoint without one keeps its flags).
    pub fn health_cycle(&mut self, docker: &mut FakeDocker, probes: &Vec<(String, HealthResult)>)
        requires
            old(self).wf(),
            old(docker).wf(),
        ensures
            final(self).wf(),
            final(docker).wf(),
            final(self).spec_target() == old(self).spec_target(),
            final(self).endpoints() == old(self).endpoints().filter(survives(old(docker)@)).map_values(
                probe_all(probes@)),
            final(docker)@ == volumes_dropped(old(docker)@, gone_names(old(self).endpoints(), old(docker)@)),
    {
        let ghost s = self.pool@;
        let ghost d0 = docker@;
        let ghost p = survives(d0);
        let ghost f = probe_all(probes@);
        let mut kept: Vec<Endpoint> = Vec::new();
        let mut i: usize = 0;
        while i < self.pool.len()
            invariant
                self.wf(),
                self.pool@ == s,
                docker.wf(),
                p == survives(d0),
                f == probe_all(probes@),
                docker@.names == d0.names,
                i <= s.len(),
                kept@ == s.take(i as int).filter(p).map_values(f),
                docker@ == volumes_dropped(d0, gone_names(s.take(i as int), d0)),
            decreases s.len() - i,
        {
            proof {
                lemma_filter_take_step(s, i as int, p);
                assert(s.take(i + 1).drop_last() =~= s.take(i as int));
                assert(s.take(i + 1).last() == s[i as int]);
            }
            let present = docker.has_container_named(self.pool[i].name.as_str());
            if present || self.pool[i].busy {
                let u = Pool::apply_probe(&self.pool[i], probes);
                let ghost before = kept@;
                kept.push(u);
                proof {
                    assert(kept@ =~= s.take(i as int).filter(p).push(s[i as int]).map_values(f));
                }
            } else {
                let name = self.pool[i].name.as_str();
                let mut data = String::from_str(name);
                data.append("-data");
                docker.remove_volume(data.as_str());
                let mut cache = String::from_str(name);
                cache.append("-cache");
                docker.remove_volume(cache.as_str());
                proof {
                    let g = gone_names(s.take(i + 1), d0);
                    assert(g == gone_names(s.take(i as int), d0).push(s[i as int].name@));
                    assert(g.drop_last() =~= gone_names(s.take(i as int), d0));
                }
            }
            i = i + 1;
        }
        proof {
            lemma_take_all(s);
            crate::keyed::lemma_keyed_filter(s, ep_name(), |e: Endpoint| (), p);
            crate::seqs::lemma_filter_keeps(s, p);
            let t = s.filter(p);
            let m = t.map_values(f);
            assert forall|a: int, b: int| 0 <= a < m.len() && 0 <= b < m.len() && a != b
                implies (ep_name())(#[trigger] m[a]) != (ep_name())(#[trigger] m[b]) by {
                assert(m[a].name@ == t[a].name@);
                assert(m[b].name@ == t[b].name@);
            }
        }
        self.pool = kept;
    }

    /// The name `prefix` + eight hexadecimal digits of `r`.
    fn candidate_name(prefix: &str, r: u32) -> (c: String)
        ensures
            c@ == candidate(prefix@, r),
    {
        let mut c = prefix.to_owned();
        let sfx = name_suffix_of(r);
        c.append(sfx.as_str());
        c
    }

    /// The name for a new container: the first of three candidates drawn from `sfx` at
    /// `3 * slot` that no endpoint has.
    fn pick_name(&self, prefix: &str, sfx: &Vec<u32>, slot: usize) -> (r: Option<String>)
        requires
            self.wf(),
            3 * slot + 2 < sfx@.len(),
        ensures
            match pick(names_of(self.pool@), prefix@, sfx@, slot as int) {
                Some(n) => r matches Some(c) && c@ == n,
                None => r is None,
            },
    {
        proof {
            lemma_names_of(self.pool@);
        }
        let len = sfx.len();
        assert(3 * slot + 2 < len);
        let c0 = Pool::candidate_name(prefix, sfx[3 * slot]);
        if !self.contains(c0.as_str()) {
            return Some(c0);
        }
        let c1 = Pool::candidate_name(prefix, sfx[3 * slot + 1]);
        if !self.contains(c1.as_str()) {
            return Some(c1);
        }
        let c2 = Pool::candidate_name(prefix, sfx[3 * slot + 2]);
        if !self.contains(c2.as_str()) {
            return Some(c2);
        }
        None
    }

    /// Converges the pool towards its target. Below target, each missing endpoint gets a
    /// container named `prefix` + eight hexadecimal digits, trying up to `CREATE_RETRIES`
    /// candidates from `sfx` (three per missing endpoint, in order) and skipping the endpoint
    /// when all are taken; new endpoints are created at `now`. Above target, the first
    /// endpoints that are not busy are removed, with their containers, the last one first.
    pub fn ensure_count_with(&mut self, docker: &mut FakeDocker, prefix: &str, sfx: &Vec<u32>, now: i64)
        requires
            old(self).wf(),
            old(docker).wf(),
            old(self).endpoints().len() < old(self).spec_target() ==> sfx@.len() >= CREATE_RETRIES * (
                old(self).spec_target() - old(self).endpoints().len()),
        ensures
            final(self).wf(),
            final(docker).wf(),
            final(self).spec_target() == old(self).spec_target(),
            converged(old(self).endpoints(), old(self).spec_target(), old(docker)@, prefix@, sfx@, now,
                final(self).endpoints(), final(docker)@),
    {
        let target = self.target;
        let current = self.pool.len();
        if current == target {
            return;
        }
        if current < target {
            self.grow(docker, prefix, sfx, now);
        } else {
            self.shrink(docker, current - target);
        }
    }


    /// Converges the pool towards its target, drawing random names for new containers and
    /// creating them now (see `ensure_count_with`). The image and network are fixed by the
    /// stand-in. False, with nothing changed, when names are needed and the random source
    /// fails; random numbers are drawn only below the target.
    pub fn ensure_count(&mut self, docker: &mut FakeDocker, image: &str, network: &str, prefix: &str) -> (ok: bool)
        requires
            old(self).wf(),
            old(docker).wf(),
        ensures
            final(self).wf(),
            final(docker).wf(),
            final(self).spec_target() == old(self).spec_target(),
            old(self).endpoints().len() >= old(self).spec_target() ==> ok,
            !ok ==> *final(self) == *old(self) && *final(docker) == *old(docker),
            ok ==> ({
                let s = old(self).endpoints();
                let t = old(self).spec_target();
                let f = final(self).endpoints();
                &&& s.len() == t ==> f == s && final(docker)@ == old(docker)@
                &&& s.len() < t ==> {
                    &&& s.len() <= f.len() <= t
                    &&& f.subrange(0, s.len() as int) == s
                    &&& forall|k: int| s.len() <= k < f.len() ==> {
                        &&& prefix@.is_prefix_of((#[trigger] f[k]).name@)
                        &&& Endpoint::fresh(f[k].name@, container_id_for(f[k].name@), f[k].created_at, f[k])
                    }
                }
                &&& s.len() > t ==> {
                    &&& f == evicted(s, (s.len() - t) as nat)
                    &&& final(docker)@ == removed_from_end(old(docker)@, evicted_names(s, (s.len() - t) as nat))
                }
            }),
            // Below target, each new endpoint is named `prefix` and eight hexadecimal digits.
            ok ==> forall|k: int| #![trigger final(self).endpoints()[k]]
                old(self).endpoints().len() <= k < final(self).endpoints().len()
                ==> exists|r: u32| #[trigger] candidate(prefix@, r) == final(self).endpoints()[k].name@,
            // The pool converged as `ensure_count_with` does, for some draws of random numbers
            // (`CREATE_RETRIES` per missing endpoint) and some reading of the clock.
            ok ==> exists|sfx: Seq<u32>, now: i64|
                sfx.len() == (if old(self).endpoints().len() < old(self).spec_target() {
                    CREATE_RETRIES * (old(self).spec_target() - old(self).endpoints().len())
                } else {
                    0
                })
                && #[trigger] converged(old(self).endpoints(), old(self).spec_target(), old(docker)@, prefix@, sfx, now,
                    final(self).endpoints(), final(docker)@),
    {
        let target = self.target;
        let current = self.pool.len();
        let mut draws: Vec<u32> = Vec::new();
        if current < target {
            let n = CREATE_RETRIES * (target - current);
            let mut i: usize = 0;
            while i < n
                invariant
                    i <= n,
                    draws@.len() == i,
                    *self == *old(self),
                    *docker == *old(docker),
                    old(self).wf(),
                    old(docker).wf(),
                    current == old(self).pool@.len(),
                    target == old(self).target,
                    current < target,
                decreases n - i,
            {
                match crate::ids::random_u32() {
                    Some(r) => draws.push(r),
                    None => return false,
                }
                i = i + 1;
            }
        }
        let now = now_millis();
        let ghost s = self.pool@;
        let ghost d0 = docker@;
        self.ensure_count_with(docker, prefix, &draws, now);
        proof {
            assert(converged(s, target, d0, prefix@, draws@, now, self.pool@, docker@));
            if s.len() > target {
                crate::laws::law_shrink_size(s, (s.len() - target) as nat);
            }
            if s.len() < target {
                let names = fill(names_of(s), prefix@, draws@, 0, (target - s.len()) as nat);
                lemma_fill_shape(names_of(s), prefix@, draws@, 0, (target - s.len()) as nat);
                let f = self.pool@;
                assert forall|k: int| s.len() <= k < f.len() implies {
                    &&& prefix@.is_prefix_of((#[trigger] f[k]).name@)
                    &&& Endpoint::fresh(f[k].name@, container_id_for(f[k].name@), f[k].created_at, f[k])
                } by {
                    let q = k - s.len();
                    assert(Endpoint::fresh(names[q], container_id_for(names[q]), now, f[s.len() + q]));
                    assert(prefix@.is_prefix_of(names[q]));
                }
                assert forall|k: int| #![trigger f[k]] s.len() <= k < f.len() implies exists|r: u32| #[trigger] candidate(prefix@, r) == f[k].name@ by {
                    let q = k - s.len();
                    assert(Endpoint::fresh(names[q], container_id_for(names[q]), now, f[s.len() + q]));
                    assert(exists|r: u32| #[trigger] candidate(prefix@, r) == names[q]);
                }
            }
        }
        true
    }

    fn grow(&mut self, docker: &mut FakeDocker, prefix: &str, sfx: &Vec<u32>, now: i64)
        requires
            old(self).wf(),
            old(docker).wf(),
            old(self).pool@.len() < old(self).target,
            sfx@.len() >= CREATE_RETRIES * (old(self).target - old(self).pool@.len()),
        ensures
            final(self).wf(),
            final(docker).wf(),
            final(self).target == old(self).target,
            ({
                let s = old(self).pool@;
                let names = fill(names_of(s), prefix@, sfx@, 0, (old(self).target - s.len()) as nat);
                &&& final(self).pool@.len() == s.len() + names.len()
                &&& final(self).pool@.subrange(0, s.len() as int) == s
                &&& forall|k: int| 0 <= k < names.len() ==> Endpoint::fresh(
                    #[trigger] names[k],
                    container_id_for(names[k]),
                    now,
                    final(self).pool@[s.len() + k],
                )
                &&& final(docker)@ == created_all(old(docker)@, names)
            }),
    {
        let ghost s0 = self.pool@;
        let ghost d0 = docker@;
        let slots = self.target - self.pool.len();
        let ghost mut created: Seq<Seq<char>> = Seq::empty();
        let mut slot: usize = 0;
        while slot < slots
            invariant
                self.wf(),
                docker.wf(),
                self.target == old(self).target,
                slots == old(self).target - s0.len(),
                sfx@.len() >= 3 * slots,
                slot <= slots,
                created.len() <= slot,
                self.pool@.len() == s0.len() + created.len(),
                self.pool@.subrange(0, s0.len() as int) == s0,
                forall|k: int| 0 <= k < created.len() ==> Endpoint::fresh(
                    #[trigger] created[k],
                    container_id_for(created[k]),
                    now,
                    self.pool@[s0.len() + k],
                ),
                docker@ == created_all(d0, created),
                created + fill(names_of(self.pool@), prefix@, sfx@, slot as nat, slots as nat)
                    == fill(names_of(s0), prefix@, sfx@, 0, slots as nat),
            decreases slots - slot,
        {
            let picked = self.pick_name(prefix, sfx, slot);
            let ghost taken = names_of(self.pool@);
            match picked {
                Some(name) => {
                    let ghost before = self.pool@;
                    let id = docker.create(name.as_str(), "warpgate:local", "egressd-net");
                    let ep = Endpoint::new_at(name.as_str(), id.as_str(), now);
                    proof {
                        lemma_names_of(before);
                        crate::keyed::lemma_keyed_push(before, ep_name(), |e: Endpoint| (), ep);
                    }
                    self.pool.push(ep);
                    proof {
                        assert(names_of(self.pool@) =~= taken.push(name@));
                        assert(created.push(name@).drop_last() =~= created);
                        assert(created.push(name@) + fill(taken.push(name@), prefix@, sfx@, (slot + 1) as nat, slots as nat)
                            =~= created + (seq![name@] + fill(taken.push(name@), prefix@, sfx@, (slot + 1) as nat, slots as nat)));
                        assert(self.pool@.subrange(0, s0.len() as int) =~= before.subrange(0, s0.len() as int));
                        created = created.push(name@);
                    }
                },
                None => {},
            }
            slot = slot + 1;
        }
    }

    fn shrink(&mut self, docker: &mut FakeDocker, k: usize)
        requires
            old(self).wf(),
            old(docker).wf(),
        ensures
            final(self).wf(),
            final(docker).wf(),
            final(self).target == old(self).target,
            final(self).pool@ == evicted(old(self).pool@, k as nat),
            final(docker)@ == removed_from_end(old(docker)@, evicted_names(old(self).pool@, k as nat)),
    {
        let ghost s = self.pool@;
        let ghost d0 = docker@;
        let mut kept: Vec<Endpoint> = Vec::new();
        let mut gone: Vec<String> = Vec::new();
        let ghost mut gone_v: Seq<Seq<char>> = Seq::empty();
        let mut removed: usize = 0;
        let mut i: usize = 0;
        proof {
            assert(s.skip(0) =~= s);
            assert(kept@ + evicted(s, k as nat) =~= evicted(s, k as nat));
            assert(gone_v + evicted_names(s, k as nat) =~= evicted_names(s, k as nat));
        }
        while i < self.pool.len()
            invariant
                self.pool@ == s,
                self.wf(),
                i <= s.len(),
                removed <= k,
                gone@.len() == gone_v.len(),
                forall|j: int| 0 <= j < gone_v.len() ==> (#[trigger] gone@[j])@ == gone_v[j],
                kept@ + evicted(s.skip(i as int), (k - removed) as nat) == evicted(s, k as nat),
                gone_v + evicted_names(s.skip(i as int), (k - removed) as nat) == evicted_names(s, k as nat),
                forall|a: int| #![trigger kept@[a]] 0 <= a < kept@.len() ==> exists|j: int| 0 <= j < i && #[trigger] s[j] == kept@[a],
                keys_unique(kept@, ep_name()),
                kept@.len() <= i,
            decreases s.len() - i,
        {
            let ghost rest = s.skip(i as int);
            proof {
                assert(rest[0] == s[i as int]);
                assert(rest.drop_first() =~= s.skip(i + 1));
            }
            if removed < k && !self.pool[i].busy {
                let n = self.pool[i].name.clone();
                gone.push(n);
                proof {
                    assert(gone_v.push(s[i as int].name@) + evicted_names(s.skip(i + 1), (k - removed - 1) as nat)
                        =~= gone_v + (seq![s[i as int].name@] + evicted_names(s.skip(i + 1), (k - removed - 1) as nat)));
                    gone_v = gone_v.push(s[i as int].name@);
                }
                removed = removed + 1;
                proof {
                    assert forall|a: int| #![trigger kept@[a]] 0 <= a < kept@.len() implies exists|j: int| 0 <= j < i + 1 && #[trigger] s[j] == kept@[a] by {
                        let j = choose|j: int| 0 <= j < i && #[trigger] s[j] == kept@[a];
                        assert(s[j] == kept@[a]);
                    }
                }
            } else {
                let e = self.pool[i].clone();
                proof {
                    assert forall|a: int| 0 <= a < kept@.len() implies (#[trigger] kept@[a]).name@ != e.name@ by {
                        let j = choose|j: int| 0 <= j < i && #[trigger] s[j] == kept@[a];
                        assert(s[j].name@ != s[i as int].name@);
                    }
                    assert(!has_entry(kept@, ep_name(), e.name@));
                    crate::keyed::lemma_keyed_push(kept@, ep_name(), |x: Endpoint| (), e);
                }
                kept.push(e);
                proof {
                    assert(kept@ + evicted(s.skip(i + 1), (k - removed) as nat)
                        =~= kept@.drop_last() + (seq![s[i as int]] + evicted(s.skip(i + 1), (k - removed) as nat)));
                    assert forall|a: int| #![trigger kept@[a]] 0 <= a < kept@.len() implies exists|j: int| 0 <= j < i + 1 && #[trigger] s[j] == kept@[a] by {
                        if a == kept@.len() - 1 {
                            assert(s[i as int] == kept@[a]);
                        } else {
                            let j = choose|j: int| 0 <= j < i && #[trigger] s[j] == kept@[a];
                            assert(s[j] == kept@[a]);
                        }
                    }
                }
            }
            i = i + 1;
        }
        proof {
            assert(s.skip(s.len() as int) =~= Seq::<Endpoint>::empty());
            assert(kept@ =~= evicted(s, k as nat));
            assert(gone_v =~= evicted_names(s, k as nat));
        }
        self.pool = kept;
        proof {
            lemma_take_all(gone_v);
        }
        let mut j: usize = gone.len();
        while j > 0
            invariant
                j <= gone@.len(),
                gone@.len() == gone_v.len(),
                forall|q: int| 0 <= q < gone_v.len() ==> (#[trigger] gone@[q])@ == gone_v[q],
                docker.wf(),
                removed_from_end(docker@, gone_v.take(j as int)) == removed_from_end(d0, gone_v),
            decreases j,
        {
            proof {
                assert(gone_v.take(j as int).drop_last() =~= gone_v.take(j - 1));
                assert(gone_v.take(j as int).last() == gone_v[j - 1]);
            }
            docker.remove(gone[j - 1].as_str());
            j = j - 1;
        }
        proof {
            assert(gone_v.take(0) =~= Seq::<Seq<char>>::empty());
            lemma_take_all(gone_v);
        }
    }

    /// Whether an endpoint is named `name`.
    pub fn contains(&self, name: &str) -> (r: bool)
        requires
            self.wf(),
        ensures
            r == has_entry(self.endpoints(), ep_name(), name@),
    {
        self.find(name).is_some()
    }
}

} // verus!
