use vstd::prelude::*;
use crate::text::{eq_str, starts_with};
use crate::seqs::{lemma_filter_take_step, lemma_take_all, lemma_filter_members, lemma_filter_keeps};
use crate::keyed::{keys_unique, has_entry, entry_index, keyed_map, lemma_entry_at, lemma_keyed_push, lemma_keyed_update, lemma_keyed_remove, lemma_keyed_filter};

verus! {

/// A container of the in-memory Docker stand-in.
#[derive(Debug, PartialEq, Eq)]
pub struct FakeContainer {
    pub name: String,
    pub id: String,
    pub running: bool,
}

impl Clone for FakeContainer {
    fn clone(&self) -> (r: Self)
        ensures
            r == *self,
    {
        FakeContainer { name: self.name.clone(), id: self.id.clone(), running: self.running }
    }
}

/// What a container of the stand-in is, as plain values.
pub struct ContainerView {
    pub name: Seq<char>,
    pub id: Seq<char>,
    pub running: bool,
}

impl FakeContainer {
    pub open spec fn view_of(self) -> ContainerView {
        ContainerView { name: self.name@, id: self.id@, running: self.running }
    }
}

/// The state of the stand-in: containers by id, container ids by name, and volume names.
pub struct DockerView {
    pub containers: Map<Seq<char>, ContainerView>,
    pub names: Map<Seq<char>, Seq<char>>,
    pub volumes: Set<Seq<char>>,
}

/// The id the stand-in gives the container named `name`.
pub open spec fn container_id_for(name: Seq<char>) -> Seq<char> {
    "cid-"@ + name
}

/// The data volume of the proxy named `name`.
pub open spec fn data_volume(name: Seq<char>) -> Seq<char> {
    name + "-data"@
}

/// The cache volume of the proxy named `name`.
pub open spec fn cache_volume(name: Seq<char>) -> Seq<char> {
    name + "-cache"@
}

impl DockerView {
    /// After creating (or re-creating) the container named `name`: it runs under id
    /// `cid-{name}`, and its two volumes exist.
    pub open spec fn created(self, name: Seq<char>) -> DockerView {
        let id = container_id_for(name);
        DockerView {
            containers: self.containers.insert(id, ContainerView { name: name, id: id, running: true }),
            names: self.names.insert(name, id),
            volumes: self.volumes.insert(data_volume(name)).insert(cache_volume(name)),
        }
    }

    /// Whether removing `name_or_id` finds a container: by name first, else by id.
    pub open spec fn removes(self, name_or_id: Seq<char>) -> bool {
        self.names.contains_key(name_or_id) || self.containers.contains_key(name_or_id)
    }

    /// After removing `name_or_id`. Found by name, the container, its name and its two
    /// volumes go; found by id, the container and every name that points at it go.
    pub open spec fn removed(self, name_or_id: Seq<char>) -> DockerView {
        if self.names.contains_key(name_or_id) {
            DockerView {
                containers: self.containers.remove(self.names[name_or_id]),
                names: self.names.remove(name_or_id),
                volumes: self.volumes.remove(data_volume(name_or_id)).remove(cache_volume(name_or_id)),
            }
        } else if self.containers.contains_key(name_or_id) {
            DockerView {
                containers: self.containers.remove(name_or_id),
                names: Map::new(
                    |k: Seq<char>| self.names.contains_key(k) && self.names[k] != name_or_id,
                    |k: Seq<char>| self.names[k],
                ),
                volumes: self.volumes,
            }
        } else {
            self
        }
    }

    /// After deleting volume `v`, if it exists.
    pub open spec fn without_volume(self, v: Seq<char>) -> DockerView {
        DockerView { volumes: self.volumes.remove(v), ..self }
    }
}

// ---------------------------------------------------------------------------
// Keys of the stored entries
// ---------------------------------------------------------------------------

pub open spec fn cid_key() -> spec_fn(FakeContainer) -> Seq<char> {
    |c: FakeContainer| c.id@
}

pub open spec fn container_val() -> spec_fn(FakeContainer) -> ContainerView {
    |c: FakeContainer| c.view_of()
}

pub open spec fn name_key() -> spec_fn((String, String)) -> Seq<char> {
    |e: (String, String)| e.0@
}

pub open spec fn name_val() -> spec_fn((String, String)) -> Seq<char> {
    |e: (String, String)| e.1@
}

pub open spec fn vol_key() -> spec_fn(String) -> Seq<char> {
    |v: String| v@
}

pub open spec fn unit_val() -> spec_fn(String) -> () {
    |v: String| ()
}

/// The containers `list_by_prefix` reports: named with `prefix`, and running when asked.
pub open spec fn listed(prefix: Seq<char>, running_only: bool) -> spec_fn(FakeContainer) -> bool {
    |c: FakeContainer| prefix.is_prefix_of(c.name@) && (!running_only || c.running)
}

/// The Docker daemon stand-in used by the pool: containers, names and volumes in memory.
#[derive(Debug)]
pub struct FakeDocker {
    containers: Vec<FakeContainer>,
    by_name: Vec<(String, String)>,
    volumes: Vec<String>,
}

impl View for FakeDocker {
    type V = DockerView;

    closed spec fn view(&self) -> DockerView {
        DockerView {
            containers: keyed_map(self.containers@, cid_key(), container_val()),
            names: keyed_map(self.by_name@, name_key(), name_val()),
            volumes: keyed_map(self.volumes@, vol_key(), unit_val()).dom(),
        }
    }
}

impl FakeDocker {
    /// No key occurs twice.
    pub closed spec fn wf(&self) -> bool {
        &&& keys_unique(self.containers@, cid_key())
        &&& keys_unique(self.by_name@, name_key())
        &&& keys_unique(self.volumes@, vol_key())
    }

    /// The containers, in the order they were first created.
    pub closed spec fn container_seq(&self) -> Seq<FakeContainer> {
        self.containers@
    }

    pub fn new() -> (d: FakeDocker)
        ensures
            d.wf(),
            d@.containers == Map::<Seq<char>, ContainerView>::empty(),
            d@.names == Map::<Seq<char>, Seq<char>>::empty(),
            d@.volumes == Set::<Seq<char>>::empty(),
            d.container_seq() == Seq::<FakeContainer>::empty(),
    {
        let d = FakeDocker { containers: Vec::new(), by_name: Vec::new(), volumes: Vec::new() };
        assert(d@.containers =~= Map::<Seq<char>, ContainerView>::empty());
        assert(d@.names =~= Map::<Seq<char>, Seq<char>>::empty());
        assert(d@.volumes =~= Set::<Seq<char>>::empty());
        d
    }


    /// Adds the container, or replaces the one with the same id.
    fn put_container(&mut self, c: FakeContainer)
        requires
            old(self).wf(),
        ensures
            final(self).wf(),
            final(self)@ == (DockerView {
                containers: old(self)@.containers.insert(c.id@, c.view_of()),
                ..old(self)@
            }),
    {
        proof {
            assert((cid_key())(c) == c.id@);
        }
        match self.find_container(c.id.as_str()) {
            Some(i) => {
                proof {
                    lemma_keyed_update(self.containers@, cid_key(), container_val(), i as int, c);
                }
                self.containers.set(i, c);
            },
            None => {
                proof {
                    lemma_keyed_push(self.containers@, cid_key(), container_val(), c);
                }
                self.containers.push(c);
            },
        }
    }

    /// Points `name` at `id`.
    fn put_name(&mut self, name: String, id: String)
        requires
            old(self).wf(),
        ensures
            final(self).wf(),
            final(self)@ == (DockerView { names: old(self)@.names.insert(name@, id@), ..old(self)@ }),
    {
        let e = (name, id);
        proof {
            assert((name_key())(e) == e.0@);
        }
        match self.find_name(e.0.as_str()) {
            Some(i) => {
                proof {
                    lemma_keyed_update(self.by_name@, name_key(), name_val(), i as int, e);
                }
                self.by_name.set(i, e);
            },
            None => {
                proof {
                    lemma_keyed_push(self.by_name@, name_key(), name_val(), e);
                }
                self.by_name.push(e);
            },
        }
    }

    /// Adds volume `v` when it does not exist yet.
    pub fn add_volume(&mut self, v: String)
        requires
            old(self).wf(),
        ensures
            final(self).wf(),
            final(self)@ == (DockerView { volumes: old(self)@.volumes.insert(v@), ..old(self)@ }),
    {
        match self.find_volume(v.as_str()) {
            Some(i) => {
                proof {
                    lemma_entry_at(self.volumes@, vol_key(), i as int);
                    assert(self@.volumes.insert(v@) =~= self@.volumes);
                }
            },
            None => {
                proof {
                    lemma_keyed_push(self.volumes@, vol_key(), unit_val(), v);
                    assert(keyed_map(self.volumes@.push(v), vol_key(), unit_val()).dom()
                        =~= keyed_map(self.volumes@, vol_key(), unit_val()).dom().insert(v@));
                }
                self.volumes.push(v);
            },
        }
    }

    /// Deletes volume `v` if it exists.
    pub fn remove_volume(&mut self, v: &str)
        requires
            old(self).wf(),
        ensures
            final(self).wf(),
            final(self)@ == old(self)@.without_volume(v@),
    {
        match self.find_volume(v) {
            Some(i) => {
                proof {
                    lemma_keyed_remove(self.volumes@, vol_key(), unit_val(), i as int);
                    assert(keyed_map(self.volumes@.remove(i as int), vol_key(), unit_val()).dom()
                        =~= keyed_map(self.volumes@, vol_key(), unit_val()).dom().remove(v@));
                }
                self.volumes.remove(i);
            },
            None => {
                proof {
                    assert(self@.volumes.remove(v@) =~= self@.volumes);
                }
            },
        }
    }

    /// Whether volume `v` exists.
    pub fn has_volume(&self, v: &str) -> (r: bool)
        ensures
            r == self@.volumes.contains(v@),
    {
        match self.find_volume(v) {
            Some(i) => {
                proof {
                    assert(has_entry(self.volumes@, vol_key(), v@));
                }
                true
            },
            None => false,
        }
    }

    /// Whether a container goes by `name`.
    pub fn has_container_named(&self, name: &str) -> (r: bool)
        ensures
            r == self@.names.contains_key(name@),
    {
        match self.find_name(name) {
            Some(i) => {
                proof {
                    assert(has_entry(self.by_name@, name_key(), name@));
                }
                true
            },
            None => false,
        }
    }

    /// The id of the container named `name`.
    pub fn container_id_of(&self, name: &str) -> (r: Option<String>)
        requires
            self.wf(),
        ensures
            r is Some == self@.names.contains_key(name@),
            r matches Some(id) ==> id@ == self@.names[name@],
    {
        match self.find_name(name) {
            Some(i) => {
                proof {
                    lemma_entry_at(self.by_name@, name_key(), i as int);
                }
                Some(self.by_name[i].1.clone())
            },
            None => None,
        }
    }

    /// Creates and starts the container `name` (the image and network are not modelled):
    /// its id is `cid-{name}` and its volumes `{name}-data` and `{name}-cache` exist.
    pub fn create(&mut self, name: &str, image: &str, network: &str) -> (id: String)
        requires
            old(self).wf(),
        ensures
            final(self).wf(),
            id@ == container_id_for(name@),
            final(self)@ == old(self)@.created(name@),
    {
        let mut id = String::from_str("cid-");
        id.append(name);
        let c = FakeContainer { name: name.to_owned(), id: id.clone(), running: true };
        self.put_container(c);
        self.put_name(name.to_owned(), id.clone());
        let mut data = name.to_owned();
        data.append("-data");
        self.add_volume(data);
        let mut cache = name.to_owned();
        cache.append("-cache");
        self.add_volume(cache);
        proof {
            assert(self@.containers =~= old(self)@.created(name@).containers);
            assert(self@.names =~= old(self)@.created(name@).names);
            assert(self@.volumes =~= old(self)@.created(name@).volumes);
        }
        id
    }

    /// Removes a container by name, with its two volumes; failing that, by id, with every name
    /// that points at it. False when neither finds one.
    pub fn remove(&mut self, name: &str) -> (found: bool)
        requires
            old(self).wf(),
        ensures
            final(self).wf(),
            found == old(self)@.removes(name@),
            final(self)@ == old(self)@.removed(name@),
    {
        match self.find_name(name) {
            Some(i) => {
                proof {
                    lemma_entry_at(self.by_name@, name_key(), i as int);
                    lemma_keyed_remove(self.by_name@, name_key(), name_val(), i as int);
                }
                let id = self.by_name[i].1.clone();
                self.by_name.remove(i);
                match self.find_container(id.as_str()) {
                    Some(j) => {
                        proof {
                            lemma_keyed_remove(self.containers@, cid_key(), container_val(), j as int);
                        }
                        self.containers.remove(j);
                    },
                    None => {
                        proof {
                            assert(self@.containers.remove(id@) =~= self@.containers);
                        }
                    },
                }
                let mut data = String::from_str(name);
                data.append("-data");
                self.remove_volume(data.as_str());
                let mut cache = String::from_str(name);
                cache.append("-cache");
                self.remove_volume(cache.as_str());
                proof {
                    assert(self@.containers =~= old(self)@.removed(name@).containers);
                    assert(self@.names =~= old(self)@.removed(name@).names);
                    assert(self@.volumes =~= old(self)@.removed(name@).volumes);
                }
                true
            },
            None => {
                match self.find_container(name) {
                    Some(j) => {
                        proof {
                            lemma_keyed_remove(self.containers@, cid_key(), container_val(), j as int);
                            assert(has_entry(self.containers@, cid_key(), name@));
                        }
                        self.containers.remove(j);
                        self.drop_names_pointing_at(name);
                        proof {
                            assert(self@.containers =~= old(self)@.removed(name@).containers);
                            assert(self@.names =~= old(self)@.removed(name@).names);
                        }
                        true
                    },
                    None => false,
                }
            },
        }
    }

    /// Drops every name that points at container id `id`.
    fn drop_names_pointing_at(&mut self, id: &str)
        requires
            old(self).wf(),
        ensures
            final(self).wf(),
            final(self)@ == (DockerView {
                names: Map::new(
                    |k: Seq<char>| old(self)@.names.contains_key(k) && old(self)@.names[k] != id@,
                    |k: Seq<char>| old(self)@.names[k],
                ),
                ..old(self)@
            }),
    {
        let ghost s = self.by_name@;
        let ghost p = |e: (String, String)| e.1@ != id@;
        let mut kept: Vec<(String, String)> = Vec::new();
        let mut i: usize = 0;
        while i < self.by_name.len()
            invariant
                self.by_name@ == s,
                i <= s.len(),
                p == (|e: (String, String)| e.1@ != id@),
                kept@ == s.take(i as int).filter(p),
            decreases s.len() - i,
        {
            proof {
                lemma_filter_take_step(s, i as int, p);
            }
            if !eq_str(self.by_name[i].1.as_str(), id) {
                let e = (self.by_name[i].0.clone(), self.by_name[i].1.clone());
                assert(e == s[i as int]);
                kept.push(e);
            }
            i = i + 1;
        }
        proof {
            lemma_take_all(s);
            lemma_keyed_filter(s, name_key(), name_val(), p);
        }
        self.by_name = kept;
        proof {
            let m = Map::new(
                |k: Seq<char>| old(self)@.names.contains_key(k) && old(self)@.names[k] != id@,
                |k: Seq<char>| old(self)@.names[k],
            );
            assert(self@.names =~= m);
        }
    }

    /// The containers named with `prefix` (only running ones when `running_only`).
    pub fn list_by_prefix(&self, prefix: &str, running_only: bool) -> (r: Vec<FakeContainer>)
        requires
            self.wf(),
        ensures
            r@ == self.container_seq().filter(listed(prefix@, running_only)),
            forall|i: int| 0 <= i < r@.len() ==> {
                &&& self@.containers.contains_key(#[trigger] r@[i].id@)
                &&& self@.containers[r@[i].id@] == r@[i].view_of()
                &&& listed(prefix@, running_only)(r@[i])
            },
            forall|id: Seq<char>| #[trigger] self@.containers.contains_key(id)
                && prefix@.is_prefix_of(self@.containers[id].name)
                && (!running_only || self@.containers[id].running)
                ==> exists|i: int| 0 <= i < r@.len() && r@[i].id@ == id,
    {
        let ghost s = self.containers@;
        let ghost p = listed(prefix@, running_only);
        let mut out: Vec<FakeContainer> = Vec::new();
        let mut i: usize = 0;
        while i < self.containers.len()
            invariant
                self.containers@ == s,
                i <= s.len(),
                p == listed(prefix@, running_only),
                out@ == s.take(i as int).filter(p),
            decreases s.len() - i,
        {
            proof {
                lemma_filter_take_step(s, i as int, p);
            }
            let c = &self.containers[i];
            if starts_with(c.name.as_str(), prefix) && (!running_only || c.running) {
                out.push(c.clone());
            }
            i = i + 1;
        }
        proof {
            lemma_take_all(s);
            lemma_filter_members(s, p);
            lemma_filter_keeps(s, p);
            assert forall|i: int| 0 <= i < out@.len() implies {
                &&& self@.containers.contains_key(#[trigger] out@[i].id@)
                &&& self@.containers[out@[i].id@] == out@[i].view_of()
                &&& p(out@[i])
            } by {
                assert(out@.contains(out@[i]));
                let j = choose|j: int| 0 <= j < s.len() && s[j] == out@[i];
                lemma_entry_at(s, cid_key(), j);
            }
            assert forall|id: Seq<char>| #[trigger] self@.containers.contains_key(id)
                && prefix@.is_prefix_of(self@.containers[id].name)
                && (!running_only || self@.containers[id].running)
                implies exists|i: int| 0 <= i < out@.len() && out@[i].id@ == id by {
                let j = entry_index(s, cid_key(), id);
                lemma_entry_at(s, cid_key(), j);
                assert(p(s[j]));
                assert(out@.contains(s[j]));
                let i = choose|i: int| 0 <= i < out@.len() && out@[i] == s[j];
                assert(out@[i].id@ == id);
            }
        }
        out
    }

    fn find_container(&self, id: &str) -> (r: Option<usize>)
        ensures
            match r {
                Some(i) => i < self.containers@.len() && self.containers@[i as int].id@ == id@,
                None => !has_entry(self.containers@, cid_key(), id@),
            },
    {
        let mut i: usize = 0;
        while i < self.containers.len()
            invariant
                i <= self.containers@.len(),
                forall|j: int| 0 <= j < i ==> (#[trigger] self.containers@[j]).id@ != id@,
            decreases self.containers@.len() - i,
        {
            if eq_str(self.containers[i].id.as_str(), id) {
                return Some(i);
            }
            i = i + 1;
        }
        None
    }

    fn find_name(&self, name: &str) -> (r: Option<usize>)
        ensures
            match r {
                Some(i) => i < self.by_name@.len() && self.by_name@[i as int].0@ == name@,
                None => !has_entry(self.by_name@, name_key(), name@),
            },
    {
        let mut i: usize = 0;
        while i < self.by_name.len()
            invariant
                i <= self.by_name@.len(),
                forall|j: int| 0 <= j < i ==> (#[trigger] self.by_name@[j]).0@ != name@,
            decreases self.by_name@.len() - i,
        {
            if eq_str(self.by_name[i].0.as_str(), name) {
                return Some(i);
            }
            i = i + 1;
        }
        None
    }

    fn find_volume(&self, v: &str) -> (r: Option<usize>)
        ensures
            match r {
                Some(i) => i < self.volumes@.len() && self.volumes@[i as int]@ == v@,
                None => !has_entry(self.volumes@, vol_key(), v@),
            },
    {
        let mut i: usize = 0;
        while i < self.volumes.len()
            invariant
                i <= self.volumes@.len(),
                forall|j: int| 0 <= j < i ==> (#[trigger] self.volumes@[j])@ != v@,
            decreases self.volumes@.len() - i,
        {
            if eq_str(self.volumes[i].as_str(), v) {
                return Some(i);
            }
            i = i + 1;
        }
        None
    }
}

} // verus!
