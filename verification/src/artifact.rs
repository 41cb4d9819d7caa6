//! Artifacts that a client uploads for its session.

use vstd::prelude::*;

use crate::assoc::AssocMap;

verus! {

/// The artifacts of a session, by name.
#[derive(Debug)]
pub struct ArtifactStore {
    inner: AssocMap<String, Vec<u8>>,
}

impl View for ArtifactStore {
    type V = Map<Seq<char>, Seq<u8>>;

    closed spec fn view(&self) -> Map<Seq<char>, Seq<u8>> {
        self.inner@.map_values(|data: Vec<u8>| data@)
    }
}

impl ArtifactStore {
    /// A store without artifacts.
    pub fn new() -> (store: Self)
        ensures
            store@ == Map::<Seq<char>, Seq<u8>>::empty(),
    {
        let store = ArtifactStore { inner: AssocMap::new() };
        assert(store@ =~= Map::<Seq<char>, Seq<u8>>::empty());
        store
    }

    /// Keeps an artifact under a name; one that was there under the name is replaced.
    pub fn store(&mut self, name: String, data: Vec<u8>)
        ensures
            final(self)@ == old(self)@.insert(name@, data@),
    {
        self.inner.insert(name, data);
        assert(self@ =~= old(self)@.insert(name@, data@));
    }

    /// Whether there is an artifact with the name.
    pub fn contains(&self, name: &str) -> (found: bool)
        ensures
            found == self@.contains_key(name@),
    {
        self.inner.get(name).is_some()
    }

    /// The bytes of the artifact with the name.
    pub fn get(&self, name: &str) -> (data: Option<Vec<u8>>)
        ensures
            match data {
                Some(d) => self@.contains_key(name@) && self@[name@] == d@,
                None => !self@.contains_key(name@),
            },
    {
        match self.inner.get(name) {
            Some(data) => Some(crate::bytes::copy(data.as_slice())),
            None => None,
        }
    }
}

impl Default for ArtifactStore {
    fn default() -> (store: Self)
        ensures
            store@ == Map::<Seq<char>, Seq<u8>>::empty(),
    {
        ArtifactStore::new()
    }
}

/// The artifacts after some were stored one after the other.
pub open spec fn with_artifacts(
    artifacts: Map<Seq<char>, Seq<u8>>,
    stored: Seq<(Seq<char>, Seq<u8>)>,
) -> Map<Seq<char>, Seq<u8>>
    decreases stored.len(),
{
    if stored.len() == 0 {
        artifacts
    } else {
        with_artifacts(artifacts, stored.drop_last()).insert(stored.last().0, stored.last().1)
    }
}

/// Whoever stores artifacts in a store that several share, one after the other: under a name stands
/// what was stored last, and under one that nobody stored anything what was there before.
pub proof fn law_latest_artifact_is_found(
    artifacts: Map<Seq<char>, Seq<u8>>,
    stored: Seq<(Seq<char>, Seq<u8>)>,
    name: Seq<char>,
)
    ensures
        forall|k: int|
            0 <= k < stored.len() && (#[trigger] stored[k]).0 == name && (forall|j: int|
                k < j < stored.len() ==> (#[trigger] stored[j]).0 != name) ==> with_artifacts(
                artifacts,
                stored,
            ).contains_key(name) && with_artifacts(artifacts, stored)[name] == stored[k].1,
        (forall|k: int| 0 <= k < stored.len() ==> (#[trigger] stored[k]).0 != name) ==> {
            let after = with_artifacts(artifacts, stored);
            &&& after.contains_key(name) == artifacts.contains_key(name)
            &&& after.contains_key(name) ==> after[name] == artifacts[name]
        },
    decreases stored.len(),
{
    if stored.len() > 0 {
        let rest = stored.drop_last();
        let last = stored.len() - 1;
        law_latest_artifact_is_found(artifacts, rest, name);
        assert(stored[last] == stored.last());
        assert forall|k: int|
            0 <= k < stored.len() && (#[trigger] stored[k]).0 == name && (forall|j: int|
                k < j < stored.len() ==> (#[trigger] stored[j]).0 != name) implies with_artifacts(
            artifacts,
            stored,
        ).contains_key(name) && with_artifacts(artifacts, stored)[name] == stored[k].1 by {
            if k < last {
                assert(stored[last].0 != name);
                assert(rest[k] == stored[k]);
                assert forall|j: int| k < j < rest.len() implies (#[trigger] rest[j]).0 != name by {
                    assert(stored[j].0 != name);
                }
            }
        }
        if forall|k: int| 0 <= k < stored.len() ==> (#[trigger] stored[k]).0 != name {
            assert forall|k: int| 0 <= k < rest.len() implies (#[trigger] rest[k]).0 != name by {
                assert(stored[k].0 != name);
            }
        }
    }
}

/// A handle on a store of artifacts. Its clones are handles on the same store.
#[derive(Debug, Clone, Copy, PartialEq, Eq, Structural)]
pub struct ArtifactHandle {
    pub store: usize,
}

/// Stores of artifacts that are reached through handles.
#[derive(Debug)]
pub struct ArtifactStores {
    stores: Vec<ArtifactStore>,
}

impl View for ArtifactStores {
    type V = Seq<Map<Seq<char>, Seq<u8>>>;

    closed spec fn view(&self) -> Seq<Map<Seq<char>, Seq<u8>>> {
        self.stores@.map_values(|s: ArtifactStore| s@)
    }
}

impl ArtifactStores {
    /// No stores.
    pub fn new() -> (stores: Self)
        ensures
            stores@ == Seq::<Map<Seq<char>, Seq<u8>>>::empty(),
    {
        let stores = ArtifactStores { stores: Vec::new() };
        assert(stores@ =~= Seq::<Map<Seq<char>, Seq<u8>>>::empty());
        stores
    }

    /// Adds a store without artifacts; gives a handle on it.
    pub fn open(&mut self) -> (handle: ArtifactHandle)
        ensures
            handle.store == old(self)@.len(),
            final(self)@ == old(self)@.push(Map::empty()),
    {
        let handle = ArtifactHandle { store: self.stores.len() };
        self.stores.push(ArtifactStore::new());
        assert(self@ =~= old(self)@.push(Map::empty()));
        handle
    }

    /// Keeps an artifact under a name, in the store of a handle.
    pub fn store(&mut self, handle: ArtifactHandle, name: String, data: Vec<u8>)
        requires
            handle.store < old(self)@.len(),
        ensures
            final(self)@ == stored_through(old(self)@, handle, name@, data@),
    {
        let ghost view = (name@, data@);
        self.stores[handle.store].store(name, data);
        assert(self@ =~= stored_through(old(self)@, handle, view.0, view.1));
    }

    /// Whether there is an artifact with the name in the store of a handle.
    pub fn contains(&self, handle: ArtifactHandle, name: &str) -> (found: bool)
        requires
            handle.store < self@.len(),
        ensures
            found == (read_through(self@, handle, name@) is Some),
    {
        self.stores[handle.store].contains(name)
    }

    /// The bytes of the artifact with the name in the store of a handle.
    pub fn get(&self, handle: ArtifactHandle, name: &str) -> (data: Option<Vec<u8>>)
        requires
            handle.store < self@.len(),
        ensures
            match data {
                Some(d) => read_through(self@, handle, name@) == Some(d@),
                None => read_through(self@, handle, name@) is None,
            },
    {
        self.stores[handle.store].get(name)
    }
}

/// The stores after an artifact was stored through a handle.
pub open spec fn stored_through(
    stores: Seq<Map<Seq<char>, Seq<u8>>>,
    handle: ArtifactHandle,
    name: Seq<char>,
    data: Seq<u8>,
) -> Seq<Map<Seq<char>, Seq<u8>>> {
    stores.update(handle.store as int, stores[handle.store as int].insert(name, data))
}

/// What stands under a name, read through a handle.
pub open spec fn read_through(
    stores: Seq<Map<Seq<char>, Seq<u8>>>,
    handle: ArtifactHandle,
    name: Seq<char>,
) -> Option<Seq<u8>> {
    if stores[handle.store as int].contains_key(name) {
        Some(stores[handle.store as int][name])
    } else {
        None
    }
}

/// What is stored through a handle is found through each of its clones; under other names, and
/// through handles on other stores, stands what was there before.
pub proof fn law_clones_share_artifacts(
    stores: Seq<Map<Seq<char>, Seq<u8>>>,
    handle: ArtifactHandle,
    other: ArtifactHandle,
    name: Seq<char>,
    data: Seq<u8>,
    read: Seq<char>,
)
    requires
        handle.store < stores.len(),
        other.store < stores.len(),
    ensures
        ({
            let after = stored_through(stores, handle, name, data);
            &&& after.len() == stores.len()
            &&& read_through(after, other, read) == if other == handle && read == name {
                Some(data)
            } else {
                read_through(stores, other, read)
            }
        }),
{
}

} // verus!
