use vstd::prelude::*;

use crate::dialect::Dialect;
use crate::error::CoreError;
use crate::module::{IdView, ModuleId, copy_bytes};

verus! {

/// A pluggable source of module bytecode: a chain node or a file tree.
/// `fetch` takes a chain-native address and an access path and returns
/// the raw chain-native bytes, or nothing when the module is unknown.
/// Nothing more is promised of an implementation: a transient failure
/// and a missing module look the same, absence, by design.
pub trait Loader {
    fn fetch(&self, address: &Vec<u8>, access_path: &Vec<u8>) -> Option<Vec<u8>>;
}

/// A loader backed by an in-memory table: pairs of (access path, bytes).
pub struct TableLoader {
    pub paths: Vec<Vec<u8>>,
    pub blobs: Vec<Vec<u8>>,
}

impl Loader for TableLoader {
    fn fetch(&self, _address: &Vec<u8>, access_path: &Vec<u8>) -> Option<Vec<u8>> {
        let mut i: usize = 0;
        let n = if self.paths.len() < self.blobs.len() {
            self.paths.len()
        } else {
            self.blobs.len()
        };
        while i < n
            invariant
                0 <= i <= n,
                n <= self.paths@.len(),
                n <= self.blobs@.len(),
            decreases n - i,
        {
            if crate::address::bytes_equal(&self.paths[i], access_path) {
                return Some(copy_bytes(&self.blobs[i]));
            }
            i += 1;
        }
        None
    }
}

/// The store map built from parallel key and value lists, later entries
/// winning.
pub open spec fn store_map(keys: Seq<IdView>, vals: Seq<Seq<u8>>) -> Map<IdView, Seq<u8>>
    decreases keys.len(),
{
    if keys.len() == 0 || vals.len() == 0 {
        Map::empty()
    } else {
        store_map(keys.drop_last(), vals.drop_last()).insert(keys.last(), vals.last())
    }
}

/// With distinct keys, the map reads back exactly the lists.
pub proof fn lemma_store_map(keys: Seq<IdView>, vals: Seq<Seq<u8>>, id: IdView)
    requires
        keys.len() == vals.len(),
        forall|i: int, j: int| 0 <= i < j < keys.len() ==> keys[i] != keys[j],
    ensures
        store_map(keys, vals).contains_key(id) <==> (exists|k: int|
            0 <= k < keys.len() && keys[k] == id),
        forall|k: int| 0 <= k < keys.len() && keys[k] == id ==> store_map(keys, vals)[id]
            == vals[k],
    decreases keys.len(),
{
    if keys.len() > 0 {
        assert forall|i: int, j: int|
            0 <= i < j < keys.drop_last().len() implies keys.drop_last()[i] != keys.drop_last()[
        j] by {
            assert(keys.drop_last()[i] == keys[i]);
            assert(keys.drop_last()[j] == keys[j]);
        }
        lemma_store_map(keys.drop_last(), vals.drop_last(), id);
        if keys.last() == id {
            assert(keys[keys.len() - 1] == id);
        } else {
            if store_map(keys, vals).contains_key(id) {
                let k = choose|k: int|
                    0 <= k < keys.drop_last().len() && keys.drop_last()[k] == id;
                assert(keys[k] == id);
            }
            if exists|k: int| 0 <= k < keys.len() && keys[k] == id {
                let k = choose|k: int| 0 <= k < keys.len() && keys[k] == id;
                assert(k < keys.len() - 1);
                assert(keys.drop_last()[k] == id);
            }
            assert forall|k: int|
                0 <= k < keys.len() && keys[k] == id implies store_map(keys, vals)[id] == vals[
            k] by {
                assert(k < keys.len() - 1);
                assert(keys.drop_last()[k] == keys[k]);
                assert(vals.drop_last()[k] == vals[k]);
            }
        }
    }
}

/// Cache of resolved module interfaces: canonical bytecode by identity.
/// Entries are immutable once written; a second `put` for one identity
/// replaces the bytes.
pub struct Store {
    keys: Vec<ModuleId>,
    vals: Vec<Vec<u8>>,
}

impl View for Store {
    type V = Map<IdView, Seq<u8>>;

    closed spec fn view(&self) -> Map<IdView, Seq<u8>> {
        store_map(key_views(self.keys@), val_views(self.vals@))
    }
}

/// The identity views of a key list.
pub open spec fn key_views(s: Seq<ModuleId>) -> Seq<IdView> {
    Seq::new(s.len(), |i: int| s[i]@)
}

/// The byte views of a value list.
pub open spec fn val_views(s: Seq<Vec<u8>>) -> Seq<Seq<u8>> {
    Seq::new(s.len(), |i: int| s[i]@)
}

impl Store {
    pub closed spec fn wf(&self) -> bool {
        &&& self.keys@.len() == self.vals@.len()
        &&& forall|i: int, j: int| 0 <= i < j < self.keys@.len() ==> key_views(self.keys@)[i]
            != key_views(self.keys@)[j]
    }

    /// The empty store.
    pub fn new() -> (r: Store)
        ensures
            r.wf(),
            r@ == Map::<IdView, Seq<u8>>::empty(),
    {
        Store { keys: Vec::new(), vals: Vec::new() }
    }

    /// Look an identity up.
    pub fn get(&self, id: &ModuleId) -> (r: Option<Vec<u8>>)
        requires
            self.wf(),
        ensures
            r is Some <==> self@.contains_key(id@),
            r matches Some(b) ==> b@ == self@[id@],
    {
        let ghost kv = key_views(self.keys@);
        let ghost vv = val_views(self.vals@);
        proof {
            lemma_store_map(kv, vv, id@);
        }
        let mut i: usize = 0;
        while i < self.keys.len()
            invariant
                0 <= i <= self.keys@.len(),
                forall|k: int| 0 <= k < i ==> (#[trigger] kv[k]) != id@,
            decreases self.keys@.len() - i,
        {
            if self.keys[i].equals(id) {
                proof {
                    assert(kv[i as int] == id@);
                    assert(self@.contains_key(id@));
                    assert(self@[id@] == vv[i as int]);
                    assert(vv[i as int] == self.vals@[i as int]@);
                }
                return Some(copy_bytes(&self.vals[i]));
            }
            i += 1;
        }
        None
    }

    /// Write one identity's bytes; an existing entry is replaced.
    pub fn put(&mut self, id: ModuleId, bytes: Vec<u8>)
        requires
            old(self).wf(),
        ensures
            final(self).wf(),
            final(self)@ == old(self)@.insert(id@, bytes@),
    {
        let ghost kv0 = key_views(self.keys@);
        let ghost vv0 = val_views(self.vals@);
        let mut i: usize = 0;
        while i < self.keys.len()
            invariant
                0 <= i <= self.keys@.len(),
                forall|k: int| 0 <= k < i ==> (#[trigger] kv0[k]) != id@,
                self.keys@ == old(self).keys@,
                self.vals@ == old(self).vals@,
            decreases self.keys@.len() - i,
        {
            if self.keys[i].equals(&id) {
                self.vals.set(i, bytes);
                proof {
                    let kv = key_views(self.keys@);
                    let vv = val_views(self.vals@);
                    assert(kv =~= kv0);
                    assert(vv =~= vv0.update(i as int, bytes@));
                    assert(self@ =~= old(self)@.insert(id@, bytes@)) by {
                        assert forall|x: IdView| true implies #[trigger] self@.contains_key(x)
                            == old(self)@.insert(id@, bytes@).contains_key(x) && (
                        self@.contains_key(x) ==> self@[x] == old(self)@.insert(
                            id@,
                            bytes@,
                        )[x]) by {
                            lemma_store_map(kv, vv, x);
                            lemma_store_map(kv0, vv0, x);
                            if x == id@ {
                                assert(kv[i as int] == x);
                                assert(self@.contains_key(x));
                                assert(self@[x] == vv[i as int]);
                            } else {
                                if self@.contains_key(x) {
                                    let j = choose|j: int| 0 <= j < kv.len() && kv[j] == x;
                                    assert(kv0[j] == x);
                                    assert(self@[x] == vv[j]);
                                    assert(vv0[j] == vv[j]);
                                    assert(old(self)@[x] == vv0[j]);
                                }
                                if old(self)@.insert(id@, bytes@).contains_key(x) {
                                    assert(old(self)@.contains_key(x));
                                    let j = choose|j: int| 0 <= j < kv0.len() && kv0[j] == x;
                                    assert(kv[j] == x);
                                }
                            }
                        }
                    }
                }
                return;
            }
            i += 1;
        }
        self.keys.push(id);
        self.vals.push(bytes);
        proof {
            let kv = key_views(self.keys@);
            let vv = val_views(self.vals@);
            assert(kv =~= kv0.push(id@));
            assert(vv =~= vv0.push(bytes@));
            assert(kv.drop_last() =~= kv0);
            assert(vv.drop_last() =~= vv0);
            assert forall|a: int, b: int| 0 <= a < b < kv.len() implies kv[a] != kv[b] by {
                if b == kv.len() - 1 {
                    assert(kv[a] == kv0[a]);
                }
            }
            assert(self@ =~= old(self)@.insert(id@, bytes@));
        }
    }
}

/// Cache-first dependency resolution: the store answers first; on a miss
/// the loader fetches from the target chain using the dialect-adapted
/// address and access path, the fetched bytes are rewritten to the
/// canonical form and remembered. Loader absence is not an error.
pub struct DependencyResolver<L: Loader> {
    pub dialect: Dialect,
    pub loader: L,
    pub store: Store,
}

impl<L: Loader> DependencyResolver<L> {
    /// The cached canonical bytecode, by identity.
    pub closed spec fn cache(&self) -> Map<IdView, Seq<u8>> {
        self.store@
    }

    pub closed spec fn wf(&self) -> bool {
        self.store.wf()
    }

    pub fn new(dialect: Dialect, loader: L, store: Store) -> (r: DependencyResolver<L>)
        requires
            store.wf(),
        ensures
            r.wf(),
            r.cache() == store@,
            r.dialect == dialect,
    {
        DependencyResolver { dialect, loader, store }
    }

    /// Resolve one module identity to its canonical bytecode.
    ///
    /// Resolution is idempotent: once an identity is cached, every later
    /// call returns exactly the cached bytes and changes nothing. A
    /// fresh resolution caches what it returns; a loader miss caches
    /// nothing and leaves the identity absent.
    pub fn resolve(&mut self, id: &ModuleId) -> (r: Result<Option<Vec<u8>>, CoreError>)
        requires
            old(self).wf(),
            id.wf(),
            id@.name.len() < 128,
        ensures
            final(self).wf(),
            final(self).dialect == old(self).dialect,
            old(self).cache().contains_key(id@) ==> (r matches Ok(Some(b))
                && b@ == old(self).cache()[id@] && final(self).cache() == old(self).cache()),
            r matches Ok(Some(b)) ==> final(self).cache() == old(self).cache().insert(id@, b@)
                && final(self).cache().contains_key(id@),
            r matches Ok(None) ==> final(self).cache() == old(self).cache()
                && !final(self).cache().contains_key(id@),
            r is Err ==> final(self).cache() == old(self).cache()
                && !old(self).cache().contains_key(id@),
            (r matches Err(e) && e == CoreError::InvalidAddress)
                <==> (!old(self).cache().contains_key(id@) && !old(self).dialect.fits(id@.addr)),
    {
        match self.store.get(id) {
            Some(b) => {
                proof {
                    assert(old(self).cache().insert(id@, b@) =~= old(self).cache());
                }
                Ok(Some(b))
            },
            None => {
                let target = match self.dialect.adapt_address_to_target(&id.address) {
                    Ok(t) => t,
                    Err(e) => {
                        return Err(e);
                    },
                };
                let path = id.access_vector();
                match self.loader.fetch(&target, &path) {
                    None => Ok(None),
                    Some(raw) => {
                        let canonical = match self.dialect.adapt_to_basis(&raw) {
                            Ok(c) => c,
                            Err(e) => {
                                return Err(e);
                            },
                        };
                        let out = copy_bytes(&canonical);
                        self.store.put(id.duplicate(), canonical);
                        Ok(Some(out))
                    },
                }
            },
        }
    }
}

} // verus!
