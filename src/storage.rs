//! Storage subsystem: a key to byte-sequence store, last writer wins.
use vstd::prelude::*;
use vstd::slice::slice_to_vec;
use vstd::string::StringExecFns;
use crate::error::Fault;

verus! {

/// A store of one byte sequence per key.
pub trait StorageManager {
    /// The store's own well-formedness, kept by every operation.
    spec fn inv(&self) -> bool;

    /// The bytes held under each key that was written.
    spec fn objects(&self) -> Map<Seq<char>, Seq<u8>>;

    /// Whether the store succeeds on every call.
    spec fn never_faults(&self) -> bool;

    /// Associates `data` with `key`, replacing what was there.
    fn put(&mut self, key: &str, data: &[u8]) -> (r: Result<(), Fault>)
        requires
            old(self).inv(),
        ensures
            final(self).inv(),
            final(self).never_faults() == old(self).never_faults(),
            old(self).never_faults() ==> r is Ok,
            r is Ok ==> final(self).objects() == old(self).objects().insert(key@, data@),
            final(self).objects().remove(key@) == old(self).objects().remove(key@),
            r matches Err(f) ==> f is StorageFault,
    ;

    /// The bytes under `key`, or `None` where nothing was written.
    fn get(&self, key: &str) -> (r: Result<Option<Vec<u8>>, Fault>)
        requires
            self.inv(),
        ensures
            self.never_faults() ==> r is Ok,
            r matches Ok(Some(v)) ==> self.objects().contains_key(key@) && v@ == self.objects()[key@],
            r matches Ok(None) ==> !self.objects().contains_key(key@),
            r matches Err(f) ==> f is StorageFault,
    ;
}

/// One stored byte sequence and its key.
pub struct StoredObject {
    pub key: String,
    pub data: Vec<u8>,
}

/// A store held in memory: a list of objects with pairwise distinct keys,
/// mirrored by a ghost map from key to bytes. It never faults.
pub struct InMemoryStorageManager {
    entries: Vec<StoredObject>,
    table: Ghost<Map<Seq<char>, Seq<u8>>>,
}

impl InMemoryStorageManager {
    /// The list holds each key once, and the map holds exactly the listed objects.
    pub closed spec fn wf(&self) -> bool {
        &&& forall|i: int, j: int|
            0 <= i < j < self.entries@.len() ==> self.entries@[i].key@ != self.entries@[j].key@
        &&& forall|i: int|
            0 <= i < self.entries@.len() ==> {
                &&& #[trigger] self.table@.contains_key(self.entries@[i].key@)
                &&& self.table@[self.entries@[i].key@] == self.entries@[i].data@
            }
        &&& forall|k: Seq<char>|
            #[trigger] self.table@.contains_key(k) ==> exists|i: int|
                0 <= i < self.entries@.len() && self.entries@[i].key@ == k
    }

    pub fn new() -> (r: InMemoryStorageManager)
        ensures
            r.inv(),
            r.objects() == Map::<Seq<char>, Seq<u8>>::empty(),
    {
        InMemoryStorageManager { entries: Vec::new(), table: Ghost(Map::empty()) }
    }

    /// The position of the object with key `key`, if one is held.
    fn position(&self, key: &String) -> (r: Option<usize>)
        requires
            self.wf(),
        ensures
            r matches Some(i) ==> i < self.entries@.len() && self.entries@[i as int].key@ == key@,
            r is None <==> !self.table@.contains_key(key@),
    {
        let mut i: usize = 0;
        while i < self.entries.len()
            invariant
                self.wf(),
                i <= self.entries@.len(),
                forall|j: int| 0 <= j < i ==> self.entries@[j].key@ != key@,
            decreases self.entries@.len() - i,
        {
            if self.entries[i].key == *key {
                proof {
                    assert(self.table@.contains_key(self.entries@[i as int].key@));
                }
                return Some(i);
            }
            i = i + 1;
        }
        proof {
            if self.table@.contains_key(key@) {
                let j = choose|j: int| 0 <= j < self.entries@.len() && self.entries@[j].key@ == key@;
                assert(self.entries@[j].key@ != key@);
            }
        }
        None
    }

    /// Associates `data` with `key`, replacing what was there; never faults.
    pub fn store(&mut self, key: &str, data: &[u8])
        requires
            old(self).inv(),
        ensures
            final(self).inv(),
            final(self).objects() == old(self).objects().insert(key@, data@),
    {
        let k = String::from_str(key);
        let obj = StoredObject { key: k, data: slice_to_vec(data) };
        let ghost prev = self.entries@;
        match self.position(&obj.key) {
            Some(i) => {
                let _ = self.entries.remove(i);
                self.entries.insert(i, obj);
                proof {
                    assert(self.entries@ =~= prev.update(i as int, obj));
                    self.table@ = self.table@.insert(key@, data@);
                    assert forall|kk: Seq<char>| #[trigger] self.table@.contains_key(kk) implies exists|j: int|
                        0 <= j < self.entries@.len() && self.entries@[j].key@ == kk by {
                        if kk != key@ {
                            let j = choose|j: int| 0 <= j < prev.len() && prev[j].key@ == kk;
                            assert(self.entries@[j].key@ == kk);
                        } else {
                            assert(self.entries@[i as int].key@ == kk);
                        }
                    }
                }
            },
            None => {
                self.entries.push(obj);
                proof {
                    self.table@ = self.table@.insert(key@, data@);
                    assert forall|a: int, b: int|
                        0 <= a < b < self.entries@.len() implies self.entries@[a].key@ != self.entries@[b].key@ by {
                        if b == prev.len() {
                            assert(old(self).table@.contains_key(prev[a].key@));
                        }
                    }
                    assert forall|kk: Seq<char>| #[trigger] self.table@.contains_key(kk) implies exists|j: int|
                        0 <= j < self.entries@.len() && self.entries@[j].key@ == kk by {
                        if kk != key@ {
                            let j = choose|j: int| 0 <= j < prev.len() && prev[j].key@ == kk;
                            assert(self.entries@[j].key@ == kk);
                        } else {
                            assert(self.entries@[prev.len() as int].key@ == kk);
                        }
                    }
                }
            },
        }
    }

    /// The bytes under `key`, or `None` where nothing was written; never
    /// faults.
    pub fn lookup(&self, key: &str) -> (r: Option<Vec<u8>>)
        requires
            self.inv(),
        ensures
            r matches Some(v) ==> self.objects().contains_key(key@) && v@ == self.objects()[key@],
            r is None ==> !self.objects().contains_key(key@),
    {
        let k = String::from_str(key);
        match self.position(&k) {
            Some(i) => Some(slice_to_vec(self.entries[i].data.as_slice())),
            None => None,
        }
    }
}

impl StorageManager for InMemoryStorageManager {
    closed spec fn inv(&self) -> bool {
        self.wf()
    }

    closed spec fn objects(&self) -> Map<Seq<char>, Seq<u8>> {
        self.table@
    }

    open spec fn never_faults(&self) -> bool {
        true
    }

    fn put(&mut self, key: &str, data: &[u8]) -> (r: Result<(), Fault>)
        ensures
            r is Ok,
    {
        self.store(key, data);
        proof {
            assert(self.objects().remove(key@) =~= old(self).objects().remove(key@));
        }
        Ok(())
    }

    fn get(&self, key: &str) -> (r: Result<Option<Vec<u8>>, Fault>)
        ensures
            r matches Ok(o) && (o matches Some(v) ==> self.objects().contains_key(key@)
                && v@ == self.objects()[key@]) && (o is None ==> !self.objects().contains_key(key@)),
    {
        Ok(self.lookup(key))
    }
}

/// A store laid out as files under a root directory: the object with key `k`
/// lives at `<root>/<k>`. The reads and writes themselves are made by the
/// program that hosts the kernel.
pub struct FsStorageManager {
    root: String,
}

/// The file that holds the object with key `key` under the directory `root`.
pub open spec fn object_location(root: Seq<char>, key: Seq<char>) -> Seq<char> {
    root + "/"@ + key
}

impl FsStorageManager {
    pub closed spec fn root_dir(&self) -> Seq<char> {
        self.root@
    }

    pub fn new(root: &str) -> (r: FsStorageManager)
        ensures
            r.root_dir() == root@,
    {
        FsStorageManager { root: String::from_str(root) }
    }

    /// The file that holds the object with key `key`.
    pub fn object_path(&self, key: &str) -> (r: String)
        ensures
            r@ == object_location(self.root_dir(), key@),
    {
        let mut s = self.root.clone();
        s.append("/");
        s.append(key);
        s
    }
}

/// The bytes put under a key are what a later get of that key returns, and a
/// put under one key leaves every other key as it was.
pub proof fn lemma_put_then_get(objects: Map<Seq<char>, Seq<u8>>, key: Seq<char>, data: Seq<u8>, other: Seq<char>)
    ensures
        objects.insert(key, data).contains_key(key),
        objects.insert(key, data)[key] == data,
        other != key ==> objects.insert(key, data).contains_key(other) == objects.contains_key(other),
        other != key && objects.contains_key(other) ==> objects.insert(key, data)[other] == objects[other],
{
}


} // verus!
