//! Memory subsystem: a structured note store keyed by caller-chosen ids.
use std::collections::HashMap;
use vstd::prelude::*;
use vstd::string::StringExecFns;

verus! {

/// One note of an agent's semantic memory.
#[derive(Debug, Clone)]
pub struct MemoryNote {
    pub id: String,
    pub content: String,
    pub keywords: Vec<String>,
    pub tags: Vec<String>,
    pub category: Option<String>,
    /// Seconds since the epoch at creation; never changed by an edit.
    pub timestamp: u64,
}

/// Relies on std's `SystemTime::elapsed`, measured from the epoch, for the
/// creation time of a note in whole seconds; `None` where the clock stands
/// before the epoch.
#[verifier::external_body]
fn now_secs() -> (r: Option<u64>) {
    std::time::UNIX_EPOCH.elapsed().ok().map(|d| d.as_secs())
}

impl MemoryNote {
    /// A note with no keywords, tags or category, stamped with the current
    /// time (zero where the clock stands before the epoch).
    pub fn new(id: &str, content: &str) -> (r: MemoryNote)
        ensures
            r.id@ == id@,
            r.content@ == content@,
            r.keywords@.len() == 0,
            r.tags@.len() == 0,
            r.category is None,
    {
        let timestamp = match now_secs() {
            Some(t) => t,
            None => 0,
        };
        MemoryNote::with_timestamp(id, content, timestamp)
    }

    /// A note with no keywords, tags or category, stamped with `timestamp`.
    pub fn with_timestamp(id: &str, content: &str, timestamp: u64) -> (r: MemoryNote)
        ensures
            r.id@ == id@,
            r.content@ == content@,
            r.keywords@.len() == 0,
            r.tags@.len() == 0,
            r.category is None,
            r.timestamp == timestamp,
    {
        MemoryNote {
            id: String::from_str(id),
            content: String::from_str(content),
            keywords: Vec::new(),
            tags: Vec::new(),
            category: None,
            timestamp,
        }
    }
}

/// An operation name with its string parameters.
#[derive(Debug, Clone)]
pub struct MemoryQuery {
    pub operation: String,
    pub params: HashMap<String, String>,
}

/// The result envelope of every memory operation.
#[derive(Debug, Clone)]
pub struct MemoryResponse {
    pub success: bool,
    pub memory_id: Option<String>,
    pub content: Option<String>,
    pub error: Option<String>,
}

/// The message carried by a response to a missing id.
pub open spec fn not_found_message() -> Seq<char> {
    seq!['n', 'o', 't', ' ', 'f', 'o', 'u', 'n', 'd']
}

impl MemoryResponse {
    /// A success that carries exactly the id `id`.
    pub open spec fn is_ok_id(&self, id: Seq<char>) -> bool {
        &&& self.success
        &&& self.memory_id matches Some(m) && m@ == id
        &&& self.content is None
        &&& self.error is None
    }

    /// A success that carries exactly the content `content`.
    pub open spec fn is_ok_content(&self, content: Seq<char>) -> bool {
        &&& self.success
        &&& self.memory_id is None
        &&& self.content matches Some(c) && c@ == content
        &&& self.error is None
    }

    /// A failure that carries exactly the message `message`.
    pub open spec fn is_err(&self, message: Seq<char>) -> bool {
        &&& !self.success
        &&& self.memory_id is None
        &&& self.content is None
        &&& self.error matches Some(e) && e@ == message
    }

    /// The failure for an id that the store does not hold.
    pub open spec fn is_not_found(&self) -> bool {
        self.is_err(not_found_message())
    }

    pub fn ok_id(id: &str) -> (r: MemoryResponse)
        ensures
            r.is_ok_id(id@),
    {
        MemoryResponse { success: true, memory_id: Some(String::from_str(id)), content: None, error: None }
    }

    pub fn ok_content(content: &str) -> (r: MemoryResponse)
        ensures
            r.is_ok_content(content@),
    {
        MemoryResponse { success: true, memory_id: None, content: Some(String::from_str(content)), error: None }
    }

    pub fn err(e: &str) -> (r: MemoryResponse)
        ensures
            r.is_err(e@),
    {
        MemoryResponse { success: false, memory_id: None, content: None, error: Some(String::from_str(e)) }
    }

    fn not_found() -> (r: MemoryResponse)
        ensures
            r.is_not_found(),
    {
        let r = MemoryResponse::err("not found");
        proof {
            reveal_strlit("not found");
        }
        assert(r.error->Some_0@ =~= not_found_message());
        r
    }
}

/// `note` as it replaces `prior` under the same id: the creation time of
/// `prior` is kept, everything else is taken from `note`.
pub open spec fn edited(prior: MemoryNote, note: MemoryNote) -> MemoryNote {
    MemoryNote { timestamp: prior.timestamp, ..note }
}

/// A note store. Its state is a map from note id to note.
pub trait MemoryManager {
    /// The store's own well-formedness, kept by every operation.
    spec fn inv(&self) -> bool;

    spec fn notes(&self) -> Map<Seq<char>, MemoryNote>;

    /// Inserts or replaces the note under its id; always succeeds.
    fn add_memory(&mut self, note: MemoryNote) -> (r: MemoryResponse)
        requires
            old(self).inv(),
        ensures
            final(self).inv(),
            final(self).notes() == old(self).notes().insert(note.id@, note),
            r.is_ok_id(note.id@),
    ;

    /// Deletes the note with id `id`, or reports that there is none.
    fn remove_memory(&mut self, id: &str) -> (r: MemoryResponse)
        requires
            old(self).inv(),
        ensures
            final(self).inv(),
            old(self).notes().contains_key(id@) ==> {
                &&& final(self).notes() == old(self).notes().remove(id@)
                &&& r.is_ok_id(id@)
            },
            !old(self).notes().contains_key(id@) ==> {
                &&& final(self).notes() == old(self).notes()
                &&& r.is_not_found()
            },
    ;

    /// Replaces the note under its id only where that id is already held.
    fn update_memory(&mut self, note: MemoryNote) -> (r: MemoryResponse)
        requires
            old(self).inv(),
        ensures
            final(self).inv(),
            old(self).notes().contains_key(note.id@) ==> {
                &&& final(self).notes() == old(self).notes().insert(
                    note.id@,
                    edited(old(self).notes()[note.id@], note),
                )
                &&& r.is_ok_id(note.id@)
            },
            !old(self).notes().contains_key(note.id@) ==> {
                &&& final(self).notes() == old(self).notes()
                &&& r.is_not_found()
            },
    ;

    /// The content of the note with id `id`, or a not-found failure.
    fn get_memory(&self, id: &str) -> (r: MemoryResponse)
        requires
            self.inv(),
        ensures
            self.notes().contains_key(id@) ==> r.is_ok_content(self.notes()[id@].content@),
            !self.notes().contains_key(id@) ==> r.is_not_found(),
    ;
}

/// A note store held in memory: a list of notes with pairwise distinct ids,
/// mirrored by a ghost map from id to note.
pub struct InMemoryMemoryManager {
    notes: Vec<MemoryNote>,
    table: Ghost<Map<Seq<char>, MemoryNote>>,
}

impl InMemoryMemoryManager {
    /// The list holds each id once, and the map holds exactly the listed notes.
    pub closed spec fn wf(&self) -> bool {
        &&& forall|i: int, j: int|
            0 <= i < j < self.notes@.len() ==> self.notes@[i].id@ != self.notes@[j].id@
        &&& forall|i: int|
            0 <= i < self.notes@.len() ==> {
                &&& #[trigger] self.table@.contains_key(self.notes@[i].id@)
                &&& self.table@[self.notes@[i].id@] == self.notes@[i]
            }
        &&& forall|k: Seq<char>|
            #[trigger] self.table@.contains_key(k) ==> exists|i: int|
                0 <= i < self.notes@.len() && self.notes@[i].id@ == k
    }

    pub fn new() -> (r: InMemoryMemoryManager)
        ensures
            r.inv(),
            r.notes() == Map::<Seq<char>, MemoryNote>::empty(),
    {
        InMemoryMemoryManager { notes: Vec::new(), table: Ghost(Map::empty()) }
    }

    /// The position of the note with id `id`, if one is held.
    fn position(&self, id: &String) -> (r: Option<usize>)
        requires
            self.wf(),
        ensures
            r matches Some(i) ==> i < self.notes@.len() && self.notes@[i as int].id@ == id@,
            r is None <==> !self.notes().contains_key(id@),
    {
        let mut i: usize = 0;
        while i < self.notes.len()
            invariant
                self.wf(),
                i <= self.notes@.len(),
                forall|j: int| 0 <= j < i ==> self.notes@[j].id@ != id@,
            decreases self.notes@.len() - i,
        {
            if self.notes[i].id == *id {
                proof {
                    assert(self.table@.contains_key(self.notes@[i as int].id@));
                }
                return Some(i);
            }
            i = i + 1;
        }
        proof {
            if self.table@.contains_key(id@) {
                let j = choose|j: int| 0 <= j < self.notes@.len() && self.notes@[j].id@ == id@;
                assert(self.notes@[j].id@ != id@);
            }
        }
        None
    }

    /// Puts `note` at position `i`, whose note has the same id.
    fn replace_at(&mut self, i: usize, note: MemoryNote)
        requires
            old(self).wf(),
            i < old(self).notes@.len(),
            old(self).notes@[i as int].id@ == note.id@,
        ensures
            final(self).wf(),
            final(self).notes() == old(self).notes().insert(note.id@, note),
    {
        let ghost k = note.id@;
        let ghost prev = self.notes@;
        let _ = self.notes.remove(i);
        self.notes.insert(i, note);
        proof {
            assert(self.notes@ =~= prev.update(i as int, note));
            self.table@ = self.table@.insert(k, note);
            assert forall|kk: Seq<char>| #[trigger] self.table@.contains_key(kk) implies exists|j: int|
                0 <= j < self.notes@.len() && self.notes@[j].id@ == kk by {
                if kk != k {
                    let j = choose|j: int| 0 <= j < prev.len() && prev[j].id@ == kk;
                    assert(self.notes@[j].id@ == kk);
                } else {
                    assert(self.notes@[i as int].id@ == kk);
                }
            }
        }
    }

    /// Appends `note`, whose id is not held.
    fn append_new(&mut self, note: MemoryNote)
        requires
            old(self).wf(),
            !old(self).notes().contains_key(note.id@),
        ensures
            final(self).wf(),
            final(self).notes() == old(self).notes().insert(note.id@, note),
    {
        let ghost k = note.id@;
        let ghost prev = self.notes@;
        self.notes.push(note);
        proof {
            self.table@ = self.table@.insert(k, note);
            assert forall|i: int, j: int|
                0 <= i < j < self.notes@.len() implies self.notes@[i].id@ != self.notes@[j].id@ by {
                if j == prev.len() {
                    assert(old(self).table@.contains_key(prev[i].id@));
                }
            }
            assert forall|kk: Seq<char>| #[trigger] self.table@.contains_key(kk) implies exists|j: int|
                0 <= j < self.notes@.len() && self.notes@[j].id@ == kk by {
                if kk != k {
                    let j = choose|j: int| 0 <= j < prev.len() && prev[j].id@ == kk;
                    assert(self.notes@[j].id@ == kk);
                } else {
                    assert(self.notes@[prev.len() as int].id@ == kk);
                }
            }
        }
    }

    /// Removes the note at position `i`.
    fn remove_at(&mut self, i: usize)
        requires
            old(self).wf(),
            i < old(self).notes@.len(),
        ensures
            final(self).wf(),
            final(self).notes() == old(self).notes().remove(old(self).notes@[i as int].id@),
    {
        let ghost prev = self.notes@;
        let ghost k = prev[i as int].id@;
        let _ = self.notes.remove(i);
        proof {
            self.table@ = self.table@.remove(k);
            assert forall|a: int, b: int|
                0 <= a < b < self.notes@.len() implies self.notes@[a].id@ != self.notes@[b].id@ by {
                let pa = if a < i { a } else { a + 1 };
                let pb = if b < i { b } else { b + 1 };
                assert(self.notes@[a] == prev[pa]);
                assert(self.notes@[b] == prev[pb]);
            }
            assert forall|a: int| 0 <= a < self.notes@.len() implies {
                &&& #[trigger] self.table@.contains_key(self.notes@[a].id@)
                &&& self.table@[self.notes@[a].id@] == self.notes@[a]
            } by {
                let pa = if a < i { a } else { a + 1 };
                assert(self.notes@[a] == prev[pa]);
                assert(old(self).table@.contains_key(prev[pa].id@));
            }
            assert forall|kk: Seq<char>| #[trigger] self.table@.contains_key(kk) implies exists|j: int|
                0 <= j < self.notes@.len() && self.notes@[j].id@ == kk by {
                let p = choose|p: int| 0 <= p < prev.len() && prev[p].id@ == kk;
                if p < i {
                    assert(self.notes@[p].id@ == kk);
                } else {
                    assert(p != i);
                    assert(self.notes@[p - 1].id@ == kk);
                }
            }
        }
    }
}

impl MemoryManager for InMemoryMemoryManager {
    closed spec fn inv(&self) -> bool {
        self.wf()
    }

    closed spec fn notes(&self) -> Map<Seq<char>, MemoryNote> {
        self.table@
    }

    fn add_memory(&mut self, note: MemoryNote) -> (r: MemoryResponse) {
        let id = note.id.clone();
        match self.position(&id) {
            Some(i) => self.replace_at(i, note),
            None => self.append_new(note),
        }
        MemoryResponse::ok_id(id.as_str())
    }

    fn remove_memory(&mut self, id: &str) -> (r: MemoryResponse) {
        let key = String::from_str(id);
        match self.position(&key) {
            Some(i) => {
                self.remove_at(i);
                MemoryResponse::ok_id(id)
            },
            None => MemoryResponse::not_found(),
        }
    }

    fn update_memory(&mut self, note: MemoryNote) -> (r: MemoryResponse) {
        let id = note.id.clone();
        match self.position(&id) {
            Some(i) => {
                let ghost given = note;
                let mut note = note;
                note.timestamp = self.notes[i].timestamp;
                proof {
                    assert(self.table@[self.notes@[i as int].id@] == self.notes@[i as int]);
                    assert(note == edited(old(self).notes()[given.id@], given));
                }
                self.replace_at(i, note);
                MemoryResponse::ok_id(id.as_str())
            },
            None => MemoryResponse::not_found(),
        }
    }

    fn get_memory(&self, id: &str) -> (r: MemoryResponse) {
        let key = String::from_str(id);
        match self.position(&key) {
            Some(i) => MemoryResponse::ok_content(self.notes[i].content.as_str()),
            None => MemoryResponse::not_found(),
        }
    }
}

/// A note added under its id is then found there, with its content: what
/// `get_memory` returns right after `add_memory`.
pub proof fn lemma_add_then_get(notes: Map<Seq<char>, MemoryNote>, note: MemoryNote)
    ensures
        notes.insert(note.id@, note).contains_key(note.id@),
        notes.insert(note.id@, note)[note.id@].content@ == note.content@,
{
}

/// After `remove_memory(id)` the store no longer holds `id`, so
/// `get_memory(id)` reports it missing. (Where `id` was not held, the store is
/// left as it was and still lacks it.)
pub proof fn lemma_remove_then_get(notes: Map<Seq<char>, MemoryNote>, id: Seq<char>)
    ensures
        !notes.remove(id).contains_key(id),
{
}


} // verus!
