//! Context subsystem: per-task snapshots and their recovery.
use std::collections::HashMap;
use vstd::prelude::*;
use vstd::string::StringExecFns;
use crate::error::Fault;

verus! {

broadcast use vstd::std_specs::hash::group_hash_axioms;

/// The character of the decimal digit `d`.
pub open spec fn digit_char(d: nat) -> char {
    seq!['0', '1', '2', '3', '4', '5', '6', '7', '8', '9'][d as int]
}

/// The decimal numeral of `n`, without leading zeros.
pub open spec fn decimal(n: nat) -> Seq<char>
    decreases n,
{
    if n < 10 {
        seq![digit_char(n)]
    } else {
        decimal(n / 10).push(digit_char(n % 10))
    }
}

/// Where the snapshot of task `pid` is kept under the directory `root`.
pub open spec fn snapshot_location(root: Seq<char>, pid: u64) -> Seq<char> {
    root + "/ctx_"@ + decimal(pid as nat) + ".txt"@
}

fn digit_str(d: u64) -> (r: &'static str)
    requires
        d < 10,
    ensures
        r@ == seq![digit_char(d as nat)],
{
    proof {
        reveal_strlit("0");
        reveal_strlit("1");
        reveal_strlit("2");
        reveal_strlit("3");
        reveal_strlit("4");
        reveal_strlit("5");
        reveal_strlit("6");
        reveal_strlit("7");
        reveal_strlit("8");
        reveal_strlit("9");
    }
    let r = match d {
        0 => "0",
        1 => "1",
        2 => "2",
        3 => "3",
        4 => "4",
        5 => "5",
        6 => "6",
        7 => "7",
        8 => "8",
        _ => "9",
    };
    assert(r@ =~= seq![digit_char(d as nat)]);
    r
}

/// The decimal numeral of `n`.
pub fn decimal_string(n: u64) -> (r: String)
    ensures
        r@ == decimal(n as nat),
    decreases n,
{
    if n < 10 {
        String::from_str(digit_str(n))
    } else {
        let mut s = decimal_string(n / 10);
        s.append(digit_str(n % 10));
        assert(s@ =~= decimal(n as nat));
        s
    }
}

/// A store of one opaque context string per task.
pub trait ContextManager {
    /// The store's own well-formedness, kept by every operation.
    spec fn inv(&self) -> bool;

    /// The latest snapshot of each task that has one.
    spec fn snapshots(&self) -> Map<u64, Seq<char>>;

    /// Whether the store succeeds on every call.
    spec fn never_faults(&self) -> bool;

    /// Opens the store; calling it again is harmless.
    fn start(&mut self) -> (r: Result<(), Fault>)
        requires
            old(self).inv(),
        ensures
            final(self).inv(),
            final(self).snapshots() == old(self).snapshots(),
            final(self).never_faults() == old(self).never_faults(),
            old(self).never_faults() ==> r is Ok,
            r matches Err(f) ==> f is ContextFault,
    ;

    /// Keeps `context` as the snapshot of task `pid`, replacing any earlier
    /// one, and returns where it was kept.
    fn gen_snapshot(&mut self, pid: u64, context: &str) -> (r: Result<String, Fault>)
        requires
            old(self).inv(),
        ensures
            final(self).inv(),
            final(self).never_faults() == old(self).never_faults(),
            old(self).never_faults() ==> r is Ok,
            r is Ok ==> final(self).snapshots() == old(self).snapshots().insert(pid, context@),
            final(self).snapshots().remove(pid) == old(self).snapshots().remove(pid),
            r matches Err(f) ==> f is ContextFault,
    ;

    /// The latest snapshot of task `pid`, or `None` where it has none.
    fn gen_recover(&self, pid: u64) -> (r: Result<Option<String>, Fault>)
        requires
            self.inv(),
        ensures
            self.never_faults() ==> r is Ok,
            r matches Ok(Some(c)) ==> self.snapshots().contains_key(pid) && c@ == self.snapshots()[pid],
            r matches Ok(None) ==> !self.snapshots().contains_key(pid),
            r matches Err(f) ==> f is ContextFault,
    ;

    /// Closes the store; calling it again is harmless.
    fn stop(&mut self) -> (r: Result<(), Fault>)
        requires
            old(self).inv(),
        ensures
            final(self).inv(),
            final(self).snapshots() == old(self).snapshots(),
            final(self).never_faults() == old(self).never_faults(),
            old(self).never_faults() ==> r is Ok,
            r matches Err(f) ==> f is ContextFault,
    ;
}

/// A context store held in memory, which names each snapshot by the file
/// `ctx_<pid>.txt` under its root directory.
pub struct InMemoryContextManager {
    root: String,
    contexts: HashMap<u64, String>,
}

impl InMemoryContextManager {
    pub closed spec fn root_dir(&self) -> Seq<char> {
        self.root@
    }

    pub fn new(root: &str) -> (r: InMemoryContextManager)
        ensures
            r.inv(),
            r.root_dir() == root@,
            r.snapshots() == Map::<u64, Seq<char>>::empty(),
    {
        let r = InMemoryContextManager { root: String::from_str(root), contexts: HashMap::new() };
        assert(r.snapshots() =~= Map::<u64, Seq<char>>::empty());
        r
    }

    /// Where the snapshot of task `pid` is kept.
    pub fn location(&self, pid: u64) -> (r: String)
        ensures
            r@ == snapshot_location(self.root_dir(), pid),
    {
        let mut s = self.root.clone();
        s.append("/ctx_");
        let digits = decimal_string(pid);
        s.append(digits.as_str());
        s.append(".txt");
        s
    }

    /// Keeps `context` as the snapshot of task `pid` and returns where it is
    /// kept; never faults.
    pub fn snapshot(&mut self, pid: u64, context: &str) -> (r: String)
        ensures
            final(self).root_dir() == old(self).root_dir(),
            final(self).snapshots() == old(self).snapshots().insert(pid, context@),
            r@ == snapshot_location(old(self).root_dir(), pid),
    {
        let loc = self.location(pid);
        let c = String::from_str(context);
        self.contexts.insert(pid, c);
        assert(self.snapshots() =~= old(self).snapshots().insert(pid, context@));
        loc
    }

    /// The latest snapshot of task `pid`, or `None` where it has none; never
    /// faults.
    pub fn recover(&self, pid: u64) -> (r: Option<String>)
        ensures
            r matches Some(c) ==> self.snapshots().contains_key(pid) && c@ == self.snapshots()[pid],
            r is None ==> !self.snapshots().contains_key(pid),
    {
        match self.contexts.get(&pid) {
            Some(c) => Some(c.clone()),
            None => None,
        }
    }
}

impl ContextManager for InMemoryContextManager {
    closed spec fn inv(&self) -> bool {
        true
    }

    closed spec fn snapshots(&self) -> Map<u64, Seq<char>> {
        self.contexts@.map_values(|c: String| c@)
    }

    open spec fn never_faults(&self) -> bool {
        true
    }

    fn start(&mut self) -> (r: Result<(), Fault>)
        ensures
            r is Ok,
            *final(self) == *old(self),
    {
        Ok(())
    }

    fn gen_snapshot(&mut self, pid: u64, context: &str) -> (r: Result<String, Fault>)
        ensures
            final(self).root_dir() == old(self).root_dir(),
            r matches Ok(loc) && loc@ == snapshot_location(old(self).root_dir(), pid),
    {
        Ok(self.snapshot(pid, context))
    }

    fn gen_recover(&self, pid: u64) -> (r: Result<Option<String>, Fault>)
        ensures
            r matches Ok(o) && (o matches Some(c) ==> self.snapshots().contains_key(pid)
                && c@ == self.snapshots()[pid]) && (o is None ==> !self.snapshots().contains_key(pid)),
    {
        Ok(self.recover(pid))
    }

    fn stop(&mut self) -> (r: Result<(), Fault>)
        ensures
            r is Ok,
            *final(self) == *old(self),
    {
        Ok(())
    }
}

proof fn lemma_decimal_len(n: nat)
    ensures
        decimal(n).len() >= 1,
        n >= 10 ==> decimal(n).len() >= 2,
    decreases n,
{
    if n >= 10 {
        lemma_decimal_len(n / 10);
    }
}

proof fn lemma_decimal_injective(n: nat, m: nat)
    requires
        decimal(n) == decimal(m),
    ensures
        n == m,
    decreases n,
{
    lemma_decimal_len(n);
    lemma_decimal_len(m);
    let digits = seq!['0', '1', '2', '3', '4', '5', '6', '7', '8', '9'];
    if n < 10 && m < 10 {
        assert(decimal(n)[0] == digits[n as int]);
        assert(decimal(m)[0] == digits[m as int]);
    } else if n >= 10 && m >= 10 {
        let dn = decimal(n);
        assert(dn.drop_last() =~= decimal(n / 10));
        assert(decimal(m).drop_last() =~= decimal(m / 10));
        lemma_decimal_injective(n / 10, m / 10);
        assert(dn.last() == digits[(n % 10) as int]);
        assert(decimal(m).last() == digits[(m % 10) as int]);
    }
}

/// Distinct tasks have their snapshots kept at distinct places.
pub proof fn lemma_locations_distinct(root: Seq<char>, p1: u64, p2: u64)
    requires
        p1 != p2,
    ensures
        snapshot_location(root, p1) != snapshot_location(root, p2),
{
    let d1 = decimal(p1 as nat);
    let d2 = decimal(p2 as nat);
    let pre = root + "/ctx_"@;
    let suf = ".txt"@;
    let l1 = snapshot_location(root, p1);
    let l2 = snapshot_location(root, p2);
    if l1 == l2 {
        assert(l1 == pre + d1 + suf);
        assert(l2 == pre + d2 + suf);
        assert(d1.len() == d2.len());
        assert(d1 =~= l1.subrange(pre.len() as int, (pre.len() + d1.len()) as int));
        assert(d2 =~= l2.subrange(pre.len() as int, (pre.len() + d2.len()) as int));
        lemma_decimal_injective(p1 as nat, p2 as nat);
    }
}

/// A snapshot written for a task is what its recovery returns; a task with no
/// snapshot recovers nothing.
pub proof fn lemma_snapshot_then_recover(snapshots: Map<u64, Seq<char>>, pid: u64, context: Seq<char>)
    ensures
        snapshots.insert(pid, context).contains_key(pid),
        snapshots.insert(pid, context)[pid] == context,
        Map::<u64, Seq<char>>::empty().contains_key(pid) == false,
{
}


} // verus!
