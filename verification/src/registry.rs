//! The connection registry: the sole shared state of the broker, a mapping
//! from channel key to the outbound delivery handle of the receiver
//! currently registered under that key.
//!
//! Its model is a finite map from key to handle identity. Registration is
//! last-writer-wins; deregistration is compare-and-remove, so a stale
//! session tearing itself down can never erase a newer registration that
//! displaced its own.

use vstd::prelude::*;
use crate::channel;
use crate::protocol::Command;
use tokio::sync::mpsc::UnboundedSender;

verus! {

/// An outbound delivery handle: the sending half of one receiver session's
/// queue, together with an identity that deregistration compares on.
/// Identities are chosen by the caller; sessions are given distinct ones.
pub struct Handle {
    id: u64,
    queue: UnboundedSender<Command>,
}

impl View for Handle {
    type V = u64;

    closed spec fn view(&self) -> u64 {
        self.id
    }
}

impl Handle {
    /// Wraps a queue's sending half under the given identity.
    pub fn new(id: u64, queue: UnboundedSender<Command>) -> (h: Handle)
        ensures
            h@ == id,
    {
        Handle { id, queue }
    }

    /// The identity this handle was created under.
    pub fn id(&self) -> (r: u64)
        ensures
            r == self@,
    {
        self.id
    }

    /// Best-effort enqueue of a command for the receiver behind this handle:
    /// true when the queue accepted it, false when the receiver is gone.
    /// The outcome depends on the receiver's own task, so no more is stated.
    pub fn deliver(&self, c: Command) -> bool {
        channel::queue_send(&self.queue, c)
    }
}

spec fn seq_has_key(e: Seq<(String, Handle)>, k: Seq<char>) -> bool {
    exists|i: int| 0 <= i < e.len() && e[i].0@ == k
}

spec fn seq_key_at(e: Seq<(String, Handle)>, k: Seq<char>) -> int {
    choose|i: int| 0 <= i < e.len() && e[i].0@ == k
}

spec fn map_of(e: Seq<(String, Handle)>) -> Map<Seq<char>, u64> {
    Map::new(|k: Seq<char>| seq_has_key(e, k), |k: Seq<char>| e[seq_key_at(e, k)].1@)
}

spec fn seq_wf(e: Seq<(String, Handle)>) -> bool {
    forall|i: int, j: int| 0 <= i < e.len() && 0 <= j < e.len() && i != j ==> e[i].0@ != e[j].0@
}

proof fn lemma_found_key(e: Seq<(String, Handle)>, i: int, k: Seq<char>)
    requires
        seq_wf(e),
        0 <= i < e.len(),
        e[i].0@ == k,
    ensures
        map_of(e).contains_key(k),
        map_of(e)[k] == e[i].1@,
{
    assert(seq_has_key(e, k));
    let x = seq_key_at(e, k);
    assert(x == i);
}

proof fn lemma_no_key(e: Seq<(String, Handle)>, k: Seq<char>)
    requires
        forall|j: int| 0 <= j < e.len() ==> e[j].0@ != k,
    ensures
        !map_of(e).contains_key(k),
{
}

/// Appending an entry under a key no present entry holds makes the model
/// gain exactly that key.
proof fn lemma_view_push_fresh(e: Seq<(String, Handle)>, k: Seq<char>, p: (String, Handle))
    requires
        seq_wf(e),
        forall|j: int| 0 <= j < e.len() ==> e[j].0@ != k,
        p.0@ == k,
    ensures
        seq_wf(e.push(p)),
        map_of(e.push(p)) == map_of(e).insert(k, p.1@),
{
    let e1 = e.push(p);
    assert(e1[e.len() as int] == p);
    assert(forall|x: int| 0 <= x < e.len() ==> e1[x] == e[x]);
    assert forall|x: int, y: int|
        0 <= x < e1.len() && 0 <= y < e1.len() && x != y implies e1[x].0@ != e1[y].0@ by {
        if x == e.len() {
            assert(e1[y].0@ != k);
        } else if y == e.len() {
            assert(e1[x].0@ != k);
        }
    }
    assert forall|k2: Seq<char>| #[trigger] seq_has_key(e1, k2) implies k2 == k || seq_has_key(
        e,
        k2,
    ) by {
        let x = choose|x: int| 0 <= x < e1.len() && e1[x].0@ == k2;
        if x < e.len() {
            assert(e[x].0@ == k2);
        }
    }
    assert forall|k2: Seq<char>| #[trigger] seq_has_key(e1, k2) implies e1[seq_key_at(e1, k2)].1@
        == map_of(e).insert(k, p.1@)[k2] by {
        let x = seq_key_at(e1, k2);
        assert(0 <= x < e1.len() && e1[x].0@ == k2);
        if k2 == k {
            assert(x == e.len());
        } else {
            assert(x < e.len());
            assert(e[x].0@ == k2);
            lemma_found_key(e, x, k2);
        }
    }
    assert(seq_has_key(e1, k));
    assert(map_of(e1) =~= map_of(e).insert(k, p.1@));
}

/// Removing the entry that holds a key makes the model lose exactly that key.
proof fn lemma_view_remove(e: Seq<(String, Handle)>, i: int, k: Seq<char>)
    requires
        seq_wf(e),
        0 <= i < e.len(),
        e[i].0@ == k,
    ensures
        seq_wf(e.remove(i)),
        forall|j: int| 0 <= j < e.remove(i).len() ==> (#[trigger] e.remove(i)[j]).0@ != k,
        map_of(e.remove(i)) == map_of(e).remove(k),
{
    let e1 = e.remove(i);
    e.remove_ensures(i);
    assert forall|j: int| 0 <= j < e1.len() implies (#[trigger] e1[j]).0@ != k by {
        if j < i {
            assert(e1[j] == e[j]);
        } else {
            assert(e1[j] == e[j + 1]);
        }
    }
    assert forall|x: int, y: int|
        0 <= x < e1.len() && 0 <= y < e1.len() && x != y implies e1[x].0@ != e1[y].0@ by {
        let x0: int = if x < i { x } else { x + 1 };
        let y0: int = if y < i { y } else { y + 1 };
        assert(e1[x] == e[x0]);
        assert(e1[y] == e[y0]);
    }
    assert forall|k2: Seq<char>| #[trigger] seq_has_key(e1, k2) implies seq_has_key(e, k2) && k2
        != k by {
        let x = choose|x: int| 0 <= x < e1.len() && e1[x].0@ == k2;
        let x0: int = if x < i { x } else { x + 1 };
        assert(e[x0].0@ == k2);
    }
    assert forall|k2: Seq<char>| seq_has_key(e, k2) && k2 != k implies #[trigger] seq_has_key(
        e1,
        k2,
    ) by {
        let x = choose|x: int| 0 <= x < e.len() && e[x].0@ == k2;
        assert(x != i);
        if x < i {
            assert(e1[x].0@ == k2);
        } else {
            assert(e1[x - 1].0@ == k2);
        }
    }
    assert forall|k2: Seq<char>| #[trigger] seq_has_key(e1, k2) implies e1[seq_key_at(e1, k2)].1@
        == map_of(e)[k2] by {
        let x = seq_key_at(e1, k2);
        assert(0 <= x < e1.len() && e1[x].0@ == k2);
        let x0: int = if x < i { x } else { x + 1 };
        assert(e1[x] == e[x0]);
        lemma_found_key(e, x0, k2);
    }
    assert(map_of(e1) =~= map_of(e).remove(k));
}

/// The registry itself: one entry per currently-known channel key.
pub struct Registry {
    entries: Vec<(String, Handle)>,
}

impl View for Registry {
    type V = Map<Seq<char>, u64>;

    closed spec fn view(&self) -> Map<Seq<char>, u64> {
        map_of(self.entries@)
    }
}

impl Registry {
    #[verifier::type_invariant]
    spec fn wf(&self) -> bool {
        seq_wf(self.entries@)
    }

    /// An empty registry: no key routes anywhere.
    pub fn new() -> (r: Registry)
        ensures
            r@ == Map::<Seq<char>, u64>::empty(),
    {
        let r = Registry { entries: Vec::new() };
        proof {
            assert(r@ =~= Map::<Seq<char>, u64>::empty());
        }
        r
    }

    /// Inserts or replaces the entry for `key`; always succeeds. The handle
    /// that was displaced, if any, is not touched: its session keeps running
    /// until its own connection ends.
    pub fn register(&mut self, key: String, h: Handle)
        ensures
            final(self)@ == old(self)@.insert(key@, h@),
    {
        proof {
            use_type_invariant(&*self);
        }
        let ghost m0 = self@;
        let mut v: Vec<(String, Handle)> = Vec::new();
        core::mem::swap(&mut v, &mut self.entries);
        let ghost e0 = v@;
        if let Some(i) = find_key(&v, &key) {
            proof {
                lemma_view_remove(e0, i as int, key@);
            }
            v.remove(i);
        }
        let ghost e1 = v@;
        let ghost hid = h@;
        proof {
            lemma_view_push_fresh(e1, key@, (key, h));
        }
        v.push((key, h));
        core::mem::swap(&mut v, &mut self.entries);
        proof {
            assert(self@ =~= m0.insert(key@, hid));
        }
    }

    /// Removes the entry for `key` only if the handle currently stored there
    /// is the one with identity `handle_id`; otherwise a no-op. A session
    /// deregisters with the identity it registered, so a newer registration
    /// under the same key is left intact.
    pub fn unregister(&mut self, key: &String, handle_id: u64)
        ensures
            final(self)@ == unregister_effect(old(self)@, key@, handle_id),
    {
        proof {
            use_type_invariant(&*self);
        }
        let ghost m0 = self@;
        let mut v: Vec<(String, Handle)> = Vec::new();
        core::mem::swap(&mut v, &mut self.entries);
        let ghost e0 = v@;
        if let Some(i) = find_key(&v, key) {
            proof {
                lemma_found_key(e0, i as int, key@);
            }
            if v[i].1.id == handle_id {
                proof {
                    lemma_view_remove(e0, i as int, key@);
                }
                v.remove(i);
                core::mem::swap(&mut v, &mut self.entries);
            } else {
                core::mem::swap(&mut v, &mut self.entries);
            }
        } else {
            proof {
                lemma_no_key(e0, key@);
            }
            core::mem::swap(&mut v, &mut self.entries);
        }
    }

    /// The handle currently registered under `key`, if any.
    pub fn lookup(&self, key: &String) -> (r: Option<&Handle>)
        ensures
            match r {
                Some(h) => self@.contains_key(key@) && h@ == self@[key@],
                None => !self@.contains_key(key@),
            },
    {
        proof {
            use_type_invariant(&*self);
        }
        if let Some(i) = find_key(&self.entries, key) {
            proof {
                lemma_found_key(self.entries@, i as int, key@);
            }
            Some(&self.entries[i].1)
        } else {
            proof {
                lemma_no_key(self.entries@, key@);
            }
            None
        }
    }
}

/// The index of the entry for `key`, if one is present.
fn find_key(v: &Vec<(String, Handle)>, key: &String) -> (r: Option<usize>)
    ensures
        match r {
            Some(i) => i < v@.len() && v@[i as int].0@ == key@,
            None => forall|j: int| 0 <= j < v@.len() ==> v@[j].0@ != key@,
        },
{
    let n = v.len();
    let mut i: usize = 0;
    while i < n
        invariant
            i <= n,
            n == v@.len(),
            forall|j: int| 0 <= j < i ==> v@[j].0@ != key@,
        decreases n - i,
    {
        if v[i].0 == *key {
            return Some(i);
        }
        i += 1;
    }
    None
}

/// What deregistration does to the registry's model: remove the key only
/// when it still maps to the deregistering handle's identity.
pub open spec fn unregister_effect(m: Map<Seq<char>, u64>, k: Seq<char>, h: u64) -> Map<
    Seq<char>,
    u64,
> {
    if m.contains_key(k) && m[k] == h {
        m.remove(k)
    } else {
        m
    }
}

/// At most one outbound handle is reachable under any key at any instant:
/// the registry's model is a map, so two handles reachable under the same
/// key are the same handle.
pub proof fn lemma_at_most_one_handle(r: Registry, k: Seq<char>, h1: u64, h2: u64)
    requires
        r@.contains_key(k),
        r@[k] == h1,
        r@[k] == h2,
    ensures
        h1 == h2,
{
}

/// Last writer wins: registering B under a key after A makes lookups under
/// that key route to B — and, when the identities differ, never to A.
pub proof fn lemma_last_writer_wins(m: Map<Seq<char>, u64>, k: Seq<char>, a: u64, b: u64)
    ensures
        m.insert(k, a).insert(k, b).contains_key(k),
        m.insert(k, a).insert(k, b)[k] == b,
        a != b ==> m.insert(k, a).insert(k, b)[k] != a,
{
}

/// The compare-and-remove guarantee: after A's registration under a key was
/// displaced by B's, A deregistering itself leaves B's registration intact.
pub proof fn lemma_compare_and_remove(m: Map<Seq<char>, u64>, k: Seq<char>, a: u64, b: u64)
    requires
        a != b,
    ensures
        unregister_effect(m.insert(k, a).insert(k, b), k, a) == m.insert(k, a).insert(k, b),
        unregister_effect(m.insert(k, a).insert(k, b), k, a)[k] == b,
{
}

} // verus!
