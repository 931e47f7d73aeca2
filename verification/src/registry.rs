//! Peer registry: the set of live connections, keyed by connection
//! identifier, each holding an opaque handle to its outbound sink. The
//! registry decides routing; writing to a sink happens outside it.
use vstd::prelude::*;

use crate::bytes::bytes_eq;

verus! {

broadcast use vstd::seq_lib::group_filter_ensures;

/// One live connection: its identifier and the opaque token under which
/// the surrounding runtime keeps the connection's outbound sink.
#[derive(Debug)]
pub struct PeerEntry {
    pub id: Vec<u8>,
    pub handle: u64,
}

/// Mathematical image of one entry.
#[verifier::ext_equal]
pub struct PeerEntryModel {
    pub id: Seq<u8>,
    pub handle: u64,
}

impl View for PeerEntry {
    type V = PeerEntryModel;

    open spec fn view(&self) -> PeerEntryModel {
        PeerEntryModel { id: self.id@, handle: self.handle }
    }
}

/// The mathematical image of a list of entries.
pub open spec fn entry_views(s: Seq<PeerEntry>) -> Seq<PeerEntryModel> {
    s.map_values(|e: PeerEntry| e@)
}

/// No identifier is registered twice.
pub open spec fn distinct_ids(s: Seq<PeerEntryModel>) -> bool {
    forall|i: int, j: int| 0 <= i < j < s.len() ==> s[i].id != s[j].id
}

/// Some entry carries this identifier.
pub open spec fn has_id(s: Seq<PeerEntryModel>, id: Seq<u8>) -> bool {
    exists|i: int| 0 <= i < s.len() && s[i].id == id
}

/// The predicate under which `unregister` keeps an entry: everyone but the
/// departing connection stays.
pub open spec fn keeps_entry(id: Seq<u8>) -> spec_fn(PeerEntryModel) -> bool {
    |e: PeerEntryModel| e.id != id
}

/// The predicate under which a broadcast selects an entry: every connection
/// other than the sender.
pub open spec fn other_than(sender: Seq<u8>) -> spec_fn(PeerEntryModel) -> bool {
    |e: PeerEntryModel| e.id != sender
}

/// Errors of registry operations.
#[derive(Clone, Copy, Debug, PartialEq, Eq, Structural)]
pub enum RegistryError {
    /// An identifier was registered while already present.
    DuplicateId,
    /// A point-to-point send named an identifier that is not registered.
    UnknownPeer,
}

/// Filtering entries with distinct identifiers keeps the identifiers
/// distinct and invents no entry.
pub proof fn lemma_entry_filter(s: Seq<PeerEntryModel>, pred: spec_fn(PeerEntryModel) -> bool)
    requires
        distinct_ids(s),
    ensures
        distinct_ids(s.filter(pred)),
        forall|x: PeerEntryModel| #[trigger] s.filter(pred).contains(x) ==> s.contains(x),
    decreases s.len(),
{
    reveal(Seq::filter);
    if s.len() > 0 {
        let dl = s.drop_last();
        assert forall|i: int, j: int| 0 <= i < j < dl.len() implies dl[i].id != dl[j].id by {
            assert(dl[i] == s[i] && dl[j] == s[j]);
        }
        lemma_entry_filter(dl, pred);
        let f = s.filter(pred);
        let fd = dl.filter(pred);
        assert forall|x: PeerEntryModel| #[trigger] f.contains(x) implies s.contains(x) by {
            if fd.contains(x) {
                assert(dl.contains(x));
                let w = choose|w: int| 0 <= w < dl.len() && dl[w] == x;
                assert(s[w] == x);
            } else {
                assert(x == s.last());
                assert(s[s.len() - 1] == x);
            }
        }
        if pred(s.last()) {
            assert forall|k: int| 0 <= k < fd.len() implies fd[k].id != s.last().id by {
                assert(fd.contains(fd[k]));
                let w = choose|w: int| 0 <= w < dl.len() && dl[w] == fd[k];
                assert(s[w] == fd[k]);
            }
            assert forall|i: int, j: int| 0 <= i < j < f.len() implies f[i].id != f[j].id by {
                if j == f.len() - 1 {
                    assert(f[j] == s.last());
                    assert(f[i] == fd[i]);
                }
            }
        }
    }
}

/// Relies on uuid::Uuid::new_v4 and the hyphenated form its Display impl
/// writes: a freshly generated identifier, 36 ASCII bytes long. The value
/// is random, so nothing else is promised of it.
#[verifier::external_body]
fn fresh_connection_id() -> (r: Vec<u8>)
    ensures
        r@.len() == 36,
{
    uuid::Uuid::new_v4().to_string().into_bytes()
}

/// The registry of live connections.
pub struct PeerRegistry {
    entries: Vec<PeerEntry>,
}

impl View for PeerRegistry {
    type V = Seq<PeerEntryModel>;

    closed spec fn view(&self) -> Seq<PeerEntryModel> {
        entry_views(self.entries@)
    }
}

impl PeerRegistry {
    /// Well-formedness: identifiers are unique.
    pub open spec fn wf(self) -> bool {
        distinct_ids(self@)
    }

    /// An empty registry.
    pub fn new() -> (r: PeerRegistry)
        ensures
            r@ =~= Seq::<PeerEntryModel>::empty(),
            r.wf(),
    {
        let r = PeerRegistry { entries: Vec::new() };
        proof {
            assert(r@ =~= Seq::<PeerEntryModel>::empty());
        }
        r
    }

    /// The position of the entry carrying this identifier, if any.
    fn find(&self, id: &Vec<u8>) -> (r: Option<usize>)
        ensures
            match r {
                Some(i) => i < self@.len() && self@[i as int].id == id@,
                None => !has_id(self@, id@),
            },
    {
        let n = self.entries.len();
        let mut i: usize = 0;
        while i < n
            invariant
                n == self.entries@.len(),
                0 <= i <= n,
                forall|k: int| 0 <= k < i ==> self@[k].id != id@,
            decreases n - i,
        {
            if bytes_eq(&self.entries[i].id, id) {
                return Some(i);
            }
            i += 1;
        }
        None
    }

    /// How many connections are registered.
    pub fn len(&self) -> (r: usize)
        ensures
            r == self@.len(),
    {
        self.entries.len()
    }

    /// Register a connection under an identifier. An identifier already
    /// present is rejected and nothing changes; under the generation scheme
    /// that collision is treated as a fatal fault by callers.
    pub fn register(&mut self, id: Vec<u8>, handle: u64) -> (r: Result<(), RegistryError>)
        requires
            old(self).wf(),
        ensures
            has_id(old(self)@, id@) ==> r == Err::<(), RegistryError>(RegistryError::DuplicateId)
                && final(self)@ == old(self)@,
            !has_id(old(self)@, id@) ==> r == Ok::<(), RegistryError>(()) && final(self)@
                =~= old(self)@.push(PeerEntryModel { id: id@, handle }),
            final(self).wf(),
    {
        let ghost pre = self@;
        let ghost iv = id@;
        if self.find(&id).is_some() {
            return Err(RegistryError::DuplicateId);
        }
        self.entries.push(PeerEntry { id, handle });
        proof {
            assert(self@ =~= pre.push(PeerEntryModel { id: iv, handle }));
            assert forall|i: int, j: int|
                0 <= i < j < self@.len() implies self@[i].id != self@[j].id by {
                if j == pre.len() {
                    assert(pre[i] == self@[i]);
                }
            }
        }
        Ok(())
    }

    /// Generate a fresh identifier and register the connection under it.
    /// Fails only if the generated identifier collides with one present, so
    /// an empty registry — where nothing can collide — always succeeds.
    pub fn connect(&mut self, handle: u64) -> (r: Result<Vec<u8>, RegistryError>)
        requires
            old(self).wf(),
        ensures
            match r {
                Ok(id) => !has_id(old(self)@, id@) && final(self)@ =~= old(self)@.push(
                    PeerEntryModel { id: id@, handle },
                ),
                Err(e) => e == RegistryError::DuplicateId && final(self)@ == old(self)@,
            },
            old(self)@.len() == 0 ==> r is Ok,
            r is Err ==> old(self)@.len() > 0,
            final(self).wf(),
    {
        let id = fresh_connection_id();
        let id_copy = crate::bytes::copy_bytes(&id);
        match self.register(id, handle) {
            Ok(()) => Ok(id_copy),
            Err(e) => Err(e),
        }
    }

    /// Remove the entry of this identifier; removing an absent identifier
    /// is a no-op, since disconnect paths may race with explicit removal.
    pub fn unregister(&mut self, id: &Vec<u8>)
        requires
            old(self).wf(),
        ensures
            final(self)@ == old(self)@.filter(keeps_entry(id@)),
            !has_id(final(self)@, id@),
            final(self).wf(),
    {
        let ghost pre = self@;
        let ghost pred = keeps_entry(id@);
        let mut kept: Vec<PeerEntry> = Vec::new();
        let n = self.entries.len();
        let mut i: usize = 0;
        while i < n
            invariant
                n == self.entries@.len(),
                0 <= i <= n,
                self@ == pre,
                pred == keeps_entry(id@),
                entry_views(kept@) == pre.take(i as int).filter(pred),
            decreases n - i,
        {
            proof {
                reveal(Seq::filter);
                let taken = pre.take(i as int);
                let taken1 = pre.take(i + 1 as int);
                assert(taken1.drop_last() =~= taken);
                assert(taken1.last() == pre[i as int]);
            }
            if !bytes_eq(&self.entries[i].id, id) {
                let entry = PeerEntry {
                    id: crate::bytes::copy_bytes(&self.entries[i].id),
                    handle: self.entries[i].handle,
                };
                let ghost prev_kept = kept@;
                let ghost ev = entry@;
                kept.push(entry);
                proof {
                    assert(entry_views(kept@) =~= entry_views(prev_kept).push(ev));
                    assert(entry_views(kept@) =~= pre.take(i + 1 as int).filter(pred));
                }
            } else {
                proof {
                    assert(entry_views(kept@) =~= pre.take(i + 1 as int).filter(pred));
                }
            }
            i += 1;
        }
        proof {
            assert(pre.take(n as int) =~= pre);
        }
        self.entries = kept;
        proof {
            lemma_entry_filter(pre, pred);
            assert forall|k: int| 0 <= k < self@.len() implies self@[k].id != id@ by {
                assert(pre.filter(pred).contains(pre.filter(pred)[k]));
            }
        }
    }

    /// The sink handle to which a point-to-point send to this identifier
    /// goes; an absent identifier is an `UnknownPeer` error.
    pub fn lookup_handle(&self, id: &Vec<u8>) -> (r: Result<u64, RegistryError>)
        requires
            self.wf(),
        ensures
            match r {
                Ok(h) => exists|i: int|
                    0 <= i < self@.len() && self@[i].id == id@ && self@[i].handle == h,
                Err(e) => e == RegistryError::UnknownPeer && !has_id(self@, id@),
            },
    {
        match self.find(id) {
            Some(i) => Ok(self.entries[i].handle),
            None => Err(RegistryError::UnknownPeer),
        }
    }

    /// Everyone a broadcast from this sender goes to: every registered
    /// entry other than the sender's, in registry order. One recipient's
    /// failure is the caller's to handle per recipient; the list itself
    /// always names all the others.
    pub fn broadcast_targets(&self, sender: &Vec<u8>) -> (r: Vec<PeerEntry>)
        requires
            self.wf(),
        ensures
            entry_views(r@) == self@.filter(other_than(sender@)),
            forall|k: int| 0 <= k < r@.len() ==> r@[k]@.id != sender@,
            forall|i: int|
                0 <= i < self@.len() && self@[i].id != sender@ ==> entry_views(r@).contains(
                    self@[i],
                ),
    {
        let ghost pred = other_than(sender@);
        let mut out: Vec<PeerEntry> = Vec::new();
        let n = self.entries.len();
        let mut i: usize = 0;
        while i < n
            invariant
                n == self.entries@.len(),
                pred == other_than(sender@),
                0 <= i <= n,
                entry_views(out@) == self@.take(i as int).filter(pred),
            decreases n - i,
        {
            proof {
                reveal(Seq::filter);
                let taken = self@.take(i as int);
                let taken1 = self@.take(i + 1 as int);
                assert(taken1.drop_last() =~= taken);
                assert(taken1.last() == self@[i as int]);
            }
            if !bytes_eq(&self.entries[i].id, sender) {
                let entry = PeerEntry {
                    id: crate::bytes::copy_bytes(&self.entries[i].id),
                    handle: self.entries[i].handle,
                };
                let ghost prev_out = out@;
                let ghost ev = entry@;
                out.push(entry);
                proof {
                    assert(entry_views(out@) =~= entry_views(prev_out).push(ev));
                    assert(entry_views(out@) =~= self@.take(i + 1 as int).filter(pred));
                }
            } else {
                proof {
                    assert(entry_views(out@) =~= self@.take(i + 1 as int).filter(pred));
                }
            }
            i += 1;
        }
        proof {
            assert(self@.take(n as int) =~= self@);
            assert forall|k: int| 0 <= k < out@.len() implies out@[k]@.id != sender@ by {
                assert(pred(self@.filter(pred)[k]));
                assert(entry_views(out@)[k] == out@[k]@);
            }
            assert forall|i: int|
                0 <= i < self@.len() && self@[i].id != sender@ implies entry_views(out@).contains(
                self@[i],
            ) by {
                assert(pred(self@[i]));
                assert(self@.filter(pred).contains(self@[i]));
            }
        }
        out
    }
}

} // verus!