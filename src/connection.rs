use vstd::prelude::*;
use std::collections::HashMap;
use crate::client::{CapView, Client, LocalClient, PromiseClient, LOCAL_BRAND};
use crate::error::{ErrorKind, RpcError};
use crate::tables::{ExportTable, ImportTable};
use crate::wire::{DescView, Message, Pointer};

verus! {

broadcast use vstd::std_specs::hash::group_hash_axioms;

/// A capability hosted here that the peer holds references to: a local
/// server, a broken capability, or a promise for the result of one of our
/// answers.
#[derive(Debug)]
pub struct Export {
    /// The number of descriptors of this export that the peer has not released.
    pub ref_count: u32,
    pub client: Client,
}

/// A call that we sent and whose return we may still await.
#[derive(Debug)]
pub struct Question {
    pub is_awaiting_return: bool,
    /// The exports that the call's parameters created or referenced.
    pub param_exports: Vec<u32>,
    pub is_tail_call: bool,
    /// Whether the local reference to the question is still alive.
    pub has_ref: bool,
}

/// A capability that the peer exported to us.
#[derive(Clone, Copy, Debug, PartialEq, Eq, Structural)]
pub struct Import {
    /// The number of times we received this id and have not released it.
    pub remote_ref_count: u32,
    /// The promise that stands for this import, when it was sent as a promise.
    pub promise_id: Option<u32>,
}

/// The results of a call that the peer made on a local server, kept once the
/// call completed for the calls that the peer pipelines on them.
#[derive(Debug)]
pub struct ResultsDone {
    pub content: Pointer,
    pub caps: Vec<Option<Client>>,
}

/// A call that the peer made on us.
#[derive(Debug)]
pub struct Answer {
    /// True from the `Call` until both the `Return` went out and the `Finish` came in.
    pub active: bool,
    pub return_sent: bool,
    pub results: Option<ResultsDone>,
    /// The exports that the results created or referenced.
    pub result_exports: Vec<u32>,
}

/// A promise that waits for the echo of a `Disembargo`.
#[derive(Clone, Copy, Debug, PartialEq, Eq, Structural)]
pub struct Embargo {
    pub promise_id: u32,
}

/// The state of one connection to a peer.
pub struct ConnectionState {
    /// The identity shared by every capability that lives across this connection.
    pub brand: u64,
    pub exports: ExportTable<Export>,
    pub questions: ExportTable<Question>,
    pub answers: ImportTable<Answer>,
    pub imports: ImportTable<Import>,
    /// The export id of each local server that is exported.
    pub exports_by_cap: HashMap<u64, u32>,
    pub promises: ExportTable<PromiseClient>,
    pub embargoes: ExportTable<Embargo>,
    /// The capability served to the peer's `Bootstrap`.
    pub bootstrap_interface: Option<LocalClient>,
    /// For a call of the peer that we passed back to it, our question's id
    /// mapped to the answer that its return completes.
    pub forwards: ImportTable<u32>,
    /// Set once the connection failed.
    pub error: Option<RpcError>,
    /// Messages to be sent to the peer, oldest first.
    pub outbox: Vec<Message>,
    /// For each live export, the descriptors of it that were sent.
    pub sent: Ghost<Map<u32, nat>>,
    /// For each live export, the references to it that the peer released.
    pub released: Ghost<Map<u32, nat>>,
}

/// A change to one slot of the promise table keeps every other pending
/// promise as it was.
pub proof fn lemma_pending_kept(a: &ConnectionState, b: &ConnectionState, pid: u32)
    requires
        a.pending_promises_wf(),
        b.brand == a.brand,
        b.promises.slots@.len() >= a.promises.slots@.len(),
        forall|q: u32| q != pid && (q as int) < b.promises.slots@.len() ==> (q as int) < a.promises.slots@.len()
            && #[trigger] b.promises.slots@[q as int] == a.promises.slots@[q as int],
        b.promises.is_live(pid) && !b.promises.entry(pid).is_resolved ==> match b.promises.entry(pid).cap@ {
            CapView::Import(x, _) => x == b.brand,
            CapView::Pipeline(x, _, _) => x == b.brand,
            CapView::AnswerPipeline(_, _) => true,
            _ => false,
        },
    ensures
        b.pending_promises_wf(),
{
    assert forall|q: u32| #[trigger] b.promises.is_live(q) && !b.promises.entry(q).is_resolved implies match b.promises.entry(q).cap@ {
        CapView::Import(x, _) => x == b.brand,
        CapView::Pipeline(x, _, _) => x == b.brand,
        CapView::AnswerPipeline(_, _) => true,
        _ => false,
    } by {
        if q != pid {
            assert(b.promises.slots@[q as int] == a.promises.slots@[q as int]);
            assert(a.promises.is_live(q));
        }
    }
}

/// Whether a table can take one more entry.
pub open spec fn can_push<T>(t: ExportTable<T>) -> bool {
    t.has_free() || t.slots@.len() < u32::MAX
}

pub fn has_room<T>(t: &ExportTable<T>) -> (r: bool)
    requires
        t.wf(),
    ensures
        r == can_push(*t),
{
    if t.free_ids.len() > 0 {
        assert(t.is_free(t.free_ids@[0]));
        true
    } else {
        proof {
            if t.has_free() {
                let id = choose|id: u32| t.is_free(id);
                assert(t.free_ids@.contains(id));
            }
        }
        t.slots.len() < u32::MAX as usize
    }
}

impl ConnectionState {
    pub open spec fn exports_wf(&self) -> bool {
        &&& forall|id: u32| #[trigger]
            self.exports.is_live(id) ==> {
                let e = self.exports.entry(id);
                &&& e.ref_count >= 1
                &&& self.sent@[id] == e.ref_count + self.released@[id]
                &&& self.indexed(id, e.client@)
            }
        &&& forall|p: u64| #[trigger]
            self.exports_by_cap@.contains_key(p) ==> {
                let id = self.exports_by_cap@[p];
                &&& self.exports.is_live(id)
                &&& self.exports.entry(id).client@ == CapView::Local(p)
            }
    }

    /// A local server's export is the one that `exports_by_cap` names for it.
    pub open spec fn indexed(&self, id: u32, c: CapView) -> bool {
        match c {
            CapView::Local(p) => self.exports_by_cap@.contains_key(p) && self.exports_by_cap@[p] == id,
            _ => true,
        }
    }

    pub open spec fn wf(&self) -> bool {
        &&& self.brand != LOCAL_BRAND
        &&& self.exports.wf()
        &&& self.questions.wf()
        &&& self.promises.wf()
        &&& self.embargoes.wf()
        &&& self.exports_wf()
        &&& self.pending_promises_wf()
    }

    /// A promise that has not resolved still stands for the import or the
    /// pipelined answer of this connection that it was made for.
    pub open spec fn pending_promises_wf(&self) -> bool {
        forall|pid: u32| #[trigger]
            self.promises.is_live(pid) && !self.promises.entry(pid).is_resolved ==> match self.promises.entry(pid).cap@ {
                CapView::Import(b, _) => b == self.brand,
                CapView::Pipeline(b, _, _) => b == self.brand,
                CapView::AnswerPipeline(_, _) => true,
                _ => false,
            }
    }

    /// One step of resolution: a live promise of this connection stands for its inner capability.
    pub open spec fn step(&self, c: CapView) -> Option<CapView> {
        match c {
            CapView::Promise(b, pid) => if b == self.brand && self.promises.is_live(pid) {
                Some(self.promises.entry(pid).cap@)
            } else {
                None
            },
            _ => None,
        }
    }

    /// The capability that `c` stands for after at most `fuel` steps of
    /// resolution, or `None` when the chain is longer.
    pub open spec fn settle(&self, c: CapView, fuel: nat) -> Option<CapView>
        decreases fuel,
    {
        match self.step(c) {
            None => Some(c),
            Some(n) => if fuel == 0 {
                None
            } else {
                self.settle(n, (fuel - 1) as nat)
            },
        }
    }

    /// No chain of distinct promises is longer than the promise table.
    pub open spec fn walk_fuel(&self) -> nat {
        self.promises.slots@.len() + 1
    }

    /// Whether a local server can be exported once more.
    pub open spec fn can_export(&self, p: u64) -> bool {
        if self.exports_by_cap@.contains_key(p) {
            self.exports.entry(self.exports_by_cap@[p]).ref_count < u32::MAX
        } else {
            can_push(self.exports)
        }
    }

    /// The export id under which a local server is sent.
    pub open spec fn export_id_for(&self, p: u64) -> u32 {
        if self.exports_by_cap@.contains_key(p) {
            self.exports_by_cap@[p]
        } else {
            self.exports.next_id()
        }
    }

    /// How a settled capability is described to the peer.
    pub open spec fn describe(&self, s: CapView) -> Result<DescView, ErrorKind> {
        match s {
            CapView::Local(p) => if self.can_export(p) {
                Ok(DescView::SenderHosted(self.export_id_for(p)))
            } else {
                Err(ErrorKind::Failed)
            },
            CapView::Import(b, id) => if b == self.brand {
                Ok(DescView::ReceiverHosted(id))
            } else {
                Err(ErrorKind::Unimplemented)
            },
            CapView::Pipeline(b, q, ops) => if b == self.brand {
                Ok(DescView::ReceiverAnswer(q, ops))
            } else {
                Err(ErrorKind::Unimplemented)
            },
            CapView::Promise(b, _) => if b == self.brand {
                Err(ErrorKind::Failed)
            } else {
                Err(ErrorKind::Unimplemented)
            },
            CapView::Broken(_, _) => if can_push(self.exports) {
                Ok(DescView::SenderHosted(self.exports.next_id()))
            } else {
                Err(ErrorKind::Failed)
            },
            CapView::AnswerPipeline(_, _) => if can_push(self.exports) {
                Ok(DescView::SenderPromise(self.exports.next_id()))
            } else {
                Err(ErrorKind::Failed)
            },
        }
    }

    /// Capabilities hosted here that are exported under a new id each time
    /// they are sent: broken ones, and promises for our answers.
    pub open spec fn exported_anew(c: CapView) -> bool {
        c is Broken || c is AnswerPipeline
    }

    /// How a capability is described to the peer: its resolution is followed
    /// to the innermost settled capability first.
    pub open spec fn encoded(&self, c: CapView) -> Result<DescView, ErrorKind> {
        match self.settle(c, self.walk_fuel()) {
            None => Err(ErrorKind::Failed),
            Some(s) => self.describe(s),
        }
    }

    /// The export table after a local server is sent once more.
    pub open spec fn exported(&self, p: u64) -> Seq<Option<Export>> {
        let id = self.export_id_for(p);
        if self.exports_by_cap@.contains_key(p) {
            self.exports.slots@.update(
                id as int,
                Some(Export { ref_count: (self.exports.entry(id).ref_count + 1) as u32, client: Client::Local(LocalClient { server: p }) }),
            )
        } else {
            self.exports.stored(id, Export { ref_count: 1, client: Client::Local(LocalClient { server: p }) })
        }
    }

    /// The export side of the state after a local server is sent once more.
    pub open spec fn sent_once(&self, next: &ConnectionState, p: u64) -> bool {
        let id = self.export_id_for(p);
        let live = self.exports_by_cap@.contains_key(p);
        &&& next.exports.slots@ == self.exported(p)
        &&& !live ==> !self.exports.is_live(id)
        &&& next.exports_by_cap@ == self.exports_by_cap@.insert(p, id)
        &&& next.sent@ == self.sent@.insert(id, (if live { self.sent@[id] } else { 0 }) + 1)
        &&& next.released@ == (if live { self.released@ } else { self.released@.insert(id, 0) })
    }

    /// The number of references that the peer holds to the export of a local server.
    pub open spec fn held(&self, p: u64) -> nat {
        if self.exports_by_cap@.contains_key(p) {
            self.exports.entry(self.exports_by_cap@[p]).ref_count as nat
        } else {
            0
        }
    }

    /// The export side of the state after a capability that is not a local
    /// server is exported under a new id.
    pub open spec fn sent_new(&self, next: &ConnectionState, c: CapView) -> bool {
        let id = self.exports.next_id();
        &&& !self.exports.is_live(id)
        &&& (id as int) <= self.exports.slots@.len()
        &&& next.exports.slots@ == self.exports.stored(id, next.exports.entry(id))
        &&& next.exports.entry(id).ref_count == 1
        &&& next.exports.entry(id).client@ == c
        &&& next.exports_by_cap@ == self.exports_by_cap@
        &&& next.sent@ == self.sent@.insert(id, 1)
        &&& next.released@ == self.released@.insert(id, 0)
    }

    /// `exports_by_cap` once the export of `c` is gone.
    pub open spec fn unindexed(&self, c: CapView) -> Map<u64, u32> {
        match c {
            CapView::Local(p) => self.exports_by_cap@.remove(p),
            _ => self.exports_by_cap@,
        }
    }

    /// The export side of the state after the peer released `count`
    /// references to export `id`: its count drops by `count`, and at zero
    /// its slot is emptied and its id freed.
    pub open spec fn released_by(&self, next: &ConnectionState, id: u32, count: u32) -> bool {
        let e = self.exports.entry(id);
        &&& next.released@ == self.released@.insert(id, (self.released@[id] + count) as nat)
        &&& next.sent == self.sent
        &&& if count == e.ref_count {
            &&& next.exports.slots@ == self.exports.slots@.update(id as int, None)
            &&& next.exports_by_cap@ == self.unindexed(e.client@)
        } else {
            &&& next.exports.slots@.len() == self.exports.slots@.len()
            &&& next.exports.is_live(id)
            &&& next.exports.entry(id).ref_count == e.ref_count - count
            &&& next.exports.entry(id).client@ == e.client@
            &&& forall|j: u32| j != id && (j as int) < self.exports.slots@.len()
                ==> #[trigger] next.exports.slots@[j as int] == self.exports.slots@[j as int]
            &&& next.exports_by_cap@ == self.exports_by_cap@
        }
    }

    pub open spec fn exports_unchanged(&self, next: &ConnectionState) -> bool {
        &&& next.exports == self.exports
        &&& next.exports_by_cap@ == self.exports_by_cap@
        &&& next.sent == self.sent
        &&& next.released == self.released
    }

    /// The promise table differs at most in flags that record outgoing calls.
    pub open spec fn promises_marked(&self, next: &ConnectionState) -> bool {
        &&& next.promises.wf()
        &&& next.promises.slots@.len() == self.promises.slots@.len()
        &&& next.promises.free_ids@ == self.promises.free_ids@
        &&& forall|pid: u32| #[trigger]
            self.promises.is_live(pid) ==> {
                let a = self.promises.entry(pid);
                let b = next.promises.entry(pid);
                &&& next.promises.is_live(pid)
                &&& b.is_resolved == a.is_resolved
                &&& b.cap@ == a.cap@
                &&& b.import_id == a.import_id
                &&& b.embargo == a.embargo
                &&& a.received_call ==> b.received_call
            }
        &&& forall|pid: u32| #[trigger] next.promises.is_live(pid) ==> self.promises.is_live(pid)
    }

    /// Everything but the export side of the state is as in `self`.
    pub open spec fn same_but_exports(&self, next: &ConnectionState) -> bool {
        &&& next.brand == self.brand
        &&& next.questions == self.questions
        &&& next.answers == self.answers
        &&& next.imports == self.imports
        &&& next.embargoes == self.embargoes
        &&& next.error == self.error
        &&& next.outbox == self.outbox
        &&& next.bootstrap_interface == self.bootstrap_interface
    }

    pub fn new(brand: u64, bootstrap_interface: Option<LocalClient>) -> (r: ConnectionState)
        requires
            brand != LOCAL_BRAND,
        ensures
            r.wf(),
            r.brand == brand,
            r.bootstrap_interface == bootstrap_interface,
            r.exports.slots@.len() == 0,
            r.questions.slots@.len() == 0,
            r.answers@ == Map::<u32, Answer>::empty(),
            r.imports@ == Map::<u32, Import>::empty(),
            r.exports_by_cap@ == Map::<u64, u32>::empty(),
            r.promises.slots@.len() == 0,
            r.embargoes.slots@.len() == 0,
            r.error is None,
            r.outbox@.len() == 0,
    {
        ConnectionState {
            brand,
            exports: ExportTable::new(),
            questions: ExportTable::new(),
            answers: ImportTable::new(),
            imports: ImportTable::new(),
            exports_by_cap: HashMap::new(),
            promises: ExportTable::new(),
            embargoes: ExportTable::new(),
            bootstrap_interface,
            forwards: ImportTable::new(),
            error: None,
            outbox: Vec::new(),
            sent: Ghost(Map::empty()),
            released: Ghost(Map::empty()),
        }
    }

    /// Sends a local server to the peer once more: reuses its export and
    /// raises the reference count, or creates an export with a count of one.
    pub(crate) fn export_local(&mut self, l: LocalClient) -> (r: Result<u32, RpcError>)
        requires
            old(self).wf(),
        ensures
            final(self).wf(),
            old(self).same_but_exports(final(self)),
            final(self).promises == old(self).promises,
            match r {
                Ok(id) => {
                    &&& old(self).can_export(l.server)
                    &&& id == old(self).export_id_for(l.server)
                    &&& old(self).sent_once(final(self), l.server)
                },
                Err(e) => {
                    &&& !old(self).can_export(l.server)
                    &&& e.kind == ErrorKind::Failed
                    &&& *final(self) == *old(self)
                },
            },
    {
        let p = l.server;
        proof {
            assert(l == LocalClient { server: p });
        }
        match self.exports_by_cap.get(&p) {
            Some(idr) => {
                let id = *idr;
                let rc = self.exports.get(id).unwrap().ref_count;
                if rc == u32::MAX {
                    return Err(RpcError::failed("export reference count overflow"));
                }
                self.exports.replace(id, Export { ref_count: rc + 1, client: Client::Local(l) });
                proof {
                    self.sent@ = self.sent@.insert(id, self.sent@[id] + 1);
                    assert(self.exports.is_live(id));
                    assert(self.exports_by_cap@ =~= old(self).exports_by_cap@.insert(p, id));
                    assert forall|j: u32| #[trigger] self.exports.is_live(j) implies {
                        let e = self.exports.entry(j);
                        &&& e.ref_count >= 1
                        &&& self.sent@[j] == e.ref_count + self.released@[j]
                        &&& self.indexed(j, e.client@)
                    } by {
                        assert(old(self).exports.is_live(j));
                    }
                    assert forall|q: u64| #[trigger] self.exports_by_cap@.contains_key(q) implies {
                        let j = self.exports_by_cap@[q];
                        &&& self.exports.is_live(j)
                        &&& self.exports.entry(j).client@ == CapView::Local(q)
                    } by {
                        assert(old(self).exports.is_live(self.exports_by_cap@[q]));
                    }
                }
                Ok(id)
            },
            None => {
                if !has_room(&self.exports) {
                    return Err(RpcError::failed("export table is full"));
                }
                let id = self.exports.push(Export { ref_count: 1, client: Client::Local(l) });
                self.exports_by_cap.insert(p, id);
                proof {
                    self.sent@ = self.sent@.insert(id, 1);
                    self.released@ = self.released@.insert(id, 0);
                    assert(!old(self).exports.is_live(id));
                    assert forall|j: u32| #[trigger] self.exports.is_live(j) implies {
                        let e = self.exports.entry(j);
                        &&& e.ref_count >= 1
                        &&& self.sent@[j] == e.ref_count + self.released@[j]
                        &&& self.indexed(j, e.client@)
                    } by {
                        if j != id {
                            assert(old(self).exports.is_live(j));
                            assert(old(self).indexed(j, old(self).exports.entry(j).client@));
                        }
                    }
                    assert forall|q: u64| #[trigger] self.exports_by_cap@.contains_key(q) implies {
                        let j = self.exports_by_cap@[q];
                        &&& self.exports.is_live(j)
                        &&& self.exports.entry(j).client@ == CapView::Local(q)
                    } by {
                        if q != p {
                            assert(old(self).exports.is_live(old(self).exports_by_cap@[q]));
                        }
                    }
                }
                Ok(id)
            },
        }
    }

    /// Exports a broken capability, or a promise for one of our answers,
    /// under a new id with a count of one.
    pub(crate) fn export_new(&mut self, c: Client) -> (r: Result<u32, RpcError>)
        requires
            old(self).wf(),
            !(c@ is Local),
        ensures
            final(self).wf(),
            old(self).same_but_exports(final(self)),
            final(self).promises == old(self).promises,
            match r {
                Ok(id) => {
                    &&& can_push(old(self).exports)
                    &&& id == old(self).exports.next_id()
                    &&& old(self).sent_new(final(self), c@)
                },
                Err(e) => {
                    &&& !can_push(old(self).exports)
                    &&& e.kind == ErrorKind::Failed
                    &&& *final(self) == *old(self)
                },
            },
    {
        if !has_room(&self.exports) {
            return Err(RpcError::failed("export table is full"));
        }
        let id = self.exports.push(Export { ref_count: 1, client: c });
        proof {
            self.sent@ = self.sent@.insert(id, 1);
            self.released@ = self.released@.insert(id, 0);
            assert(!old(self).exports.is_live(id));
            assert forall|j: u32| #[trigger] self.exports.is_live(j) implies {
                let e = self.exports.entry(j);
                &&& e.ref_count >= 1
                &&& self.sent@[j] == e.ref_count + self.released@[j]
                &&& self.indexed(j, e.client@)
            } by {
                if j != id {
                    assert(old(self).exports.is_live(j));
                    assert(old(self).indexed(j, old(self).exports.entry(j).client@));
                }
            }
            assert forall|q: u64| #[trigger] self.exports_by_cap@.contains_key(q) implies {
                let j = self.exports_by_cap@[q];
                &&& self.exports.is_live(j)
                &&& self.exports.entry(j).client@ == CapView::Local(q)
            } by {
                assert(old(self).exports.is_live(old(self).exports_by_cap@[q]));
            }
        }
        Ok(id)
    }
}

} // verus!
