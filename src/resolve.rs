use vstd::prelude::*;
use crate::client::{CapView, Client, PromiseClient};
use crate::connection::{ConnectionState, Embargo, Export, can_push, has_room};
use crate::error::RpcError;
use crate::wire::{DisembargoContext, Message, MessageTarget, PromisedAnswer, TargetView, copy_ops};

verus! {

broadcast use vstd::std_specs::hash::group_hash_axioms;

/// The target through which a `Disembargo` for a promise's inner capability
/// travels to the peer and back.
pub open spec fn embargo_target(brand: u64, c: CapView) -> Option<TargetView> {
    match c {
        CapView::Import(b, id) => if b == brand {
            Some(TargetView::ImportedCap(id))
        } else {
            None
        },
        CapView::Pipeline(b, q, ops) => if b == brand {
            Some(TargetView::PromisedAnswer(q, ops))
        } else {
            None
        },
        _ => None,
    }
}

impl ConnectionState {
    /// Whether resolving promise `pid` to `replacement` needs an embargo:
    /// calls went out through the promise, and the replacement is hosted here.
    pub open spec fn needs_embargo(&self, pid: u32, replacement: CapView) -> bool {
        let p = self.promises.entry(pid);
        &&& p.received_call
        &&& replacement is Local
        &&& embargo_target(self.brand, p.cap@) is Some
    }

    /// Only promise `pid` changed in the promise table.
    pub open spec fn promise_changed(&self, next: &ConnectionState, pid: u32) -> bool {
        &&& next.promises.wf()
        &&& next.promises.free_ids@ == self.promises.free_ids@
        &&& next.promises.slots@.len() == self.promises.slots@.len()
        &&& next.promises.is_live(pid)
        &&& forall|q: u32| q != pid && (q as int) < self.promises.slots@.len()
            ==> #[trigger] next.promises.slots@[q as int] == self.promises.slots@[q as int]
    }

    /// Replaces the inner capability of promise `pid`. When calls already went
    /// out through the promise and the replacement is hosted here, a
    /// `Disembargo` is sent through the peer first, and the promise keeps
    /// calls back until its echo arrives.
    pub fn resolve_promise(&mut self, pid: u32, replacement: Client) -> (r: Result<(), RpcError>)
        requires
            old(self).wf(),
            old(self).promises.is_live(pid),
        ensures
            final(self).wf(),
            final(self).brand == old(self).brand,
            old(self).exports_unchanged(final(self)),
            final(self).questions == old(self).questions,
            final(self).imports == old(self).imports,
            final(self).answers == old(self).answers,
            final(self).error == old(self).error,
            old(self).promises.entry(pid).is_resolved ==> r is Ok && *final(self) == *old(self),
            !old(self).promises.entry(pid).is_resolved ==> {
                let p = old(self).promises.entry(pid);
                let n = final(self).promises.entry(pid);
                if old(self).needs_embargo(pid, replacement@) {
                    let e = old(self).embargoes.next_id();
                    &&& r is Ok <==> can_push(old(self).embargoes)
                    &&& r is Err ==> *final(self) == *old(self)
                    &&& r is Ok ==> {
                        &&& old(self).promise_changed(final(self), pid)
                        &&& n.is_resolved
                        &&& n.cap@ == replacement@
                        &&& n.embargo == Some(e)
                        &&& n.received_call
                        &&& n.import_id == p.import_id
                        &&& final(self).embargoes.slots@ == old(self).embargoes.stored(e, Embargo { promise_id: pid })
                        &&& final(self).outbox@.len() == old(self).outbox@.len() + 1
                        &&& final(self).outbox@.drop_last() == old(self).outbox@
                        &&& final(self).outbox@.last() matches Message::Disembargo { target, context }
                            && Some(target@) == embargo_target(old(self).brand, p.cap@)
                            && context == DisembargoContext::SenderLoopback(e)
                    }
                } else {
                    &&& r is Ok
                    &&& old(self).promise_changed(final(self), pid)
                    &&& n.is_resolved
                    &&& n.cap@ == replacement@
                    &&& n.embargo == p.embargo
                    &&& n.received_call == p.received_call
                    &&& n.import_id == p.import_id
                    &&& final(self).embargoes == old(self).embargoes
                    &&& final(self).outbox == old(self).outbox
                }
            },
    {
        let (received_call, import_id, embargo, target) = match self.promises.get(pid) {
            Some(p) => {
                if p.is_resolved {
                    return Ok(());
                }
                let target = match &p.cap {
                    Client::Import { brand, import_id } => {
                        if *brand == self.brand {
                            Some(MessageTarget::ImportedCap(*import_id))
                        } else {
                            None
                        }
                    },
                    Client::Pipeline { brand, question_id, ops } => {
                        if *brand == self.brand {
                            Some(MessageTarget::PromisedAnswer(PromisedAnswer {
                                question_id: *question_id,
                                transform: copy_ops(ops),
                            }))
                        } else {
                            None
                        }
                    },
                    _ => None,
                };
                (p.received_call, p.import_id, p.embargo, target)
            },
            None => return Ok(()),
        };
        let is_local = match &replacement {
            Client::Local(_) => true,
            _ => false,
        };
        if received_call && is_local && target.is_some() {
            if !has_room(&self.embargoes) {
                return Err(RpcError::failed("embargo table is full"));
            }
            let e = self.embargoes.push(Embargo { promise_id: pid });
            let resolved = PromiseClient {
                is_resolved: true,
                cap: replacement,
                import_id,
                received_call,
                embargo: Some(e),
            };
            self.promises.replace(pid, resolved);
            proof {
                crate::connection::lemma_pending_kept(old(self), self, pid);
            }
            let t = target.unwrap();
            self.outbox.push(Message::Disembargo { target: t, context: DisembargoContext::SenderLoopback(e) });
            proof {
                assert(self.outbox@.drop_last() == old(self).outbox@);
            }
        } else {
            let resolved = PromiseClient { is_resolved: true, cap: replacement, import_id, received_call, embargo };
            self.promises.replace(pid, resolved);
            proof {
                crate::connection::lemma_pending_kept(old(self), self, pid);
            }
        }
        Ok(())
    }

    /// Handles the echo of a `Disembargo` that we sent: the embargoed promise
    /// lets calls through to its replacement from now on.
    pub fn lift_embargo(&mut self, e: u32) -> (r: Result<(), RpcError>)
        requires
            old(self).wf(),
        ensures
            final(self).wf(),
            r is Ok <==> old(self).embargoes.is_live(e) && old(self).promises.is_live(
                old(self).embargoes.entry(e).promise_id,
            ) && old(self).promises.entry(old(self).embargoes.entry(e).promise_id).embargo == Some(e),
            r is Err ==> *final(self) == *old(self),
            r is Ok ==> {
                let pid = old(self).embargoes.entry(e).promise_id;
                let p = old(self).promises.entry(pid);
                let n = final(self).promises.entry(pid);
                &&& old(self).promise_changed(final(self), pid)
                &&& n.embargo is None
                &&& n.is_resolved == p.is_resolved
                &&& n.cap@ == p.cap@
                &&& n.received_call == p.received_call
                &&& n.import_id == p.import_id
                &&& final(self).embargoes.slots@ == old(self).embargoes.slots@.update(e as int, None)
                &&& final(self).brand == old(self).brand
                &&& old(self).exports_unchanged(final(self))
                &&& final(self).questions == old(self).questions
                &&& final(self).imports == old(self).imports
                &&& final(self).answers == old(self).answers
                &&& final(self).error == old(self).error
                &&& final(self).outbox == old(self).outbox
            },
    {
        let pid = match self.embargoes.get(e) {
            Some(em) => em.promise_id,
            None => return Err(RpcError::failed("Disembargo echo for an unknown embargo")),
        };
        let lifted = match self.promises.get(pid) {
            Some(p) => {
                if p.embargo != Some(e) {
                    return Err(RpcError::failed("Disembargo echo for an unknown embargo"));
                }
                PromiseClient {
                    is_resolved: p.is_resolved,
                    cap: p.cap.duplicate(),
                    import_id: p.import_id,
                    received_call: p.received_call,
                    embargo: None,
                }
            },
            None => return Err(RpcError::failed("Disembargo echo for an unknown embargo")),
        };
        self.promises.replace(pid, lifted);
        proof {
            crate::connection::lemma_pending_kept(old(self), self, pid);
        }
        self.embargoes.erase(e);
        Ok(())
    }

    /// Handles `Release`: the peer drops `count` references to export `id`,
    /// and the export goes away with its last reference.
    pub fn release_export(&mut self, id: u32, count: u32) -> (r: Result<(), RpcError>)
        requires
            old(self).wf(),
        ensures
            final(self).wf(),
            r is Ok <==> old(self).exports.is_live(id) && count <= old(self).exports.entry(id).ref_count,
            r is Err ==> *final(self) == *old(self),
            r is Ok ==> {
                &&& old(self).released_by(final(self), id, count)
                &&& old(self).same_but_exports(final(self))
                &&& final(self).promises == old(self).promises
            },
    {
        let (rc, server) = match self.exports.get(id) {
            Some(e) => (e.ref_count, match &e.client {
                Client::Local(l) => Some(l.server),
                _ => None,
            }),
            None => return Err(RpcError::failed("Release names an export that does not exist")),
        };
        if count > rc {
            return Err(RpcError::failed("Release drops more references than were sent"));
        }
        if count == rc {
            self.exports.erase(id);
            match server {
                Some(p) => {
                    self.exports_by_cap.remove(&p);
                },
                None => {},
            }
        } else {
            let c = self.exports.get(id).unwrap().client.duplicate();
            self.exports.replace(id, Export { ref_count: rc - count, client: c });
        }
        proof {
            self.released@ = self.released@.insert(id, (self.released@[id] + count) as nat);
            let oc = old(self).exports.entry(id).client@;
            assert forall|j: u32| #[trigger] self.exports.is_live(j) implies {
                let x = self.exports.entry(j);
                &&& x.ref_count >= 1
                &&& self.sent@[j] == x.ref_count + self.released@[j]
                &&& self.indexed(j, x.client@)
            } by {
                assert(old(self).exports.is_live(j));
                assert(old(self).indexed(j, old(self).exports.entry(j).client@));
                if j != id {
                    if let CapView::Local(p) = oc {
                        assert(old(self).exports_by_cap@[p] == id);
                    }
                }
            }
            assert forall|q: u64| #[trigger] self.exports_by_cap@.contains_key(q) implies {
                let j = self.exports_by_cap@[q];
                &&& self.exports.is_live(j)
                &&& self.exports.entry(j).client@ == CapView::Local(q)
            } by {
                assert(old(self).exports.is_live(old(self).exports_by_cap@[q]));
                if count == rc && old(self).exports_by_cap@[q] == id {
                    assert(oc == CapView::Local(q));
                }
            }
        }
        Ok(())
    }

    /// Drops every reference to the peer's export `id` that we hold: the
    /// import goes away and a `Release` for all of them is queued.
    pub fn release_import(&mut self, id: u32)
        requires
            old(self).wf(),
        ensures
            final(self).wf(),
            final(self).imports@ == old(self).imports@.remove(id),
            old(self).imports@.contains_key(id) ==> final(self).outbox@ == old(self).outbox@.push(
                Message::Release { id, reference_count: old(self).imports@[id].remote_ref_count },
            ),
            !old(self).imports@.contains_key(id) ==> final(self).outbox == old(self).outbox,
            final(self).brand == old(self).brand,
            old(self).exports_unchanged(final(self)),
            final(self).questions == old(self).questions,
            final(self).promises == old(self).promises,
            final(self).answers == old(self).answers,
            final(self).embargoes == old(self).embargoes,
            final(self).error == old(self).error,
    {
        match self.imports.remove(id) {
            Some(i) => self.outbox.push(Message::Release { id, reference_count: i.remote_ref_count }),
            None => {},
        }
    }
}

} // verus!
