use vstd::prelude::*;
use crate::client::{CapView, Client, LocalClient, PromiseClient};
use crate::connection::{ConnectionState, Export, Import, can_push, has_room};
use crate::error::{ErrorKind, RpcError};
use crate::wire::{CapDescriptor, DescView, PipelineOp, Pointer, PromisedAnswer, copy_ops, get_pipelined_index, pipelined_index};

verus! {

broadcast use vstd::std_specs::hash::group_hash_axioms;

pub open spec fn opt_view(o: Option<Client>) -> Option<CapView> {
    match o {
        Some(c) => Some(c@),
        None => None,
    }
}

/// The capability found at `ops` in results with this content and
/// capability table: a null or missing capability is broken.
pub open spec fn response_cap(content: Pointer, caps: Seq<Option<Client>>, ops: Seq<PipelineOp>) -> CapView {
    match pipelined_index(content, ops) {
        Some(i) => if (i as int) < caps.len() {
            match caps[i as int] {
                Some(c) => c@,
                None => CapView::Broken(ErrorKind::Failed, "null capability"@),
            }
        } else {
            CapView::Broken(ErrorKind::Failed, "capability index out of range"@)
        },
        None => CapView::Broken(ErrorKind::Failed, "pipelined path does not reach a capability"@),
    }
}

/// Finds the capability at `ops` in results with this content and capability table.
pub fn cap_at(content: &Pointer, caps: &Vec<Option<Client>>, ops: &Vec<PipelineOp>) -> (r: Client)
    ensures
        r@ == response_cap(*content, caps@, ops@),
{
    match get_pipelined_index(content, ops) {
        Some(i) => {
            if (i as usize) < caps.len() {
                match &caps[i as usize] {
                    Some(c) => c.duplicate(),
                    None => Client::Broken(RpcError::failed("null capability")),
                }
            } else {
                Client::Broken(RpcError::failed("capability index out of range"))
            }
        },
        None => Client::Broken(RpcError::failed("pipelined path does not reach a capability")),
    }
}

/// The export id that a written descriptor refers to, if any.
pub open spec fn export_of(d: DescView) -> Option<u32> {
    match d {
        DescView::SenderHosted(id) => Some(id),
        DescView::SenderPromise(id) => Some(id),
        _ => None,
    }
}

pub proof fn lemma_marked_trans(a: &ConnectionState, b: &ConnectionState, c: &ConnectionState)
    requires
        a.same_tables(b),
        b.same_tables(c),
    ensures
        a.same_tables(c),
{
    assert forall|q: u32| #[trigger] a.promises.is_live(q) implies {
        let x = a.promises.entry(q);
        let z = c.promises.entry(q);
        &&& c.promises.is_live(q)
        &&& z.is_resolved == x.is_resolved
        &&& z.cap@ == x.cap@
        &&& z.import_id == x.import_id
        &&& z.embargo == x.embargo
        &&& x.received_call ==> z.received_call
    } by {
        assert(b.promises.is_live(q));
    }
    assert forall|q: u32| #[trigger] c.promises.is_live(q) implies a.promises.is_live(q) by {
        assert(b.promises.is_live(q));
    }
}

impl ConnectionState {
    /// The effect of writing a descriptor for `c` on the export side.
    pub open spec fn export_effect(&self, next: &ConnectionState, c: CapView, ok: bool) -> bool {
        match self.settle(c, self.walk_fuel()) {
            Some(CapView::Local(p)) => if ok {
                self.sent_once(next, p)
            } else {
                self.exports_unchanged(next)
            },
            Some(x) => if ok && ConnectionState::exported_anew(x) {
                self.sent_new(next, x)
            } else {
                self.exports_unchanged(next)
            },
            None => self.exports_unchanged(next),
        }
    }

    /// Exports only grew: every live export stays live with the same
    /// capability, and every indexed server keeps its export.
    #[verifier::opaque]
    pub open spec fn exports_grow(&self, next: &ConnectionState) -> bool {
        &&& forall|j: u32| #[trigger]
            self.exports.is_live(j) ==> next.exports.is_live(j) && next.exports.entry(j).client@ == self.exports.entry(j).client@
        &&& forall|p: u64| #[trigger]
            self.exports_by_cap@.contains_key(p) ==> next.exports_by_cap@.contains_key(p) && next.exports_by_cap@[p]
                == self.exports_by_cap@[p]
    }

    /// Everything but the exports and the promises' call flags is as in `self`.
    pub open spec fn same_tables(&self, next: &ConnectionState) -> bool {
        &&& self.same_but_exports(next)
        &&& self.promises_marked(next)
    }

    /// Whether promise `pid` lies on the resolution chain of `c` within `fuel`
    /// steps; with `stop` set, the chain ends at an embargoed promise.
    #[verifier::opaque]
    pub open spec fn on_chain(&self, c: CapView, pid: u32, fuel: nat, stop: bool) -> bool
        decreases fuel,
    {
        match c {
            CapView::Promise(b, p) => if b == self.brand && self.promises.is_live(p) {
                p == pid || (fuel > 0 && !(stop && self.promises.entry(p).embargo is Some) && self.on_chain(
                    self.promises.entry(p).cap@,
                    pid,
                    (fuel - 1) as nat,
                    stop,
                ))
            } else {
                false
            },
            _ => false,
        }
    }

    /// Records that a call or a descriptor went out through a promise.
    pub(crate) fn mark_called(&mut self, pid: u32)
        requires
            old(self).wf(),
            old(self).promises.is_live(pid),
        ensures
            final(self).wf(),
            old(self).same_tables(final(self)),
            old(self).exports_unchanged(final(self)),
            final(self).promises.entry(pid).received_call,
            final(self).promises.slots@.len() == old(self).promises.slots@.len(),
            forall|q: u32| q != pid && (q as int) < old(self).promises.slots@.len()
                ==> #[trigger] final(self).promises.slots@[q as int] == old(self).promises.slots@[q as int],
    {
        let p = self.promises.get(pid).unwrap();
        let marked = PromiseClient {
            is_resolved: p.is_resolved,
            cap: p.cap.duplicate(),
            import_id: p.import_id,
            received_call: true,
            embargo: p.embargo,
        };
        self.promises.replace(pid, marked);
        proof {
            assert forall|q: u32| #[trigger] old(self).promises.is_live(q) implies {
                let a = old(self).promises.entry(q);
                let b = self.promises.entry(q);
                &&& self.promises.is_live(q)
                &&& b.is_resolved == a.is_resolved
                &&& b.cap@ == a.cap@
                &&& b.import_id == a.import_id
                &&& b.embargo == a.embargo
                &&& a.received_call ==> b.received_call
            } by {}
            assert forall|q: u32| #[trigger] self.promises.is_live(q) implies old(self).promises.is_live(q) by {}
        }
    }

    /// Writes the descriptor under which the peer will know `cap`. The
    /// capability's resolution is followed first; a local server is exported,
    /// or its export gains a reference.
    #[verifier::rlimit(100)]
    pub fn write_descriptor(&mut self, cap: &Client) -> (r: Result<(CapDescriptor, Option<u32>), RpcError>)
        requires
            old(self).wf(),
        ensures
            final(self).wf(),
            old(self).same_tables(final(self)),
            old(self).export_effect(final(self), cap@, r is Ok),
            match r {
                Ok((d, e)) => old(self).encoded(cap@) == Ok::<DescView, ErrorKind>(d@) && e == export_of(d@),
                Err(x) => old(self).encoded(cap@) == Err::<DescView, ErrorKind>(x.kind),
            },
            forall|pid: u32| #[trigger] old(self).on_chain(cap@, pid, old(self).walk_fuel(), false)
                && !old(self).promises.entry(pid).is_resolved ==> final(self).promises.entry(pid).received_call,
            forall|pid: u32| (pid as int) < old(self).promises.slots@.len() && !old(self).on_chain(cap@, pid, old(self).walk_fuel(), false)
                ==> #[trigger] final(self).promises.slots@[pid as int] == old(self).promises.slots@[pid as int],
    {
        let mut cur = cap.duplicate();
        let mut fuel: u64 = self.promises.slots.len() as u64 + 1;
        let ghost big = old(self).walk_fuel();
        loop
            invariant
                self.wf(),
                old(self).same_tables(self),
                old(self).exports_unchanged(self),
                fuel <= old(self).walk_fuel(),
                big == old(self).walk_fuel(),
                old(self).settle(cap@, old(self).walk_fuel()) == old(self).settle(cur@, fuel as nat),
                self.promises.slots@.len() == old(self).promises.slots@.len(),
                forall|pid: u32| #[trigger] old(self).on_chain(cur@, pid, fuel as nat, false) ==> old(self).on_chain(cap@, pid, big, false),
                forall|pid: u32| #[trigger] old(self).on_chain(cap@, pid, big, false) && !old(self).promises.entry(pid).is_resolved
                    ==> self.promises.entry(pid).received_call || old(self).on_chain(cur@, pid, fuel as nat, false),
                forall|pid: u32| (pid as int) < old(self).promises.slots@.len() && !old(self).on_chain(cap@, pid, big, false)
                    ==> #[trigger] self.promises.slots@[pid as int] == old(self).promises.slots@[pid as int],
            ensures
                self.wf(),
                old(self).same_tables(self),
                old(self).exports_unchanged(self),
                old(self).settle(cap@, old(self).walk_fuel()) == Some(cur@),
                self.promises.slots@.len() == old(self).promises.slots@.len(),
                forall|pid: u32| #[trigger] old(self).on_chain(cap@, pid, big, false) && !old(self).promises.entry(pid).is_resolved
                    ==> self.promises.entry(pid).received_call,
                forall|pid: u32| (pid as int) < old(self).promises.slots@.len() && !old(self).on_chain(cap@, pid, big, false)
                    ==> #[trigger] self.promises.slots@[pid as int] == old(self).promises.slots@[pid as int],
            decreases fuel,
        {
            proof {
                if !(cur@ matches CapView::Promise(b, p) && b == old(self).brand && old(self).promises.is_live(p)) {
                    assert forall|q: u32| !old(self).on_chain(cur@, q, fuel as nat, false) by {
                        reveal(ConnectionState::on_chain);
                    }
                }
            }
            let (pid, brand) = match &cur {
                Client::Promise { brand, promise_id } => (*promise_id, *brand),
                _ => break,
            };
            if brand != self.brand {
                break;
            }
            let (next, resolved) = match self.promises.get(pid) {
                Some(p) => (p.cap.duplicate(), p.is_resolved),
                None => break,
            };
            let ghost mid = *self;
            proof {
                reveal(ConnectionState::on_chain);
                assert(old(self).promises.is_live(pid));
                assert(next@ == old(self).promises.entry(pid).cap@);
                assert(old(self).on_chain(cur@, pid, fuel as nat, false));
                assert forall|q: u32| #[trigger] old(self).on_chain(cur@, q, fuel as nat, false) == (q == pid || (fuel > 0
                    && old(self).on_chain(next@, q, (fuel - 1) as nat, false))) by {}
            }
            if !resolved {
                self.mark_called(pid);
                proof {
                    lemma_marked_trans(old(self), &mid, self);
                }
            }
            proof {
                reveal(ConnectionState::on_chain);
                assert forall|q: u32| #[trigger] old(self).on_chain(cap@, q, big, false) && !old(self).promises.entry(q).is_resolved
                    && !old(self).on_chain(next@, q, (fuel - 1) as nat, false) && fuel > 0 implies self.promises.entry(q).received_call by {
                    if q != pid {
                        assert(mid.promises.entry(q).received_call);
                        lemma_chain_live(old(self), cap@, q, big, false);
                        assert(self.promises.slots@[q as int] == mid.promises.slots@[q as int]);
                    }
                }
                assert forall|q: u32| (q as int) < old(self).promises.slots@.len() && !old(self).on_chain(cap@, q, big, false)
                    implies #[trigger] self.promises.slots@[q as int] == old(self).promises.slots@[q as int] by {
                    assert(q != pid);
                    assert(self.promises.slots@[q as int] == mid.promises.slots@[q as int]);
                }
            }
            if fuel == 0 {
                proof {
                    reveal(ConnectionState::on_chain);
                    assert forall|q: u32| #[trigger] old(self).on_chain(cap@, q, big, false) && !old(self).promises.entry(q).is_resolved
                        implies self.promises.entry(q).received_call by {
                        if q != pid {
                            assert(mid.promises.entry(q).received_call);
                            lemma_chain_live(old(self), cap@, q, big, false);
                            assert(self.promises.slots@[q as int] == mid.promises.slots@[q as int]);
                        }
                    }
                }
                return Err(RpcError::failed("promise resolution chain too long"));
            }
            proof {
                reveal(ConnectionState::on_chain);
                assert forall|q: u32| #[trigger] old(self).on_chain(next@, q, (fuel - 1) as nat, false) implies old(self).on_chain(cap@, q, big, false) by {
                    assert(old(self).on_chain(cur@, q, fuel as nat, false));
                }
            }
            cur = next;
            fuel = fuel - 1;
        }
        match &cur {
            Client::Local(l) => match self.export_local(*l) {
                Ok(id) => Ok((CapDescriptor::SenderHosted(id), Some(id))),
                Err(e) => Err(e),
            },
            Client::Import { brand, import_id } => {
                if *brand == self.brand {
                    Ok((CapDescriptor::ReceiverHosted(*import_id), None))
                } else {
                    Err(RpcError::unimplemented("capability of another connection"))
                }
            },
            Client::Pipeline { brand, question_id, ops } => {
                if *brand == self.brand {
                    let pa = PromisedAnswer { question_id: *question_id, transform: copy_ops(ops) };
                    Ok((CapDescriptor::ReceiverAnswer(pa), None))
                } else {
                    Err(RpcError::unimplemented("capability of another connection"))
                }
            },
            Client::Promise { brand, .. } => {
                if *brand == self.brand {
                    Err(RpcError::failed("dangling promise"))
                } else {
                    Err(RpcError::unimplemented("capability of another connection"))
                }
            },
            Client::Broken(e) => match self.export_new(Client::Broken(e.duplicate())) {
                Ok(id) => Ok((CapDescriptor::SenderHosted(id), Some(id))),
                Err(e) => Err(e),
            },
            Client::AnswerPipeline { .. } => match self.export_new(cur.duplicate()) {
                Ok(id) => Ok((CapDescriptor::SenderPromise(id), Some(id))),
                Err(e) => Err(e),
            },
        }
    }

    /// The import entry for `id`, or a fresh one.
    pub open spec fn import_entry(&self, id: u32) -> Import {
        if self.imports@.contains_key(id) {
            self.imports@[id]
        } else {
            Import { remote_ref_count: 0, promise_id: None }
        }
    }

    /// Whether the import `id` already has a live promise standing for it.
    pub open spec fn has_import_promise(&self, id: u32) -> bool {
        let e = self.import_entry(id);
        e.promise_id is Some && self.promises.is_live(e.promise_id->Some_0)
    }

    pub open spec fn import_promise_id(&self, id: u32) -> u32 {
        if self.has_import_promise(id) {
            self.import_entry(id).promise_id->Some_0
        } else {
            self.promises.next_id()
        }
    }

    /// Whether one more reference to the import `id` can be recorded.
    pub open spec fn can_import(&self, id: u32, is_promise: bool) -> bool {
        &&& self.import_entry(id).remote_ref_count < u32::MAX
        &&& (is_promise && !self.has_import_promise(id)) ==> can_push(self.promises)
    }

    /// The capability that a received reference to the import `id` becomes.
    pub open spec fn imported(&self, id: u32, is_promise: bool) -> CapView {
        if is_promise {
            CapView::Promise(self.brand, self.import_promise_id(id))
        } else {
            CapView::Import(self.brand, id)
        }
    }

    /// The promise that stands for a promise import until it resolves.
    pub open spec fn import_promise(&self, id: u32) -> PromiseClient {
        PromiseClient {
            is_resolved: false,
            cap: Client::Import { brand: self.brand, import_id: id },
            import_id: Some(id),
            received_call: false,
            embargo: None,
        }
    }

    /// The state after one more reference to the import `id` was received.
    pub open spec fn import_done(&self, next: &ConnectionState, id: u32, is_promise: bool) -> bool {
        let e = self.import_entry(id);
        let pid = self.import_promise_id(id);
        &&& next.imports@ == self.imports@.insert(
            id,
            Import {
                remote_ref_count: (e.remote_ref_count + 1) as u32,
                promise_id: if is_promise { Some(pid) } else { e.promise_id },
            },
        )
        &&& if is_promise && !self.has_import_promise(id) {
            &&& !self.promises.is_live(pid)
            &&& (pid as int) <= self.promises.slots@.len()
            &&& next.promises.wf()
            &&& next.promises.slots@ == self.promises.stored(pid, self.import_promise(id))
        } else {
            next.promises == self.promises
        }
        &&& next.brand == self.brand
        &&& self.exports_unchanged(next)
        &&& next.questions == self.questions
        &&& next.answers == self.answers
        &&& next.embargoes == self.embargoes
        &&& next.error == self.error
        &&& next.outbox == self.outbox
    }

    /// The capability found along `ops` in the results of our answer `q`.
    pub open spec fn answer_cap(&self, q: u32, ops: Seq<PipelineOp>) -> Result<Option<CapView>, ErrorKind> {
        if !self.answers@.contains_key(q) {
            Err(ErrorKind::Failed)
        } else {
            match self.answers@[q].results {
                None => Err(ErrorKind::Unimplemented),
                Some(res) => Ok(Some(response_cap(res.content, res.caps@, ops))),
            }
        }
    }

    /// What a received descriptor decodes to.
    pub open spec fn received(&self, d: DescView) -> Result<Option<CapView>, ErrorKind> {
        match d {
            DescView::Null => Ok(None),
            DescView::SenderHosted(id) => if self.can_import(id, false) {
                Ok(Some(self.imported(id, false)))
            } else {
                Err(ErrorKind::Failed)
            },
            DescView::SenderPromise(id) => if self.can_import(id, true) {
                Ok(Some(self.imported(id, true)))
            } else {
                Err(ErrorKind::Failed)
            },
            DescView::ReceiverHosted(id) => if self.exports.is_live(id) {
                Ok(Some(self.exports.entry(id).client@))
            } else {
                Err(ErrorKind::Failed)
            },
            DescView::ReceiverAnswer(q, ops) => if self.answer_pending(q) {
                if can_push(self.promises) {
                    Ok(Some(CapView::Promise(self.brand, self.promises.next_id())))
                } else {
                    Err(ErrorKind::Failed)
                }
            } else {
                self.answer_cap(q, ops)
            },
            DescView::ThirdPartyHosted => Err(ErrorKind::Unimplemented),
        }
    }

    /// Whether answer `q` exists and has neither results nor a return yet.
    pub open spec fn answer_pending(&self, q: u32) -> bool {
        &&& self.answers@.contains_key(q)
        &&& self.answers@[q].results is None
        &&& !self.answers@[q].return_sent
    }

    /// The promise table gained a pending promise for the capability at
    /// `ops` in the eventual result of our answer `q`.
    pub open spec fn answer_promise_added(&self, next: &ConnectionState, q: u32, ops: Seq<PipelineOp>) -> bool {
        let pid = self.promises.next_id();
        let p = next.promises.entry(pid);
        &&& !self.promises.is_live(pid)
        &&& (pid as int) <= self.promises.slots@.len()
        &&& next.promises.wf()
        &&& next.promises.slots@ == self.promises.stored(pid, p)
        &&& !p.is_resolved
        &&& p.cap@ == CapView::AnswerPipeline(q, ops)
        &&& p.import_id is None
        &&& !p.received_call
        &&& p.embargo is None
        &&& next.imports == self.imports
    }

    /// Records one more reference to the peer's export `id` and returns the
    /// capability that stands for it.
    pub(crate) fn import(&mut self, id: u32, is_promise: bool) -> (r: Result<Client, RpcError>)
        requires
            old(self).wf(),
        ensures
            final(self).wf(),
            old(self).only_imports(final(self)),
            match r {
                Ok(c) => {
                    &&& old(self).can_import(id, is_promise)
                    &&& c@ == old(self).imported(id, is_promise)
                    &&& old(self).import_done(final(self), id, is_promise)
                },
                Err(e) => {
                    &&& !old(self).can_import(id, is_promise)
                    &&& e.kind == ErrorKind::Failed
                    &&& *final(self) == *old(self)
                },
            },
    {
        let e = match self.imports.get(id) {
            Some(e) => *e,
            None => Import { remote_ref_count: 0, promise_id: None },
        };
        if e.remote_ref_count == u32::MAX {
            return Err(RpcError::failed("import reference count overflow"));
        }
        if !is_promise {
            self.imports.insert(id, Import { remote_ref_count: e.remote_ref_count + 1, promise_id: e.promise_id });
            return Ok(Client::Import { brand: self.brand, import_id: id });
        }
        let existing = match e.promise_id {
            Some(pid) => match self.promises.get(pid) {
                Some(_) => Some(pid),
                None => None,
            },
            None => None,
        };
        let pid = match existing {
            Some(pid) => pid,
            None => {
                if !has_room(&self.promises) {
                    return Err(RpcError::failed("promise table is full"));
                }
                let p = PromiseClient {
                    is_resolved: false,
                    cap: Client::Import { brand: self.brand, import_id: id },
                    import_id: Some(id),
                    received_call: false,
                    embargo: None,
                };
                let pid = self.promises.push(p);
                proof {
                    crate::connection::lemma_pending_kept(old(self), self, pid);
                }
                pid
            },
        };
        self.imports.insert(id, Import { remote_ref_count: e.remote_ref_count + 1, promise_id: Some(pid) });
        Ok(Client::Promise { brand: self.brand, promise_id: pid })
    }

    /// Decodes a received descriptor into a capability.
    pub fn receive_cap(&mut self, d: &CapDescriptor) -> (r: Result<Option<Client>, RpcError>)
        requires
            old(self).wf(),
        ensures
            final(self).wf(),
            old(self).only_imports(final(self)),
            old(self).import_growth(final(self)),
            match r {
                Ok(c) => old(self).received(d@) == Ok::<Option<CapView>, ErrorKind>(opt_view(c)),
                Err(e) => old(self).received(d@) == Err::<Option<CapView>, ErrorKind>(e.kind),
            },
            match d@ {
                DescView::SenderHosted(id) => if r is Ok {
                    old(self).import_done(final(self), id, false)
                } else {
                    *final(self) == *old(self)
                },
                DescView::SenderPromise(id) => if r is Ok {
                    old(self).import_done(final(self), id, true)
                } else {
                    *final(self) == *old(self)
                },
                DescView::ReceiverAnswer(q, ops) => if r is Ok && old(self).answer_pending(q) {
                    old(self).answer_promise_added(final(self), q, ops)
                } else {
                    *final(self) == *old(self)
                },
                _ => *final(self) == *old(self),
            },
    {
        match d {
            CapDescriptor::Null => Ok(None),
            CapDescriptor::SenderHosted(id) => match self.import(*id, false) {
                Ok(c) => Ok(Some(c)),
                Err(e) => Err(e),
            },
            CapDescriptor::SenderPromise(id) => match self.import(*id, true) {
                Ok(c) => Ok(Some(c)),
                Err(e) => Err(e),
            },
            CapDescriptor::ReceiverHosted(id) => match self.exports.get(*id) {
                Some(e) => Ok(Some(e.client.duplicate())),
                None => Err(RpcError::failed("descriptor names an export that does not exist")),
            },
            CapDescriptor::ReceiverAnswer(pa) => {
                let pending = match self.answers.get(pa.question_id) {
                    Some(a) => a.results.is_none() && !a.return_sent,
                    None => false,
                };
                if !pending {
                    return self.pipelined_answer_cap(pa);
                }
                if !has_room(&self.promises) {
                    return Err(RpcError::failed("promise table is full"));
                }
                let p = PromiseClient {
                    is_resolved: false,
                    cap: Client::AnswerPipeline { answer_id: pa.question_id, ops: copy_ops(&pa.transform) },
                    import_id: None,
                    received_call: false,
                    embargo: None,
                };
                let pid = self.promises.push(p);
                proof {
                    crate::connection::lemma_pending_kept(old(self), self, pid);
                }
                Ok(Some(Client::Promise { brand: self.brand, promise_id: pid }))
            },
            CapDescriptor::ThirdPartyHosted => Err(RpcError::unimplemented("three-party handoff")),
        }
    }

    /// The capability found along a path in the results of one of our answers.
    pub fn pipelined_answer_cap(&self, pa: &PromisedAnswer) -> (r: Result<Option<Client>, RpcError>)
        ensures
            match r {
                Ok(c) => self.answer_cap(pa.question_id, pa.transform@) == Ok::<Option<CapView>, ErrorKind>(opt_view(c)),
                Err(e) => self.answer_cap(pa.question_id, pa.transform@) == Err::<Option<CapView>, ErrorKind>(e.kind),
            },
    {
        match self.answers.get(pa.question_id) {
            None => Err(RpcError::failed("no such answer")),
            Some(a) => match &a.results {
                None => Err(RpcError::unimplemented("pipelining on an answer without results")),
                Some(res) => Ok(Some(cap_at(&res.content, &res.caps, &pa.transform))),
            },
        }
    }

    /// `c` is the capability that a received descriptor `d` became, `self`
    /// being the state before the table was received and `next` the state after.
    pub open spec fn cap_for(&self, next: &ConnectionState, d: DescView, c: Option<CapView>) -> bool {
        match d {
            DescView::Null => c is None,
            DescView::SenderHosted(id) => c == Some(CapView::Import(self.brand, id)),
            DescView::SenderPromise(id) => c matches Some(CapView::Promise(b, pid)) && b == self.brand
                && next.has_import_promise(id) && next.imports@[id].promise_id == Some(pid),
            DescView::ReceiverHosted(id) => self.received(d) == Ok::<Option<CapView>, ErrorKind>(c),
            DescView::ReceiverAnswer(q, ops) => if self.answer_pending(q) {
                c matches Some(CapView::Promise(b, pid)) && b == self.brand && next.promises.is_live(pid)
                    && !next.promises.entry(pid).is_resolved && next.promises.entry(pid).cap@
                    == CapView::AnswerPipeline(q, ops)
            } else {
                self.received(d) == Ok::<Option<CapView>, ErrorKind>(c)
            },
            DescView::ThirdPartyHosted => false,
        }
    }

    /// `c` is what a received descriptor `d` decodes to, up to which promise
    /// a promise descriptor became.
    pub open spec fn decodes_to(&self, d: DescView, c: Option<CapView>) -> bool {
        match d {
            DescView::SenderPromise(_) => c matches Some(CapView::Promise(b, _)) && b == self.brand,
            DescView::ReceiverAnswer(q, _) => if self.answer_pending(q) {
                c matches Some(CapView::Promise(b, _)) && b == self.brand
            } else {
                self.received(d) == Ok::<Option<CapView>, ErrorKind>(c)
            },
            DescView::ThirdPartyHosted => false,
            _ => self.cap_for(self, d, c),
        }
    }

    /// Whether a descriptor can be decoded at all, room in the tables aside.
    pub open spec fn receivable(&self, d: DescView) -> bool {
        match d {
            DescView::ThirdPartyHosted => false,
            DescView::ReceiverHosted(id) => self.exports.is_live(id),
            DescView::ReceiverAnswer(q, ops) => self.answer_pending(q) || self.answer_cap(q, ops) is Ok,
            _ => true,
        }
    }

    /// Descriptor `i` of `ds` is the first that fails, with an error of kind
    /// `k`: every earlier one is receivable; a receivable one fails only for
    /// want of room, any other one with the error of its decoding.
    pub open spec fn first_failure(&self, ds: Seq<CapDescriptor>, i: int, k: ErrorKind) -> bool {
        &&& forall|j: int| 0 <= j < i ==> self.receivable(#[trigger] ds[j]@)
        &&& self.receivable(ds[i]@) ==> k == ErrorKind::Failed
        &&& !self.receivable(ds[i]@) ==> self.received(ds[i]@) == Err::<Option<CapView>, ErrorKind>(k)
    }

    /// Room for `n` more received references: promise ids and import counts.
    pub open spec fn receive_room(&self, n: nat) -> bool {
        &&& self.promises.slots@.len() + n < u32::MAX
        &&& forall|id: u32| #[trigger]
            self.imports@.contains_key(id) ==> self.imports@[id].remote_ref_count + n <= u32::MAX
    }

    /// Receiving one descriptor adds at most one promise and one reference to one import.
    pub open spec fn import_growth(&self, next: &ConnectionState) -> bool {
        &&& next.promises.slots@.len() <= self.promises.slots@.len() + 1
        &&& forall|id: u32| #[trigger]
            next.imports@.contains_key(id) ==> next.imports@[id].remote_ref_count <= self.import_entry(id).remote_ref_count
                + 1
    }

    /// Only the imports and the promise table grew.
    pub open spec fn only_imports(&self, next: &ConnectionState) -> bool {
        &&& forall|pid: u32| #[trigger]
            self.promises.is_live(pid) ==> next.promises.is_live(pid) && next.promises.slots@[pid as int]
                == self.promises.slots@[pid as int]
        &&& forall|id: u32| #[trigger]
            self.has_import_promise(id) ==> next.imports@.contains_key(id) && next.imports@[id].promise_id
                == self.imports@[id].promise_id
        &&& next.brand == self.brand
        &&& self.exports_unchanged(next)
        &&& next.questions == self.questions
        &&& next.answers == self.answers
        &&& next.embargoes == self.embargoes
        &&& next.error == self.error
        &&& next.outbox == self.outbox
    }

    /// Decodes a received capability table, in order. It fails only on a
    /// descriptor that cannot be decoded, or when the tables run out of room.
    pub fn receive_caps(&mut self, ds: &Vec<CapDescriptor>) -> (r: Result<Vec<Option<Client>>, RpcError>)
        requires
            old(self).wf(),
        ensures
            final(self).wf(),
            old(self).only_imports(final(self)),
            r matches Ok(cs) ==> {
                &&& cs@.len() == ds@.len()
                &&& forall|i: int| 0 <= i < ds@.len() ==> old(self).cap_for(final(self), #[trigger] ds@[i]@, opt_view(cs@[i]))
                &&& forall|i: int| 0 <= i < ds@.len() ==> old(self).decodes_to(#[trigger] ds@[i]@, opt_view(cs@[i]))
            },
            (forall|i: int| 0 <= i < ds@.len() ==> old(self).receivable(#[trigger] ds@[i]@)) && old(self).receive_room(
                ds@.len(),
            ) ==> r is Ok,
            (exists|i: int| 0 <= i < ds@.len() && #[trigger] ds@[i]@ is ThirdPartyHosted) ==> r is Err,
            final(self).promises.slots@.len() <= old(self).promises.slots@.len() + ds@.len(),
            r matches Err(e) ==> exists|i: int| 0 <= i < ds@.len() && old(self).first_failure(ds@, i, e.kind),
    {
        let mut cs: Vec<Option<Client>> = Vec::new();
        let mut i: usize = 0;
        let ghost good = (forall|j: int| 0 <= j < ds@.len() ==> old(self).receivable(#[trigger] ds@[j]@))
            && old(self).receive_room(ds@.len());
        while i < ds.len()
            invariant
                self.wf(),
                old(self).only_imports(self),
                i <= ds@.len(),
                cs@.len() == i,
                forall|j: int| 0 <= j < i ==> old(self).cap_for(self, #[trigger] ds@[j]@, opt_view(cs@[j])),
                forall|j: int| 0 <= j < i ==> !(#[trigger] ds@[j]@ is ThirdPartyHosted),
                forall|j: int| 0 <= j < i ==> old(self).decodes_to(#[trigger] ds@[j]@, opt_view(cs@[j])),
                good == ((forall|j: int| 0 <= j < ds@.len() ==> old(self).receivable(#[trigger] ds@[j]@))
                    && old(self).receive_room(ds@.len())),
                good ==> self.receive_room((ds@.len() - i) as nat),
                self.promises.slots@.len() <= old(self).promises.slots@.len() + i,
                forall|j: int| 0 <= j < i ==> old(self).receivable(#[trigger] ds@[j]@),
            decreases ds@.len() - i,
        {
            let ghost before = *self;
            proof {
                if good {
                    assert(old(self).receivable(ds@[i as int]@));
                    lemma_receivable_ok(old(self), &before, ds@[i as int]@, (ds@.len() - i) as nat);
                }
            }
            let c = match self.receive_cap(&ds[i]) {
                Ok(c) => c,
                Err(e) => {
                    proof {
                        lemma_err_kind(old(self), &before, ds@[i as int]@, e.kind);
                        assert(old(self).first_failure(ds@, i as int, e.kind));
                    }
                    return Err(e);
                },
            };
            proof {
                lemma_ok_receivable(old(self), &before, ds@[i as int]@);
                lemma_only_imports_trans(old(self), &before, self);
                assert forall|j: int| 0 <= j < i + 1 implies old(self).cap_for(self, #[trigger] ds@[j]@, opt_view(cs@.push(c)[j])) by {
                    if j < i {
                        assert(old(self).cap_for(&before, ds@[j]@, opt_view(cs@[j])));
                        lemma_cap_for_kept(old(self), &before, self, ds@[j]@, opt_view(cs@[j]));
                    } else {
                        match ds@[j]@ {
                            DescView::SenderPromise(id) => lemma_promise_step(&before, self, id),
                            DescView::ReceiverAnswer(q, ops) => {
                                if before.answer_pending(q) {
                                    lemma_answer_step(&before, self, q, ops);
                                }
                            },
                            _ => {},
                        }
                    }
                }
                assert(old(self).decodes_to(ds@[i as int]@, opt_view(c)));
                if good {
                    assert forall|id: u32| #[trigger] self.imports@.contains_key(id) implies self.imports@[id].remote_ref_count
                        + (ds@.len() - i - 1) <= u32::MAX by {
                        if before.imports@.contains_key(id) {
                            assert(before.imports@[id].remote_ref_count + (ds@.len() - i) <= u32::MAX);
                        }
                    }
                }
            }
            cs.push(c);
            i = i + 1;
        }
        Ok(cs)
    }

    /// `d` is a descriptor that was written for `c`, `after` being the state
    /// once the whole table was written.
    pub open spec fn desc_for(&self, after: &ConnectionState, c: Option<CapView>, d: DescView) -> bool {
        match c {
            None => d == DescView::Null,
            Some(c) => match self.settle(c, self.walk_fuel()) {
                Some(CapView::Local(p)) => {
                    &&& after.exports_by_cap@.contains_key(p)
                    &&& d == DescView::SenderHosted(after.exports_by_cap@[p])
                },
                Some(s) => if ConnectionState::exported_anew(s) {
                    &&& export_of(d) matches Some(id) && after.exports.is_live(id) && after.exports.entry(id).client@ == s
                    &&& if s is Broken { d is SenderHosted } else { d is SenderPromise }
                } else {
                    self.describe(s) == Ok::<DescView, ErrorKind>(d)
                },
                None => false,
            },
        }
    }


    /// How many of the capabilities settle on the local server `p`.
    pub open spec fn local_count(&self, caps: Seq<Option<Client>>, p: u64) -> nat
        decreases caps.len(),
    {
        if caps.len() == 0 {
            0
        } else {
            self.local_count(caps.drop_last(), p) + match caps.last() {
                Some(c) => if self.settle(c@, self.walk_fuel()) == Some(CapView::Local(p)) {
                    1nat
                } else {
                    0nat
                },
                None => 0nat,
            }
        }
    }

    /// Whether a capability can be described to the peer, room in the export
    /// table aside.
    pub open spec fn encodable(&self, c: Option<Client>) -> bool {
        match c {
            None => true,
            Some(c) => match self.settle(c@, self.walk_fuel()) {
                None => false,
                Some(CapView::Local(_)) => true,
                Some(s) => ConnectionState::exported_anew(s) || self.describe(s) is Ok,
            },
        }
    }

    /// Room for `n` more references to exports: export ids and reference counts.
    pub open spec fn export_room(&self, n: nat) -> bool {
        &&& self.exports.slots@.len() + n < u32::MAX
        &&& forall|id: u32| #[trigger] self.exports.is_live(id) ==> self.exports.entry(id).ref_count + n <= u32::MAX
    }

    /// Writes a capability table, in order, and lists the exports that its
    /// descriptors refer to. It fails only on a capability that cannot be
    /// described, or when the export table runs out of room.
    #[verifier::rlimit(100)]
    pub fn write_descriptors(&mut self, caps: &Vec<Option<Client>>) -> (r: Result<(Vec<CapDescriptor>, Vec<u32>), RpcError>)
        requires
            old(self).wf(),
        ensures
            final(self).wf(),
            old(self).same_tables(final(self)),
            r is Ok ==> old(self).exports_grow(final(self)),
            r matches Ok((ds, es)) ==> {
                &&& ds@.len() == caps@.len()
                &&& forall|i: int| 0 <= i < caps@.len() ==> old(self).desc_for(final(self), opt_view(#[trigger] caps@[i]), ds@[i]@)
                &&& es@ == listed(descs_view(ds@))
                &&& forall|p: u64| #[trigger] final(self).held(p) == old(self).held(p) + old(self).local_count(caps@, p)
            },
            (forall|i: int| 0 <= i < caps@.len() ==> old(self).encodable(#[trigger] caps@[i])) && old(self).export_room(
                caps@.len(),
            ) ==> r is Ok,
    {
        let mut ds: Vec<CapDescriptor> = Vec::new();
        let mut es: Vec<u32> = Vec::new();
        let mut i: usize = 0;
        proof {
            lemma_grow_refl(self);
        }
        let ghost good = (forall|j: int| 0 <= j < caps@.len() ==> old(self).encodable(#[trigger] caps@[j]))
            && old(self).export_room(caps@.len());
        while i < caps.len()
            invariant
                self.wf(),
                old(self).same_tables(self),
                i <= caps@.len(),
                ds@.len() == i,
                forall|j: int| 0 <= j < i ==> old(self).desc_for(self, opt_view(#[trigger] caps@[j]), ds@[j]@),
                es@ == listed(descs_view(ds@)),
                good == ((forall|j: int| 0 <= j < caps@.len() ==> old(self).encodable(#[trigger] caps@[j]))
                    && old(self).export_room(caps@.len())),
                good ==> self.export_room((caps@.len() - i) as nat),
                forall|p: u64| #[trigger] self.held(p) == old(self).held(p) + old(self).local_count(caps@.take(i as int), p),
                old(self).exports_grow(self),
            decreases caps@.len() - i,
        {
            let ghost before = *self;
            proof {
                if good {
                    assert(old(self).encodable(caps@[i as int]));
                    if let Some(c) = caps@[i as int] {
                        lemma_settle_same(old(self), &before, c@, old(self).walk_fuel());
                        lemma_encodable_ok(&before, c@, (caps@.len() - i) as nat);
                    }
                }
            }
            let d = match &caps[i] {
                None => CapDescriptor::Null,
                Some(c) => match self.write_descriptor(c) {
                    Ok((d, e)) => {
                        match e {
                            Some(id) => es.push(id),
                            None => {},
                        }
                        d
                    },
                    Err(e) => return Err(e),
                },
            };
            proof {
                lemma_marked_trans(old(self), &before, self);
                assert(descs_view(ds@.push(d)).drop_last() == descs_view(ds@));
                if let Some(c) = caps@[i as int] {
                    lemma_settle_same(old(self), &before, c@, old(self).walk_fuel());
                    lemma_exports_kept(&before, self, c@);
                    lemma_desc_for_new(old(self), &before, self, c@, d@);
                }
                assert forall|j: int| 0 <= j < i implies old(self).desc_for(self, opt_view(#[trigger] caps@[j]), ds@[j]@) by {
                    assert(old(self).desc_for(&before, opt_view(caps@[j]), ds@[j]@));
                    if let Some(c) = caps@[i as int] {
                        lemma_desc_for_kept(old(self), &before, self, opt_view(caps@[j]), ds@[j]@, c@);
                    }
                }
                if let Some(c) = caps@[i as int] {
                    if good {
                        lemma_room_after_write(&before, self, c@, (caps@.len() - i) as nat);
                    }
                }
                lemma_held_step(old(self), &before, self, caps@, i as int);
                if let Some(c) = caps@[i as int] {
                    lemma_write_grows(&before, self, c@);
                    lemma_grow_trans(old(self), &before, self);
                }
            }
            ds.push(d);
            i = i + 1;
        }
        proof {
            assert(caps@.take(caps@.len() as int) == caps@);
        }
        Ok((ds, es))
    }
}

pub open spec fn descs_view(ds: Seq<CapDescriptor>) -> Seq<DescView> {
    ds.map_values(|d: CapDescriptor| d@)
}

/// The exports that a sequence of descriptors refers to, in order.
pub open spec fn listed(ds: Seq<DescView>) -> Seq<u32>
    decreases ds.len(),
{
    if ds.len() == 0 {
        Seq::empty()
    } else {
        let rest = listed(ds.drop_last());
        match export_of(ds.last()) {
            Some(id) => rest.push(id),
            None => rest,
        }
    }
}

pub proof fn lemma_only_imports_trans(a: &ConnectionState, b: &ConnectionState, c: &ConnectionState)
    requires
        a.only_imports(b),
        b.only_imports(c),
    ensures
        a.only_imports(c),
{
    assert forall|pid: u32| #[trigger] a.promises.is_live(pid) implies c.promises.is_live(pid)
        && c.promises.slots@[pid as int] == a.promises.slots@[pid as int] by {
        assert(b.promises.is_live(pid));
    }
    assert forall|id: u32| #[trigger] a.has_import_promise(id) implies c.imports@.contains_key(id)
        && c.imports@[id].promise_id == a.imports@[id].promise_id by {
        let pid = a.imports@[id].promise_id->Some_0;
        assert(a.promises.is_live(pid));
        assert(b.promises.is_live(pid));
        assert(b.has_import_promise(id));
    }
}

/// Resolution is followed the same way in two states whose promises differ
/// only in their call flags.
pub proof fn lemma_settle_same(a: &ConnectionState, b: &ConnectionState, c: CapView, fuel: nat)
    requires
        a.same_tables(b),
    ensures
        a.settle(c, fuel) == b.settle(c, fuel),
        a.walk_fuel() == b.walk_fuel(),
    decreases fuel,
{
    if let CapView::Promise(br, pid) = c {
        if a.promises.is_live(pid) {
            assert(b.promises.is_live(pid));
        } else {
            assert(!b.promises.is_live(pid));
        }
    }
    assert(a.step(c) == b.step(c));
    if fuel > 0 {
        if let Some(n) = a.step(c) {
            lemma_settle_same(a, b, n, (fuel - 1) as nat);
        }
    }
}

/// A receivable descriptor decodes when the tables have room for it.
proof fn lemma_receivable_ok(old: &ConnectionState, s: &ConnectionState, d: DescView, n: nat)
    requires
        old.receivable(d),
        n >= 1,
        s.receive_room(n),
        s.exports == old.exports,
        s.answers == old.answers,
    ensures
        s.received(d) is Ok,
{
    match d {
        DescView::SenderHosted(id) => {
            if s.imports@.contains_key(id) {
                assert(s.imports@[id].remote_ref_count + n <= u32::MAX);
            }
        },
        DescView::SenderPromise(id) => {
            if s.imports@.contains_key(id) {
                assert(s.imports@[id].remote_ref_count + n <= u32::MAX);
            }
        },
        _ => {},
    }
}

/// What a descriptor decoded to stays true while later descriptors of the
/// same table are decoded.
proof fn lemma_cap_for_kept(old: &ConnectionState, mid: &ConnectionState, next: &ConnectionState, d: DescView, c: Option<CapView>)
    requires
        old.cap_for(mid, d, c),
        mid.only_imports(next),
    ensures
        old.cap_for(next, d, c),
{
    match d {
        DescView::SenderPromise(id) => {
            assert(mid.has_import_promise(id));
            let pid = mid.imports@[id].promise_id->Some_0;
            assert(mid.promises.is_live(pid));
            assert(next.promises.is_live(pid));
        },
        DescView::ReceiverAnswer(q, ops) => {
            if old.answer_pending(q) {
                let pid = c->Some_0->Promise_1;
                assert(mid.promises.is_live(pid));
            }
        },
        _ => {},
    }
}

/// A slot that was just stored into is live.
proof fn lemma_stored_live<T>(t: &crate::tables::ExportTable<T>, slots: Seq<Option<T>>, pid: u32, v: T)
    requires
        slots == t.stored(pid, v),
        (pid as int) <= t.slots@.len(),
    ensures
        (pid as int) < slots.len() && slots[pid as int] is Some,
{
}

/// A promise descriptor decodes to the promise that its import now records.
proof fn lemma_promise_step(before: &ConnectionState, next: &ConnectionState, id: u32)
    requires
        before.import_done(next, id, true),
    ensures
        next.has_import_promise(id),
{
    let pid = before.import_promise_id(id);
    if !before.has_import_promise(id) {
        lemma_stored_live(&before.promises, next.promises.slots@, pid, before.import_promise(id));
    }
    assert(next.promises.is_live(pid));
}

/// A descriptor for a pending answer decodes to a new promise for it.
proof fn lemma_answer_step(before: &ConnectionState, next: &ConnectionState, q: u32, ops: Seq<PipelineOp>)
    requires
        before.answer_promise_added(next, q, ops),
    ensures
        next.promises.is_live(before.promises.next_id()),
{
    let pid = before.promises.next_id();
    lemma_stored_live(&before.promises, next.promises.slots@, pid, next.promises.entry(pid));
}

/// A capability that settles on something describable is described, when
/// the export table has room for one more reference.
proof fn lemma_encodable_ok(s: &ConnectionState, c: CapView, n: nat)
    requires
        s.wf(),
        n >= 1,
        s.export_room(n),
        s.settle(c, s.walk_fuel()) matches Some(x) && (x is Local || ConnectionState::exported_anew(x) || s.describe(x) is Ok),
    ensures
        s.encoded(c) is Ok,
{
    if let Some(CapView::Local(p)) = s.settle(c, s.walk_fuel()) {
        if s.exports_by_cap@.contains_key(p) {
            assert(s.exports.is_live(s.exports_by_cap@[p]));
        }
    }
}

/// Writing one descriptor uses up at most one unit of export room.
proof fn lemma_room_after_write(s: &ConnectionState, next: &ConnectionState, c: CapView, n: nat)
    requires
        s.wf(),
        next.wf(),
        n >= 1,
        s.export_room(n),
        s.export_effect(next, c, true) || s.exports_unchanged(next),
    ensures
        next.export_room((n - 1) as nat),
{
    if !s.exports_unchanged(next) && !(s.settle(c, s.walk_fuel())->Some_0 is Local) {
        let id = s.exports.next_id();
        assert(s.sent_new(next, s.settle(c, s.walk_fuel())->Some_0));
        assert forall|j: u32| #[trigger] next.exports.is_live(j) implies next.exports.entry(j).ref_count + (n - 1) <= u32::MAX by {
            if j != id {
                assert(next.exports.slots@[j as int] == s.exports.slots@[j as int]);
                assert(s.exports.is_live(j));
            }
        }
    } else if !s.exports_unchanged(next) {
        let p = s.settle(c, s.walk_fuel())->Some_0->Local_0;
        assert(s.sent_once(next, p));
        let id = s.export_id_for(p);
        assert forall|j: u32| #[trigger] next.exports.is_live(j) implies next.exports.entry(j).ref_count + (n - 1) <= u32::MAX by {
            if j != id {
                assert(next.exports.slots@[j as int] == s.exports.slots@[j as int]);
                assert(s.exports.is_live(j));
            } else if s.exports_by_cap@.contains_key(p) {
                assert(s.exports.is_live(id));
            }
        }
    }
}

/// Sending a local server once more adds one reference to its export and
/// leaves every other server's count alone.
proof fn lemma_held_after_send(s: &ConnectionState, next: &ConnectionState, p0: u64, p: u64)
    requires
        s.wf(),
        next.wf(),
        s.sent_once(next, p0),
    ensures
        next.held(p) == s.held(p) + if p == p0 { 1nat } else { 0nat },
{
    let id = s.export_id_for(p0);
    assert(next.exports_by_cap@.contains_key(p0));
    assert(next.exports.is_live(id));
    if s.exports_by_cap@.contains_key(p0) {
        assert(s.exports.is_live(id));
        if p != p0 && s.exports_by_cap@.contains_key(p) {
            assert(s.exports.is_live(s.exports_by_cap@[p]));
            assert(s.exports_by_cap@[p] != id);
            assert(next.exports.slots@[s.exports_by_cap@[p] as int] == s.exports.slots@[s.exports_by_cap@[p] as int]);
        }
    } else {
        let v = Export { ref_count: 1, client: Client::Local(LocalClient { server: p0 }) };
        if (id as int) >= s.exports.slots@.len() {
            assert(next.exports.slots@ == s.exports.slots@.push(Some(v)));
            assert(id as int == s.exports.slots@.len());
        }
        assert(next.exports.slots@[id as int] == Some(v));
        if p != p0 && s.exports_by_cap@.contains_key(p) {
            assert(s.exports.is_live(s.exports_by_cap@[p]));
            assert(s.exports_by_cap@[p] != id);
            assert(next.exports.slots@[s.exports_by_cap@[p] as int] == s.exports.slots@[s.exports_by_cap@[p] as int]);
        }
    }
}

/// The counts of references to exports after one more entry of a table was written.
proof fn lemma_held_step(old: &ConnectionState, before: &ConnectionState, next: &ConnectionState, caps: Seq<Option<Client>>, i: int)
    requires
        0 <= i < caps.len(),
        before.wf(),
        next.wf(),
        old.same_tables(before),
        forall|p: u64| #[trigger] before.held(p) == old.held(p) + old.local_count(caps.take(i), p),
        match caps[i] {
            None => *next == *before,
            Some(c) => before.export_effect(next, c@, true),
        },
    ensures
        forall|p: u64| #[trigger] next.held(p) == old.held(p) + old.local_count(caps.take(i + 1), p),
{
    let prefix = caps.take(i + 1);
    assert(prefix.drop_last() == caps.take(i));
    assert(prefix.last() == caps[i]);
    if let Some(c) = caps[i] {
        lemma_settle_same(old, before, c@, old.walk_fuel());
    }
    assert forall|p: u64| #[trigger] next.held(p) == old.held(p) + old.local_count(prefix, p) by {
        if let Some(c) = caps[i] {
            match before.settle(c@, before.walk_fuel()) {
                Some(CapView::Local(p0)) => lemma_held_after_send(before, next, p0, p),
                Some(x) => {
                    if ConnectionState::exported_anew(x) && before.exports_by_cap@.contains_key(p) {
                        let j = before.exports_by_cap@[p];
                        assert(before.exports.is_live(j));
                        assert(j != before.exports.next_id());
                        assert(next.exports.slots@[j as int] == before.exports.slots@[j as int]);
                    }
                },
                None => {},
            }
        }
    }
}

/// Writing one descriptor keeps every live export live, with the same capability.
proof fn lemma_exports_kept(s: &ConnectionState, next: &ConnectionState, c: CapView)
    requires
        s.wf(),
        next.wf(),
        s.export_effect(next, c, true) || s.exports_unchanged(next),
    ensures
        forall|j: u32| #[trigger] s.exports.is_live(j) ==> next.exports.is_live(j) && next.exports.entry(j).client@
            == s.exports.entry(j).client@,
{
    assert forall|j: u32| #[trigger] s.exports.is_live(j) implies next.exports.is_live(j) && next.exports.entry(j).client@
        == s.exports.entry(j).client@ by {
        if !s.exports_unchanged(next) {
            match s.settle(c, s.walk_fuel()) {
                Some(CapView::Local(p)) => {
                    let id = s.export_id_for(p);
                    if j != id {
                        assert(next.exports.slots@[j as int] == s.exports.slots@[j as int]);
                    } else {
                        assert(s.exports_by_cap@.contains_key(p));
                        assert(s.indexed(j, s.exports.entry(j).client@));
                    }
                },
                Some(x) => {
                    assert(j != s.exports.next_id());
                    assert(next.exports.slots@[j as int] == s.exports.slots@[j as int]);
                },
                None => {},
            }
        }
    }
}

/// What a descriptor written earlier in a table names stays true while later
/// entries are written.
proof fn lemma_desc_for_kept(
    old: &ConnectionState,
    before: &ConnectionState,
    next: &ConnectionState,
    c: Option<CapView>,
    d: DescView,
    w: CapView,
)
    requires
        before.wf(),
        next.wf(),
        old.desc_for(before, c, d),
        before.export_effect(next, w, true),
        forall|j: u32| #[trigger] before.exports.is_live(j) ==> next.exports.is_live(j) && next.exports.entry(j).client@
            == before.exports.entry(j).client@,
    ensures
        old.desc_for(next, c, d),
{
    if let Some(x) = c {
        if let Some(CapView::Local(p)) = old.settle(x, old.walk_fuel()) {
            if let Some(CapView::Local(p0)) = before.settle(w, before.walk_fuel()) {
                if p0 == p {
                    assert(before.exports_by_cap@.contains_key(p));
                }
            }
        }
    }
}

/// The descriptor just written for `w` names what `write_descriptor` promised.
proof fn lemma_desc_for_new(old: &ConnectionState, before: &ConnectionState, next: &ConnectionState, w: CapView, d: DescView)
    requires
        old.same_tables(before),
        before.wf(),
        next.wf(),
        old.settle(w, old.walk_fuel()) == before.settle(w, before.walk_fuel()),
        before.export_effect(next, w, true),
        before.encoded(w) == Ok::<DescView, ErrorKind>(d),
    ensures
        old.desc_for(next, Some(w), d),
{
    match before.settle(w, before.walk_fuel()) {
        Some(CapView::Local(p)) => {
            assert(before.sent_once(next, p));
            assert(next.exports_by_cap@ == before.exports_by_cap@.insert(p, before.export_id_for(p)));
        },
        Some(x) => {
            if ConnectionState::exported_anew(x) {
                assert(before.sent_new(next, x));
                let id = before.exports.next_id();
                lemma_stored_live(&before.exports, next.exports.slots@, id, next.exports.entry(id));
            } else {
                assert(old.brand == before.brand);
            }
        },
        None => {},
    }
}

/// Writing one descriptor only grows the exports.
pub proof fn lemma_write_grows(s: &ConnectionState, next: &ConnectionState, c: CapView)
    requires
        s.wf(),
        next.wf(),
        s.export_effect(next, c, true) || s.exports_unchanged(next),
    ensures
        s.exports_grow(next),
{
    reveal(ConnectionState::exports_grow);
    lemma_exports_kept(s, next, c);
    assert forall|p: u64| #[trigger] s.exports_by_cap@.contains_key(p) implies next.exports_by_cap@.contains_key(p)
        && next.exports_by_cap@[p] == s.exports_by_cap@[p] by {
        if !s.exports_unchanged(next) {
            if let Some(CapView::Local(p0)) = s.settle(c, s.walk_fuel()) {
                assert(s.sent_once(next, p0));
            }
        }
    }
}

pub proof fn lemma_grow_trans(a: &ConnectionState, b: &ConnectionState, c: &ConnectionState)
    requires
        a.exports_grow(b),
        b.exports_grow(c),
    ensures
        a.exports_grow(c),
{
    reveal(ConnectionState::exports_grow);
    assert forall|j: u32| #[trigger] a.exports.is_live(j) implies c.exports.is_live(j) && c.exports.entry(j).client@
        == a.exports.entry(j).client@ by {
        assert(b.exports.is_live(j));
    }
    assert forall|p: u64| #[trigger] a.exports_by_cap@.contains_key(p) implies c.exports_by_cap@.contains_key(p)
        && c.exports_by_cap@[p] == a.exports_by_cap@[p] by {
        assert(b.exports_by_cap@.contains_key(p));
    }
}

/// What a written descriptor names stays true while the exports only grow.
pub proof fn lemma_desc_for_grown(old: &ConnectionState, a: &ConnectionState, b: &ConnectionState, c: Option<CapView>, d: DescView)
    requires
        old.desc_for(a, c, d),
        a.exports_grow(b),
    ensures
        old.desc_for(b, c, d),
{
    reveal(ConnectionState::exports_grow);
    if let Some(x) = c {
        match old.settle(x, old.walk_fuel()) {
            Some(CapView::Local(p)) => {
                assert(a.exports_by_cap@.contains_key(p));
            },
            Some(s) => {
                if ConnectionState::exported_anew(s) {
                    let id = export_of(d)->Some_0;
                    assert(a.exports.is_live(id));
                }
            },
            None => {},
        }
    }
}

pub proof fn lemma_promises_marked_trans(a: &ConnectionState, b: &ConnectionState, c: &ConnectionState)
    requires
        a.promises_marked(b),
        b.promises_marked(c),
    ensures
        a.promises_marked(c),
{
    assert forall|q: u32| #[trigger] a.promises.is_live(q) implies {
        let x = a.promises.entry(q);
        let z = c.promises.entry(q);
        &&& c.promises.is_live(q)
        &&& z.is_resolved == x.is_resolved
        &&& z.cap@ == x.cap@
        &&& z.import_id == x.import_id
        &&& z.embargo == x.embargo
        &&& x.received_call ==> z.received_call
    } by {
        assert(b.promises.is_live(q));
    }
    assert forall|q: u32| #[trigger] c.promises.is_live(q) implies a.promises.is_live(q) by {
        assert(b.promises.is_live(q));
    }
}

pub proof fn lemma_grow_refl(a: &ConnectionState)
    ensures
        a.exports_grow(a),
{
    reveal(ConnectionState::exports_grow);
}

/// Exports that did not change only grew.
pub proof fn lemma_grow_same(a: &ConnectionState, b: &ConnectionState)
    requires
        a.exports == b.exports,
        a.exports_by_cap@ == b.exports_by_cap@,
    ensures
        a.exports_grow(b),
{
    reveal(ConnectionState::exports_grow);
}

/// A promise on a resolution chain is live.
pub proof fn lemma_chain_live(s: &ConnectionState, c: CapView, pid: u32, fuel: nat, stop: bool)
    requires
        s.on_chain(c, pid, fuel, stop),
    ensures
        s.promises.is_live(pid),
    decreases fuel,
{
    reveal(ConnectionState::on_chain);
    if let CapView::Promise(b, p) = c {
        if p != pid {
            lemma_chain_live(s, s.promises.entry(p).cap@, pid, (fuel - 1) as nat, stop);
        }
    }
}

/// A descriptor that decodes is receivable.
proof fn lemma_ok_receivable(old: &ConnectionState, s: &ConnectionState, d: DescView)
    requires
        s.received(d) is Ok,
        s.exports == old.exports,
        s.answers == old.answers,
    ensures
        old.receivable(d),
{
}

/// The error of a descriptor that fails to decode.
proof fn lemma_err_kind(old: &ConnectionState, s: &ConnectionState, d: DescView, k: ErrorKind)
    requires
        s.received(d) == Err::<Option<CapView>, ErrorKind>(k),
        s.exports == old.exports,
        s.answers == old.answers,
    ensures
        old.receivable(d) ==> k == ErrorKind::Failed,
        !old.receivable(d) ==> old.received(d) == Err::<Option<CapView>, ErrorKind>(k),
{
}

} // verus!
