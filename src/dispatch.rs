use vstd::prelude::*;
use crate::calls::{Request, Route, RouteView, SendOutcome};
use crate::client::{CapView, Client, LocalClient};
use crate::codec::{cap_at, opt_view, response_cap};
use crate::connection::{Answer, ResultsDone, ConnectionState, Question, can_push};
use crate::error::{ErrorKind, Exception, RpcError, remote_exception_to_error, remote_kind, remote_reason};
use crate::wire::{Call, CapDescriptor, DisembargoContext, Message, MessageTarget, Payload, PipelineOp, Pointer, Resolution, Return, ReturnBody, SendResultsTo};

verus! {

broadcast use vstd::std_specs::hash::group_hash_axioms;

/// The results of one of our questions, with their capabilities decoded.
#[derive(Debug)]
pub struct Response {
    pub content: Pointer,
    pub caps: Vec<Option<Client>>,
}

/// The parameters of a call that the peer made on a local server.
#[derive(Debug)]
pub struct Params {
    pub content: Pointer,
    pub caps: Vec<Option<Client>>,
}

/// What the application has to do after a message was handled.
#[derive(Debug)]
pub enum Event {
    Nothing,
    /// One of our questions returned results.
    Returned { question_id: u32, response: Response },
    /// One of our questions failed.
    Rejected { question_id: u32, error: RpcError },
    /// The peer called a local server; its results go back through `return_results`.
    Deliver { answer_id: u32, server: LocalClient, interface_id: u64, method_id: u16, params: Params },
    /// A call pipelined on one of our answers whose results are not in yet;
    /// it is to be handled again once they are.
    Deferred(Call),
}

impl Response {
    /// The capability found at `ops` in this response.
    pub fn get_pipelined_cap(&self, ops: &Vec<PipelineOp>) -> (r: Client)
        ensures
            r@ == response_cap(self.content, self.caps@, ops@),
    {
        cap_at(&self.content, &self.caps, ops)
    }
}

/// The capability that `cap_at` finds for an outcome that has results.
pub open spec fn cap_at_view(outcome: Result<(&Pointer, &Vec<Option<Client>>), &RpcError>, ops: Seq<PipelineOp>) -> CapView {
    match outcome {
        Ok((content, caps)) => response_cap(*content, caps@, ops),
        Err(e) => CapView::Broken(e.kind, e.reason@),
    }
}

/// What a promise on the result of a question becomes once the question
/// returned a response, or failed with an error.
pub open spec fn outcome_cap(outcome: Result<&Response, &RpcError>, ops: Seq<PipelineOp>) -> CapView {
    match outcome {
        Ok(resp) => response_cap(resp.content, resp.caps@, ops),
        Err(error) => CapView::Broken(error.kind, error.reason@),
    }
}

impl ConnectionState {
    /// Whether promise `pid` waits for the result of question `qid`.
    pub open spec fn waits_on(&self, pid: u32, qid: u32) -> bool {
        &&& self.promises.is_live(pid)
        &&& !self.promises.entry(pid).is_resolved
        &&& self.promises.entry(pid).cap@ matches CapView::Pipeline(b, q, _) && b == self.brand && q == qid
    }

    /// The table fields that the handling of a return leaves alone.
    pub open spec fn same_connection(&self, next: &ConnectionState) -> bool {
        &&& next.brand == self.brand
        &&& self.exports_unchanged(next)
        &&& next.answers == self.answers
        &&& next.error == self.error
    }

    /// Records that question `qid` got its return; a question whose local
    /// reference is gone is erased.
    fn mark_returned(&mut self, qid: u32)
        requires
            old(self).wf(),
            old(self).questions.is_live(qid),
        ensures
            final(self).wf(),
            final(self).brand == old(self).brand,
            old(self).exports_unchanged(final(self)),
            final(self).promises == old(self).promises,
            final(self).imports == old(self).imports,
            final(self).answers == old(self).answers,
            final(self).embargoes == old(self).embargoes,
            final(self).error == old(self).error,
            final(self).outbox == old(self).outbox,
            old(self).questions.entry(qid).has_ref ==> {
                &&& final(self).questions.is_live(qid)
                &&& !final(self).questions.entry(qid).is_awaiting_return
                &&& final(self).questions.entry(qid).has_ref
            },
            !old(self).questions.entry(qid).has_ref ==> final(self).questions.slots@ == old(
                self,
            ).questions.slots@.update(qid as int, None),
            final(self).questions.slots@ == old(self).questions.slots@.update(qid as int, final(self).questions.slots@[qid as int]),
    {
        let q = self.questions.get(qid).unwrap();
        if q.has_ref {
            let updated = Question {
                is_awaiting_return: false,
                param_exports: crate::calls::copy_ids(&q.param_exports),
                is_tail_call: q.is_tail_call,
                has_ref: true,
            };
            self.questions.replace(qid, updated);
        } else {
            self.questions.erase(qid);
        }
    }

    /// Resolves every promise that waits for the result of question `qid`.
    fn settle_question_promises(&mut self, qid: u32, outcome: Result<&Response, &RpcError>) -> (r: Result<
        (),
        RpcError,
    >)
        requires
            old(self).wf(),
        ensures
            final(self).wf(),
            old(self).same_connection(final(self)),
            final(self).questions == old(self).questions,
            final(self).imports == old(self).imports,
            final(self).promises.slots@.len() == old(self).promises.slots@.len(),
            r is Ok ==> forall|pid: u32| #[trigger]
                old(self).waits_on(pid, qid) ==> {
                    let n = final(self).promises.entry(pid);
                    &&& final(self).promises.is_live(pid)
                    &&& n.is_resolved
                    &&& n.cap@ == outcome_cap(outcome, old(self).promises.entry(pid).cap@->Pipeline_2)
                },
            r is Ok ==> forall|pid: u32| #[trigger]
                old(self).promises.is_live(pid) && !old(self).waits_on(pid, qid) ==> final(self).promises.slots@[pid as int]
                    == old(self).promises.slots@[pid as int],
            outcome is Err ==> r is Ok,
            old(self).embargoes.slots@.len() + old(self).promises.slots@.len() < u32::MAX ==> r is Ok,
    {
        let n = self.promises.slots.len();
        let mut i: usize = 0;
        while i < n
            invariant
                old(self).embargoes.slots@.len() + n < u32::MAX ==> self.embargoes.slots@.len() + (n - i) < u32::MAX,
                self.wf(),
                old(self).same_connection(self),
                self.questions == old(self).questions,
                self.imports == old(self).imports,
                n == old(self).promises.slots@.len(),
                self.promises.slots@.len() == n,
                forall|pid: u32| #[trigger] self.promises.is_live(pid) ==> old(self).promises.is_live(pid),
                i <= n,
                forall|pid: u32| #[trigger]
                    old(self).waits_on(pid, qid) && (pid as int) < i ==> {
                        let e = self.promises.entry(pid);
                        &&& self.promises.is_live(pid)
                        &&& e.is_resolved
                        &&& e.cap@ == outcome_cap(outcome, old(self).promises.entry(pid).cap@->Pipeline_2)
                    },
                forall|pid: u32| #[trigger]
                    old(self).promises.is_live(pid) && (!old(self).waits_on(pid, qid) || (pid as int) >= i)
                        ==> self.promises.slots@[pid as int] == old(self).promises.slots@[pid as int],
            decreases n - i,
        {
            let pid = i as u32;
            let ops = match self.promises.get(pid) {
                Some(p) => {
                    if p.is_resolved {
                        None
                    } else {
                        match &p.cap {
                            Client::Pipeline { brand, question_id, ops } => {
                                if *brand == self.brand && *question_id == qid {
                                    Some(crate::wire::copy_ops(ops))
                                } else {
                                    None
                                }
                            },
                            _ => None,
                        }
                    }
                },
                None => None,
            };
            match ops {
                Some(ops) => {
                    let replacement = match outcome {
                        Ok(resp) => resp.get_pipelined_cap(&ops),
                        Err(error) => Client::Broken(error.duplicate()),
                    };
                    let ghost before = *self;
                    proof {
                        assert(old(self).promises.is_live(pid));
                        assert(old(self).promises.slots@[pid as int] == self.promises.slots@[pid as int]);
                    }
                    proof {
                        if outcome is Err {
                            assert(!before.needs_embargo(pid, replacement@));
                        }
                    }
                    match self.resolve_promise(pid, replacement) {
                        Ok(()) => {},
                        Err(e) => return Err(e),
                    }
                    proof {
                        assert(old(self).waits_on(pid, qid));
                        assert forall|q: u32| #[trigger] self.promises.is_live(q) implies old(self).promises.is_live(q) by {
                            assert((q as int) < before.promises.slots@.len());
                            if q != pid {
                                assert(self.promises.slots@[q as int] == before.promises.slots@[q as int]);
                                assert(before.promises.is_live(q));
                            }
                        }
                        assert forall|q: u32| #[trigger]
                            old(self).promises.is_live(q) && (!old(self).waits_on(q, qid) || (q as int) >= i + 1)
                                implies self.promises.slots@[q as int] == old(self).promises.slots@[q as int] by {
                            assert(q != pid);
                            assert((q as int) < before.promises.slots@.len());
                        }
                        assert forall|q: u32| #[trigger]
                            old(self).waits_on(q, qid) && (q as int) < i + 1 implies {
                                let e = self.promises.entry(q);
                                &&& self.promises.is_live(q)
                                &&& e.is_resolved
                                &&& e.cap@ == outcome_cap(outcome, old(self).promises.entry(q).cap@->Pipeline_2)
                            } by {
                            if q != pid {
                                assert((q as int) < before.promises.slots@.len());
                                assert(self.promises.slots@[q as int] == before.promises.slots@[q as int]);
                            }
                        }
                    }
                },
                None => {
                    proof {
                        assert(!old(self).waits_on(pid, qid)) by {
                            if old(self).waits_on(pid, qid) {
                                assert(old(self).promises.slots@[pid as int] == self.promises.slots@[pid as int]);
                            }
                        }
                    }
                },
            }
            i = i + 1;
        }
        Ok(())
    }

    /// Whether promise `pid` waits for the results of our answer `aid`.
    pub open spec fn waits_on_answer(&self, pid: u32, aid: u32) -> bool {
        &&& self.promises.is_live(pid)
        &&& !self.promises.entry(pid).is_resolved
        &&& self.promises.entry(pid).cap@ matches CapView::AnswerPipeline(a, _) && a == aid
    }

    /// Resolves every promise that waits for the results of our answer `aid`:
    /// to the capability at its path in those results, or broken with `error`.
    fn settle_answer_promises(&mut self, aid: u32, outcome: Result<(&Pointer, &Vec<Option<Client>>), &RpcError>)
        requires
            old(self).wf(),
        ensures
            final(self).wf(),
            old(self).same_connection(final(self)),
            final(self).questions == old(self).questions,
            final(self).imports == old(self).imports,
            final(self).embargoes == old(self).embargoes,
            final(self).outbox == old(self).outbox,
            final(self).promises.slots@.len() == old(self).promises.slots@.len(),
            forall|pid: u32| #[trigger]
                old(self).waits_on_answer(pid, aid) ==> {
                    let n = final(self).promises.entry(pid);
                    &&& final(self).promises.is_live(pid)
                    &&& n.is_resolved
                    &&& n.cap@ == match outcome {
                        Ok((content, caps)) => response_cap(*content, caps@, old(self).promises.entry(pid).cap@->AnswerPipeline_1),
                        Err(error) => CapView::Broken(error.kind, error.reason@),
                    }
                },
            forall|pid: u32| #[trigger]
                old(self).promises.is_live(pid) && !old(self).waits_on_answer(pid, aid) ==> final(self).promises.slots@[pid as int]
                    == old(self).promises.slots@[pid as int],
    {
        let n = self.promises.slots.len();
        let mut i: usize = 0;
        while i < n
            invariant
                self.wf(),
                old(self).same_connection(self),
                self.questions == old(self).questions,
                self.imports == old(self).imports,
                self.embargoes == old(self).embargoes,
                self.outbox == old(self).outbox,
                n == old(self).promises.slots@.len(),
                self.promises.slots@.len() == n,
                forall|pid: u32| #[trigger] self.promises.is_live(pid) ==> old(self).promises.is_live(pid),
                i <= n,
                forall|pid: u32| #[trigger]
                    old(self).waits_on_answer(pid, aid) && (pid as int) < i ==> {
                        let e = self.promises.entry(pid);
                        &&& self.promises.is_live(pid)
                        &&& e.is_resolved
                        &&& e.cap@ == match outcome {
                            Ok((content, caps)) => response_cap(*content, caps@, old(self).promises.entry(pid).cap@->AnswerPipeline_1),
                            Err(error) => CapView::Broken(error.kind, error.reason@),
                        }
                    },
                forall|pid: u32| #[trigger]
                    old(self).promises.is_live(pid) && (!old(self).waits_on_answer(pid, aid) || (pid as int) >= i)
                        ==> self.promises.slots@[pid as int] == old(self).promises.slots@[pid as int],
            decreases n - i,
        {
            let pid = i as u32;
            let ops = match self.promises.get(pid) {
                Some(p) => {
                    if p.is_resolved {
                        None
                    } else {
                        match &p.cap {
                            Client::AnswerPipeline { answer_id, ops } => {
                                if *answer_id == aid {
                                    Some(crate::wire::copy_ops(ops))
                                } else {
                                    None
                                }
                            },
                            _ => None,
                        }
                    }
                },
                None => None,
            };
            match ops {
                Some(ops) => {
                    let replacement = match outcome {
                        Ok((content, caps)) => cap_at(content, caps, &ops),
                        Err(error) => Client::Broken(error.duplicate()),
                    };
                    let ghost before = *self;
                    proof {
                        assert(old(self).promises.is_live(pid));
                        assert(old(self).promises.slots@[pid as int] == self.promises.slots@[pid as int]);
                        assert(!before.needs_embargo(pid, replacement@));
                    }
                    let _ = self.resolve_promise(pid, replacement);
                    proof {
                        assert(old(self).waits_on_answer(pid, aid));
                        assert forall|q: u32| #[trigger] self.promises.is_live(q) implies old(self).promises.is_live(q) by {
                            assert((q as int) < before.promises.slots@.len());
                            if q != pid {
                                assert(self.promises.slots@[q as int] == before.promises.slots@[q as int]);
                                assert(before.promises.is_live(q));
                            }
                        }
                        assert forall|q: u32| #[trigger]
                            old(self).promises.is_live(q) && (!old(self).waits_on_answer(q, aid) || (q as int) >= i + 1)
                                implies self.promises.slots@[q as int] == old(self).promises.slots@[q as int] by {
                            assert(q != pid);
                            assert((q as int) < before.promises.slots@.len());
                        }
                        assert forall|q: u32| #[trigger]
                            old(self).waits_on_answer(q, aid) && (q as int) < i + 1 implies {
                                let e = self.promises.entry(q);
                                &&& self.promises.is_live(q)
                                &&& e.is_resolved
                                &&& e.cap@ == match outcome {
                                    Ok((content, caps)) => response_cap(*content, caps@, old(self).promises.entry(q).cap@->AnswerPipeline_1),
                                    Err(error) => CapView::Broken(error.kind, error.reason@),
                                }
                            } by {
                            if q != pid {
                                assert((q as int) < before.promises.slots@.len());
                                assert(self.promises.slots@[q as int] == before.promises.slots@[q as int]);
                            }
                        }
                    }
                },
                None => {
                    proof {
                        assert(!old(self).waits_on_answer(pid, aid)) by {
                            if old(self).waits_on_answer(pid, aid) {
                                assert(old(self).promises.slots@[pid as int] == self.promises.slots@[pid as int]);
                            }
                        }
                    }
                },
            }
            i = i + 1;
        }
    }

    /// Whether export `j` stands for a promise on the results of our answer `aid`.
    pub open spec fn exports_answer(&self, j: u32, aid: u32) -> bool {
        &&& self.exports.is_live(j)
        &&& self.exports.entry(j).client@ matches CapView::AnswerPipeline(a, _) && a == aid
    }

    /// A `Resolve` for export `j` was queued after the first `from` messages.
    pub open spec fn resolve_queued(&self, from: int, j: u32) -> bool {
        exists|k: int| from <= k < self.outbox@.len() && (#[trigger] self.outbox@[k] matches Message::Resolve {
            promise_id,
            ..
        } && promise_id == j)
    }

    /// Queues a `Resolve` for every export that stands for a promise on the
    /// results of our answer `aid`: the capability at its path in those
    /// results, or the answer's error.
    fn resolve_answer_exports(&mut self, aid: u32, outcome: Result<(&Pointer, &Vec<Option<Client>>), &RpcError>)
        requires
            old(self).wf(),
        ensures
            final(self).wf(),
            final(self).brand == old(self).brand,
            final(self).questions == old(self).questions,
            final(self).answers == old(self).answers,
            final(self).imports == old(self).imports,
            final(self).embargoes == old(self).embargoes,
            final(self).error == old(self).error,
            old(self).promises_marked(final(self)),
            old(self).exports_grow(final(self)),
            outcome is Err ==> old(self).exports_unchanged(final(self)) && final(self).promises == old(self).promises,
            final(self).outbox@.len() >= old(self).outbox@.len(),
            final(self).outbox@.subrange(0, old(self).outbox@.len() as int) == old(self).outbox@,
            forall|j: u32| #[trigger] old(self).exports_answer(j, aid) ==> final(self).resolve_queued(old(self).outbox@.len() as int, j),
    {
        let n = self.exports.slots.len();
        let ghost start = old(self).outbox@.len() as int;
        let mut i: usize = 0;
        proof {
            assert(self.outbox@.subrange(0, start) == old(self).outbox@);
            crate::codec::lemma_grow_refl(self);
        }
        while i < n
            invariant
                self.wf(),
                self.brand == old(self).brand,
                self.questions == old(self).questions,
                self.answers == old(self).answers,
                self.imports == old(self).imports,
                self.embargoes == old(self).embargoes,
                self.error == old(self).error,
                old(self).promises_marked(self),
                old(self).exports_grow(self),
                outcome is Err ==> old(self).exports_unchanged(self) && self.promises == old(self).promises,
                start == old(self).outbox@.len(),
                self.outbox@.len() >= start,
                self.outbox@.subrange(0, start) == old(self).outbox@,
                n == old(self).exports.slots@.len(),
                i <= n,
                forall|j: u32| #[trigger] old(self).exports_answer(j, aid) && (j as int) < i ==> self.resolve_queued(start, j),
            decreases n - i,
        {
            let j = i as u32;
            let ops = match self.exports.get(j) {
                Some(e) => match &e.client {
                    Client::AnswerPipeline { answer_id, ops } => {
                        if *answer_id == aid {
                            Some(crate::wire::copy_ops(ops))
                        } else {
                            None
                        }
                    },
                    _ => None,
                },
                None => None,
            };
            let ghost before = *self;
            match ops {
                Some(ops) => {
                    let resolution = match outcome {
                        Err(error) => Resolution::Exception(to_exception(error)),
                        Ok((content, caps)) => {
                            let replacement = cap_at(content, caps, &ops);
                            match replacement {
                                Client::Broken(e) => Resolution::Exception(to_exception(&e)),
                                _ => {
                                    let w = self.write_descriptor(&replacement);
                                    proof {
                                        crate::codec::lemma_write_grows(&before, self, replacement@);
                                        crate::codec::lemma_promises_marked_trans(old(self), &before, self);
                                        crate::codec::lemma_grow_trans(old(self), &before, self);
                                    }
                                    match w {
                                        Ok((d, _)) => Resolution::Cap(d),
                                        Err(e) => Resolution::Exception(to_exception(&e)),
                                    }
                                },
                            }
                        },
                    };
                    let ghost mid = *self;
                    self.outbox.push(Message::Resolve { promise_id: j, resolution });
                    proof {
                        reveal(ConnectionState::exports_grow);
                        assert(self.outbox@.subrange(0, start) == mid.outbox@.subrange(0, start));
                        assert(self.outbox@[self.outbox@.len() - 1] matches Message::Resolve { promise_id, .. } && promise_id == j);
                        assert forall|q: u32| #[trigger] old(self).exports_answer(q, aid) && (q as int) < i + 1 implies self.resolve_queued(start, q) by {
                            if q != j {
                                assert(before.resolve_queued(start, q));
                                let k = choose|k: int| start <= k < before.outbox@.len() && (#[trigger] before.outbox@[k] matches Message::Resolve {
                                    promise_id,
                                    ..
                                } && promise_id == q);
                                assert(self.outbox@[k] == before.outbox@[k]);
                            } else {
                                assert(self.outbox@[self.outbox@.len() - 1] matches Message::Resolve { promise_id, .. } && promise_id == q);
                            }
                        }
                    }
                },
                None => {
                    proof {
                        reveal(ConnectionState::exports_grow);
                        assert forall|q: u32| #[trigger] old(self).exports_answer(q, aid) && (q as int) < i + 1 implies self.resolve_queued(start, q) by {
                            if q == j {
                                assert(self.exports.is_live(j));
                            }
                        }
                    }
                },
            }
            i = i + 1;
        }
    }

    /// Completes answer `a` with the return of the question that passed its
    /// call back to the peer, and finishes that question.
    fn return_forwarded(&mut self, qid: u32, a: u32, ret: Return) -> (r: Result<Event, RpcError>)
        requires
            old(self).wf(),
            old(self).questions.is_live(qid),
        ensures
            final(self).wf(),
            final(self).brand == old(self).brand,
            final(self).error == old(self).error,
            r is Ok ==> {
                &&& r matches Ok(Event::Nothing)
                &&& !final(self).forwards@.contains_key(qid)
            },
    {
        self.mark_returned(qid);
        self.drop_question_ref(qid);
        let r = match ret.body {
            ReturnBody::Results(payload) => {
                let caps = match self.receive_caps(&payload.cap_table) {
                    Ok(caps) => caps,
                    Err(e) => return Err(e),
                };
                self.return_results(a, payload.content, caps)
            },
            ReturnBody::Exception(e) => {
                let error = remote_exception_to_error(&e);
                self.return_exception(a, &error)
            },
            _ => {
                let error = RpcError::unimplemented("unsupported kind of Return");
                self.return_exception(a, &error)
            },
        };
        self.forwards.remove(qid);
        match r {
            Ok(()) => Ok(Event::Nothing),
            Err(e) => Err(e),
        }
    }

    /// Handles a `Return` for one of our questions: results fulfil the
    /// question and the promises pipelined on it; an exception rejects them.
    pub fn handle_return(&mut self, ret: Return) -> (r: Result<Event, RpcError>)
        requires
            old(self).wf(),
        ensures
            final(self).wf(),
            final(self).brand == old(self).brand,
            !old(self).forwards@.contains_key(ret.answer_id) ==> final(self).answers == old(self).answers,
            final(self).error == old(self).error,
            !(old(self).questions.is_live(ret.answer_id) && old(self).questions.entry(ret.answer_id).is_awaiting_return)
                ==> (r matches Err(e) && e.kind == ErrorKind::Failed && *final(self) == *old(self)),
            r matches Ok(Event::Returned { question_id, response }) ==> {
                &&& question_id == ret.answer_id
                &&& ret.body matches ReturnBody::Results(payload) && response.content == payload.content
                    && response.caps@.len() == payload.cap_table@.len()
                    && forall|i: int| 0 <= i < payload.cap_table@.len() ==> old(self).decodes_to(
                        #[trigger] payload.cap_table@[i]@,
                        opt_view(response.caps@[i]),
                    )
                &&& forall|pid: u32| #[trigger]
                    old(self).waits_on(pid, question_id) ==> {
                        &&& final(self).promises.is_live(pid)
                        &&& final(self).promises.entry(pid).is_resolved
                        &&& final(self).promises.entry(pid).cap@ == response_cap(
                            response.content,
                            response.caps@,
                            old(self).promises.entry(pid).cap@->Pipeline_2,
                        )
                    }
            },
            r matches Ok(Event::Rejected { question_id, error }) ==> {
                &&& question_id == ret.answer_id
                &&& match ret.body {
                    ReturnBody::Exception(e) => error.kind == remote_kind(e) && error.reason@ == remote_reason(e),
                    ReturnBody::Results(_) => false,
                    _ => error.kind == ErrorKind::Unimplemented,
                }
                &&& forall|pid: u32| #[trigger]
                    old(self).waits_on(pid, question_id) ==> {
                        &&& final(self).promises.is_live(pid)
                        &&& final(self).promises.entry(pid).is_resolved
                        &&& final(self).promises.entry(pid).cap@ == CapView::Broken(error.kind, error.reason@)
                    }
            },
            r matches Ok(ev) ==> (ev is Returned || ev is Rejected) || (ev is Nothing && old(self).forwards@.contains_key(
                ret.answer_id,
            )),
            old(self).forwards@.contains_key(ret.answer_id) && r is Ok ==> {
                &&& r matches Ok(Event::Nothing)
                &&& !final(self).forwards@.contains_key(ret.answer_id)
            },
            r is Ok && !old(self).forwards@.contains_key(ret.answer_id) && old(self).questions.entry(ret.answer_id).has_ref ==> {
                &&& final(self).questions.is_live(ret.answer_id)
                &&& !final(self).questions.entry(ret.answer_id).is_awaiting_return
                &&& final(self).questions.entry(ret.answer_id).has_ref
            },
            r is Ok && !old(self).forwards@.contains_key(ret.answer_id) && !old(self).questions.entry(ret.answer_id).has_ref ==> final(self).questions.slots@ == old(
                self,
            ).questions.slots@.update(ret.answer_id as int, None),
            !old(self).forwards@.contains_key(ret.answer_id) && old(self).questions.is_live(ret.answer_id) && old(self).questions.entry(ret.answer_id).is_awaiting_return
                && !(ret.body is Results) ==> r matches Ok(Event::Rejected { .. }),
            !old(self).forwards@.contains_key(ret.answer_id) && old(self).questions.is_live(ret.answer_id) && old(self).questions.entry(ret.answer_id).is_awaiting_return
                && (ret.body matches ReturnBody::Results(payload) && (forall|i: int| 0 <= i < payload.cap_table@.len()
                ==> old(self).receivable(#[trigger] payload.cap_table@[i]@)) && old(self).receive_room(
                payload.cap_table@.len(),
            ) && old(self).embargoes.slots@.len() + old(self).promises.slots@.len() + payload.cap_table@.len()
                < u32::MAX) ==> r matches Ok(Event::Returned { .. }),
    {
        let qid = ret.answer_id;
        match self.questions.get(qid) {
            Some(q) => {
                if !q.is_awaiting_return {
                    return Err(RpcError::failed("Return for a question that already returned"));
                }
            },
            None => return Err(RpcError::failed("Return for a question that does not exist")),
        }
        match self.forwards.get(qid) {
            Some(a) => {
                let a = *a;
                return self.return_forwarded(qid, a, ret);
            },
            None => {},
        }
        match ret.body {
            ReturnBody::Results(payload) => {
                let caps = match self.receive_caps(&payload.cap_table) {
                    Ok(caps) => caps,
                    Err(e) => return Err(e),
                };
                let ghost received = *self;
                self.mark_returned(qid);
                let response = Response { content: payload.content, caps };
                let ghost marked = *self;
                match self.settle_question_promises(qid, Ok(&response)) {
                    Ok(()) => {},
                    Err(e) => return Err(e),
                }
                proof {
                    assert forall|pid: u32| #[trigger] old(self).waits_on(pid, qid) implies marked.waits_on(pid, qid) by {
                        assert(received.promises.is_live(pid));
                    }
                }
                Ok(Event::Returned { question_id: qid, response })
            },
            ReturnBody::Exception(e) => {
                let error = remote_exception_to_error(&e);
                self.mark_returned(qid);
                match self.settle_question_promises(qid, Err(&error)) {
                    Ok(()) => {},
                    Err(e) => return Err(e),
                }
                Ok(Event::Rejected { question_id: qid, error })
            },
            _ => {
                let error = RpcError::unimplemented("unsupported kind of Return");
                self.mark_returned(qid);
                match self.settle_question_promises(qid, Err(&error)) {
                    Ok(()) => {},
                    Err(e) => return Err(e),
                }
                Ok(Event::Rejected { question_id: qid, error })
            },
        }
    }
}

/// The exception that carries a local error to the peer.
pub fn to_exception(error: &RpcError) -> (r: Exception)
    ensures
        r.kind == Some(error.kind),
        r.reason matches Some(reason) && reason@ == error.reason@,
{
    Exception { kind: Some(error.kind), reason: Some(error.reason.clone()) }
}

impl ConnectionState {
    /// The capability that a message target names on our side.
    pub open spec fn target_cap(&self, t: crate::wire::TargetView) -> Result<CapView, ErrorKind> {
        match t {
            crate::wire::TargetView::ImportedCap(id) => if self.exports.is_live(id) {
                match self.exports.entry(id).client@ {
                    CapView::AnswerPipeline(a, ops) => Ok(self.answer_target(a, ops)),
                    c => Ok(c),
                }
            } else {
                Err(ErrorKind::Failed)
            },
            crate::wire::TargetView::PromisedAnswer(q, ops) => match self.answer_cap(q, ops) {
                Ok(Some(c)) => Ok(c),
                Ok(None) => Ok(CapView::Broken(ErrorKind::Failed, "null capability"@)),
                Err(k) => Err(k),
            },
        }
    }

    /// What an exported promise for our answer `a` stands for now: the
    /// capability at `ops` in its results once they are in.
    pub open spec fn answer_target(&self, a: u32, ops: Seq<PipelineOp>) -> CapView {
        if self.answers@.contains_key(a) {
            match self.answers@[a].results {
                Some(res) => response_cap(res.content, res.caps@, ops),
                None => if self.answers@[a].return_sent {
                    CapView::Broken(ErrorKind::Failed, "the answer failed"@)
                } else {
                    CapView::AnswerPipeline(a, ops)
                },
            }
        } else {
            CapView::Broken(ErrorKind::Failed, "the answer is gone"@)
        }
    }

    fn answer_target_cap(&self, a: u32, ops: &Vec<PipelineOp>) -> (r: Client)
        ensures
            r@ == self.answer_target(a, ops@),
    {
        match self.answers.get(a) {
            Some(ans) => match &ans.results {
                Some(res) => cap_at(&res.content, &res.caps, ops),
                None => {
                    if ans.return_sent {
                        Client::Broken(RpcError::failed("the answer failed"))
                    } else {
                        Client::AnswerPipeline { answer_id: a, ops: crate::wire::copy_ops(ops) }
                    }
                },
            },
            None => Client::Broken(RpcError::failed("the answer is gone")),
        }
    }

    /// Looks up the capability that a message target names on our side.
    pub fn message_target(&self, t: &MessageTarget) -> (r: Result<Client, RpcError>)
        ensures
            match r {
                Ok(c) => self.target_cap(t@) == Ok::<CapView, ErrorKind>(c@),
                Err(e) => self.target_cap(t@) == Err::<CapView, ErrorKind>(e.kind),
            },
    {
        match t {
            MessageTarget::ImportedCap(id) => match self.exports.get(*id) {
                Some(e) => match &e.client {
                    Client::AnswerPipeline { answer_id, ops } => Ok(self.answer_target_cap(*answer_id, ops)),
                    c => Ok(c.duplicate()),
                },
                None => Err(RpcError::failed("target names an export that does not exist")),
            },
            MessageTarget::PromisedAnswer(pa) => match self.pipelined_answer_cap(pa) {
                Ok(Some(c)) => Ok(c),
                Ok(None) => Ok(Client::Broken(RpcError::failed("null capability"))),
                Err(e) => Err(e),
            },
        }
    }

    /// Handles `Finish` for one of our answers: the answer goes away once its
    /// return was sent, and the exports of its results are released when the
    /// peer asks for it.
    pub fn handle_finish(&mut self, qid: u32, release_result_caps: bool) -> (r: Result<(), RpcError>)
        requires
            old(self).wf(),
        ensures
            final(self).wf(),
            !old(self).answers@.contains_key(qid) ==> (r matches Err(e) && e.kind == ErrorKind::Failed && *final(self)
                == *old(self)),
            r is Ok ==> {
                &&& old(self).answers@.contains_key(qid)
                &&& final(self).answers@.contains_key(qid) <==> !old(self).answers@[qid].return_sent
                &&& final(self).answers@.contains_key(qid) ==> !final(self).answers@[qid].active
                &&& forall|a: u32| a != qid ==> final(self).answers@.contains_key(a) == old(self).answers@.contains_key(a)
            },
            !release_result_caps ==> old(self).exports_unchanged(final(self)),
            final(self).brand == old(self).brand,
            old(self).answers@.contains_key(qid) && (release_result_caps ==> old(self).releasable(
                old(self).answers@[qid].result_exports@,
            )) ==> r is Ok,
            r is Ok && release_result_caps ==> old(self).released_each(final(self), old(self).answers@[qid].result_exports@),
            r is Ok && release_result_caps ==> forall|id: u32| #[trigger] old(self).answers@[qid].result_exports@.contains(id)
                ==> old(self).exports.is_live(id),
    {
        match self.answers.get(qid) {
            Some(_) => {},
            None => return Err(RpcError::failed("Finish for an answer that does not exist")),
        }
        let a = self.answers.remove(qid).unwrap();
        if release_result_caps {
            let mut i: usize = 0;
            while i < a.result_exports.len()
                invariant
                    self.wf(),
                    self.answers@ == old(self).answers@.remove(qid),
                    self.brand == old(self).brand,
                    old(self).answers@.contains_key(qid),
                    a == old(self).answers@[qid],
                    release_result_caps,
                    i <= a.result_exports@.len(),
                    old(self).releasable(a.result_exports@) ==> forall|k: int| i <= k < a.result_exports@.len()
                        ==> self.exports.is_live(#[trigger] a.result_exports@[k]) && self.exports.entry(
                        a.result_exports@[k],
                    ).ref_count >= a.result_exports@.len() - i,
                    old(self).released_each(self, a.result_exports@.take(i as int)),
                    forall|id: u32| #[trigger] self.exports.is_live(id) ==> old(self).exports.is_live(id),
                    forall|k: int| 0 <= k < i ==> old(self).exports.is_live(#[trigger] a.result_exports@[k]),
                decreases a.result_exports@.len() - i,
            {
                let ghost before = *self;
                let id = a.result_exports[i];
                match self.release_export(id, 1) {
                    Ok(()) => {},
                    Err(e) => return Err(e),
                }
                proof {
                    lemma_released_step(old(self), &before, self, a.result_exports@, i as int);
                    assert(old(self).exports.is_live(id));
                }
                proof {
                    if old(self).releasable(a.result_exports@) {
                        assert forall|k: int| i + 1 <= k < a.result_exports@.len() implies self.exports.is_live(
                            #[trigger] a.result_exports@[k],
                        ) && self.exports.entry(a.result_exports@[k]).ref_count >= a.result_exports@.len() - (i + 1) by {
                            let j = a.result_exports@[k];
                            assert(before.exports.is_live(j));
                            if j != id {
                                assert(self.exports.slots@[j as int] == before.exports.slots@[j as int]);
                            }
                        }
                    }
                }
                i = i + 1;
            }
        }
        if !a.return_sent {
            self.answers.insert(qid, Answer { active: false, return_sent: false, results: None, result_exports: Vec::new() });
        }
        proof {
            if release_result_caps {
                assert(a.result_exports@.take(a.result_exports@.len() as int) == a.result_exports@);
                assert forall|id: u32| #[trigger] a.result_exports@.contains(id) implies old(self).exports.is_live(id) by {
                    let k = choose|k: int| 0 <= k < a.result_exports@.len() && a.result_exports@[k] == id;
                    assert(old(self).exports.is_live(a.result_exports@[k]));
                }
            }
        }
        Ok(())
    }

    /// The promise `pid` now waits for the echo of an embargo, and the
    /// `Disembargo` that it sent is the last message queued.
    pub open spec fn embargo_sent(&self, next: &ConnectionState, pid: u32) -> bool {
        &&& next.outbox@.len() == self.outbox@.len() + 1
        &&& next.outbox@.drop_last() == self.outbox@
        &&& exists|e: u32| #[trigger] next.promises.entry(pid).embargo == Some(e) && (next.outbox@.last() matches Message::Disembargo {
            context,
            ..
        } && context == DisembargoContext::SenderLoopback(e))
    }

    /// The exports after one reference to each export listed in `xs` was
    /// released: each count dropped by the number of times its id is listed,
    /// and an export whose count reached zero is gone, with its index entry.
    pub open spec fn released_each(&self, next: &ConnectionState, xs: Seq<u32>) -> bool {
        forall|id: u32| #[trigger] self.exports.is_live(id) ==> {
            let m = occurrences(xs, id);
            let e = self.exports.entry(id);
            &&& m <= e.ref_count
            &&& next.released@[id] == self.released@[id] + m
            &&& m < e.ref_count ==> next.exports.is_live(id) && next.exports.entry(id).ref_count == e.ref_count - m
                && next.exports.entry(id).client@ == e.client@
            &&& m == e.ref_count ==> !next.exports.is_live(id) && match e.client@ {
                CapView::Local(p) => !next.exports_by_cap@.contains_key(p),
                _ => true,
            }
        }
    }

    /// Whether releasing one reference to each listed export keeps every
    /// count positive until its last release.
    pub open spec fn releasable(&self, ids: Seq<u32>) -> bool {
        forall|k: int| 0 <= k < ids.len() ==> self.exports.is_live(#[trigger] ids[k]) && self.exports.entry(ids[k]).ref_count
            >= ids.len()
    }

    /// Handles `Resolve` for a promise that the peer exported to us.
    pub fn handle_resolve(&mut self, import_id: u32, resolution: Resolution) -> (r: Result<(), RpcError>)
        requires
            old(self).wf(),
        ensures
            final(self).wf(),
            final(self).brand == old(self).brand,
            !old(self).imports@.contains_key(import_id) ==> (r is Ok && *final(self) == *old(self)),
            old(self).imports@.contains_key(import_id) && old(self).imports@[import_id].promise_id is None ==> (r matches Err(
                e,
            ) && e.kind == ErrorKind::Failed),
            r is Ok && old(self).has_import_promise(import_id) ==> {
                let pid = old(self).import_entry(import_id).promise_id->Some_0;
                &&& final(self).promises.is_live(pid)
                &&& final(self).promises.entry(pid).is_resolved
                &&& !old(self).promises.entry(pid).is_resolved ==> final(self).promises.entry(pid).cap@ == match resolution {
                    Resolution::Exception(e) => CapView::Broken(remote_kind(e), remote_reason(e)),
                    Resolution::Cap(d) => match old(self).received(d@) {
                        Ok(Some(c)) => c,
                        _ => CapView::Broken(ErrorKind::Failed, "promise resolved to a null capability"@),
                    },
                }
            },
            old(self).has_import_promise(import_id) && can_push(old(self).embargoes) && match resolution {
                Resolution::Exception(_) => true,
                Resolution::Cap(d) => old(self).received(d@) is Ok,
            } ==> r is Ok,
            forall|d: CapDescriptor, c: CapView|
                #![trigger old(self).received(d@), old(self).needs_embargo(old(self).imports@[import_id].promise_id->Some_0, c)]
                r is Ok && old(self).has_import_promise(import_id) && resolution == Resolution::Cap(d)
                    && old(self).received(d@) == Ok::<Option<CapView>, ErrorKind>(Some(c))
                    && !old(self).promises.entry(old(self).imports@[import_id].promise_id->Some_0).is_resolved
                    && old(self).needs_embargo(old(self).imports@[import_id].promise_id->Some_0, c)
                    ==> old(self).embargo_sent(final(self), old(self).imports@[import_id].promise_id->Some_0),
    {
        let pid = match self.imports.get(import_id) {
            None => return Ok(()),
            Some(i) => match i.promise_id {
                None => return Err(RpcError::failed("Resolve for an import that is not a promise")),
                Some(pid) => pid,
            },
        };
        let ghost start = *self;
        let replacement = match &resolution {
            Resolution::Cap(d) => match self.receive_cap(d) {
                Ok(Some(c)) => c,
                Ok(None) => Client::Broken(RpcError::failed("promise resolved to a null capability")),
                Err(e) => return Err(e),
            },
            Resolution::Exception(e) => Client::Broken(remote_exception_to_error(e)),
        };
        match self.promises.get(pid) {
            Some(_) => {},
            None => {
                proof {
                    assert(!start.promises.is_live(pid));
                }
                return Ok(());
            },
        }
        proof {
            assert(start.promises.is_live(pid) ==> self.promises.slots@[pid as int] == start.promises.slots@[pid as int]);
        }
        let ghost before = *self;
        proof {
            assert(before.embargoes == start.embargoes);
            assert(before.outbox == start.outbox);
        }
        let r = self.resolve_promise(pid, replacement);
        proof {
            if r is Ok && start.promises.is_live(pid) {
                assert(before.promises.is_live(pid));
            }
        }
        r
    }

    /// Handles `Disembargo`. A loopback from the peer is reflected back to it
    /// through the capability it names; the reflection of our own loopback
    /// lifts the embargo it belongs to.
    pub fn handle_disembargo(&mut self, target: &MessageTarget, context: DisembargoContext) -> (r: Result<(), RpcError>)
        requires
            old(self).wf(),
        ensures
            final(self).wf(),
            final(self).brand == old(self).brand,
            match context {
                DisembargoContext::SenderLoopback(e) => match old(self).target_cap(target@) {
                    Err(k) => r matches Err(x) && x.kind == k,
                    Ok(c) => match old(self).routed(c) {
                        Ok(RouteView::Remote(t)) => {
                            &&& r is Ok
                            &&& final(self).outbox@.len() == old(self).outbox@.len() + 1
                            &&& final(self).outbox@.drop_last() == old(self).outbox@
                            &&& final(self).outbox@.last() matches Message::Disembargo { target: t2, context: c2 }
                                && t2@ == t && c2 == DisembargoContext::ReceiverLoopback(e)
                        },
                        _ => r is Err,
                    },
                },
                DisembargoContext::ReceiverLoopback(e) => {
                    &&& r is Ok <==> old(self).embargoes.is_live(e) && old(self).promises.is_live(
                        old(self).embargoes.entry(e).promise_id,
                    ) && old(self).promises.entry(old(self).embargoes.entry(e).promise_id).embargo == Some(e)
                    &&& r is Ok ==> final(self).promises.is_live(old(self).embargoes.entry(e).promise_id)
                        && final(self).promises.entry(old(self).embargoes.entry(e).promise_id).embargo is None
                        && final(self).promises.entry(old(self).embargoes.entry(e).promise_id).cap@ == old(self).promises.entry(
                        old(self).embargoes.entry(e).promise_id,
                    ).cap@ && final(self).embargoes.slots@ == old(self).embargoes.slots@.update(e as int, None)
                },
                _ => r matches Err(x) && x.kind == ErrorKind::Unimplemented && *final(self) == *old(self),
            },
    {
        match context {
            DisembargoContext::SenderLoopback(e) => {
                let cap = match self.message_target(target) {
                    Ok(c) => c,
                    Err(x) => return Err(x),
                };
                match self.write_target(&cap) {
                    Ok(Route::Remote(t)) => {
                        self.outbox.push(Message::Disembargo { target: t, context: DisembargoContext::ReceiverLoopback(e) });
                        proof {
                            assert(self.outbox@.drop_last() == old(self).outbox@);
                        }
                        Ok(())
                    },
                    Ok(_) => Err(RpcError::failed("Disembargo target does not point back to the sender")),
                    Err(x) => Err(x),
                }
            },
            DisembargoContext::ReceiverLoopback(e) => self.lift_embargo(e),
            _ => Err(RpcError::unimplemented("three-party handoff")),
        }
    }

    /// Sends the results of answer `answer_id`: writes their capability
    /// table, queues the `Return`, and keeps the results for calls that the
    /// peer pipelines on them.
    pub fn return_results(&mut self, answer_id: u32, content: Pointer, caps: Vec<Option<Client>>) -> (r: Result<
        (),
        RpcError,
    >)
        requires
            old(self).wf(),
        ensures
            final(self).wf(),
            final(self).error == old(self).error,
            final(self).brand == old(self).brand,
            !(old(self).answers@.contains_key(answer_id) && !old(self).answers@[answer_id].return_sent) ==> (r matches Err(
                e,
            ) && e.kind == ErrorKind::Failed && *final(self) == *old(self)),
            r is Ok ==> {
                &&& final(self).outbox@.len() >= old(self).outbox@.len() + 1
                &&& final(self).outbox@.subrange(0, old(self).outbox@.len() as int) == old(self).outbox@
                &&& forall|j: u32| #[trigger] old(self).exports_answer(j, answer_id) ==> final(self).resolve_queued(
                    old(self).outbox@.len() as int,
                    j,
                )
                &&& final(self).outbox@.last() matches Message::Return(ret) && {
                    &&& ret.answer_id == answer_id
                    &&& ret.body matches ReturnBody::Results(payload) && {
                        &&& payload.content == content
                        &&& payload.cap_table@.len() == caps@.len()
                        &&& forall|i: int| 0 <= i < caps@.len() ==> old(self).desc_for(
                            final(self),
                            opt_view(#[trigger] caps@[i]),
                            payload.cap_table@[i]@,
                        )
                    }
                }
                &&& old(self).answers@[answer_id].active ==> {
                    &&& final(self).answers@.contains_key(answer_id)
                    &&& final(self).answers@[answer_id].return_sent
                    &&& final(self).answers@[answer_id].active
                    &&& final(self).answers@[answer_id].results matches Some(res) && crate::wire::same_paths(
                        res.content,
                        content,
                    ) && res.caps == caps
                }
                &&& !old(self).answers@[answer_id].active ==> !final(self).answers@.contains_key(answer_id)
                &&& forall|a: u32| a != answer_id ==> final(self).answers@.contains_key(a) == old(self).answers@.contains_key(a)
                    && final(self).answers@[a] == old(self).answers@[a]
                &&& forall|pid: u32| #[trigger] old(self).waits_on_answer(pid, answer_id) ==> {
                    &&& final(self).promises.is_live(pid)
                    &&& final(self).promises.entry(pid).is_resolved
                    &&& final(self).promises.entry(pid).cap@ == response_cap(
                        content,
                        caps@,
                        old(self).promises.entry(pid).cap@->AnswerPipeline_1,
                    )
                }
            },
            old(self).answers@.contains_key(answer_id) && !old(self).answers@[answer_id].return_sent
                && (forall|i: int| 0 <= i < caps@.len() ==> old(self).encodable(#[trigger] caps@[i]))
                && old(self).export_room(caps@.len()) ==> r is Ok,
    {
        let active = match self.answers.get(answer_id) {
            Some(a) => {
                if a.return_sent {
                    return Err(RpcError::failed("the answer was already returned"));
                }
                a.active
            },
            None => return Err(RpcError::failed("return for an answer that does not exist")),
        };
        let (descs, exports) = match self.write_descriptors(&caps) {
            Ok(x) => x,
            Err(e) => return Err(e),
        };
        let ghost wrote = *self;
        self.settle_answer_promises(answer_id, Ok((&content, &caps)));
        proof {
            assert forall|pid: u32| #[trigger] old(self).waits_on_answer(pid, answer_id) implies wrote.waits_on_answer(pid, answer_id) by {
                assert(wrote.promises.is_live(pid));
            }
        }
        let ghost settled = *self;
        self.resolve_answer_exports(answer_id, Ok((&content, &caps)));
        let ghost resolved = *self;
        let stored = content.duplicate();
        self.answers.remove(answer_id);
        if active {
            self.answers.insert(answer_id, Answer {
                active: true,
                return_sent: true,
                results: Some(ResultsDone { content: stored, caps }),
                result_exports: exports,
            });
        }
        let ret = Return {
            answer_id,
            release_param_caps: false,
            body: ReturnBody::Results(Payload { content, cap_table: descs }),
        };
        self.outbox.push(Message::Return(ret));
        proof {
            let n0 = old(self).outbox@.len() as int;
            assert(self.outbox@.subrange(0, n0) == resolved.outbox@.subrange(0, n0));
            crate::codec::lemma_grow_same(&wrote, &settled);
            crate::codec::lemma_grow_trans(&wrote, &settled, &resolved);
            crate::codec::lemma_grow_same(&resolved, self);
            crate::codec::lemma_grow_trans(&wrote, &resolved, self);
            assert forall|i: int| 0 <= i < caps@.len() implies old(self).desc_for(
                self,
                opt_view(#[trigger] caps@[i]),
                descs@[i]@,
            ) by {
                crate::codec::lemma_desc_for_grown(old(self), &wrote, self, opt_view(caps@[i]), descs@[i]@);
            }
            reveal(ConnectionState::exports_grow);
            assert forall|j: u32| #[trigger] old(self).exports_answer(j, answer_id) implies self.resolve_queued(n0, j) by {
                assert(wrote.exports.is_live(j));
                assert(settled.exports_answer(j, answer_id));
                assert(resolved.resolve_queued(n0, j));
                let k = choose|k: int| n0 <= k < resolved.outbox@.len() && (#[trigger] resolved.outbox@[k] matches Message::Resolve {
                    promise_id,
                    ..
                } && promise_id == j);
                assert(self.outbox@[k] == resolved.outbox@[k]);
            }
            assert forall|pid: u32| #[trigger] old(self).waits_on_answer(pid, answer_id) implies {
                &&& self.promises.is_live(pid)
                &&& self.promises.entry(pid).is_resolved
                &&& self.promises.entry(pid).cap@ == response_cap(
                    content,
                    caps@,
                    old(self).promises.entry(pid).cap@->AnswerPipeline_1,
                )
            } by {
                assert(settled.promises.is_live(pid));
            }
        }        Ok(())
    }

    /// Sends an exception as the return of answer `answer_id`.
    pub fn return_exception(&mut self, answer_id: u32, error: &RpcError) -> (r: Result<(), RpcError>)
        requires
            old(self).wf(),
        ensures
            final(self).wf(),
            final(self).error == old(self).error,
            final(self).brand == old(self).brand,
            old(self).exports_unchanged(final(self)),
            r is Ok <==> old(self).answers@.contains_key(answer_id) && !old(self).answers@[answer_id].return_sent,
            r is Err ==> *final(self) == *old(self),
            r is Ok ==> {
                &&& final(self).outbox@.len() >= old(self).outbox@.len() + 1
                &&& final(self).outbox@.subrange(0, old(self).outbox@.len() as int) == old(self).outbox@
                &&& forall|j: u32| #[trigger] old(self).exports_answer(j, answer_id) ==> final(self).resolve_queued(
                    old(self).outbox@.len() as int,
                    j,
                )
                &&& final(self).outbox@.last() matches Message::Return(ret) && ret.answer_id == answer_id
                    && (ret.body matches ReturnBody::Exception(e) && e.kind == Some(error.kind))
                &&& old(self).answers@[answer_id].active ==> final(self).answers@.contains_key(answer_id)
                    && final(self).answers@[answer_id].return_sent
                &&& !old(self).answers@[answer_id].active ==> !final(self).answers@.contains_key(answer_id)
                &&& forall|pid: u32| #[trigger] old(self).waits_on_answer(pid, answer_id) ==> {
                    &&& final(self).promises.is_live(pid)
                    &&& final(self).promises.entry(pid).is_resolved
                    &&& final(self).promises.entry(pid).cap@ == CapView::Broken(error.kind, error.reason@)
                }
            },
    {
        let active = match self.answers.get(answer_id) {
            Some(a) => {
                if a.return_sent {
                    return Err(RpcError::failed("the answer was already returned"));
                }
                a.active
            },
            None => return Err(RpcError::failed("return for an answer that does not exist")),
        };
        self.settle_answer_promises(answer_id, Err(error));
        let ghost settled = *self;
        self.resolve_answer_exports(answer_id, Err(error));
        let ghost resolved = *self;
        self.answers.remove(answer_id);
        if active {
            self.answers.insert(answer_id, Answer {
                active: true,
                return_sent: true,
                results: None,
                result_exports: Vec::new(),
            });
        }
        let ret = Return { answer_id, release_param_caps: false, body: ReturnBody::Exception(to_exception(error)) };
        self.outbox.push(Message::Return(ret));
        proof {
            let n0 = old(self).outbox@.len() as int;
            assert(self.outbox@.subrange(0, n0) == resolved.outbox@.subrange(0, n0));
            assert forall|j: u32| #[trigger] old(self).exports_answer(j, answer_id) implies self.resolve_queued(n0, j) by {
                assert(settled.exports_answer(j, answer_id));
                assert(resolved.resolve_queued(n0, j));
                let k = choose|k: int| n0 <= k < resolved.outbox@.len() && (#[trigger] resolved.outbox@[k] matches Message::Resolve {
                    promise_id,
                    ..
                } && promise_id == j);
                assert(self.outbox@[k] == resolved.outbox@[k]);
            }
        }
        Ok(())
    }

    /// The `Return` that answers a `Bootstrap`: the bootstrap interface,
    /// exported, or an `Unimplemented` exception when there is none.
    pub open spec fn bootstrap_returned(&self, next: &ConnectionState, qid: u32) -> bool {
        match self.bootstrap_interface {
            Some(l) => (next.outbox@.last() matches Message::Return(ret) && ret.answer_id == qid
                && (ret.body matches ReturnBody::Results(payload) && payload.content == Pointer::Capability(0)
                && payload.cap_table@.len() == 1
                && payload.cap_table@[0]@ == crate::wire::DescView::SenderHosted(next.exports_by_cap@[l.server])))
                && next.exports_by_cap@.contains_key(l.server),
            None => next.outbox@.last() matches Message::Return(ret) && ret.answer_id == qid
                && (ret.body matches ReturnBody::Exception(e) && e.kind == Some(ErrorKind::Unimplemented)),
        }
    }

    /// Handles `Bootstrap`: answers with the bootstrap interface, or with an
    /// `Unimplemented` exception when there is none.
    pub fn handle_bootstrap(&mut self, question_id: u32) -> (r: Result<(), RpcError>)
        requires
            old(self).wf(),
        ensures
            final(self).wf(),
            final(self).brand == old(self).brand,
            old(self).answers@.contains_key(question_id) ==> (r matches Err(e) && e.kind == ErrorKind::Failed),
            !old(self).answers@.contains_key(question_id) && old(self).export_room(1) ==> r is Ok,
            old(self).bootstrap_interface is None && !old(self).answers@.contains_key(question_id) ==> r is Ok,
            r is Ok ==> old(self).bootstrap_returned(final(self), question_id),
    {
        match self.answers.get(question_id) {
            Some(_) => return Err(RpcError::failed("Bootstrap reuses a question id")),
            None => {},
        }
        self.answers.insert(question_id, Answer { active: true, return_sent: false, results: None, result_exports: Vec::new() });
        match self.bootstrap_interface {
            Some(l) => {
                let mut caps: Vec<Option<Client>> = Vec::new();
                caps.push(Some(Client::Local(l)));
                let ghost before = *self;
                let ghost cv = caps@;
                proof {
                    assert(opt_view(cv[0]) == Some(CapView::Local(l.server)));
                    assert(before.settle(CapView::Local(l.server), before.walk_fuel()) == Some(CapView::Local(l.server)));
                }
                let r = self.return_results(question_id, Pointer::Capability(0), caps);
                proof {
                    if r is Ok {
                        let m = self.outbox@.last();
                        let payload = m->Return_0.body->Results_0;
                        assert(before.desc_for(self, opt_view(cv[0]), payload.cap_table@[0]@));
                    }
                }
                r
            },
            None => {
                let e = RpcError::unimplemented("no bootstrap interface");
                self.return_exception(question_id, &e)
            },
        }
    }

    /// Hands a call of the peer on a local server to the application, with
    /// its parameters' capabilities decoded.
    fn deliver_call(&mut self, qid: u32, server: LocalClient, call: Call) -> (r: Result<Event, RpcError>)
        requires
            old(self).wf(),
            !old(self).answers@.contains_key(qid),
        ensures
            final(self).wf(),
            final(self).brand == old(self).brand,
            r is Ok ==> (r matches Ok(Event::Deliver { answer_id, server: s2, interface_id, method_id, params }) && {
                &&& answer_id == qid
                &&& s2 == server
                &&& interface_id == call.interface_id
                &&& method_id == call.method_id
                &&& params.content == call.params.content
                &&& params.caps@.len() == call.params.cap_table@.len()
                &&& forall|i: int| 0 <= i < call.params.cap_table@.len() ==> old(self).decodes_to(
                    #[trigger] call.params.cap_table@[i]@,
                    opt_view(params.caps@[i]),
                )
                &&& final(self).answers@.contains_key(answer_id)
                &&& final(self).answers@[answer_id].active
                &&& !final(self).answers@[answer_id].return_sent
            }),
            (forall|i: int| 0 <= i < call.params.cap_table@.len() ==> old(self).receivable(
                #[trigger] call.params.cap_table@[i]@,
            )) && old(self).receive_room(call.params.cap_table@.len()) ==> r is Ok,
    {
        let caps = match self.receive_caps(&call.params.cap_table) {
            Ok(caps) => caps,
            Err(e) => return Err(e),
        };
        self.answers.insert(qid, Answer { active: true, return_sent: false, results: None, result_exports: Vec::new() });
        let Call { question_id: _, target: _, interface_id, method_id, params, send_results_to: _ } = call;
        Ok(Event::Deliver { answer_id: qid, server, interface_id, method_id, params: Params { content: params.content, caps } })
    }

    /// Passes a call of the peer on a capability that the peer hosts back to
    /// it; the return of the new question completes answer `qid`.
    #[verifier::rlimit(100)]
    fn forward_call(&mut self, qid: u32, cap: Client, call: Call) -> (r: Result<Event, RpcError>)
        requires
            old(self).wf(),
            !old(self).answers@.contains_key(qid),
        ensures
            final(self).wf(),
            final(self).brand == old(self).brand,
            r is Ok ==> {
                &&& r matches Ok(Event::Nothing)
                &&& exists|q: u32| #[trigger] final(self).forwards@.contains_key(q) && final(self).forwards@[q] == qid
                &&& final(self).answers@.contains_key(qid)
            },
    {
        let caps = match self.receive_caps(&call.params.cap_table) {
            Ok(caps) => caps,
            Err(e) => return Err(e),
        };
        self.answers.insert(qid, Answer { active: true, return_sent: false, results: None, result_exports: Vec::new() });
        let Call { question_id: _, target: _, interface_id, method_id, params, send_results_to: _ } = call;
        let req = Request { target: cap, interface_id, method_id, content: params.content, cap_table: caps, is_tail_call: false };
        let ghost before = *self;
        match self.send_request(req) {
            Ok(SendOutcome::Sent(q)) => {
                self.forwards.insert(q, qid);
                proof {
                    assert(self.forwards@.contains_key(q) && self.forwards@[q] == qid);
                    assert(before.answers@.contains_key(qid));
                }
                Ok(Event::Nothing)
            },
            Ok(_) => Err(RpcError::failed("the target moved while the call was forwarded")),
            Err(e) => Err(e),
        }
    }

    /// Handles a `Call` from the peer: a call on a local server is handed to
    /// the application, a call on a broken capability is answered with its
    /// error, a call on a capability hosted by the peer is passed back to it
    /// and its return completes our answer, and a call on something that is
    /// not ready yet (an answer still pending, an embargoed promise) is handed
    /// back to be handled again later.
    #[verifier::rlimit(80)]
    pub fn handle_call(&mut self, call: Call) -> (r: Result<Event, RpcError>)
        requires
            old(self).wf(),
        ensures
            final(self).wf(),
            final(self).brand == old(self).brand,
            call.send_results_to != SendResultsTo::Caller ==> (r matches Err(e) && e.kind == ErrorKind::Unimplemented
                && *final(self) == *old(self)),
            call.send_results_to == SendResultsTo::Caller && old(self).answers@.contains_key(call.question_id) ==> (r matches Err(
                e,
            ) && e.kind == ErrorKind::Failed && *final(self) == *old(self)),
            r matches Ok(Event::Deferred(c)) ==> {
                &&& c == call
                &&& old(self).same_tables(final(self))
                &&& old(self).exports_unchanged(final(self))
                &&& (call.target@ matches crate::wire::TargetView::PromisedAnswer(q, _) && old(self).answer_pending(q))
                    || (old(self).target_cap(call.target@) matches Ok(c) && (c is AnswerPipeline || old(self).routed(c) matches Ok(
                    RouteView::Embargoed(_),
                )))
            },
            call.send_results_to == SendResultsTo::Caller && !old(self).answers@.contains_key(call.question_id)
                && (call.target@ matches crate::wire::TargetView::PromisedAnswer(q, _) && old(self).answer_pending(q))
                ==> *final(self) == *old(self),
            call.send_results_to == SendResultsTo::Caller && !old(self).answers@.contains_key(call.question_id)
                && (old(self).target_cap(call.target@) matches Ok(c) && old(self).routed(c) matches Ok(RouteView::Embargoed(_)))
                ==> r matches Ok(Event::Deferred(_)),
            call.send_results_to == SendResultsTo::Caller && !old(self).answers@.contains_key(call.question_id)
                && (old(self).target_cap(call.target@) matches Ok(c) && old(self).routed(c) matches Ok(RouteView::Remote(_)))
                && r is Ok ==> {
                &&& r matches Ok(Event::Nothing)
                &&& exists|q: u32| #[trigger] final(self).forwards@.contains_key(q) && final(self).forwards@[q] == call.question_id
                &&& final(self).answers@.contains_key(call.question_id)
            },
            r matches Ok(Event::Deliver { answer_id, server, interface_id, method_id, params }) ==> {
                &&& answer_id == call.question_id
                &&& interface_id == call.interface_id
                &&& method_id == call.method_id
                &&& old(self).target_cap(call.target@) matches Ok(c) && old(self).routed(c) == Ok::<
                    RouteView,
                    ErrorKind,
                >(RouteView::Redirect(CapView::Local(server.server)))
                &&& params.content == call.params.content
                &&& params.caps@.len() == call.params.cap_table@.len()
                &&& forall|i: int| 0 <= i < call.params.cap_table@.len() ==> old(self).decodes_to(
                    #[trigger] call.params.cap_table@[i]@,
                    opt_view(params.caps@[i]),
                )
                &&& final(self).answers@.contains_key(answer_id)
                &&& final(self).answers@[answer_id].active
                &&& !final(self).answers@[answer_id].return_sent
            },
            r matches Ok(ev) ==> (ev is Deliver || ev is Deferred || ev is Nothing),
            call.send_results_to == SendResultsTo::Caller && !old(self).answers@.contains_key(call.question_id)
                && (call.target@ matches crate::wire::TargetView::PromisedAnswer(q, _) && old(self).answer_pending(q))
                ==> r matches Ok(Event::Deferred(_)),
            call.send_results_to == SendResultsTo::Caller && !old(self).answers@.contains_key(call.question_id)
                && (old(self).target_cap(call.target@) matches Ok(c) && old(self).routed(c) matches Ok(
                RouteView::Redirect(CapView::Local(_)),
            )) && (forall|i: int| 0 <= i < call.params.cap_table@.len() ==> old(self).receivable(
                #[trigger] call.params.cap_table@[i]@,
            )) && old(self).receive_room(call.params.cap_table@.len()) ==> r matches Ok(Event::Deliver { .. }),
    {
        if call.send_results_to != SendResultsTo::Caller {
            return Err(RpcError::unimplemented("results sent elsewhere"));
        }
        match self.answers.get(call.question_id) {
            Some(_) => return Err(RpcError::failed("Call reuses a question id")),
            None => {},
        }
        let deferred = match &call.target {
            MessageTarget::PromisedAnswer(pa) => match self.answers.get(pa.question_id) {
                Some(a) => a.results.is_none() && !a.return_sent,
                None => false,
            },
            MessageTarget::ImportedCap(_) => false,
        };
        if deferred {
            return Ok(Event::Deferred(call));
        }
        let qid = call.question_id;
        let failed_answer = match &call.target {
            MessageTarget::PromisedAnswer(pa) => match self.answers.get(pa.question_id) {
                Some(a) => a.results.is_none() && a.return_sent,
                None => false,
            },
            MessageTarget::ImportedCap(_) => false,
        };
        if failed_answer {
            self.answers.insert(qid, Answer { active: true, return_sent: false, results: None, result_exports: Vec::new() });
            let e = RpcError::failed("the call was pipelined on an answer that failed");
            return match self.return_exception(qid, &e) {
                Ok(()) => Ok(Event::Nothing),
                Err(x) => Err(x),
            };
        }
        let cap = match self.message_target(&call.target) {
            Ok(c) => c,
            Err(e) => return Err(e),
        };
        match &cap {
            Client::AnswerPipeline { .. } => return Ok(Event::Deferred(call)),
            _ => {},
        }
        let route = match self.write_target(&cap) {
            Ok(route) => route,
            Err(e) => return Err(e),
        };
        match route {
            Route::Redirect(Client::Local(server)) => {
                let ghost routed = *self;
                proof {
                    assert(routed.promises.slots@.len() == old(self).promises.slots@.len());
                    assert(routed.imports == old(self).imports);
                    assert forall|i: int| 0 <= i < call.params.cap_table@.len() && old(self).receivable(
                        #[trigger] call.params.cap_table@[i]@,
                    ) implies routed.receivable(call.params.cap_table@[i]@) by {
                        assert(routed.exports == old(self).exports);
                        assert(routed.answers == old(self).answers);
                    }
                }
                let r = self.deliver_call(qid, server, call);
                proof {
                    if r is Ok {
                        let ev = r->Ok_0;
                        let params = ev->Deliver_params;
                        assert forall|i: int| 0 <= i < call.params.cap_table@.len() implies old(self).decodes_to(
                            #[trigger] call.params.cap_table@[i]@,
                            opt_view(params.caps@[i]),
                        ) by {
                            assert(routed.decodes_to(call.params.cap_table@[i]@, opt_view(params.caps@[i])));
                            assert(routed.exports == old(self).exports);
                        }
                    }
                }
                r
            },
            Route::Redirect(Client::Broken(e)) => {
                self.answers.insert(qid, Answer { active: true, return_sent: false, results: None, result_exports: Vec::new() });
                match self.return_exception(qid, &e) {
                    Ok(()) => Ok(Event::Nothing),
                    Err(x) => Err(x),
                }
            },
            Route::Embargoed(_) => Ok(Event::Deferred(call)),
            Route::Remote(_) => self.forward_call(qid, cap, call),
            _ => Err(RpcError::unimplemented("calls on a capability of another connection")),
        }
    }

    /// Marks the connection failed: every question still waiting for its
    /// return is rejected with `error`, and every unresolved promise breaks
    /// with it. A connection that already failed stays as it is.
    pub fn disconnect(&mut self, error: RpcError) -> (r: Vec<Event>)
        requires
            old(self).wf(),
        ensures
            final(self).wf(),
            old(self).error is Some ==> r@.len() == 0 && *final(self) == *old(self),
            old(self).error is None ==> {
                &&& final(self).error matches Some(e) && e.kind == error.kind && e.reason@ == error.reason@
                &&& forall|i: int| 0 <= i < r@.len() ==> (#[trigger] r@[i] matches Event::Rejected { question_id, error: e }
                    && e.kind == error.kind && e.reason@ == error.reason@ && old(self).questions.is_live(question_id)
                    && old(self).questions.entry(question_id).is_awaiting_return)
                &&& forall|q: u32| #[trigger] old(self).questions.is_live(q) && old(self).questions.entry(q).is_awaiting_return
                    ==> exists|i: int| 0 <= i < r@.len() && (#[trigger] r@[i] matches Event::Rejected { question_id, .. }
                    && question_id == q)
                &&& forall|pid: u32| #[trigger] old(self).promises.is_live(pid) && !old(self).promises.entry(pid).is_resolved
                    ==> final(self).promises.is_live(pid) && final(self).promises.entry(pid).is_resolved
                    && final(self).promises.entry(pid).cap@ == CapView::Broken(error.kind, error.reason@)
            },
    {
        let mut events: Vec<Event> = Vec::new();
        if self.error.is_some() {
            return events;
        }
        let n = self.questions.slots.len();
        let mut i: usize = 0;
        while i < n
            invariant
                self.wf(),
                self.error is None,
                self.brand == old(self).brand,
                self.promises == old(self).promises,
                n == old(self).questions.slots@.len(),
                self.questions.slots@.len() == n,
                i <= n,
                forall|q: u32| i <= (q as int) < n ==> #[trigger] self.questions.slots@[q as int] == old(self).questions.slots@[q as int],
                forall|k: int| 0 <= k < events@.len() ==> (#[trigger] events@[k] matches Event::Rejected { question_id, error: e }
                    && e.kind == error.kind && e.reason@ == error.reason@ && old(self).questions.is_live(question_id)
                    && old(self).questions.entry(question_id).is_awaiting_return),
                forall|q: u32| #[trigger] old(self).questions.is_live(q) && old(self).questions.entry(q).is_awaiting_return
                    && (q as int) < i ==> exists|k: int| 0 <= k < events@.len() && (#[trigger] events@[k] matches Event::Rejected { question_id, .. }
                    && question_id == q),
            decreases n - i,
        {
            let qid = i as u32;
            let awaiting = match self.questions.get(qid) {
                Some(q) => q.is_awaiting_return,
                None => false,
            };
            if awaiting {
                let ghost before = *self;
                let ghost ev0 = events@;
                self.mark_returned(qid);
                events.push(Event::Rejected { question_id: qid, error: error.duplicate() });
                proof {
                    assert(old(self).questions.slots@[qid as int] == before.questions.slots@[qid as int]);
                    assert forall|q: u32| i + 1 <= (q as int) < n implies #[trigger] self.questions.slots@[q as int]
                        == old(self).questions.slots@[q as int] by {
                        assert(before.questions.slots@[q as int] == old(self).questions.slots@[q as int]);
                    }
                    assert forall|q: u32| #[trigger] old(self).questions.is_live(q) && old(self).questions.entry(q).is_awaiting_return
                        && (q as int) < i + 1 implies exists|k: int| 0 <= k < events@.len() && (#[trigger] events@[k] matches Event::Rejected { question_id, .. }
                        && question_id == q) by {
                        if q == qid {
                            assert(events@[events@.len() - 1] matches Event::Rejected { question_id, .. } && question_id == q);
                        } else {
                            let k = choose|k: int| 0 <= k < ev0.len() && (#[trigger] ev0[k] matches Event::Rejected { question_id, .. }
                                && question_id == q);
                            assert(events@[k] == ev0[k]);
                            assert(events@[k] matches Event::Rejected { question_id, .. } && question_id == q);
                        }
                    }
                }
            } else {
                proof {
                    assert(old(self).questions.slots@[qid as int] == self.questions.slots@[qid as int]);
                }
            }
            i = i + 1;
        }
        let m = self.promises.slots.len();
        let mut j: usize = 0;
        while j < m
            invariant
                self.wf(),
                self.error is None,
                self.brand == old(self).brand,
                m == old(self).promises.slots@.len(),
                self.promises.slots@.len() == m,
                j <= m,
                forall|pid: u32| j <= (pid as int) < m ==> #[trigger] self.promises.slots@[pid as int] == old(self).promises.slots@[pid as int],
                forall|pid: u32| #[trigger] old(self).promises.is_live(pid) && !old(self).promises.entry(pid).is_resolved && (pid as int) < j
                    ==> self.promises.is_live(pid) && self.promises.entry(pid).is_resolved
                    && self.promises.entry(pid).cap@ == CapView::Broken(error.kind, error.reason@),
            decreases m - j,
        {
            let pid = j as u32;
            let pending = match self.promises.get(pid) {
                Some(p) => !p.is_resolved,
                None => false,
            };
            if pending {
                let ghost before = *self;
                let _ = self.resolve_promise(pid, Client::Broken(error.duplicate()));
                proof {
                    assert forall|q: u32| j + 1 <= (q as int) < m implies #[trigger] self.promises.slots@[q as int]
                        == old(self).promises.slots@[q as int] by {
                        assert(before.promises.slots@[q as int] == old(self).promises.slots@[q as int]);
                    }
                    assert forall|q: u32| #[trigger] old(self).promises.is_live(q) && !old(self).promises.entry(q).is_resolved && (q as int) < j + 1
                        implies self.promises.is_live(q) && self.promises.entry(q).is_resolved
                        && self.promises.entry(q).cap@ == CapView::Broken(error.kind, error.reason@) by {
                        if q != pid {
                            assert(self.promises.slots@[q as int] == before.promises.slots@[q as int]);
                        }
                    }
                }
            } else {
                proof {
                    assert(old(self).promises.slots@[pid as int] == self.promises.slots@[pid as int]);
                }
            }
            j = j + 1;
        }
        self.error = Some(error);
        events
    }

    /// Handles one message from the peer. An error means that the peer broke
    /// the protocol or aborted, and the connection is to be disconnected with it.
    pub fn handle_message(&mut self, msg: Message) -> (r: Result<Event, RpcError>)
        requires
            old(self).wf(),
        ensures
            final(self).wf(),
            final(self).brand == old(self).brand,
            old(self).error is Some ==> (r matches Err(e) && e.kind == ErrorKind::Disconnected && *final(self) == *old(self)),
            old(self).error is None ==> match msg {
                Message::Abort(e) => r matches Err(x) && x.kind == remote_kind(e) && x.reason@ == remote_reason(e)
                    && *final(self) == *old(self),
                Message::Release { id, reference_count } => {
                    let e = old(self).exports.entry(id);
                    &&& r is Ok <==> old(self).exports.is_live(id) && reference_count <= e.ref_count
                    &&& r is Err ==> *final(self) == *old(self)
                    &&& r is Ok ==> {
                        &&& r matches Ok(Event::Nothing)
                        &&& old(self).released_by(final(self), id, reference_count)
                        &&& reference_count == e.ref_count ==> final(self).exports.free_ids@.contains(id)
                    }
                },
                Message::Return(ret) => {
                    let q = ret.answer_id;
                    &&& !(old(self).questions.is_live(q) && old(self).questions.entry(q).is_awaiting_return) ==> r is Err
                    &&& r matches Ok(ev) ==> (ev matches Event::Returned { question_id, .. } && question_id == q)
                        || (ev matches Event::Rejected { question_id, .. } && question_id == q)
                        || (ev is Nothing && old(self).forwards@.contains_key(q))
                    &&& old(self).forwards@.contains_key(q) && r is Ok ==> !final(self).forwards@.contains_key(q)
                    &&& !old(self).forwards@.contains_key(q) && old(self).questions.is_live(q) && old(self).questions.entry(q).is_awaiting_return && !(ret.body is Results)
                        ==> (r matches Ok(Event::Rejected { error, .. }) && match ret.body {
                        ReturnBody::Exception(e) => error.kind == remote_kind(e) && error.reason@ == remote_reason(e),
                        _ => error.kind == ErrorKind::Unimplemented,
                    })
                    &&& !old(self).forwards@.contains_key(q) && old(self).questions.is_live(q) && old(self).questions.entry(q).is_awaiting_return
                        && (ret.body matches ReturnBody::Results(payload) && (forall|i: int| 0 <= i < payload.cap_table@.len()
                        ==> old(self).receivable(#[trigger] payload.cap_table@[i]@)) && old(self).receive_room(
                        payload.cap_table@.len(),
                    ) && old(self).embargoes.slots@.len() + old(self).promises.slots@.len() + payload.cap_table@.len()
                        < u32::MAX) ==> (r matches Ok(Event::Returned { .. }))
                    &&& forall|response: Response| r == Ok::<Event, RpcError>(Event::Returned { question_id: q, response })
                        ==> (ret.body matches ReturnBody::Results(payload)
                        && response.content == payload.content && response.caps@.len() == payload.cap_table@.len()
                        && forall|i: int| 0 <= i < payload.cap_table@.len() ==> old(self).decodes_to(
                        #[trigger] payload.cap_table@[i]@,
                        opt_view(response.caps@[i]),
                    ))
                    &&& r is Ok && !old(self).forwards@.contains_key(q) && old(self).questions.entry(q).has_ref ==> final(self).questions.is_live(q)
                        && !final(self).questions.entry(q).is_awaiting_return
                    &&& r is Ok && !old(self).forwards@.contains_key(q) && !old(self).questions.entry(q).has_ref ==> final(self).questions.slots@
                        == old(self).questions.slots@.update(q as int, None)
                },
                Message::Finish { question_id, release_result_caps } => {
                    &&& !old(self).answers@.contains_key(question_id) ==> r is Err
                    &&& old(self).answers@.contains_key(question_id) && (release_result_caps ==> old(self).releasable(
                        old(self).answers@[question_id].result_exports@,
                    )) ==> r is Ok
                    &&& r is Ok ==> (final(self).answers@.contains_key(question_id) <==> !old(self).answers@[question_id].return_sent)
                    &&& r is Ok && final(self).answers@.contains_key(question_id) ==> !final(self).answers@[question_id].active
                    &&& r is Ok && release_result_caps ==> old(self).released_each(
                        final(self),
                        old(self).answers@[question_id].result_exports@,
                    )
                    &&& !release_result_caps ==> old(self).exports_unchanged(final(self))
                },
                Message::Call(call) => {
                    &&& call.send_results_to != SendResultsTo::Caller ==> r is Err
                    &&& call.send_results_to == SendResultsTo::Caller && old(self).answers@.contains_key(call.question_id)
                        ==> r is Err
                    &&& call.send_results_to == SendResultsTo::Caller && !old(self).answers@.contains_key(call.question_id)
                        && (call.target@ matches crate::wire::TargetView::PromisedAnswer(q, _) && old(self).answer_pending(q))
                        ==> (r matches Ok(Event::Deferred(_)))
                    &&& call.send_results_to == SendResultsTo::Caller && !old(self).answers@.contains_key(call.question_id)
                        && (old(self).target_cap(call.target@) matches Ok(c) && old(self).routed(c) matches Ok(
                        RouteView::Redirect(CapView::Local(_)),
                    )) && (forall|i: int| 0 <= i < call.params.cap_table@.len() ==> old(self).receivable(
                        #[trigger] call.params.cap_table@[i]@,
                    )) && old(self).receive_room(call.params.cap_table@.len()) ==> (r matches Ok(Event::Deliver { .. }))
                    &&& r matches Ok(Event::Deliver { answer_id, server, interface_id, method_id, params }) ==> {
                        &&& answer_id == call.question_id
                        &&& interface_id == call.interface_id
                        &&& method_id == call.method_id
                        &&& old(self).target_cap(call.target@) matches Ok(c) && old(self).routed(c) == Ok::<
                            RouteView,
                            ErrorKind,
                        >(RouteView::Redirect(CapView::Local(server.server)))
                        &&& params.content == call.params.content
                        &&& params.caps@.len() == call.params.cap_table@.len()
                        &&& forall|i: int| 0 <= i < call.params.cap_table@.len() ==> old(self).decodes_to(
                            #[trigger] call.params.cap_table@[i]@,
                            opt_view(params.caps@[i]),
                        )
                        &&& final(self).answers@.contains_key(answer_id)
                        &&& final(self).answers@[answer_id].active
                    }
                },
                Message::Bootstrap { question_id } => {
                    &&& old(self).answers@.contains_key(question_id) ==> r is Err
                    &&& !old(self).answers@.contains_key(question_id) && old(self).export_room(1) ==> (r matches Ok(Event::Nothing))
                    &&& old(self).bootstrap_interface is None && !old(self).answers@.contains_key(question_id) ==> r is Ok
                    &&& r is Ok ==> old(self).bootstrap_returned(final(self), question_id)
                },
                Message::Disembargo { context, .. } => context matches DisembargoContext::ReceiverLoopback(e) ==> {
                    let pid = old(self).embargoes.entry(e).promise_id;
                    &&& r is Ok <==> old(self).embargoes.is_live(e) && old(self).promises.is_live(pid)
                        && old(self).promises.entry(pid).embargo == Some(e)
                    &&& r is Ok ==> final(self).promises.is_live(pid) && final(self).promises.entry(pid).embargo is None
                        && final(self).promises.entry(pid).cap@ == old(self).promises.entry(pid).cap@
                        && final(self).embargoes.slots@ == old(self).embargoes.slots@.update(e as int, None)
                },
                Message::Resolve { promise_id, resolution } => {
                    &&& !old(self).imports@.contains_key(promise_id) ==> r is Ok
                    &&& old(self).has_import_promise(promise_id) && can_push(old(self).embargoes) && match resolution {
                        Resolution::Exception(_) => true,
                        Resolution::Cap(d) => old(self).received(d@) is Ok,
                    } ==> r is Ok
                    &&& r is Ok && old(self).has_import_promise(promise_id) ==> {
                        let pid = old(self).import_entry(promise_id).promise_id->Some_0;
                        &&& final(self).promises.is_live(pid)
                        &&& final(self).promises.entry(pid).is_resolved
                    }
                    &&& forall|d: CapDescriptor, c: CapView|
                        #![trigger old(self).received(d@), old(self).needs_embargo(old(self).imports@[promise_id].promise_id->Some_0, c)]
                        r is Ok && old(self).has_import_promise(promise_id) && resolution == Resolution::Cap(d)
                            && old(self).received(d@) == Ok::<Option<CapView>, ErrorKind>(Some(c))
                            && !old(self).promises.entry(old(self).imports@[promise_id].promise_id->Some_0).is_resolved
                            && old(self).needs_embargo(old(self).imports@[promise_id].promise_id->Some_0, c)
                            ==> old(self).embargo_sent(final(self), old(self).imports@[promise_id].promise_id->Some_0)
                },
                Message::Unimplemented => r matches Ok(Event::Nothing) && *final(self) == *old(self),
                _ => r matches Ok(Event::Nothing) && final(self).outbox@ == old(self).outbox@.push(Message::Unimplemented),
            },
    {
        if self.error.is_some() {
            return Err(RpcError::disconnected("connection is closed"));
        }
        match msg {
            Message::Abort(e) => Err(remote_exception_to_error(&e)),
            Message::Bootstrap { question_id } => match self.handle_bootstrap(question_id) {
                Ok(()) => Ok(Event::Nothing),
                Err(e) => Err(e),
            },
            Message::Call(call) => self.handle_call(call),
            Message::Return(ret) => self.handle_return(ret),
            Message::Finish { question_id, release_result_caps } => match self.handle_finish(question_id, release_result_caps) {
                Ok(()) => Ok(Event::Nothing),
                Err(e) => Err(e),
            },
            Message::Resolve { promise_id, resolution } => match self.handle_resolve(promise_id, resolution) {
                Ok(()) => Ok(Event::Nothing),
                Err(e) => Err(e),
            },
            Message::Release { id, reference_count } => match self.release_export(id, reference_count) {
                Ok(()) => {
                    proof {
                        if reference_count == old(self).exports.entry(id).ref_count {
                            assert(self.exports.slots@[id as int] is None);
                            assert(self.exports.is_free(id));
                        }
                    }
                    Ok(Event::Nothing)
                },
                Err(e) => Err(e),
            },
            Message::Disembargo { target, context } => match self.handle_disembargo(&target, context) {
                Ok(()) => Ok(Event::Nothing),
                Err(e) => Err(e),
            },
            Message::Unimplemented => Ok(Event::Nothing),
            _ => {
                self.outbox.push(Message::Unimplemented);
                Ok(Event::Nothing)
            },
        }
    }
}

/// The number of times `id` is listed in `xs`.
pub open spec fn occurrences(xs: Seq<u32>, id: u32) -> nat
    decreases xs.len(),
{
    if xs.len() == 0 {
        0
    } else {
        occurrences(xs.drop_last(), id) + if xs.last() == id { 1nat } else { 0nat }
    }
}

/// Releasing one reference to the next listed export extends `released_each`.
proof fn lemma_released_step(old: &ConnectionState, before: &ConnectionState, next: &ConnectionState, xs: Seq<u32>, i: int)
    requires
        0 <= i < xs.len(),
        before.wf(),
        old.released_each(before, xs.take(i)),
        before.exports.is_live(xs[i]),
        before.released_by(next, xs[i], 1),
        forall|id: u32| #[trigger] before.exports.is_live(id) ==> old.exports.is_live(id),
    ensures
        old.released_each(next, xs.take(i + 1)),
        forall|id: u32| #[trigger] next.exports.is_live(id) ==> old.exports.is_live(id),
{
    let x = xs[i];
    let pre = xs.take(i + 1);
    assert(pre.drop_last() == xs.take(i));
    assert(pre.last() == x);
    let b = before.exports.entry(x);
    assert forall|id: u32| #[trigger] old.exports.is_live(id) implies {
        let m = occurrences(pre, id);
        let e = old.exports.entry(id);
        &&& m <= e.ref_count
        &&& next.released@[id] == old.released@[id] + m
        &&& m < e.ref_count ==> next.exports.is_live(id) && next.exports.entry(id).ref_count == e.ref_count - m
            && next.exports.entry(id).client@ == e.client@
        &&& m == e.ref_count ==> !next.exports.is_live(id) && match e.client@ {
            CapView::Local(p) => !next.exports_by_cap@.contains_key(p),
            _ => true,
        }
    } by {
        let m0 = occurrences(xs.take(i), id);
        if id != x {
            if (id as int) < before.exports.slots@.len() {
                assert(next.exports.slots@[id as int] == before.exports.slots@[id as int]);
            }
        } else {
            assert(m0 < old.exports.entry(id).ref_count);
        }
    }
    assert(next.exports.slots@.len() == before.exports.slots@.len());
    assert forall|id: u32| #[trigger] next.exports.is_live(id) implies old.exports.is_live(id) by {
        if id != x {
            assert(next.exports.slots@[id as int] == before.exports.slots@[id as int]);
            assert(before.exports.is_live(id));
        }
    }
}

} // verus!
