use vstd::prelude::*;
use crate::client::{CapView, Client, PromiseClient};
use crate::codec::{descs_view, listed, opt_view};
use crate::connection::{ConnectionState, Question, has_room, can_push};
use crate::error::{ErrorKind, RpcError};
use crate::wire::{Call, Message, MessageTarget, Payload, PipelineOp, Pointer, PromisedAnswer, SendResultsTo, TargetView, copy_ops};

verus! {

/// Where a call on a capability goes.
#[derive(Debug)]
pub enum Route {
    /// Over this connection, to this target.
    Remote(MessageTarget),
    /// Elsewhere: the call is to be made on this capability instead.
    Redirect(Client),
    /// Nowhere yet: the capability waits for the echo of this embargo.
    Embargoed(u32),
}

pub enum RouteView {
    Remote(TargetView),
    Redirect(CapView),
    Embargoed(u32),
}

impl View for Route {
    type V = RouteView;

    open spec fn view(&self) -> RouteView {
        match self {
            Route::Remote(t) => RouteView::Remote(t@),
            Route::Redirect(c) => RouteView::Redirect(c@),
            Route::Embargoed(e) => RouteView::Embargoed(*e),
        }
    }
}

/// A call built on a capability, ready to be sent.
#[derive(Debug)]
pub struct Request {
    pub target: Client,
    pub interface_id: u64,
    pub method_id: u16,
    pub content: Pointer,
    pub cap_table: Vec<Option<Client>>,
    /// Whether the callee is to keep the results for a tail call instead of
    /// returning them.
    pub is_tail_call: bool,
}

/// What became of a request.
#[derive(Debug)]
pub enum SendOutcome {
    /// A `Call` went out as this question.
    Sent(u32),
    /// The target resolved elsewhere: the request is to be made on this capability.
    Redirected(Client, Request),
    /// The target waits for the echo of this embargo: the request is to be sent again after it.
    Embargoed(u32, Request),
}

/// Resolution is followed the same way, and descriptors are written the same
/// way, in two states whose promises differ only in their call flags.
pub proof fn lemma_desc_for_same(
    a: &ConnectionState,
    b: &ConnectionState,
    after: &ConnectionState,
    c: Option<CapView>,
    d: crate::wire::DescView,
)
    requires
        a.same_tables(b),
        a.exports_unchanged(b),
    ensures
        a.desc_for(after, c, d) == b.desc_for(after, c, d),
{
    if let Some(x) = c {
        crate::codec::lemma_settle_same(a, b, x, a.walk_fuel());
    }
}

impl ConnectionState {
    /// One step of resolution for a call: a live promise that is not
    /// embargoed forwards to its inner capability.
    pub open spec fn call_step(&self, c: CapView) -> Option<CapView> {
        match c {
            CapView::Promise(b, pid) => if b == self.brand && self.promises.is_live(pid)
                && self.promises.entry(pid).embargo is None {
                Some(self.promises.entry(pid).cap@)
            } else {
                None
            },
            _ => None,
        }
    }

    pub open spec fn call_settle(&self, c: CapView, fuel: nat) -> Option<CapView>
        decreases fuel,
    {
        match self.call_step(c) {
            None => Some(c),
            Some(n) => if fuel == 0 {
                None
            } else {
                self.call_settle(n, (fuel - 1) as nat)
            },
        }
    }

    /// Where a call on a settled capability goes.
    pub open spec fn route_of(&self, s: CapView) -> Result<RouteView, ErrorKind> {
        match s {
            CapView::Local(_) => Ok(RouteView::Redirect(s)),
            CapView::Broken(_, _) => Ok(RouteView::Redirect(s)),
            CapView::AnswerPipeline(_, _) => Ok(RouteView::Redirect(s)),
            CapView::Import(b, id) => if b == self.brand {
                Ok(RouteView::Remote(TargetView::ImportedCap(id)))
            } else {
                Ok(RouteView::Redirect(s))
            },
            CapView::Pipeline(b, q, ops) => if b == self.brand {
                Ok(RouteView::Remote(TargetView::PromisedAnswer(q, ops)))
            } else {
                Ok(RouteView::Redirect(s))
            },
            CapView::Promise(b, pid) => if b != self.brand {
                Ok(RouteView::Redirect(s))
            } else if !self.promises.is_live(pid) {
                Err(ErrorKind::Failed)
            } else {
                Ok(RouteView::Embargoed(self.promises.entry(pid).embargo->Some_0))
            },
        }
    }

    /// What a settled promise of this connection now stands for; nothing for
    /// any other capability, or for a promise that is pending or embargoed.
    pub open spec fn resolved(&self, c: CapView) -> Option<CapView> {
        match c {
            CapView::Promise(b, pid) => if b == self.brand && self.promises.is_live(pid)
                && self.promises.entry(pid).is_resolved && self.promises.entry(pid).embargo is None {
                Some(self.promises.entry(pid).cap@)
            } else {
                None
            },
            _ => None,
        }
    }

    /// The capability that a resolved promise now stands for.
    pub fn get_resolved(&self, cap: &Client) -> (r: Option<Client>)
        ensures
            opt_view(r) == self.resolved(cap@),
    {
        match cap {
            Client::Promise { brand, promise_id } => {
                if *brand != self.brand {
                    return None;
                }
                match self.promises.get(*promise_id) {
                    Some(p) => {
                        if p.is_resolved && p.embargo.is_none() {
                            Some(p.cap.duplicate())
                        } else {
                            None
                        }
                    },
                    None => None,
                }
            },
            _ => None,
        }
    }

    /// The promise of this connection that `c` names, if any.
    pub open spec fn first_promise(&self, c: CapView) -> Option<u32> {
        match c {
            CapView::Promise(b, pid) => if b == self.brand && self.promises.is_live(pid) {
                Some(pid)
            } else {
                None
            },
            _ => None,
        }
    }

    /// Where a call on `c` goes.
    pub open spec fn routed(&self, c: CapView) -> Result<RouteView, ErrorKind> {
        match self.call_settle(c, self.walk_fuel()) {
            None => Err(ErrorKind::Failed),
            Some(s) => self.route_of(s),
        }
    }

    /// Works out where a call on `cap` goes. Every promise passed on the way
    /// records that a call went through it.
    #[verifier::rlimit(100)]
    pub fn write_target(&mut self, cap: &Client) -> (r: Result<Route, RpcError>)
        requires
            old(self).wf(),
        ensures
            final(self).wf(),
            old(self).same_tables(final(self)),
            old(self).exports_unchanged(final(self)),
            match r {
                Ok(route) => old(self).routed(cap@) == Ok::<RouteView, ErrorKind>(route@),
                Err(e) => old(self).routed(cap@) == Err::<RouteView, ErrorKind>(e.kind),
            },
            forall|pid: u32| old(self).first_promise(cap@) == Some(pid) ==> final(self).promises.entry(pid).received_call,
            forall|pid: u32| #[trigger] old(self).on_chain(cap@, pid, old(self).walk_fuel(), true)
                ==> final(self).promises.entry(pid).received_call,
            forall|pid: u32| (pid as int) < old(self).promises.slots@.len() && !old(self).on_chain(cap@, pid, old(self).walk_fuel(), true)
                ==> #[trigger] final(self).promises.slots@[pid as int] == old(self).promises.slots@[pid as int],
    {
        let mut cur = cap.duplicate();
        let mut fuel: u64 = self.promises.slots.len() as u64 + 1;
        let ghost big = old(self).walk_fuel();
        loop
            invariant
                self.wf(),
                old(self).same_tables(self),
                old(self).exports_unchanged(self),
                fuel <= old(self).walk_fuel(),
                big == old(self).walk_fuel(),
                old(self).call_settle(cap@, old(self).walk_fuel()) == old(self).call_settle(cur@, fuel as nat),
                self.promises.slots@.len() == old(self).promises.slots@.len(),
                forall|pid: u32| #[trigger] old(self).on_chain(cur@, pid, fuel as nat, true) ==> old(self).on_chain(cap@, pid, big, true),
                forall|pid: u32| #[trigger] old(self).on_chain(cap@, pid, big, true)
                    ==> self.promises.entry(pid).received_call || old(self).on_chain(cur@, pid, fuel as nat, true),
                forall|pid: u32| (pid as int) < old(self).promises.slots@.len() && !old(self).on_chain(cap@, pid, big, true)
                    ==> #[trigger] self.promises.slots@[pid as int] == old(self).promises.slots@[pid as int],
            ensures
                self.wf(),
                old(self).same_tables(self),
                old(self).exports_unchanged(self),
                old(self).call_settle(cap@, old(self).walk_fuel()) == Some(cur@),
                old(self).call_step(cur@) is None,
                forall|pid: u32| #[trigger] old(self).on_chain(cap@, pid, big, true) ==> self.promises.entry(pid).received_call,
                forall|pid: u32| (pid as int) < old(self).promises.slots@.len() && !old(self).on_chain(cap@, pid, big, true)
                    ==> #[trigger] self.promises.slots@[pid as int] == old(self).promises.slots@[pid as int],
            decreases fuel,
        {
            proof {
                if !(cur@ matches CapView::Promise(b, p) && b == old(self).brand && old(self).promises.is_live(p)) {
                    assert forall|q: u32| !old(self).on_chain(cur@, q, fuel as nat, true) by {
                        reveal(ConnectionState::on_chain);
                    }
                }
            }
            let (pid, brand) = match &cur {
                Client::Promise { brand, promise_id } => (*promise_id, *brand),
                _ => break,
            };
            if brand != self.brand {
                break;
            }
            let (next, embargo) = match self.promises.get(pid) {
                Some(p) => (p.cap.duplicate(), p.embargo),
                None => break,
            };
            let ghost before = *self;
            proof {
                reveal(ConnectionState::on_chain);
                assert(old(self).promises.is_live(pid));
                assert(next@ == old(self).promises.entry(pid).cap@);
                assert(embargo == old(self).promises.entry(pid).embargo);
                assert(old(self).on_chain(cur@, pid, fuel as nat, true));
                assert(old(self).on_chain(cap@, pid, big, true));
                assert forall|q: u32| #[trigger] old(self).on_chain(cur@, q, fuel as nat, true) == (q == pid || (fuel > 0
                    && embargo is None && old(self).on_chain(next@, q, (fuel - 1) as nat, true))) by {}
            }
            self.mark_called(pid);
            proof {
                crate::codec::lemma_marked_trans(old(self), &before, self);
                assert forall|q: u32| #[trigger] old(self).on_chain(cap@, q, big, true) && !(fuel > 0 && embargo is None
                    && old(self).on_chain(next@, q, (fuel - 1) as nat, true)) implies self.promises.entry(q).received_call by {
                    if q != pid {
                        assert(before.promises.entry(q).received_call);
                        crate::codec::lemma_chain_live(old(self), cap@, q, big, true);
                        assert(self.promises.slots@[q as int] == before.promises.slots@[q as int]);
                    }
                }
                assert forall|q: u32| (q as int) < old(self).promises.slots@.len() && !old(self).on_chain(cap@, q, big, true)
                    implies #[trigger] self.promises.slots@[q as int] == old(self).promises.slots@[q as int] by {
                    assert(q != pid);
                    assert(self.promises.slots@[q as int] == before.promises.slots@[q as int]);
                }
            }
            if embargo.is_some() {
                break;
            }
            if fuel == 0 {
                return Err(RpcError::failed("promise resolution chain too long"));
            }
            proof {
                assert forall|q: u32| #[trigger] old(self).on_chain(next@, q, (fuel - 1) as nat, true) implies old(self).on_chain(cap@, q, big, true) by {
                    assert(old(self).on_chain(cur@, q, fuel as nat, true));
                }
            }
            cur = next;
            fuel = fuel - 1;
        }
        proof {
            assert forall|pid: u32| old(self).first_promise(cap@) == Some(pid) implies self.promises.entry(pid).received_call by {
                reveal(ConnectionState::on_chain);
                assert(old(self).on_chain(cap@, pid, big, true));
            }
        }
        match &cur {
            Client::Local(l) => Ok(Route::Redirect(Client::Local(*l))),
            Client::Broken(e) => Ok(Route::Redirect(Client::Broken(e.duplicate()))),
            Client::AnswerPipeline { .. } => Ok(Route::Redirect(cur.duplicate())),
            Client::Import { brand, import_id } => {
                if *brand == self.brand {
                    Ok(Route::Remote(MessageTarget::ImportedCap(*import_id)))
                } else {
                    Ok(Route::Redirect(cur.duplicate()))
                }
            },
            Client::Pipeline { brand, question_id, ops } => {
                if *brand == self.brand {
                    let pa = PromisedAnswer { question_id: *question_id, transform: copy_ops(ops) };
                    Ok(Route::Remote(MessageTarget::PromisedAnswer(pa)))
                } else {
                    Ok(Route::Redirect(cur.duplicate()))
                }
            },
            Client::Promise { brand, promise_id } => {
                if *brand != self.brand {
                    Ok(Route::Redirect(cur.duplicate()))
                } else {
                    match self.promises.get(*promise_id) {
                        Some(p) => match p.embargo {
                            Some(e) => Ok(Route::Embargoed(e)),
                            None => Err(RpcError::failed("promise resolution chain too long")),
                        },
                        None => Err(RpcError::failed("dangling promise")),
                    }
                }
            },
        }
    }

    /// The question table gained the live entry `qid`, and nothing else changed in it.
    pub open spec fn question_added(&self, next: &ConnectionState, qid: u32) -> bool {
        &&& qid == self.questions.next_id()
        &&& !self.questions.is_live(qid)
        &&& next.questions.is_live(qid)
        &&& next.questions.slots@ == self.questions.stored(qid, next.questions.entry(qid))
    }

    /// The effect of dropping the local reference to question `qid`: the
    /// first drop sends `Finish`, and a question whose return already came
    /// is then erased.
    pub open spec fn dropped(&self, next: &ConnectionState, qid: u32) -> bool {
        if self.questions.is_live(qid) && self.questions.entry(qid).has_ref {
            let q = self.questions.entry(qid);
            &&& next.outbox@ == self.outbox@.push(Message::Finish { question_id: qid, release_result_caps: true })
            &&& if q.is_awaiting_return {
                &&& next.questions.slots@.len() == self.questions.slots@.len()
                &&& next.questions.is_live(qid)
                &&& !next.questions.entry(qid).has_ref
                &&& next.questions.entry(qid).is_awaiting_return
                &&& next.questions.entry(qid).param_exports@ == q.param_exports@
                &&& forall|j: u32| j != qid && (j as int) < self.questions.slots@.len()
                    ==> #[trigger] next.questions.slots@[j as int] == self.questions.slots@[j as int]
            } else {
                next.questions.slots@ == self.questions.slots@.update(qid as int, None)
            }
            &&& next.questions.wf()
            &&& next.brand == self.brand
            &&& self.exports_unchanged(next)
            &&& next.promises == self.promises
            &&& next.imports == self.imports
            &&& next.answers == self.answers
            &&& next.embargoes == self.embargoes
            &&& next.error == self.error
        } else {
            *next == *self
        }
    }

    /// Drops the local reference to question `qid`.
    pub fn drop_question_ref(&mut self, qid: u32)
        requires
            old(self).wf(),
        ensures
            final(self).wf(),
            old(self).dropped(final(self), qid),
    {
        let (awaiting, tail, exports) = match self.questions.get(qid) {
            Some(q) => {
                if !q.has_ref {
                    return;
                }
                (q.is_awaiting_return, q.is_tail_call, copy_ids(&q.param_exports))
            },
            None => return,
        };
        if awaiting {
            self.questions.replace(qid, Question {
                is_awaiting_return: true,
                param_exports: exports,
                is_tail_call: tail,
                has_ref: false,
            });
        } else {
            self.questions.erase(qid);
        }
        self.outbox.push(Message::Finish { question_id: qid, release_result_caps: true });
    }

    /// Asks the peer for its bootstrap capability. Returns the question's id
    /// and a promise for the capability, which any call can be pipelined on.
    pub fn bootstrap(&mut self) -> (r: Result<(u32, Client), RpcError>)
        requires
            old(self).wf(),
        ensures
            final(self).wf(),
            old(self).error is Some ==> (r matches Err(e) && e.kind == ErrorKind::Disconnected && *final(self) == *old(self)),
            old(self).error is None ==> (r is Ok <==> can_push(old(self).questions) && can_push(old(self).promises)),
            r matches Ok((qid, c)) ==> {
                let pid = old(self).promises.next_id();
                &&& old(self).question_added(final(self), qid)
                &&& final(self).questions.entry(qid).is_awaiting_return
                &&& final(self).questions.entry(qid).has_ref
                &&& final(self).outbox@ == old(self).outbox@.push(Message::Bootstrap { question_id: qid })
                &&& c@ == CapView::Promise(old(self).brand, pid)
                &&& final(self).promises.is_live(pid)
                &&& !final(self).promises.entry(pid).is_resolved
                &&& final(self).promises.entry(pid).cap@ == CapView::Pipeline(old(self).brand, qid, Seq::empty())
                &&& final(self).promises.entry(pid).embargo is None
                &&& final(self).routed(c@) == Ok::<RouteView, ErrorKind>(
                    RouteView::Remote(TargetView::PromisedAnswer(qid, Seq::empty())),
                )
            },
    {
        if self.error.is_some() {
            return Err(RpcError::disconnected("connection is closed"));
        }
        if !has_room(&self.questions) || !has_room(&self.promises) {
            return Err(RpcError::failed("question table is full"));
        }
        let qid = self.questions.push(Question {
            is_awaiting_return: true,
            param_exports: Vec::new(),
            is_tail_call: false,
            has_ref: true,
        });
        self.outbox.push(Message::Bootstrap { question_id: qid });
        let c = self.add_pipeline_promise(qid, Vec::new());
        proof {
            let pc = CapView::Pipeline(self.brand, qid, Seq::<PipelineOp>::empty());
            assert(self.call_step(c@) == Some(pc));
            assert(self.call_step(pc) is None);
            assert(self.call_settle(pc, (self.walk_fuel() - 1) as nat) == Some(pc));
            assert(self.call_settle(c@, self.walk_fuel()) == Some(pc));
        }
        Ok((qid, c))
    }

    /// A promise for the capability at `ops` in the eventual result of question `qid`.
    fn add_pipeline_promise(&mut self, qid: u32, ops: Vec<PipelineOp>) -> (r: Client)
        requires
            old(self).wf(),
            can_push(old(self).promises),
        ensures
            final(self).wf(),
            r@ == CapView::Promise(old(self).brand, old(self).promises.next_id()),
            final(self).promises.slots@ == old(self).promises.stored(
                old(self).promises.next_id(),
                final(self).promises.entry(old(self).promises.next_id()),
            ),
            final(self).promises.is_live(old(self).promises.next_id()),
            !final(self).promises.entry(old(self).promises.next_id()).is_resolved,
            !final(self).promises.entry(old(self).promises.next_id()).received_call,
            final(self).promises.entry(old(self).promises.next_id()).embargo is None,
            final(self).promises.entry(old(self).promises.next_id()).cap@ == CapView::Pipeline(old(self).brand, qid, ops@),
            final(self).brand == old(self).brand,
            old(self).exports_unchanged(final(self)),
            final(self).questions == old(self).questions,
            final(self).imports == old(self).imports,
            final(self).answers == old(self).answers,
            final(self).embargoes == old(self).embargoes,
            final(self).error == old(self).error,
            final(self).outbox == old(self).outbox,
    {
        let p = PromiseClient {
            is_resolved: false,
            cap: Client::Pipeline { brand: self.brand, question_id: qid, ops },
            import_id: None,
            received_call: false,
            embargo: None,
        };
        let pid = self.promises.push(p);
        proof {
            crate::connection::lemma_pending_kept(old(self), self, pid);
        }
        Client::Promise { brand: self.brand, promise_id: pid }
    }

    /// A capability for what will be found at `ops` in the result of question
    /// `qid`, usable before the result arrives.
    pub fn get_pipelined_cap(&mut self, qid: u32, ops: &Vec<PipelineOp>) -> (r: Result<Client, RpcError>)
        requires
            old(self).wf(),
        ensures
            final(self).wf(),
            r is Ok <==> old(self).questions.is_live(qid) && old(self).questions.entry(qid).is_awaiting_return
                && can_push(old(self).promises),
            r matches Ok(c) ==> {
                let pid = old(self).promises.next_id();
                &&& c@ == CapView::Promise(old(self).brand, pid)
                &&& final(self).promises.is_live(pid)
                &&& !final(self).promises.entry(pid).is_resolved
                &&& final(self).promises.entry(pid).cap@ == CapView::Pipeline(old(self).brand, qid, ops@)
                &&& final(self).routed(c@) == Ok::<RouteView, ErrorKind>(
                    RouteView::Remote(TargetView::PromisedAnswer(qid, ops@)),
                )
            },
            r is Err ==> *final(self) == *old(self),
    {
        match self.questions.get(qid) {
            Some(q) => {
                if !q.is_awaiting_return {
                    return Err(RpcError::failed("the question has already returned"));
                }
            },
            None => return Err(RpcError::failed("no such question")),
        }
        if !has_room(&self.promises) {
            return Err(RpcError::failed("promise table is full"));
        }
        let c = self.add_pipeline_promise(qid, copy_ops(ops));
        proof {
            let pid = old(self).promises.next_id();
            let pc = CapView::Pipeline(self.brand, qid, ops@);
            assert(self.call_step(c@) == Some(pc));
            assert(self.call_step(pc) is None);
            assert(self.call_settle(pc, (self.walk_fuel() - 1) as nat) == Some(pc));
            assert(self.call_settle(c@, self.walk_fuel()) == Some(pc));
        }
        Ok(c)
    }

    /// What a sent request leaves behind: a new question, and a `Call` at the
    /// end of the outbox carrying the request.
    pub open spec fn sent_call(&self, next: &ConnectionState, qid: u32, t: TargetView, req: &Request) -> bool {
        let q = next.questions.entry(qid);
        &&& self.question_added(next, qid)
        &&& q.is_awaiting_return
        &&& q.has_ref
        &&& q.is_tail_call == req.is_tail_call
        &&& next.outbox@.len() == self.outbox@.len() + 1
        &&& next.outbox@.drop_last() == self.outbox@
        &&& next.outbox@.last() matches Message::Call(call) && {
            &&& call.question_id == qid
            &&& call.target@ == t
            &&& call.interface_id == req.interface_id
            &&& call.method_id == req.method_id
            &&& call.send_results_to == if req.is_tail_call {
                SendResultsTo::Yourself
            } else {
                SendResultsTo::Caller
            }
            &&& call.params.content == req.content
            &&& call.params.cap_table@.len() == req.cap_table@.len()
            &&& forall|i: int| 0 <= i < req.cap_table@.len() ==> self.desc_for(
                next,
                opt_view(#[trigger] req.cap_table@[i]),
                call.params.cap_table@[i]@,
            )
            &&& q.param_exports@ == listed(descs_view(call.params.cap_table@))
        }
    }

    /// Sends a request: works out its target, writes its capability table,
    /// opens a question and queues the `Call`.
    pub fn send_request(&mut self, req: Request) -> (r: Result<SendOutcome, RpcError>)
        requires
            old(self).wf(),
        ensures
            final(self).wf(),
            final(self).brand == old(self).brand,
            final(self).answers == old(self).answers,
            old(self).error is Some ==> (r matches Err(e) && e.kind == ErrorKind::Disconnected && *final(self)
                == *old(self)),
            old(self).error is None ==> match old(self).routed(req.target@) {
                Err(k) => r matches Err(e) && e.kind == k,
                Ok(RouteView::Redirect(c)) => r matches Ok(SendOutcome::Redirected(c2, _)) && c2@ == c,
                Ok(RouteView::Embargoed(e)) => r matches Ok(SendOutcome::Embargoed(e2, _)) && e2 == e,
                Ok(RouteView::Remote(t)) => {
                    &&& r is Ok ==> (r matches Ok(SendOutcome::Sent(qid)) && old(self).sent_call(final(self), qid, t, &req))
                    &&& !can_push(old(self).questions) ==> r is Err
                    &&& can_push(old(self).questions) && (forall|i: int| 0 <= i < req.cap_table@.len()
                        ==> old(self).encodable(#[trigger] req.cap_table@[i])) && old(self).export_room(req.cap_table@.len())
                        ==> r is Ok
                },
            },
    {
        if self.error.is_some() {
            return Err(RpcError::disconnected("connection is closed"));
        }
        let t = match self.write_target(&req.target) {
            Err(e) => return Err(e),
            Ok(Route::Redirect(c)) => return Ok(SendOutcome::Redirected(c, req)),
            Ok(Route::Embargoed(e)) => return Ok(SendOutcome::Embargoed(e, req)),
            Ok(Route::Remote(t)) => t,
        };
        let ghost mid = *self;
        proof {
            assert forall|i: int| 0 <= i < req.cap_table@.len() && old(self).encodable(#[trigger] req.cap_table@[i])
                implies mid.encodable(req.cap_table@[i]) by {
                if let Some(c) = req.cap_table@[i] {
                    crate::codec::lemma_settle_same(old(self), &mid, c@, old(self).walk_fuel());
                }
            }
        }
        if !has_room(&self.questions) {
            return Err(RpcError::failed("question table is full"));
        }
        let (descs, exports) = match self.write_descriptors(&req.cap_table) {
            Ok(x) => x,
            Err(e) => return Err(e),
        };
        let ghost wrote = *self;
        let qid = self.questions.push(Question {
            is_awaiting_return: true,
            param_exports: exports,
            is_tail_call: req.is_tail_call,
            has_ref: true,
        });
        let Request { target: _, interface_id, method_id, content, cap_table, is_tail_call } = req;
        let send_results_to = if is_tail_call {
            SendResultsTo::Yourself
        } else {
            SendResultsTo::Caller
        };
        let call = Call {
            question_id: qid,
            target: t,
            interface_id,
            method_id,
            params: Payload { content, cap_table: descs },
            send_results_to,
        };
        self.outbox.push(Message::Call(call));
        proof {
            assert(self.outbox@.drop_last() == old(self).outbox@);
            assert forall|i: int| 0 <= i < req.cap_table@.len() implies old(self).desc_for(
                self,
                opt_view(#[trigger] req.cap_table@[i]),
                descs@[i]@,
            ) by {
                assert(mid.desc_for(&wrote, opt_view(req.cap_table@[i]), descs@[i]@));
                lemma_desc_for_same(old(self), &mid, &wrote, opt_view(req.cap_table@[i]), descs@[i]@);
            }
        }
        Ok(SendOutcome::Sent(qid))
    }
}

pub fn copy_ids(v: &Vec<u32>) -> (r: Vec<u32>)
    ensures
        r@ == v@,
{
    let mut r: Vec<u32> = Vec::new();
    let mut i: usize = 0;
    while i < v.len()
        invariant
            i <= v@.len(),
            r@ == v@.take(i as int),
        decreases v@.len() - i,
    {
        r.push(v[i]);
        i = i + 1;
        assert(r@ == v@.take(i as int));
    }
    assert(v@.take(v@.len() as int) == v@);
    r
}

} // verus!
