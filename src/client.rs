use vstd::prelude::*;
use crate::error::{ErrorKind, RpcError};
use crate::wire::{PipelineOp, copy_ops};

verus! {

/// The brand of every capability hosted on this vat.
pub const LOCAL_BRAND: u64 = 0;

/// A capability on a locally hosted server, identified by the server's id.
#[derive(Clone, Copy, Debug, PartialEq, Eq, Structural)]
pub struct LocalClient {
    pub server: u64,
}

impl LocalClient {
    pub fn new(server: u64) -> (r: LocalClient)
        ensures
            r.server == server,
    {
        LocalClient { server }
    }

    /// The identity of the wrapped server, used as the key of its export.
    pub fn get_ptr(&self) -> (r: u64)
        ensures
            r == self.server,
    {
        self.server
    }

    pub fn get_brand(&self) -> (r: u64)
        ensures
            r == LOCAL_BRAND,
    {
        LOCAL_BRAND
    }

    /// A local server never resolves to anything else.
    pub fn get_resolved(&self) -> (r: Option<Client>)
        ensures
            r is None,
    {
        None
    }
}

/// A capability handle. Every variant but `Local` and `Broken` belongs to the
/// connection whose brand it carries.
#[derive(Debug)]
pub enum Client {
    Local(LocalClient),
    /// A capability that the peer exported under `import_id`.
    Import { brand: u64, import_id: u32 },
    /// A capability inside the eventual result of one of our questions.
    Pipeline { brand: u64, question_id: u32, ops: Vec<PipelineOp> },
    /// A promise capability, held in the connection's promise table.
    Promise { brand: u64, promise_id: u32 },
    /// A capability whose resolution failed; calls on it fail the same way.
    Broken(RpcError),
    /// A capability inside the eventual result of one of our answers; it is
    /// hosted on this vat once the answer's results are in.
    AnswerPipeline { answer_id: u32, ops: Vec<PipelineOp> },
}

/// The value of a capability handle.
pub enum CapView {
    Local(u64),
    Import(u64, u32),
    Pipeline(u64, u32, Seq<PipelineOp>),
    Promise(u64, u32),
    Broken(ErrorKind, Seq<char>),
    AnswerPipeline(u32, Seq<PipelineOp>),
}

impl View for Client {
    type V = CapView;

    open spec fn view(&self) -> CapView {
        match self {
            Client::Local(l) => CapView::Local(l.server),
            Client::Import { brand, import_id } => CapView::Import(*brand, *import_id),
            Client::Pipeline { brand, question_id, ops } => CapView::Pipeline(*brand, *question_id, ops@),
            Client::Promise { brand, promise_id } => CapView::Promise(*brand, *promise_id),
            Client::Broken(e) => CapView::Broken(e.kind, e.reason@),
            Client::AnswerPipeline { answer_id, ops } => CapView::AnswerPipeline(*answer_id, ops@),
        }
    }
}

/// The brand of a capability: zero for what is hosted here, the connection's
/// brand for what lives across it.
pub open spec fn brand_of(c: CapView) -> u64 {
    match c {
        CapView::Local(_) => LOCAL_BRAND,
        CapView::Import(b, _) => b,
        CapView::Pipeline(b, _, _) => b,
        CapView::Promise(b, _) => b,
        CapView::Broken(_, _) => LOCAL_BRAND,
        CapView::AnswerPipeline(_, _) => LOCAL_BRAND,
    }
}

impl Client {
    pub fn duplicate(&self) -> (r: Client)
        ensures
            r@ == self@,
    {
        match self {
            Client::Local(l) => Client::Local(*l),
            Client::Import { brand, import_id } => Client::Import { brand: *brand, import_id: *import_id },
            Client::Pipeline { brand, question_id, ops } => Client::Pipeline {
                brand: *brand,
                question_id: *question_id,
                ops: copy_ops(ops),
            },
            Client::Promise { brand, promise_id } => Client::Promise { brand: *brand, promise_id: *promise_id },
            Client::Broken(e) => Client::Broken(e.duplicate()),
            Client::AnswerPipeline { answer_id, ops } => Client::AnswerPipeline {
                answer_id: *answer_id,
                ops: copy_ops(ops),
            },
        }
    }

    pub fn get_brand(&self) -> (r: u64)
        ensures
            r == brand_of(self@),
    {
        match self {
            Client::Local(l) => l.get_brand(),
            Client::Import { brand, .. } => *brand,
            Client::Pipeline { brand, .. } => *brand,
            Client::Promise { brand, .. } => *brand,
            Client::Broken(_) => LOCAL_BRAND,
            Client::AnswerPipeline { .. } => LOCAL_BRAND,
        }
    }
}

/// A capability that forwards to an inner capability until it resolves to a
/// replacement.
#[derive(Debug)]
pub struct PromiseClient {
    pub is_resolved: bool,
    /// The current inner capability.
    pub cap: Client,
    /// Set when the promise stands for a `SenderPromise` import.
    pub import_id: Option<u32>,
    /// Set once a call or a descriptor has gone out through the promise.
    pub received_call: bool,
    /// Set while the promise waits for the echo of this embargo.
    pub embargo: Option<u32>,
}

impl PromiseClient {
    pub fn new(initial: Client, import_id: Option<u32>) -> (r: PromiseClient)
        ensures
            !r.is_resolved,
            r.cap@ == initial@,
            r.import_id == import_id,
            !r.received_call,
            r.embargo is None,
    {
        PromiseClient { is_resolved: false, cap: initial, import_id, received_call: false, embargo: None }
    }
}

} // verus!
