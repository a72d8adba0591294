use vstd::prelude::*;
use crate::error::Exception;

verus! {

/// One step of a path through a call's results.
#[derive(Clone, Copy, Debug, PartialEq, Eq, Structural)]
pub enum PipelineOp {
    Noop,
    /// Follow the pointer field with this index.
    GetPointerField(u16),
}

/// A reference to the eventual result of a question, along a path of pointer fields.
#[derive(Debug)]
pub struct PromisedAnswer {
    pub question_id: u32,
    pub transform: Vec<PipelineOp>,
}

/// The capability that a `Call` or a `Disembargo` is addressed to.
#[derive(Debug)]
pub enum MessageTarget {
    /// A capability that the receiver exported under this id.
    ImportedCap(u32),
    /// A capability inside the eventual result of one of the receiver's answers.
    PromisedAnswer(PromisedAnswer),
}

/// How a capability is written into a payload's capability table.
#[derive(Debug)]
pub enum CapDescriptor {
    Null,
    /// A settled capability exported by the sender under this id.
    SenderHosted(u32),
    /// A promise exported by the sender under this id; a `Resolve` follows.
    SenderPromise(u32),
    /// A capability that the receiver exported under this id.
    ReceiverHosted(u32),
    /// A capability inside the eventual result of one of the receiver's answers.
    ReceiverAnswer(PromisedAnswer),
    /// A capability hosted by a third party.
    ThirdPartyHosted,
}

/// The value of a descriptor.
pub enum DescView {
    Null,
    SenderHosted(u32),
    SenderPromise(u32),
    ReceiverHosted(u32),
    ReceiverAnswer(u32, Seq<PipelineOp>),
    ThirdPartyHosted,
}

impl View for CapDescriptor {
    type V = DescView;

    open spec fn view(&self) -> DescView {
        match self {
            CapDescriptor::Null => DescView::Null,
            CapDescriptor::SenderHosted(id) => DescView::SenderHosted(*id),
            CapDescriptor::SenderPromise(id) => DescView::SenderPromise(*id),
            CapDescriptor::ReceiverHosted(id) => DescView::ReceiverHosted(*id),
            CapDescriptor::ReceiverAnswer(pa) => DescView::ReceiverAnswer(pa.question_id, pa.transform@),
            CapDescriptor::ThirdPartyHosted => DescView::ThirdPartyHosted,
        }
    }
}

/// The value of a message target.
pub enum TargetView {
    ImportedCap(u32),
    PromisedAnswer(u32, Seq<PipelineOp>),
}

impl View for MessageTarget {
    type V = TargetView;

    open spec fn view(&self) -> TargetView {
        match self {
            MessageTarget::ImportedCap(id) => TargetView::ImportedCap(*id),
            MessageTarget::PromisedAnswer(pa) => TargetView::PromisedAnswer(pa.question_id, pa.transform@),
        }
    }
}

/// The content of a payload: a tree of pointers whose leaves may be capabilities.
#[derive(Debug)]
pub enum Pointer {
    Null,
    /// An index into the payload's capability table.
    Capability(u32),
    Struct(StructValue),
}

#[derive(Debug)]
pub struct StructValue {
    pub data: Vec<u8>,
    pub pointers: Vec<Pointer>,
}

/// The parameters of a call or the results of a return.
#[derive(Debug)]
pub struct Payload {
    pub content: Pointer,
    pub cap_table: Vec<CapDescriptor>,
}

#[derive(Clone, Copy, Debug, PartialEq, Eq, Structural)]
pub enum SendResultsTo {
    Caller,
    Yourself,
    ThirdParty,
}

#[derive(Debug)]
pub struct Call {
    pub question_id: u32,
    pub target: MessageTarget,
    pub interface_id: u64,
    pub method_id: u16,
    pub params: Payload,
    pub send_results_to: SendResultsTo,
}

#[derive(Debug)]
pub enum ReturnBody {
    Results(Payload),
    Exception(Exception),
    Canceled,
    ResultsSentElsewhere,
    TakeFromOtherQuestion(u32),
    AcceptFromThirdParty,
}

#[derive(Debug)]
pub struct Return {
    pub answer_id: u32,
    pub release_param_caps: bool,
    pub body: ReturnBody,
}

#[derive(Debug)]
pub enum Resolution {
    Cap(CapDescriptor),
    Exception(Exception),
}

#[derive(Clone, Copy, Debug, PartialEq, Eq, Structural)]
pub enum DisembargoContext {
    /// Sent by the side that set an embargo; the receiver reflects it back.
    SenderLoopback(u32),
    /// The reflection of a `SenderLoopback` with the same embargo id.
    ReceiverLoopback(u32),
    Accept,
    Provide(u32),
}

/// A protocol message.
#[derive(Debug)]
pub enum Message {
    Unimplemented,
    Abort(Exception),
    Bootstrap { question_id: u32 },
    Call(Call),
    Return(Return),
    Finish { question_id: u32, release_result_caps: bool },
    Resolve { promise_id: u32, resolution: Resolution },
    Release { id: u32, reference_count: u32 },
    Disembargo { target: MessageTarget, context: DisembargoContext },
    Provide,
    Accept,
    Join,
    ObsoleteSave,
    ObsoleteDelete,
}

/// The capability-table index reached from `p` along `ops`, if the path ends
/// at a capability. A null struct reads as a struct with no fields.
pub open spec fn pipelined_index(p: Pointer, ops: Seq<PipelineOp>) -> Option<u32>
    decreases ops.len(),
{
    if ops.len() == 0 {
        match p {
            Pointer::Capability(i) => Some(i),
            _ => None,
        }
    } else {
        match ops[0] {
            PipelineOp::Noop => pipelined_index(p, ops.skip(1)),
            PipelineOp::GetPointerField(k) => match p {
                Pointer::Struct(s) => if (k as int) < s.pointers@.len() {
                    pipelined_index(s.pointers@[k as int], ops.skip(1))
                } else {
                    pipelined_index(Pointer::Null, ops.skip(1))
                },
                Pointer::Null => pipelined_index(Pointer::Null, ops.skip(1)),
                Pointer::Capability(_) => None,
            },
        }
    }
}

/// Null stays null along any path, and a path from null never reaches a capability.
pub proof fn lemma_null_path(ops: Seq<PipelineOp>)
    ensures
        pipelined_index(Pointer::Null, ops) is None,
    decreases ops.len(),
{
    if ops.len() > 0 {
        lemma_null_path(ops.skip(1));
    }
}

/// Follows `ops` from `root` and returns the capability-table index found there.
pub fn get_pipelined_index(root: &Pointer, ops: &Vec<PipelineOp>) -> (r: Option<u32>)
    ensures
        r == pipelined_index(*root, ops@),
{
    let mut cur: &Pointer = root;
    let mut i: usize = 0;
    assert(ops@.skip(0) == ops@);
    while i < ops.len()
        invariant
            i <= ops@.len(),
            pipelined_index(*root, ops@) == pipelined_index(*cur, ops@.skip(i as int)),
        decreases ops@.len() - i,
    {
        assert(ops@.skip(i as int).skip(1) == ops@.skip(i + 1));
        match ops[i] {
            PipelineOp::Noop => {},
            PipelineOp::GetPointerField(k) => {
                match cur {
                    Pointer::Struct(s) => {
                        if (k as usize) < s.pointers.len() {
                            cur = &s.pointers[k as usize];
                        } else {
                            proof {
                                lemma_null_path(ops@.skip(i + 1));
                            }
                            return None;
                        }
                    },
                    Pointer::Null => {
                        proof {
                            lemma_null_path(ops@.skip(i + 1));
                        }
                        return None;
                    },
                    Pointer::Capability(_) => {
                        return None;
                    },
                }
            },
        }
        i = i + 1;
    }
    match cur {
        Pointer::Capability(c) => Some(*c),
        _ => None,
    }
}

pub fn copy_ops(ops: &Vec<PipelineOp>) -> (r: Vec<PipelineOp>)
    ensures
        r@ == ops@,
{
    let mut r: Vec<PipelineOp> = Vec::new();
    let mut i: usize = 0;
    while i < ops.len()
        invariant
            i <= ops@.len(),
            r@ == ops@.take(i as int),
        decreases ops@.len() - i,
    {
        r.push(ops[i]);
        i = i + 1;
        assert(r@ == ops@.take(i as int));
    }
    assert(ops@.take(ops@.len() as int) == ops@);
    r
}

impl PromisedAnswer {
    pub fn duplicate(&self) -> (r: PromisedAnswer)
        ensures
            r.question_id == self.question_id,
            r.transform@ == self.transform@,
    {
        PromisedAnswer { question_id: self.question_id, transform: copy_ops(&self.transform) }
    }
}

/// Two values that reach the same capability-table index along every path.
pub open spec fn same_paths(a: Pointer, b: Pointer) -> bool {
    forall|ops: Seq<PipelineOp>| #[trigger] pipelined_index(a, ops) == pipelined_index(b, ops)
}

proof fn lemma_same_struct(a: StructValue, b: StructValue, ops: Seq<PipelineOp>)
    requires
        a.pointers@.len() == b.pointers@.len(),
        forall|j: int| 0 <= j < a.pointers@.len() ==> same_paths(#[trigger] a.pointers@[j], b.pointers@[j]),
    ensures
        pipelined_index(Pointer::Struct(a), ops) == pipelined_index(Pointer::Struct(b), ops),
    decreases ops.len(),
{
    if ops.len() > 0 {
        match ops[0] {
            PipelineOp::Noop => lemma_same_struct(a, b, ops.skip(1)),
            PipelineOp::GetPointerField(k) => {
                if (k as int) < a.pointers@.len() {
                    assert(same_paths(a.pointers@[k as int], b.pointers@[k as int]));
                    assert(pipelined_index(a.pointers@[k as int], ops.skip(1)) == pipelined_index(
                        b.pointers@[k as int],
                        ops.skip(1),
                    ));
                }
            },
        }
    }
}

impl Pointer {
    /// A copy that leads every path to the same capability-table index.
    #[verifier::loop_isolation(false)]
    pub fn duplicate(&self) -> (r: Pointer)
        ensures
            same_paths(r, *self),
        decreases self,
    {
        match self {
            Pointer::Null => Pointer::Null,
            Pointer::Capability(i) => Pointer::Capability(*i),
            Pointer::Struct(s) => {
                let mut ps: Vec<Pointer> = Vec::new();
                let mut i: usize = 0;
                while i < s.pointers.len()
                    invariant
                        i <= s.pointers@.len(),
                        ps@.len() == i,
                        forall|j: int| 0 <= j < i ==> same_paths(#[trigger] ps@[j], s.pointers@[j]),
                    decreases s.pointers@.len() - i,
                {
                    proof {
                        vstd::std_specs::vec::axiom_vec_index_decreases(s.pointers, i as int);
                        assert(decreases_to!(*self => *s));
                        assert(decreases_to!(*s => s.pointers));
                        assert(decreases_to!(s.pointers => s.pointers[i as int]));
                    }
                    let c = s.pointers[i].duplicate();
                    ps.push(c);
                    i = i + 1;
                }
                let t = StructValue { data: s.data.clone(), pointers: ps };
                proof {
                    assert forall|ops: Seq<PipelineOp>| #[trigger] pipelined_index(Pointer::Struct(t), ops)
                        == pipelined_index(Pointer::Struct(*s), ops) by {
                        lemma_same_struct(t, *s, ops);
                    }
                }
                Pointer::Struct(t)
            },
        }
    }
}

} // verus!
