use vstd::prelude::*;
use crate::calls::RouteView;
use crate::client::{CapView, Client, LOCAL_BRAND, brand_of};
use crate::codec::{opt_view, response_cap};
use crate::connection::ConnectionState;
use crate::tables::ExportTable;
use crate::wire::{DescView, Message, PipelineOp, Pointer, TargetView, pipelined_index, same_paths};

verus! {

/// Reference counts balance: for every live export, the descriptors of it
/// that were sent equal its reference count plus the references that the
/// peer released, and the count is at least one (an export whose count
/// reaches zero is erased).
pub proof fn lemma_export_balance(s: &ConnectionState, id: u32)
    requires
        s.wf(),
        s.exports.is_live(id),
    ensures
        s.sent@[id] == s.exports.entry(id).ref_count + s.released@[id],
        s.exports.entry(id).ref_count >= 1,
{
}

/// The free list of a well-formed table holds exactly its empty slots, so
/// `push`, which takes its id from there or from past the end, never hands
/// out an occupied id.
pub proof fn lemma_free_ids_are_empty_slots<T>(t: &ExportTable<T>)
    requires
        t.wf(),
    ensures
        forall|id: u32| #[trigger] t.free_ids@.contains(id) <==> t.is_free(id),
{
    assert forall|id: u32| #[trigger] t.free_ids@.contains(id) <==> t.is_free(id) by {
        if t.free_ids@.contains(id) {
            let k = choose|k: int| 0 <= k < t.free_ids@.len() && t.free_ids@[k] == id;
            assert(t.is_free(t.free_ids@[k]));
        }
    }
}

/// A pending promise across the connection through which calls already went
/// out always needs an embargo when it resolves to a server hosted here, so
/// `resolve_promise` queues a `Disembargo` before the promise lets calls
/// reach that server.
pub proof fn lemma_local_resolution_needs_embargo(s: &ConnectionState, pid: u32, server: u64)
    requires
        s.wf(),
        s.promises.is_live(pid),
        !s.promises.entry(pid).is_resolved,
        s.promises.entry(pid).received_call,
        !(s.promises.entry(pid).cap@ is AnswerPipeline),
    ensures
        s.needs_embargo(pid, CapView::Local(server)),
{
    assert(s.pending_promises_wf());
}

/// While a promise waits for the echo of its embargo, calls on it go nowhere:
/// they are held back instead of reaching the promise's replacement.
pub proof fn lemma_embargo_holds_calls(s: &ConnectionState, pid: u32, e: u32)
    requires
        s.wf(),
        s.promises.is_live(pid),
        s.promises.entry(pid).embargo == Some(e),
    ensures
        s.routed(CapView::Promise(s.brand, pid)) == Ok::<RouteView, crate::error::ErrorKind>(RouteView::Embargoed(e)),
{
    assert(s.call_step(CapView::Promise(s.brand, pid)) is None);
}

/// Once the embargo of a promise resolved to a local server is lifted, calls
/// on the promise go to that server.
pub proof fn lemma_lifted_promise_reaches_target(s: &ConnectionState, pid: u32, server: u64)
    requires
        s.wf(),
        s.promises.is_live(pid),
        s.promises.entry(pid).embargo is None,
        s.promises.entry(pid).cap@ == CapView::Local(server),
    ensures
        s.routed(CapView::Promise(s.brand, pid)) == Ok::<RouteView, crate::error::ErrorKind>(
            RouteView::Redirect(CapView::Local(server)),
        ),
{
    let c = CapView::Promise(s.brand, pid);
    assert(s.call_step(c) == Some(CapView::Local(server)));
    assert(s.call_step(CapView::Local(server)) is None);
    assert(s.call_settle(CapView::Local(server), (s.walk_fuel() - 1) as nat) == Some(CapView::Local(server)));
}

/// Dropping the reference to a question twice sends exactly one `Finish`,
/// and only if the reference was alive.
pub proof fn lemma_finish_sent_once(s0: &ConnectionState, s1: &ConnectionState, s2: &ConnectionState, qid: u32)
    requires
        s0.wf(),
        s0.dropped(s1, qid),
        s1.dropped(s2, qid),
    ensures
        s2.outbox@ == if s0.questions.is_live(qid) && s0.questions.entry(qid).has_ref {
            s0.outbox@.push(Message::Finish { question_id: qid, release_result_caps: true })
        } else {
            s0.outbox@
        },
{
    if s0.questions.is_live(qid) && s0.questions.entry(qid).has_ref {
        if !s0.questions.entry(qid).is_awaiting_return {
            assert(s1.questions.slots@[qid as int] is None);
        }
        assert(!(s1.questions.is_live(qid) && s1.questions.entry(qid).has_ref));
    }
}

/// A local server, once described to the peer and named back by it,
/// decodes to the same server, with the local brand: `sent_once` is what
/// writing its descriptor does to the export side of the state.
pub proof fn lemma_descriptor_round_trip(s: &ConnectionState, next: &ConnectionState, server: u64)
    requires
        s.wf(),
        next.wf(),
        s.can_export(server),
        s.sent_once(next, server),
    ensures
        next.exports_by_cap@.contains_key(server),
        s.describe(CapView::Local(server)) == Ok::<DescView, crate::error::ErrorKind>(
            DescView::SenderHosted(next.exports_by_cap@[server]),
        ),
        next.received(DescView::ReceiverHosted(next.exports_by_cap@[server])) == Ok::<
            Option<CapView>,
            crate::error::ErrorKind,
        >(Some(CapView::Local(server))),
        brand_of(CapView::Local(server)) == LOCAL_BRAND,
{
    let id = s.export_id_for(server);
    assert(next.exports_by_cap@[server] == id);
    lemma_exported_server_decodes(next, server);
}

proof fn lemma_exported_server_decodes(s: &ConnectionState, server: u64)
    requires
        s.exports_wf(),
        s.exports_by_cap@.contains_key(server),
    ensures
        s.received(DescView::ReceiverHosted(s.exports_by_cap@[server])) == Ok::<
            Option<CapView>,
            crate::error::ErrorKind,
        >(Some(CapView::Local(server))),
{
    assert(s.exports.is_live(s.exports_by_cap@[server]));
}

/// Pipelined calls reach the same server as direct calls. Let the server's
/// answer `qid` hold results whose content reaches, along `ops`, a local
/// server in its capability table, let those results have gone out with
/// descriptors `descs`, and let the caller have decoded them into `rcaps`.
/// A call sent before the `Return`, addressed to `PromisedAnswer(qid, ops)`,
/// and a call sent after it, addressed to the capability that the caller's
/// response holds at `ops`, are both delivered to that server.
pub proof fn lemma_pipeline_coherence(
    server_before: &ConnectionState,
    server: &ConnectionState,
    caller: &ConnectionState,
    qid: u32,
    ops: Seq<PipelineOp>,
    content: Pointer,
    caps: Seq<Option<Client>>,
    descs: Seq<DescView>,
    rcaps: Seq<Option<Client>>,
    local: u64,
)
    requires
        server_before.wf(),
        server.wf(),
        server.answers@.contains_key(qid),
        server.answers@[qid].results matches Some(res) && same_paths(res.content, content) && res.caps@ == caps,
        descs.len() == caps.len(),
        forall|j: int| 0 <= j < caps.len() ==> server_before.desc_for(server, opt_view(#[trigger] caps[j]), descs[j]),
        rcaps.len() == descs.len(),
        forall|j: int| 0 <= j < descs.len() ==> caller.decodes_to(#[trigger] descs[j], opt_view(rcaps[j])),
        pipelined_index(content, ops) matches Some(i) && (i as int) < caps.len() && opt_view(caps[i as int]) == Some(
            CapView::Local(local),
        ),
    ensures
        server.target_cap(TargetView::PromisedAnswer(qid, ops)) == Ok::<CapView, crate::error::ErrorKind>(
            CapView::Local(local),
        ),
        response_cap(content, rcaps, ops) matches CapView::Import(b, eid) && b == caller.brand
            && server.target_cap(TargetView::ImportedCap(eid)) == Ok::<CapView, crate::error::ErrorKind>(
            CapView::Local(local),
        ),
{
    let i = pipelined_index(content, ops)->Some_0;
    let res = server.answers@[qid].results->Some_0;
    assert(pipelined_index(res.content, ops) == pipelined_index(content, ops));
    assert(server_before.settle(CapView::Local(local), server_before.walk_fuel()) == Some(CapView::Local(local)));
    assert(server_before.desc_for(server, opt_view(caps[i as int]), descs[i as int]));
    let eid = server.exports_by_cap@[local];
    assert(descs[i as int] == DescView::SenderHosted(eid));
    assert(caller.decodes_to(descs[i as int], opt_view(rcaps[i as int])));
    assert(server.exports.is_live(eid));
}

} // verus!
