use capnp_rpc_core::calls::{Request, Route, SendOutcome};
use capnp_rpc_core::client::{Client, LocalClient};
use capnp_rpc_core::connection::ConnectionState;
use capnp_rpc_core::dispatch::Event;
use capnp_rpc_core::error::{remote_exception_to_error, ErrorKind, Exception, RpcError};
use capnp_rpc_core::wire::{
    get_pipelined_index, Call, CapDescriptor, DisembargoContext, Message, MessageTarget, Payload, PipelineOp,
    Pointer, PromisedAnswer, Resolution, Return, ReturnBody, SendResultsTo, StructValue,
};

fn text(s: &str) -> Pointer {
    Pointer::Struct(StructValue { data: s.as_bytes().to_vec(), pointers: Vec::new() })
}

fn request(target: Client, caps: Vec<Option<Client>>) -> Request {
    Request { target, interface_id: 0xE0, method_id: 0, content: text("hi"), cap_table: caps, is_tail_call: false }
}

fn drain(c: &mut ConnectionState) -> Vec<Message> {
    std::mem::take(&mut c.outbox)
}

fn exception(kind: ErrorKind, reason: &str) -> Exception {
    Exception { kind: Some(kind), reason: Some(reason.to_string()) }
}

/// A connected to B, with B serving `server` as its bootstrap interface;
/// A's bootstrap question has been answered.
fn bootstrapped(server: u64) -> (ConnectionState, ConnectionState, Client) {
    let mut a = ConnectionState::new(1, None);
    let mut b = ConnectionState::new(2, Some(LocalClient::new(server)));
    let (qid, cap) = a.bootstrap().unwrap();
    assert_eq!(qid, 0);
    for m in drain(&mut a) {
        assert!(matches!(b.handle_message(m), Ok(Event::Nothing)));
    }
    for m in drain(&mut b) {
        assert!(matches!(a.handle_message(m), Ok(Event::Returned { question_id: 0, .. })));
    }
    (a, b, cap)
}

#[test]
fn bootstrap_and_pipelined_call() {
    let mut a = ConnectionState::new(1, None);
    let mut b = ConnectionState::new(2, Some(LocalClient::new(77)));
    let (q0, boot) = a.bootstrap().unwrap();
    assert_eq!(q0, 0);
    let sent = a.send_request(request(boot.duplicate(), Vec::new())).unwrap();
    assert!(matches!(sent, SendOutcome::Sent(1)));
    let out = drain(&mut a);
    assert_eq!(out.len(), 2);
    assert!(matches!(out[0], Message::Bootstrap { question_id: 0 }));
    match &out[1] {
        Message::Call(call) => {
            assert_eq!(call.question_id, 1);
            assert_eq!(call.interface_id, 0xE0);
            assert_eq!(call.method_id, 0);
            assert!(matches!(&call.target, MessageTarget::PromisedAnswer(pa) if pa.question_id == 0 && pa.transform.is_empty()));
        },
        other => panic!("unexpected {:?}", other),
    }
    let mut it = out.into_iter();
    assert!(matches!(b.handle_message(it.next().unwrap()), Ok(Event::Nothing)));
    let params = match b.handle_message(it.next().unwrap()) {
        Ok(Event::Deliver { answer_id: 1, server, interface_id: 0xE0, method_id: 0, params }) => {
            assert_eq!(server.server, 77);
            params
        },
        other => panic!("unexpected {:?}", other),
    };
    b.return_results(1, params.content, Vec::new()).unwrap();
    let replies = drain(&mut b);
    assert_eq!(replies.len(), 2);
    match &replies[0] {
        Message::Return(Return { answer_id: 0, body: ReturnBody::Results(p), .. }) => {
            assert!(matches!(p.content, Pointer::Capability(0)));
            assert!(matches!(p.cap_table[..], [CapDescriptor::SenderHosted(0)]));
        },
        other => panic!("unexpected {:?}", other),
    }
    let mut it = replies.into_iter();
    assert!(matches!(a.handle_message(it.next().unwrap()), Ok(Event::Returned { question_id: 0, .. })));
    match a.handle_message(it.next().unwrap()) {
        Ok(Event::Returned { question_id: 1, response }) => {
            assert!(matches!(&response.content, Pointer::Struct(s) if s.data == b"hi".to_vec()));
        },
        other => panic!("unexpected {:?}", other),
    }
    // The bootstrap promise now forwards to the peer's export.
    assert!(matches!(a.get_resolved(&boot), Some(Client::Import { brand: 1, import_id: 0 })));
    assert!(a.get_resolved(&Client::Local(LocalClient::new(3))).is_none());
    assert!(matches!(a.write_target(&boot), Ok(Route::Remote(MessageTarget::ImportedCap(0)))));
    a.drop_question_ref(1);
    a.drop_question_ref(0);
    let fin = drain(&mut a);
    assert!(matches!(fin[..], [
        Message::Finish { question_id: 1, release_result_caps: true },
        Message::Finish { question_id: 0, release_result_caps: true },
    ]));
}

#[test]
fn cap_echo_refcount() {
    let (mut a, mut b, boot) = bootstrapped(9);
    let c = Client::Local(LocalClient::new(5));
    let sent = a.send_request(request(boot, vec![Some(c.duplicate()), Some(c.duplicate())])).unwrap();
    assert!(matches!(sent, SendOutcome::Sent(1)));
    let e = *a.exports_by_cap.get(&5).unwrap();
    assert_eq!(a.exports.get(e).unwrap().ref_count, 2);
    let call = drain(&mut a).pop().unwrap();
    match &call {
        Message::Call(c) => assert!(matches!(c.params.cap_table[..], [CapDescriptor::SenderHosted(0), CapDescriptor::SenderHosted(0)])),
        other => panic!("unexpected {:?}", other),
    }
    let params = match b.handle_message(call) {
        Ok(Event::Deliver { answer_id: 1, server, params, .. }) => {
            assert_eq!(server.server, 9);
            params
        },
        other => panic!("unexpected {:?}", other),
    };
    assert_eq!(b.imports.get(e).unwrap().remote_ref_count, 2);
    let content = Pointer::Struct(StructValue {
        data: Vec::new(),
        pointers: vec![Pointer::Capability(0), Pointer::Capability(1)],
    });
    b.return_results(1, content, params.caps).unwrap();
    let ret = drain(&mut b).pop().unwrap();
    match &ret {
        Message::Return(Return { body: ReturnBody::Results(p), .. }) => {
            assert!(matches!(p.cap_table[..], [CapDescriptor::ReceiverHosted(0), CapDescriptor::ReceiverHosted(0)]));
        },
        other => panic!("unexpected {:?}", other),
    }
    match a.handle_message(ret) {
        Ok(Event::Returned { question_id: 1, response }) => {
            for cap in response.caps.iter() {
                assert!(matches!(cap, Some(Client::Local(l)) if l.server == 5));
            }
        },
        other => panic!("unexpected {:?}", other),
    }
    a.drop_question_ref(1);
    let fin = drain(&mut a).pop().unwrap();
    assert!(matches!(fin, Message::Finish { question_id: 1, release_result_caps: true }));
    assert!(b.handle_message(fin).is_ok());
    b.release_import(e);
    let rel = drain(&mut b).pop().unwrap();
    assert!(matches!(rel, Message::Release { id: 0, reference_count: 2 }));
    assert!(a.handle_message(rel).is_ok());
    assert!(a.exports.get(e).is_none());
    assert!(a.exports_by_cap.get(&5).is_none());
}

#[test]
fn promise_resolving_to_a_remote_capability() {
    let mut a = ConnectionState::new(1, None);
    let (qid, _) = a.bootstrap().unwrap();
    drain(&mut a);
    let ret = Message::Return(Return {
        answer_id: qid,
        release_param_caps: false,
        body: ReturnBody::Results(Payload { content: Pointer::Capability(0), cap_table: vec![CapDescriptor::SenderPromise(5)] }),
    });
    let promise = match a.handle_message(ret) {
        Ok(Event::Returned { response, .. }) => response.caps[0].as_ref().unwrap().duplicate(),
        other => panic!("unexpected {:?}", other),
    };
    assert!(matches!(promise, Client::Promise { brand: 1, .. }));
    for _ in 0..2 {
        a.send_request(request(promise.duplicate(), Vec::new())).unwrap();
    }
    let resolve = Message::Resolve { promise_id: 5, resolution: Resolution::Cap(CapDescriptor::SenderHosted(6)) };
    assert!(matches!(a.handle_message(resolve), Ok(Event::Nothing)));
    a.send_request(request(promise.duplicate(), Vec::new())).unwrap();
    let out = drain(&mut a);
    assert_eq!(out.len(), 3);
    let targets: Vec<u32> = out
        .iter()
        .map(|m| match m {
            Message::Call(Call { target: MessageTarget::ImportedCap(id), .. }) => *id,
            other => panic!("unexpected {:?}", other),
        })
        .collect();
    assert_eq!(targets, vec![5, 5, 6]);
}

#[test]
fn promise_resolving_to_a_local_capability_is_embargoed() {
    let mut a = ConnectionState::new(1, None);
    let (local_desc, _) = a.write_descriptor(&Client::Local(LocalClient::new(42))).unwrap();
    let x = match local_desc {
        CapDescriptor::SenderHosted(x) => x,
        other => panic!("unexpected {:?}", other),
    };
    let (qid, _) = a.bootstrap().unwrap();
    drain(&mut a);
    let ret = Message::Return(Return {
        answer_id: qid,
        release_param_caps: false,
        body: ReturnBody::Results(Payload { content: Pointer::Capability(0), cap_table: vec![CapDescriptor::SenderPromise(7)] }),
    });
    let promise = match a.handle_message(ret) {
        Ok(Event::Returned { response, .. }) => response.caps[0].as_ref().unwrap().duplicate(),
        other => panic!("unexpected {:?}", other),
    };
    a.send_request(request(promise.duplicate(), Vec::new())).unwrap();
    drain(&mut a);
    let resolve = Message::Resolve { promise_id: 7, resolution: Resolution::Cap(CapDescriptor::ReceiverHosted(x)) };
    assert!(a.handle_message(resolve).is_ok());
    let out = drain(&mut a);
    let e = match &out[..] {
        [Message::Disembargo { target: MessageTarget::ImportedCap(7), context: DisembargoContext::SenderLoopback(e) }] => *e,
        other => panic!("unexpected {:?}", other),
    };
    // Calls wait until the echo arrives.
    assert!(a.get_resolved(&promise).is_none());
    match a.send_request(request(promise.duplicate(), Vec::new())).unwrap() {
        SendOutcome::Embargoed(e2, _) => assert_eq!(e2, e),
        other => panic!("unexpected {:?}", other),
    }
    let echo = Message::Disembargo {
        target: MessageTarget::ImportedCap(x),
        context: DisembargoContext::ReceiverLoopback(e),
    };
    assert!(a.handle_message(echo).is_ok());
    match a.send_request(request(promise.duplicate(), Vec::new())).unwrap() {
        SendOutcome::Redirected(Client::Local(l), _) => assert_eq!(l.server, 42),
        other => panic!("unexpected {:?}", other),
    }
}

#[test]
fn promise_without_calls_resolves_to_local_without_embargo() {
    let mut a = ConnectionState::new(1, None);
    let (d, _) = a.write_descriptor(&Client::Local(LocalClient::new(42))).unwrap();
    let x = match d {
        CapDescriptor::SenderHosted(x) => x,
        other => panic!("unexpected {:?}", other),
    };
    let promise = a.receive_cap(&CapDescriptor::SenderPromise(3)).unwrap().unwrap();
    let resolve = Message::Resolve { promise_id: 3, resolution: Resolution::Cap(CapDescriptor::ReceiverHosted(x)) };
    assert!(a.handle_message(resolve).is_ok());
    assert!(a.outbox.is_empty());
    assert!(matches!(a.write_target(&promise), Ok(Route::Redirect(Client::Local(l))) if l.server == 42));
}

#[test]
fn peer_abort_fails_pending_questions() {
    let mut a = ConnectionState::new(1, None);
    let (qid, boot) = a.bootstrap().unwrap();
    let err = match a.handle_message(Message::Abort(exception(ErrorKind::Failed, "bad"))) {
        Err(e) => e,
        other => panic!("unexpected {:?}", other),
    };
    assert_eq!(err.kind, ErrorKind::Failed);
    assert!(err.reason.contains("bad"));
    let events = a.disconnect(err);
    assert_eq!(events.len(), 1);
    match &events[0] {
        Event::Rejected { question_id, error } => {
            assert_eq!(*question_id, qid);
            assert_eq!(error.kind, ErrorKind::Failed);
            assert!(error.reason.contains("bad"));
        },
        other => panic!("unexpected {:?}", other),
    }
    match a.send_request(request(boot, Vec::new())) {
        Err(e) => assert_eq!(e.kind, ErrorKind::Disconnected),
        other => panic!("unexpected {:?}", other),
    }
    match a.handle_message(Message::Finish { question_id: 0, release_result_caps: true }) {
        Err(e) => assert_eq!(e.kind, ErrorKind::Disconnected),
        other => panic!("unexpected {:?}", other),
    }
    assert!(a.disconnect(RpcError::failed("again")).is_empty());
}

#[test]
fn dropping_a_question_twice_sends_one_finish() {
    let mut a = ConnectionState::new(1, None);
    let (qid, _) = a.bootstrap().unwrap();
    drain(&mut a);
    a.drop_question_ref(qid);
    a.drop_question_ref(qid);
    let out = drain(&mut a);
    assert_eq!(out.len(), 1);
    assert!(matches!(out[0], Message::Finish { question_id: 0, release_result_caps: true }));
    // The question stays until its return arrives, then goes away.
    let ret = Message::Return(Return {
        answer_id: qid,
        release_param_caps: false,
        body: ReturnBody::Exception(exception(ErrorKind::Failed, "late")),
    });
    assert!(matches!(a.handle_message(ret), Ok(Event::Rejected { question_id: 0, .. })));
    assert!(a.questions.get(qid).is_none());
    a.drop_question_ref(qid);
    assert!(a.outbox.is_empty());
}

#[test]
fn local_capability_round_trips_through_its_export() {
    let mut a = ConnectionState::new(1, None);
    let (d, e) = a.write_descriptor(&Client::Local(LocalClient::new(11))).unwrap();
    let id = match d {
        CapDescriptor::SenderHosted(id) => id,
        other => panic!("unexpected {:?}", other),
    };
    assert_eq!(e, Some(id));
    match a.receive_cap(&CapDescriptor::ReceiverHosted(id)).unwrap() {
        Some(c) => {
            assert_eq!(c.get_brand(), 0);
            assert!(matches!(c, Client::Local(l) if l.get_ptr() == 11));
        },
        None => panic!("no capability"),
    }
}

#[test]
fn export_reference_counts_balance() {
    let mut a = ConnectionState::new(1, None);
    let c = Client::Local(LocalClient::new(3));
    for _ in 0..3 {
        a.write_descriptor(&c).unwrap();
    }
    assert_eq!(a.exports.get(0).unwrap().ref_count, 3);
    match a.release_export(0, 4) {
        Err(e) => assert_eq!(e.kind, ErrorKind::Failed),
        other => panic!("unexpected {:?}", other),
    }
    a.release_export(0, 2).unwrap();
    assert_eq!(a.exports.get(0).unwrap().ref_count, 1);
    a.release_export(0, 1).unwrap();
    assert!(a.exports.get(0).is_none());
    assert!(a.release_export(0, 1).is_err());
    // A new export takes the freed id.
    let (d, _) = a.write_descriptor(&Client::Local(LocalClient::new(4))).unwrap();
    assert!(matches!(d, CapDescriptor::SenderHosted(0)));
}

#[test]
fn pipelined_and_direct_calls_reach_the_same_server() {
    let (mut a, mut b, boot) = bootstrapped(50);
    // A asks for a capability and pipelines a call on field 1 of the result.
    a.send_request(request(boot, Vec::new())).unwrap();
    let ops = vec![PipelineOp::GetPointerField(1)];
    let pipelined = a.get_pipelined_cap(1, &ops).unwrap();
    a.send_request(request(pipelined.duplicate(), Vec::new())).unwrap();
    let mut out = drain(&mut a).into_iter();
    let first = out.next().unwrap();
    let second = out.next().unwrap();
    assert!(matches!(&second, Message::Call(Call { target: MessageTarget::PromisedAnswer(pa), .. })
        if pa.question_id == 1 && pa.transform == ops));
    // B answers the first call with a local server at field 1.
    assert!(matches!(b.handle_message(first), Ok(Event::Deliver { answer_id: 1, .. })));
    let content = Pointer::Struct(StructValue {
        data: Vec::new(),
        pointers: vec![Pointer::Null, Pointer::Capability(0)],
    });
    b.return_results(1, content, vec![Some(Client::Local(LocalClient::new(60)))]).unwrap();
    // The pipelined call reaches that server.
    match b.handle_message(second) {
        Ok(Event::Deliver { answer_id: 2, server, .. }) => assert_eq!(server.server, 60),
        other => panic!("unexpected {:?}", other),
    }
    // After the return, calls on the same capability go to its export directly.
    let ret = drain(&mut b).into_iter().find(|m| matches!(m, Message::Return(_))).unwrap();
    assert!(matches!(a.handle_message(ret), Ok(Event::Returned { question_id: 1, .. })));
    a.send_request(request(pipelined, Vec::new())).unwrap();
    let direct = drain(&mut a).pop().unwrap();
    let eid = *b.exports_by_cap.get(&60).unwrap();
    assert!(matches!(&direct, Message::Call(Call { target: MessageTarget::ImportedCap(id), .. }) if *id == eid));
    match b.handle_message(direct) {
        Ok(Event::Deliver { server, .. }) => assert_eq!(server.server, 60),
        other => panic!("unexpected {:?}", other),
    }
}

#[test]
fn call_pipelined_on_a_pending_answer_is_deferred() {
    let (mut a, mut b, boot) = bootstrapped(50);
    a.send_request(request(boot, Vec::new())).unwrap();
    let p = a.get_pipelined_cap(1, &vec![PipelineOp::Noop]).unwrap();
    a.send_request(request(p, Vec::new())).unwrap();
    let mut out = drain(&mut a).into_iter();
    assert!(matches!(b.handle_message(out.next().unwrap()), Ok(Event::Deliver { .. })));
    match b.handle_message(out.next().unwrap()) {
        Ok(Event::Deferred(call)) => assert_eq!(call.question_id, 2),
        other => panic!("unexpected {:?}", other),
    }
}

#[test]
fn exception_return_breaks_pipelined_capabilities() {
    let mut a = ConnectionState::new(1, None);
    let (qid, boot) = a.bootstrap().unwrap();
    let ret = Message::Return(Return {
        answer_id: qid,
        release_param_caps: false,
        body: ReturnBody::Exception(exception(ErrorKind::Overloaded, "busy")),
    });
    match a.handle_message(ret) {
        Ok(Event::Rejected { error, .. }) => {
            assert_eq!(error.kind, ErrorKind::Overloaded);
            assert_eq!(error.reason, "remote exception: busy");
        },
        other => panic!("unexpected {:?}", other),
    }
    match a.write_target(&boot) {
        Ok(Route::Redirect(Client::Broken(e))) => assert_eq!(e.kind, ErrorKind::Overloaded),
        other => panic!("unexpected {:?}", other),
    }
}

#[test]
fn unsupported_return_kinds_reject_the_question() {
    let mut a = ConnectionState::new(1, None);
    let (qid, _) = a.bootstrap().unwrap();
    let ret = Message::Return(Return { answer_id: qid, release_param_caps: false, body: ReturnBody::Canceled });
    match a.handle_message(ret) {
        Ok(Event::Rejected { error, .. }) => assert_eq!(error.kind, ErrorKind::Unimplemented),
        other => panic!("unexpected {:?}", other),
    }
}

#[test]
fn protocol_errors() {
    let mut a = ConnectionState::new(1, None);
    let ret = Message::Return(Return { answer_id: 9, release_param_caps: false, body: ReturnBody::Canceled });
    assert_eq!(a.handle_message(ret).unwrap_err().kind, ErrorKind::Failed);
    assert_eq!(a.handle_message(Message::Finish { question_id: 4, release_result_caps: true }).unwrap_err().kind, ErrorKind::Failed);
    assert_eq!(a.receive_cap(&CapDescriptor::ThirdPartyHosted).unwrap_err().kind, ErrorKind::Unimplemented);
    assert_eq!(a.receive_cap(&CapDescriptor::ReceiverHosted(3)).unwrap_err().kind, ErrorKind::Failed);
    let pa = PromisedAnswer { question_id: 8, transform: Vec::new() };
    assert_eq!(a.receive_cap(&CapDescriptor::ReceiverAnswer(pa)).unwrap_err().kind, ErrorKind::Failed);
    let disembargo = Message::Disembargo { target: MessageTarget::ImportedCap(0), context: DisembargoContext::Accept };
    assert_eq!(a.handle_message(disembargo).unwrap_err().kind, ErrorKind::Unimplemented);
    let echo = Message::Disembargo { target: MessageTarget::ImportedCap(0), context: DisembargoContext::ReceiverLoopback(3) };
    assert_eq!(a.handle_message(echo).unwrap_err().kind, ErrorKind::Failed);
    let call = Message::Call(Call {
        question_id: 0,
        target: MessageTarget::ImportedCap(0),
        interface_id: 1,
        method_id: 2,
        params: Payload { content: Pointer::Null, cap_table: Vec::new() },
        send_results_to: SendResultsTo::Yourself,
    });
    assert_eq!(a.handle_message(call).unwrap_err().kind, ErrorKind::Unimplemented);
    let call = Message::Call(Call {
        question_id: 0,
        target: MessageTarget::ImportedCap(0),
        interface_id: 1,
        method_id: 2,
        params: Payload { content: Pointer::Null, cap_table: Vec::new() },
        send_results_to: SendResultsTo::Caller,
    });
    assert_eq!(a.handle_message(call).unwrap_err().kind, ErrorKind::Failed);
    let foreign = Client::Import { brand: 99, import_id: 0 };
    assert_eq!(a.write_descriptor(&foreign).unwrap_err().kind, ErrorKind::Unimplemented);
    assert!(matches!(a.write_target(&foreign), Ok(Route::Redirect(Client::Import { brand: 99, import_id: 0 }))));
    assert_eq!(a.get_pipelined_cap(0, &Vec::new()).unwrap_err().kind, ErrorKind::Failed);
}

#[test]
fn bootstrap_without_an_interface_is_unimplemented() {
    let mut b = ConnectionState::new(2, None);
    assert!(b.handle_message(Message::Bootstrap { question_id: 0 }).is_ok());
    match drain(&mut b).pop().unwrap() {
        Message::Return(Return { answer_id: 0, body: ReturnBody::Exception(e), .. }) => {
            assert_eq!(e.kind, Some(ErrorKind::Unimplemented));
        },
        other => panic!("unexpected {:?}", other),
    }
    assert_eq!(b.handle_message(Message::Bootstrap { question_id: 0 }).unwrap_err().kind, ErrorKind::Failed);
}

#[test]
fn unknown_features_are_answered_with_unimplemented() {
    let mut b = ConnectionState::new(2, None);
    assert!(matches!(b.handle_message(Message::Join), Ok(Event::Nothing)));
    assert!(matches!(drain(&mut b)[..], [Message::Unimplemented]));
    assert!(matches!(b.handle_message(Message::Unimplemented), Ok(Event::Nothing)));
    assert!(b.outbox.is_empty());
}

fn pipelined_call(question_id: u32, answer: u32, ops: Vec<PipelineOp>) -> Message {
    Message::Call(Call {
        question_id,
        target: MessageTarget::PromisedAnswer(PromisedAnswer { question_id: answer, transform: ops }),
        interface_id: 1,
        method_id: 2,
        params: Payload { content: Pointer::Null, cap_table: Vec::new() },
        send_results_to: SendResultsTo::Caller,
    })
}

#[test]
fn call_on_a_broken_capability_returns_its_error() {
    let mut b = ConnectionState::new(2, Some(LocalClient::new(50)));
    assert!(b.handle_message(Message::Bootstrap { question_id: 0 }).is_ok());
    drain(&mut b);
    // The bootstrap result is a capability, not a struct: the path breaks.
    let call = pipelined_call(1, 0, vec![PipelineOp::GetPointerField(0)]);
    assert!(matches!(b.handle_message(call), Ok(Event::Nothing)));
    match drain(&mut b).pop().unwrap() {
        Message::Return(Return { answer_id: 1, body: ReturnBody::Exception(e), .. }) => {
            assert_eq!(e.kind, Some(ErrorKind::Failed));
            assert_eq!(e.reason.as_deref(), Some("pipelined path does not reach a capability"));
        },
        other => panic!("unexpected {:?}", other),
    }
    // A broken capability is exported; calls on it come back with its error.
    let (d, e) = b.write_descriptor(&Client::Broken(RpcError::failed("gone"))).unwrap();
    let id = match d {
        CapDescriptor::SenderHosted(id) => id,
        other => panic!("unexpected {:?}", other),
    };
    assert_eq!(e, Some(id));
    let call = Message::Call(Call {
        question_id: 2,
        target: MessageTarget::ImportedCap(id),
        interface_id: 1,
        method_id: 2,
        params: Payload { content: Pointer::Null, cap_table: Vec::new() },
        send_results_to: SendResultsTo::Caller,
    });
    assert!(matches!(b.handle_message(call), Ok(Event::Nothing)));
    match drain(&mut b).pop().unwrap() {
        Message::Return(Return { answer_id: 2, body: ReturnBody::Exception(e), .. }) => {
            assert_eq!(e.reason.as_deref(), Some("gone"));
        },
        other => panic!("unexpected {:?}", other),
    }
}

#[test]
fn call_pipelined_on_a_failed_answer_fails() {
    let mut b = ConnectionState::new(2, None);
    assert!(b.handle_message(Message::Bootstrap { question_id: 0 }).is_ok());
    drain(&mut b);
    assert!(matches!(b.handle_message(pipelined_call(1, 0, Vec::new())), Ok(Event::Nothing)));
    match drain(&mut b).pop().unwrap() {
        Message::Return(Return { answer_id: 1, body: ReturnBody::Exception(e), .. }) => {
            assert_eq!(e.kind, Some(ErrorKind::Failed));
        },
        other => panic!("unexpected {:?}", other),
    }
}

#[test]
fn remote_exceptions_keep_their_kind() {
    for kind in [ErrorKind::Failed, ErrorKind::Overloaded, ErrorKind::Disconnected, ErrorKind::Unimplemented] {
        let e = remote_exception_to_error(&exception(kind, "why"));
        assert_eq!(e.kind, kind);
        assert_eq!(e.reason, "remote exception: why");
    }
    let malformed = Exception { kind: None, reason: Some("x".to_string()) };
    let e = remote_exception_to_error(&malformed);
    assert_eq!(e.kind, ErrorKind::Failed);
    assert_eq!(e.reason, "remote exception: (malformed error)");
    let no_reason = Exception { kind: Some(ErrorKind::Overloaded), reason: None };
    assert_eq!(remote_exception_to_error(&no_reason).reason, "remote exception: (malformed error)");
}

#[test]
fn pipelined_paths_through_content() {
    let content = Pointer::Struct(StructValue {
        data: vec![1, 2],
        pointers: vec![
            Pointer::Capability(4),
            Pointer::Struct(StructValue { data: Vec::new(), pointers: vec![Pointer::Null, Pointer::Capability(2)] }),
        ],
    });
    assert_eq!(get_pipelined_index(&content, &vec![PipelineOp::GetPointerField(0)]), Some(4));
    assert_eq!(
        get_pipelined_index(&content, &vec![PipelineOp::GetPointerField(1), PipelineOp::Noop, PipelineOp::GetPointerField(1)]),
        Some(2)
    );
    assert_eq!(get_pipelined_index(&content, &vec![PipelineOp::GetPointerField(1), PipelineOp::GetPointerField(0)]), None);
    assert_eq!(get_pipelined_index(&content, &vec![PipelineOp::GetPointerField(7)]), None);
    assert_eq!(get_pipelined_index(&content, &vec![PipelineOp::GetPointerField(0), PipelineOp::GetPointerField(0)]), None);
    assert_eq!(get_pipelined_index(&content, &Vec::new()), None);
    let copy = content.duplicate();
    assert_eq!(get_pipelined_index(&copy, &vec![PipelineOp::GetPointerField(0)]), Some(4));
}

#[test]
fn descriptor_for_a_pending_answer_becomes_a_promise_for_its_result() {
    let (mut a, mut b, boot) = bootstrapped(50);
    a.send_request(request(boot, Vec::new())).unwrap();
    let call = drain(&mut a).pop().unwrap();
    assert!(matches!(b.handle_message(call), Ok(Event::Deliver { answer_id: 1, .. })));
    // The peer names our pending answer 1 in a descriptor.
    let pa = PromisedAnswer { question_id: 1, transform: vec![PipelineOp::GetPointerField(0)] };
    let promise = b.receive_cap(&CapDescriptor::ReceiverAnswer(pa)).unwrap().unwrap();
    assert!(matches!(promise, Client::Promise { brand: 2, .. }));
    assert!(b.get_resolved(&promise).is_none());
    assert!(matches!(b.write_target(&promise), Ok(Route::Redirect(Client::AnswerPipeline { answer_id: 1, .. }))));
    let content = Pointer::Struct(StructValue { data: Vec::new(), pointers: vec![Pointer::Capability(0)] });
    b.return_results(1, content, vec![Some(Client::Local(LocalClient::new(60)))]).unwrap();
    assert!(matches!(b.get_resolved(&promise), Some(Client::Local(l)) if l.server == 60));
}

#[test]
fn failed_answer_breaks_promises_on_its_result() {
    let (mut a, mut b, boot) = bootstrapped(50);
    a.send_request(request(boot, Vec::new())).unwrap();
    let call = drain(&mut a).pop().unwrap();
    assert!(matches!(b.handle_message(call), Ok(Event::Deliver { answer_id: 1, .. })));
    let pa = PromisedAnswer { question_id: 1, transform: Vec::new() };
    let promise = b.receive_cap(&CapDescriptor::ReceiverAnswer(pa)).unwrap().unwrap();
    b.return_exception(1, &RpcError::failed("no")).unwrap();
    match b.get_resolved(&promise) {
        Some(Client::Broken(e)) => assert_eq!(e.reason, "no"),
        other => panic!("unexpected {:?}", other),
    }
}

#[test]
fn tail_calls_ask_for_results_to_stay_with_the_callee() {
    let (mut a, _b, boot) = bootstrapped(50);
    let mut req = request(boot, Vec::new());
    req.is_tail_call = true;
    assert!(matches!(a.send_request(req), Ok(SendOutcome::Sent(1))));
    match drain(&mut a).pop().unwrap() {
        Message::Call(call) => assert_eq!(call.send_results_to, SendResultsTo::Yourself),
        other => panic!("unexpected {:?}", other),
    }
    assert!(a.questions.get(1).unwrap().is_tail_call);
}

#[test]
fn calls_on_a_capability_of_another_connection_are_redirected() {
    let mut a = ConnectionState::new(1, None);
    let other = Client::Pipeline { brand: 7, question_id: 2, ops: Vec::new() };
    assert!(matches!(a.write_target(&other), Ok(Route::Redirect(Client::Pipeline { brand: 7, .. }))));
    let sent = a.send_request(request(Client::Promise { brand: 7, promise_id: 0 }, Vec::new())).unwrap();
    assert!(matches!(sent, SendOutcome::Redirected(Client::Promise { brand: 7, .. }, _)));
}

#[test]
fn promise_for_a_pending_answer_is_sent_as_a_sender_promise_and_resolved_later() {
    let (mut a, mut b, boot) = bootstrapped(50);
    a.send_request(request(boot, Vec::new())).unwrap();
    let call = drain(&mut a).pop().unwrap();
    assert!(matches!(b.handle_message(call), Ok(Event::Deliver { answer_id: 1, .. })));
    let pa = PromisedAnswer { question_id: 1, transform: vec![PipelineOp::GetPointerField(0)] };
    let promise = b.receive_cap(&CapDescriptor::ReceiverAnswer(pa)).unwrap().unwrap();
    // Sending that promise back exports it as a promise.
    let (d, _) = b.write_descriptor(&promise).unwrap();
    let id = match d {
        CapDescriptor::SenderPromise(id) => id,
        other => panic!("unexpected {:?}", other),
    };
    // A call on it waits for the answer.
    let call = Message::Call(Call {
        question_id: 7,
        target: MessageTarget::ImportedCap(id),
        interface_id: 1,
        method_id: 2,
        params: Payload { content: Pointer::Null, cap_table: Vec::new() },
        send_results_to: SendResultsTo::Caller,
    });
    let deferred = match b.handle_message(call) {
        Ok(Event::Deferred(call)) => call,
        other => panic!("unexpected {:?}", other),
    };
    let content = Pointer::Struct(StructValue { data: Vec::new(), pointers: vec![Pointer::Capability(0)] });
    b.return_results(1, content, vec![Some(Client::Local(LocalClient::new(60)))]).unwrap();
    let out = drain(&mut b);
    assert!(out.iter().any(|m| matches!(m, Message::Resolve { promise_id, resolution: Resolution::Cap(CapDescriptor::SenderHosted(_)) } if *promise_id == id)));
    assert!(matches!(out.last(), Some(Message::Return(Return { answer_id: 1, .. }))));
    // Handled again, the call now reaches the server.
    match b.handle_message(Message::Call(deferred)) {
        Ok(Event::Deliver { answer_id: 7, server, .. }) => assert_eq!(server.server, 60),
        other => panic!("unexpected {:?}", other),
    }
}

#[test]
fn failed_answer_resolves_its_exported_promise_with_the_error() {
    let (mut a, mut b, boot) = bootstrapped(50);
    a.send_request(request(boot, Vec::new())).unwrap();
    let call = drain(&mut a).pop().unwrap();
    assert!(matches!(b.handle_message(call), Ok(Event::Deliver { answer_id: 1, .. })));
    let pa = PromisedAnswer { question_id: 1, transform: Vec::new() };
    let promise = b.receive_cap(&CapDescriptor::ReceiverAnswer(pa)).unwrap().unwrap();
    let (d, _) = b.write_descriptor(&promise).unwrap();
    let id = match d {
        CapDescriptor::SenderPromise(id) => id,
        other => panic!("unexpected {:?}", other),
    };
    b.return_exception(1, &RpcError::failed("no")).unwrap();
    let out = drain(&mut b);
    assert!(out.iter().any(|m| matches!(m, Message::Resolve { promise_id, resolution: Resolution::Exception(_) } if *promise_id == id)));
}

#[test]
fn call_on_a_capability_the_peer_hosts_is_passed_back_to_it() {
    let (mut a, mut b, boot) = bootstrapped(50);
    // A sends B its own capability, then B returns it in its results.
    a.send_request(request(boot, vec![Some(Client::Local(LocalClient::new(5)))])).unwrap();
    let call = drain(&mut a).pop().unwrap();
    let params = match b.handle_message(call) {
        Ok(Event::Deliver { answer_id: 1, params, .. }) => params,
        other => panic!("unexpected {:?}", other),
    };
    b.return_results(1, Pointer::Capability(0), params.caps).unwrap();
    drain(&mut b);
    // A pipelines a call on answer 1 of B: that capability lives on A.
    let call = pipelined_call(9, 1, Vec::new());
    assert!(matches!(b.handle_message(call), Ok(Event::Nothing)));
    let fwd = drain(&mut b).pop().unwrap();
    let q = match &fwd {
        Message::Call(c) => {
            assert!(matches!(c.target, MessageTarget::ImportedCap(0)));
            c.question_id
        },
        other => panic!("unexpected {:?}", other),
    };
    // A serves the forwarded call and returns; B completes its answer 9.
    let params = match a.handle_message(fwd) {
        Ok(Event::Deliver { server, params, .. }) => {
            assert_eq!(server.server, 5);
            params
        },
        other => panic!("unexpected {:?}", other),
    };
    let aid = q;
    a.return_results(aid, params.content, Vec::new()).unwrap();
    let ret = drain(&mut a).pop().unwrap();
    assert!(matches!(b.handle_message(ret), Ok(Event::Nothing)));
    let out = drain(&mut b);
    assert!(out.iter().any(|m| matches!(m, Message::Finish { question_id, .. } if *question_id == q)));
    assert!(matches!(out.last(), Some(Message::Return(Return { answer_id: 9, body: ReturnBody::Results(_), .. }))));
}

#[test]
fn finish_releases_the_exports_of_the_results() {
    let (mut a, mut b, boot) = bootstrapped(50);
    a.send_request(request(boot, Vec::new())).unwrap();
    let call = drain(&mut a).pop().unwrap();
    assert!(matches!(b.handle_message(call), Ok(Event::Deliver { answer_id: 1, .. })));
    let caps = vec![Some(Client::Local(LocalClient::new(70))), Some(Client::Local(LocalClient::new(70)))];
    b.return_results(1, Pointer::Null, caps).unwrap();
    let e = *b.exports_by_cap.get(&70).unwrap();
    assert_eq!(b.exports.get(e).unwrap().ref_count, 2);
    assert!(b.handle_message(Message::Finish { question_id: 1, release_result_caps: true }).is_ok());
    assert!(b.exports.get(e).is_none());
    assert!(b.exports_by_cap.get(&70).is_none());
}
