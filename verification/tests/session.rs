use chirp::protocol::packet::Packet;
use chirp::transfer::session::{
    feedback, received_syn, syn_packet, syn_reply, DrainStep, Feedback, FinDrain, Handshake,
    SendOutcome, SynReply, SynStep,
};

#[test]
fn a_refused_syn_is_tried_again() {
    let mut h = Handshake::new();
    for _ in 0..9 {
        assert_eq!(h.on_send(SendOutcome::Refused), SynStep::Retry { pause_ms: 200 });
    }
    assert_eq!(h.on_send(SendOutcome::Refused), SynStep::GiveUp { pause_ms: 200 });
}

#[test]
fn an_answer_connects() {
    let mut h = Handshake::new();
    assert_eq!(h.on_send(SendOutcome::Sent), SynStep::Await);
    assert_eq!(h.on_reply(SynReply::TimedOut), SynStep::Retry { pause_ms: 0 });
    assert_eq!(h.on_reply(SynReply::Refused), SynStep::Retry { pause_ms: 200 });
    assert_eq!(h.on_reply(SynReply::Other), SynStep::Retry { pause_ms: 0 });
    assert_eq!(h.on_reply(SynReply::Failed), SynStep::Retry { pause_ms: 0 });
    assert_eq!(h.on_reply(SynReply::Ack), SynStep::Connected);
    assert_eq!(h.attempt, 4);
    assert_eq!(h.on_send(SendOutcome::Failed), SynStep::Abort);
}

#[test]
fn silence_ends_the_handshake() {
    let mut h = Handshake::new();
    for _ in 0..9 {
        assert_eq!(h.on_reply(SynReply::TimedOut), SynStep::Retry { pause_ms: 0 });
    }
    assert_eq!(h.on_reply(SynReply::TimedOut), SynStep::GiveUp { pause_ms: 0 });
}

#[test]
fn answers_are_told_apart() {
    assert_eq!(syn_reply(&Packet::ack(0).encode()), SynReply::Ack);
    assert_eq!(syn_reply(&Packet::fin(0).encode()), SynReply::Other);
    assert_eq!(syn_reply(b"garbage"), SynReply::Other);
}

#[test]
fn syns_are_made_and_found() {
    let p = syn_packet(Some(9), "x");
    assert_eq!(p.payload, [0, 0, 0, 0, 0, 0, 0, 9, b'x']);
    assert_eq!(syn_packet(None, "").payload, [0xFF; 8]);
    assert_eq!(received_syn(&p.encode()).unwrap().payload, p.payload);
    assert!(received_syn(&Packet::ack(0).encode()).is_none());
    assert!(received_syn(&[]).is_none());
}

#[test]
fn feedback_is_read() {
    let nack = Packet::nack(&[4]).encode();
    assert!(matches!(feedback(&nack, None), Feedback::Nack(p) if p.payload == [0, 0, 0, 4]));
    let ack = Packet::ack(12).encode();
    assert!(matches!(feedback(&ack, None), Feedback::Ignored));
    assert!(matches!(feedback(&ack, Some(12)), Feedback::Done));
    assert!(matches!(feedback(&ack, Some(13)), Feedback::Ignored));
    assert!(matches!(feedback(&[1, 2], Some(13)), Feedback::Ignored));
}

#[test]
fn the_fin_is_repeated_until_the_deadline() {
    let mut d = FinDrain::new(1_000, 2);
    assert_eq!(d.poll(1_000), DrainStep::SendFin);
    assert_eq!(d.poll(1_001), DrainStep::Listen);
    assert_eq!(d.poll(500_999), DrainStep::Listen);
    assert_eq!(d.poll(501_000), DrainStep::SendFin);
    assert_eq!(d.poll(1_001_000), DrainStep::SendFin);
    assert_eq!(d.poll(2_000_999), DrainStep::SendFin);
    assert_eq!(d.poll(2_001_000), DrainStep::TimedOut);
    assert_eq!(FinDrain::new(0, 0).poll(0), DrainStep::TimedOut);
    // Any timeout can be told.
    let mut long = FinDrain::new(u64::MAX, u64::MAX);
    assert_eq!(long.deadline_us, u64::MAX as u128 * 1_000_001);
    assert_eq!(long.poll(u64::MAX), DrainStep::SendFin);
    assert_eq!(long.poll(u64::MAX), DrainStep::Listen);
}
