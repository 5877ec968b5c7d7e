use batcher::{Discard, Oversized, Recorder, Sender, Sink, MAX_MSG_SIZE};
use bytes::Bytes;

/// Payload lengths that look random and stay below the limit.
fn mixed_lens(count: usize) -> Vec<usize> {
    let mut lens: Vec<usize> = Vec::new();
    let mut x: usize = 12345;
    for _ in 0..count {
        x = (x * 1103515245 + 12345) % 2147483648;
        lens.push(x % 1400);
    }
    lens
}

/// One payload per length, each with contents of its own.
fn pool(lens: &[usize]) -> Vec<Bytes> {
    lens.iter()
        .enumerate()
        .map(|(i, &len)| {
            let bytes: Vec<u8> = (0..len).map(|j| ((i * 31 + j) % 251) as u8).collect();
            Bytes::from(bytes)
        })
        .collect()
}

fn total(message: &[Vec<u8>]) -> usize {
    message.iter().map(|payload| payload.len()).sum()
}

#[test]
fn every_message_is_below_the_limit() {
    let payloads = pool(&mixed_lens(200));
    let refs: Vec<&Bytes> = payloads.iter().collect();
    let mut sink = Recorder::new();
    let r = Sender::new(7).send_payloads(&refs, &mut sink);
    assert_eq!(r, Ok(sink.messages().len()));
    assert!(!sink.messages().is_empty());
    for message in sink.messages() {
        assert!(!message.is_empty());
        assert!(total(message) < MAX_MSG_SIZE);
    }
}

#[test]
fn messages_end_to_end_are_the_payloads() {
    let payloads = pool(&mixed_lens(200));
    let refs: Vec<&Bytes> = payloads.iter().collect();
    let mut sink = Recorder::new();
    let r = Sender::new(7).send_payloads(&refs, &mut sink);
    assert!(r.is_ok());
    let sent: Vec<Vec<u8>> = sink.messages().iter().flatten().cloned().collect();
    let given: Vec<Vec<u8>> = payloads.iter().map(|payload| payload.to_vec()).collect();
    assert_eq!(sent, given);
}

#[test]
fn a_message_is_closed_only_when_the_next_payload_does_not_fit() {
    let payloads = pool(&mixed_lens(200));
    let refs: Vec<&Bytes> = payloads.iter().collect();
    let mut sink = Recorder::new();
    let r = Sender::new(7).send_payloads(&refs, &mut sink);
    assert!(r.is_ok());
    let messages = sink.messages();
    for i in 0..messages.len() - 1 {
        assert!(total(&messages[i]) + messages[i + 1][0].len() >= MAX_MSG_SIZE);
    }
}

#[test]
fn same_payloads_give_the_same_messages() {
    let payloads = pool(&mixed_lens(120));
    let refs: Vec<&Bytes> = payloads.iter().collect();
    let mut first = Recorder::new();
    let mut second = Recorder::new();
    let r1 = Sender::new(1).send_payloads(&refs, &mut first);
    let r2 = Sender::new(2).send_payloads(&refs, &mut second);
    assert_eq!(r1, r2);
    assert_eq!(first.messages(), second.messages());
}

#[test]
fn a_recycled_buffer_changes_nothing() {
    let warm_up = pool(&[300, 300, 300, 300, 300, 300, 300]);
    let warm_refs: Vec<&Bytes> = warm_up.iter().collect();
    let payloads = pool(&mixed_lens(50));
    let refs: Vec<&Bytes> = payloads.iter().collect();

    let mut used = Sender::new(1);
    let mut earlier = Recorder::new();
    assert_eq!(used.send_payloads(&warm_refs, &mut earlier), Ok(2));
    assert_eq!(used.message().len(), 3);
    let mut recycled = Recorder::new();
    let r_used = used.send_payloads(&refs, &mut recycled);

    let mut fresh = Sender::new(1);
    let mut clean = Recorder::new();
    let r_fresh = fresh.send_payloads(&refs, &mut clean);

    assert_eq!(r_used, r_fresh);
    assert_eq!(recycled.messages(), clean.messages());
    assert_eq!(used.message(), fresh.message());
}

#[test]
fn a_sink_collects_the_messages_of_several_calls() {
    let a = pool(&[1000, 1000]);
    let b = pool(&[5, 6]);
    let a_refs: Vec<&Bytes> = a.iter().collect();
    let b_refs: Vec<&Bytes> = b.iter().collect();
    let mut sender = Sender::new(3);
    let mut sink = Recorder::new();
    assert_eq!(sender.send_payloads(&a_refs, &mut sink), Ok(2));
    assert_eq!(sender.send_payloads(&b_refs, &mut sink), Ok(1));
    let expected: Vec<Vec<Vec<u8>>> = vec![
        vec![a[0].to_vec()],
        vec![a[1].to_vec()],
        vec![b[0].to_vec(), b[1].to_vec()],
    ];
    assert_eq!(sink.messages(), &expected);
}

#[test]
fn no_fewer_messages_are_possible() {
    // 4 payloads of 700 bytes: no two fit together, so 4 messages are needed.
    let payloads = pool(&[700, 700, 700, 700]);
    let refs: Vec<&Bytes> = payloads.iter().collect();
    let mut sink = Recorder::new();
    assert_eq!(Sender::new(1).send_payloads(&refs, &mut sink), Ok(4));
    // 699 + 700 = 1399 fits: 2 messages are enough.
    let payloads = pool(&[699, 700, 699, 700]);
    let refs: Vec<&Bytes> = payloads.iter().collect();
    let mut sink = Recorder::new();
    assert_eq!(Sender::new(1).send_payloads(&refs, &mut sink), Ok(2));
}

#[test]
fn next_message_takes_the_longest_run_that_fits() {
    let payloads = pool(&[400, 400, 400, 400, 400]);
    let refs: Vec<&Bytes> = payloads.iter().collect();
    let mut sender = Sender::new(1);
    assert_eq!(sender.next_message(&refs), 3);
    let expected: Vec<&[u8]> = vec![&payloads[0][..], &payloads[1][..], &payloads[2][..]];
    assert_eq!(sender.message(), &expected[..]);
    assert_eq!(sender.next_message(&refs[3..]), 2);
    let expected: Vec<&[u8]> = vec![&payloads[3][..], &payloads[4][..]];
    assert_eq!(sender.message(), &expected[..]);
}

#[test]
fn next_message_takes_nothing_from_nothing() {
    let refs: Vec<&Bytes> = Vec::new();
    let mut sender = Sender::new(1);
    assert_eq!(sender.next_message(&refs), 0);
    assert!(sender.message().is_empty());
}

#[test]
fn next_message_takes_nothing_in_front_of_an_oversized_payload() {
    let payloads = pool(&[1400, 10]);
    let refs: Vec<&Bytes> = payloads.iter().collect();
    let mut sender = Sender::new(1);
    assert_eq!(sender.next_message(&refs), 0);
    assert!(sender.message().is_empty());
    assert_eq!(sender.next_message(&refs[1..]), 1);
}

#[test]
fn next_message_empties_the_buffer_first() {
    let payloads = pool(&[100, 200, 1300]);
    let refs: Vec<&Bytes> = payloads.iter().collect();
    let mut sender = Sender::new(1);
    assert_eq!(sender.next_message(&refs), 2);
    assert_eq!(sender.next_message(&refs[2..]), 1);
    assert_eq!(sender.message().len(), 1);
    assert_eq!(sender.message()[0].len(), 1300);
}

#[test]
fn message_borrows_the_payload_bytes() {
    let payloads = pool(&[64, 32]);
    let refs: Vec<&Bytes> = payloads.iter().collect();
    let mut sender = Sender::new(1);
    assert_eq!(sender.next_message(&refs), 2);
    let group = sender.message();
    assert_eq!(group[0].as_ptr(), payloads[0].as_ptr());
    assert_eq!(group[1].as_ptr(), payloads[1].as_ptr());
    assert_eq!(group[0], &payloads[0][..]);
    assert_eq!(group[1], &payloads[1][..]);
}

#[test]
fn buffer_holds_the_last_message_after_a_call() {
    let payloads = pool(&[900, 900, 20, 30]);
    let refs: Vec<&Bytes> = payloads.iter().collect();
    let mut sender = Sender::new(1);
    let mut sink = Discard::new();
    assert_eq!(sender.send_payloads(&refs, &mut sink), Ok(2));
    let expected: Vec<&[u8]> = vec![&payloads[1][..], &payloads[2][..], &payloads[3][..]];
    assert_eq!(sender.message(), &expected[..]);
}

#[test]
fn buffer_is_empty_after_an_oversized_payload() {
    let payloads = pool(&[900, 1500]);
    let refs: Vec<&Bytes> = payloads.iter().collect();
    let mut sender = Sender::new(1);
    let mut sink = Discard::new();
    assert_eq!(
        sender.send_payloads(&refs, &mut sink),
        Err(Oversized { index: 1, len: 1500 })
    );
    assert!(sender.message().is_empty());
}

#[test]
fn buffer_is_empty_after_an_empty_call() {
    let payloads = pool(&[900]);
    let refs: Vec<&Bytes> = payloads.iter().collect();
    let none: Vec<&Bytes> = Vec::new();
    let mut sender = Sender::new(1);
    let mut sink = Discard::new();
    assert_eq!(sender.send_payloads(&refs, &mut sink), Ok(1));
    assert_eq!(sender.message().len(), 1);
    assert_eq!(sender.send_payloads(&none, &mut sink), Ok(0));
    assert!(sender.message().is_empty());
}

#[test]
fn sender_keeps_its_id() {
    let payloads = pool(&[1, 2, 3]);
    let refs: Vec<&Bytes> = payloads.iter().collect();
    let mut sender = Sender::new(42);
    assert_eq!(sender.id(), 42);
    let mut sink = Discard::new();
    assert_eq!(sender.send_payloads(&refs, &mut sink), Ok(1));
    assert_eq!(sender.id(), 42);
}

#[test]
fn recorder_copies_what_it_is_handed() {
    let first: Vec<u8> = vec![1, 2, 3];
    let second: Vec<u8> = vec![];
    let third: Vec<u8> = vec![9];
    let mut sink = Recorder::new();
    assert!(sink.messages().is_empty());
    sink.send_msg(&[&first[..], &second[..]]);
    sink.send_msg(&[]);
    sink.send_msg(&[&third[..]]);
    let expected: Vec<Vec<Vec<u8>>> = vec![vec![first, second], vec![], vec![third]];
    assert_eq!(sink.messages(), &expected);
}

#[test]
fn discard_accepts_any_message() {
    let payload: Vec<u8> = vec![0; 4000];
    let mut sink = Discard::new();
    sink.send_msg(&[]);
    sink.send_msg(&[&payload[..], &payload[..]]);
}

#[test]
fn shared_payloads_may_repeat_in_the_input() {
    let payloads = pool(&[600]);
    let refs: Vec<&Bytes> = vec![&payloads[0], &payloads[0], &payloads[0]];
    let mut sink = Recorder::new();
    assert_eq!(Sender::new(1).send_payloads(&refs, &mut sink), Ok(2));
    let expected: Vec<Vec<Vec<u8>>> = vec![
        vec![payloads[0].to_vec(), payloads[0].to_vec()],
        vec![payloads[0].to_vec()],
    ];
    assert_eq!(sink.messages(), &expected);
}
