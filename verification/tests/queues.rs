use lanchat::messages::SendingMessage;
use lanchat::pipeline::decode_packet;
use lanchat::pipeline::encode_message;

#[test]
fn bounded_queue_of_one_applies_backpressure() {
    let (tx, rx) = async_channel::bounded::<u32>(1);
    assert!(tx.try_send(1).is_ok());
    // the single slot is full: the producer cannot make progress
    assert!(tx.try_send(2).is_err());
    // the consumer drains the slot, and only then the producer proceeds
    assert_eq!(rx.recv_blocking().unwrap(), 1);
    assert!(tx.try_send(2).is_ok());
    assert_eq!(rx.recv_blocking().unwrap(), 2);
}

#[test]
fn replicas_draining_one_queue_lose_and_duplicate_nothing() {
    let total: usize = 50;
    let (tx, rx) = async_channel::bounded::<Vec<u8>>(total);
    for i in 0..total {
        let m = SendingMessage { text: format!("m{}", i), timestamp: i as u128 };
        let frames = encode_message(&m);
        assert_eq!(frames.len(), 1);
        tx.send_blocking(frames[0].clone()).unwrap();
    }
    drop(tx);
    // two decoder replicas share the inbound queue; each item is taken by
    // exactly one of them
    let replica_a = rx.clone();
    let replica_b = rx.clone();
    let mut texts: Vec<String> = Vec::new();
    loop {
        let packet = match replica_a.try_recv() {
            Ok(p) => p,
            Err(_) => match replica_b.try_recv() {
                Ok(p) => p,
                Err(_) => break,
            },
        };
        let m = decode_packet("r".to_string(), packet).expect("every frame decodes");
        texts.push(m.text);
    }
    assert_eq!(texts.len(), total);
    texts.sort();
    texts.dedup();
    assert_eq!(texts.len(), total);
}

#[test]
fn queue_keeps_frame_order_for_a_single_producer_and_consumer() {
    let (tx, rx) = async_channel::bounded::<u32>(8);
    for i in 0..8u32 {
        tx.send_blocking(i).unwrap();
    }
    for i in 0..8u32 {
        assert_eq!(rx.recv_blocking().unwrap(), i);
    }
}
