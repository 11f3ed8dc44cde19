use rakrs::error::PushError;
use rakrs::inner::InnerPacket;
use rakrs::reliability::InnerPacketReliability;
use rakrs::send_queue::{OrderType, PushStatus, SendQueue};
use rakrs::triad::Triad;

fn all_packets(q: &mut SendQueue) -> Vec<InnerPacket> {
    q.flush();
    let mut out: Vec<InnerPacket> = Vec::new();
    for d in q.take_datagrams() {
        out.extend(d.packets);
    }
    out
}

#[test]
fn ordered_indices_count_up_per_channel() {
    // Across N ordered submissions on one channel the emitted order
    // indices are 0, 1, ..., N-1.
    let mut q = SendQueue::new(1492);
    for _ in 0..5 {
        q.push(vec![1, 2, 3], true, OrderType::Ordered { order_channel: 3 }, false)
            .unwrap();
    }
    q.push(vec![9], true, OrderType::Ordered { order_channel: 7 }, false)
        .unwrap();
    let packets = all_packets(&mut q);
    assert_eq!(packets.len(), 6);
    for (k, p) in packets[..5].iter().enumerate() {
        match &p.reliability {
            InnerPacketReliability::ReliableOrdered(r, o) => {
                assert_eq!(o.order_index, Triad(k as u32));
                assert_eq!(o.order_channel, 3);
                assert_eq!(r.message_index, Triad(k as u32));
            }
            other => panic!("expected reliable ordered, got {:?}", other),
        }
    }
    // the other channel starts its own run at zero
    match &packets[5].reliability {
        InnerPacketReliability::ReliableOrdered(_, o) => {
            assert_eq!(o.order_index, Triad(0));
            assert_eq!(o.order_channel, 7);
        }
        other => panic!("expected reliable ordered, got {:?}", other),
    }
}

#[test]
fn sequenced_indices_ride_current_order_window() {
    // Sequence indices count up on their own; the embedded order index
    // stays at the channel's current window without advancing it.
    let mut q = SendQueue::new(1492);
    q.push(vec![1], true, OrderType::Ordered { order_channel: 0 }, false)
        .unwrap();
    for _ in 0..3 {
        q.push(vec![2], false, OrderType::Sequenced { order_channel: 0 }, false)
            .unwrap();
    }
    let packets = all_packets(&mut q);
    for (k, p) in packets[1..].iter().enumerate() {
        match &p.reliability {
            InnerPacketReliability::UnreliableSequenced(s) => {
                assert_eq!(s.sequence_index, Triad(k as u32));
                assert_eq!(s.ordered.order_index, Triad(1));
            }
            other => panic!("expected unreliable sequenced, got {:?}", other),
        }
    }
}

#[test]
fn emitted_datagrams_respect_mtu() {
    let mut q = SendQueue::new(600);
    for _ in 0..10 {
        q.push(vec![0x55; 500], true, OrderType::Nil, false).unwrap();
    }
    q.flush();
    let datagrams = q.take_datagrams();
    assert!(datagrams.len() >= 10);
    for (k, d) in datagrams.iter().enumerate() {
        assert_eq!(d.seq_number, Triad(k as u32));
        let mut v: Vec<u8> = Vec::new();
        d.write(&mut v);
        assert!(v.len() <= 600, "datagram of {} bytes exceeds the MTU", v.len());
    }
}

#[test]
fn large_submission_fragments_share_split_group() {
    // mtu 1492 leaves 1432 bytes per fragment; 3000 bytes make three
    // fragments with one split id, indices 0..3, distinct message indices,
    // and the chunks reassemble to the original buffer.
    let buffer: Vec<u8> = (0..3000u32).map(|k| (k % 251) as u8).collect();
    let mut q = SendQueue::new(1492);
    q.push(buffer.clone(), true, OrderType::Nil, false).unwrap();
    let packets = all_packets(&mut q);
    assert_eq!(packets.len(), 3);
    let mut reassembled: Vec<u8> = Vec::new();
    for (k, p) in packets.iter().enumerate() {
        let sp = p.split.as_ref().unwrap();
        assert_eq!(sp.split_count, 3);
        assert_eq!(sp.split_id, 0);
        assert_eq!(sp.split_index, k as u32);
        match &p.reliability {
            InnerPacketReliability::Reliable(r) => {
                assert_eq!(r.message_index, Triad(k as u32));
            }
            other => panic!("expected reliable, got {:?}", other),
        }
        reassembled.extend_from_slice(&p.buffer);
    }
    assert_eq!(reassembled, buffer);
    // a second large submission draws a fresh split id
    let buffer2: Vec<u8> = vec![7; 2000];
    q.push(buffer2, true, OrderType::Nil, false).unwrap();
    let packets2 = all_packets(&mut q);
    assert_eq!(packets2[0].split.as_ref().unwrap().split_id, 1);
}

#[test]
fn small_submission_stays_unsplit() {
    let mut q = SendQueue::new(1492);
    q.push(vec![1, 2], false, OrderType::Nil, false).unwrap();
    let packets = all_packets(&mut q);
    assert_eq!(packets.len(), 1);
    assert!(packets[0].split.is_none());
    assert_eq!(packets[0].reliability, InnerPacketReliability::Unreliable);
    assert_eq!(packets[0].buffer, vec![1, 2]);
}

#[test]
fn sequenced_with_receipt_is_rejected() {
    let mut q = SendQueue::new(1492);
    let r = q.push(vec![1], true, OrderType::Sequenced { order_channel: 0 }, true);
    assert_eq!(r, Err(PushError::SequencedAckReceipt));
    q.flush();
    assert!(q.take_datagrams().is_empty());
}

#[test]
fn unreliable_ordered_is_downgraded() {
    let mut q = SendQueue::new(1492);
    let r = q.push(vec![1], false, OrderType::Ordered { order_channel: 2 }, false);
    assert_eq!(r, Ok(PushStatus::Downgraded));
    let packets = all_packets(&mut q);
    assert_eq!(packets[0].reliability, InnerPacketReliability::Unreliable);
    // the coerced submission did not advance the channel's order window
    q.push(vec![2], true, OrderType::Ordered { order_channel: 2 }, false)
        .unwrap();
    let packets = all_packets(&mut q);
    match &packets[0].reliability {
        InnerPacketReliability::ReliableOrdered(_, o) => assert_eq!(o.order_index, Triad(0)),
        other => panic!("expected reliable ordered, got {:?}", other),
    }
}

#[test]
fn ack_receipt_variants_selected() {
    let mut q = SendQueue::new(1492);
    q.push(vec![1], false, OrderType::Nil, true).unwrap();
    q.push(vec![2], true, OrderType::Nil, true).unwrap();
    q.push(vec![3], true, OrderType::Ordered { order_channel: 0 }, true)
        .unwrap();
    let packets = all_packets(&mut q);
    assert_eq!(
        packets[0].reliability,
        InnerPacketReliability::UnreliableWithAckReceipt
    );
    assert!(matches!(
        packets[1].reliability,
        InnerPacketReliability::ReliableWithAckReceipt(_)
    ));
    assert!(matches!(
        packets[2].reliability,
        InnerPacketReliability::ReliableOrderedWithAckReceipt(_, _)
    ));
}

#[test]
fn message_indices_form_one_global_run() {
    let mut q = SendQueue::new(1492);
    q.push(vec![1], true, OrderType::Nil, false).unwrap();
    q.push(vec![2], true, OrderType::Ordered { order_channel: 0 }, false)
        .unwrap();
    q.push(vec![3], true, OrderType::Sequenced { order_channel: 1 }, false)
        .unwrap();
    let packets = all_packets(&mut q);
    let indices: Vec<u32> = packets
        .iter()
        .map(|p| p.reliability.reliable().unwrap().message_index.0)
        .collect();
    assert_eq!(indices, vec![0, 1, 2]);
}

#[test]
fn batching_flushes_before_overflow() {
    // Two 500-byte submissions fit one 1492-byte datagram; the third
    // forces a flush first.
    let mut q = SendQueue::new(1492);
    for _ in 0..3 {
        q.push(vec![9; 500], false, OrderType::Nil, false).unwrap();
    }
    q.flush();
    let datagrams = q.take_datagrams();
    assert_eq!(datagrams.len(), 2);
    assert_eq!(datagrams[0].packets.len(), 2);
    assert_eq!(datagrams[1].packets.len(), 1);
}
