use rakrs::acklist::{Ack, Nack};
use rakrs::error::{PushError, RecvError};
use rakrs::recv_queue::RecvQueue;
use rakrs::reliability::Split;
use rakrs::send_queue::{OrderType, SendQueue};
use rakrs::triad::Triad;

#[test]
fn datagram_dedup_and_ack_list() {
    let mut r = RecvQueue::new();
    assert!(r.register_datagram(Triad(5)));
    assert!(r.register_datagram(Triad(2)));
    assert!(!r.register_datagram(Triad(5)));
    assert!(r.register_datagram(Triad(3)));
    // sorted and deduplicated, ready for an ack payload
    assert_eq!(r.take_ack_list(), vec![2, 3, 5]);
    // draining leaves the seen-set intact: repeats stay repeats
    assert!(!r.register_datagram(Triad(2)));
    assert_eq!(r.take_ack_list(), Vec::<u32>::new());
}

#[test]
fn sequenced_filter_drops_stale_packets() {
    let mut r = RecvQueue::new();
    assert!(r.accept_sequenced(0, Triad(0)));
    assert!(r.accept_sequenced(0, Triad(4)));
    assert!(!r.accept_sequenced(0, Triad(3)));
    assert!(!r.accept_sequenced(0, Triad(4)));
    assert!(r.accept_sequenced(0, Triad(5)));
    // channels are independent
    assert!(r.accept_sequenced(1, Triad(0)));
}

#[test]
fn ordered_channel_holds_gap_packets() {
    let mut r = RecvQueue::new();
    // index 0 arrives in order and is delivered at once
    assert_eq!(r.accept_ordered(0, Triad(0), vec![0]).unwrap(), Some(vec![0]));
    assert_eq!(r.pop_ready(0), None);
    // indices 2 and 3 arrive early and are held
    assert_eq!(r.accept_ordered(0, Triad(2), vec![2]).unwrap(), None);
    assert_eq!(r.accept_ordered(0, Triad(3), vec![3]).unwrap(), None);
    assert_eq!(r.pop_ready(0), None);
    // index 1 fills the gap; draining releases the held successors
    assert_eq!(r.accept_ordered(0, Triad(1), vec![1]).unwrap(), Some(vec![1]));
    assert_eq!(r.pop_ready(0), Some(vec![2]));
    assert_eq!(r.pop_ready(0), Some(vec![3]));
    assert_eq!(r.pop_ready(0), None);
    // an old or repeated index is dropped without effect
    assert_eq!(r.accept_ordered(0, Triad(1), vec![9]).unwrap(), None);
    // a held duplicate is dropped too
    assert_eq!(r.accept_ordered(0, Triad(9), vec![9]).unwrap(), None);
    assert_eq!(r.accept_ordered(0, Triad(9), vec![8]).unwrap(), None);
    // channels are independent
    assert_eq!(r.accept_ordered(5, Triad(0), vec![5]).unwrap(), Some(vec![5]));
}

#[test]
fn ordered_channel_hold_cap_is_fatal() {
    let mut r = RecvQueue::new();
    for k in 0..1024u32 {
        assert_eq!(r.accept_ordered(0, Triad(k + 1), vec![0]).unwrap(), None);
    }
    assert_eq!(
        r.accept_ordered(0, Triad(2000), vec![0]),
        Err(RecvError::TooManyHeldOrdered)
    );
}

#[test]
fn split_group_reassembles_in_index_order() {
    let mut r = RecvQueue::new();
    let sp = |index: u32| Split {
        split_count: 3,
        split_id: 9,
        split_index: index,
    };
    assert_eq!(r.accept_fragment(sp(1), vec![3, 4]), Ok(None));
    assert_eq!(r.accept_fragment(sp(0), vec![1, 2]), Ok(None));
    // a repeated fragment is ignored
    assert_eq!(r.accept_fragment(sp(1), vec![0xff]), Ok(None));
    let done = r.accept_fragment(sp(2), vec![5]).unwrap().unwrap();
    assert_eq!(done, vec![1, 2, 3, 4, 5]);
    // the completed group is gone: the same id starts fresh
    assert_eq!(r.accept_fragment(sp(0), vec![9]), Ok(None));
}

#[test]
fn single_fragment_completes_at_once() {
    let mut r = RecvQueue::new();
    let sp = Split {
        split_count: 1,
        split_id: 1,
        split_index: 0,
    };
    assert_eq!(r.accept_fragment(sp, vec![7, 8]).unwrap(), Some(vec![7, 8]));
}

#[test]
fn split_descriptor_errors() {
    let mut r = RecvQueue::new();
    let bad_index = Split {
        split_count: 2,
        split_id: 0,
        split_index: 2,
    };
    assert_eq!(
        r.accept_fragment(bad_index, vec![1]),
        Err(RecvError::SplitMismatch)
    );
    let zero_count = Split {
        split_count: 0,
        split_id: 0,
        split_index: 0,
    };
    assert_eq!(
        r.accept_fragment(zero_count, vec![1]),
        Err(RecvError::SplitMismatch)
    );
    // a fragment disagreeing with its group's count
    let a = Split {
        split_count: 3,
        split_id: 4,
        split_index: 0,
    };
    let b = Split {
        split_count: 4,
        split_id: 4,
        split_index: 1,
    };
    assert_eq!(r.accept_fragment(a, vec![1]), Ok(None));
    assert_eq!(r.accept_fragment(b, vec![2]), Err(RecvError::SplitMismatch));
}

#[test]
fn split_group_cap_is_fatal() {
    let mut r = RecvQueue::new();
    for id in 0..64u16 {
        let sp = Split {
            split_count: 2,
            split_id: id,
            split_index: 0,
        };
        assert_eq!(r.accept_fragment(sp, vec![0]), Ok(None));
    }
    let sp = Split {
        split_count: 2,
        split_id: 64,
        split_index: 0,
    };
    assert_eq!(
        r.accept_fragment(sp, vec![0]),
        Err(RecvError::TooManySplitGroups)
    );
}

fn reliable_seqs(q: &SendQueue) -> Vec<u32> {
    q.unacked.iter().map(|d| d.seq_number.0).collect()
}

#[test]
fn ack_drops_delivered_datagrams() {
    let mut q = SendQueue::new(1492);
    for k in 0..3u8 {
        q.push(vec![k], true, OrderType::Nil, false).unwrap();
        q.flush();
    }
    assert_eq!(reliable_seqs(&q), vec![0, 1, 2]);
    q.on_ack(&Ack::new(vec![0, 2]));
    assert_eq!(reliable_seqs(&q), vec![1]);
    q.on_ack(&Ack::new(vec![1]));
    assert_eq!(reliable_seqs(&q), Vec::<u32>::new());
}

#[test]
fn unreliable_datagrams_leave_no_retransmit_entry() {
    let mut q = SendQueue::new(1492);
    q.push(vec![1], false, OrderType::Nil, false).unwrap();
    q.flush();
    assert!(q.unacked.is_empty());
}

#[test]
fn nack_resends_reliable_packets_under_new_sequence() {
    let mut q = SendQueue::new(1492);
    q.push(vec![0xaa, 0xbb], true, OrderType::Ordered { order_channel: 2 }, false)
        .unwrap();
    q.flush();
    let first = q.take_datagrams();
    assert_eq!(first.len(), 1);
    assert_eq!(first[0].seq_number, Triad(0));
    q.on_nack(&Nack::new(vec![0]));
    q.flush();
    let resent = q.take_datagrams();
    assert_eq!(resent.len(), 1);
    // a fresh datagram sequence number, the same packet inside
    assert_eq!(resent[0].seq_number, Triad(1));
    assert_eq!(resent[0].packets, first[0].packets);
    // the resent datagram is tracked for acknowledgement in turn
    assert_eq!(reliable_seqs(&q), vec![1]);
}

#[test]
fn nack_for_unknown_sequence_changes_nothing() {
    let mut q = SendQueue::new(1492);
    q.push(vec![1], true, OrderType::Nil, false).unwrap();
    q.flush();
    q.on_nack(&Nack::new(vec![9]));
    q.flush();
    assert_eq!(reliable_seqs(&q), vec![0]);
    assert_eq!(q.take_datagrams().len(), 1);
}

#[test]
fn sequenced_receipt_rejection_reported() {
    let mut q = SendQueue::new(1492);
    assert_eq!(
        q.push(vec![1], false, OrderType::Sequenced { order_channel: 0 }, true),
        Err(PushError::SequencedAckReceipt)
    );
}
