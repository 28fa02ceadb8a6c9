use bytes::Bytes;
use sctp_proto::chunk::kinds::GapAckBlock;
use sctp_proto::chunk::payload::ChunkPayloadData;
use sctp_proto::queue::payload_queue::PayloadQueue;
use sctp_proto::queue::pending_queue::PendingQueue;
use sctp_proto::queue::reassembly_queue::ReassemblyQueue;

fn chunk(tsn: u32, n: usize) -> ChunkPayloadData {
    let mut c = ChunkPayloadData::default();
    c.tsn = tsn;
    c.user_data = Bytes::from(vec![7u8; n]);
    c
}

fn fragment(tsn: u32, begin: bool, end: bool, unordered: bool, text: &'static str) -> ChunkPayloadData {
    let mut c = ChunkPayloadData::default();
    c.tsn = tsn;
    c.beginning_fragment = begin;
    c.ending_fragment = end;
    c.unordered = unordered;
    c.user_data = Bytes::from_static(text.as_bytes());
    c
}

fn text(chunks: Vec<ChunkPayloadData>) -> String {
    let mut s = String::new();
    for c in &chunks {
        s.push_str(&String::from_utf8(c.user_data.to_vec()).unwrap());
    }
    s
}

fn tsns(chunks: &[ChunkPayloadData]) -> Vec<u32> {
    chunks.iter().map(|c| c.tsn).collect()
}

fn block(start: u16, end: u16) -> GapAckBlock {
    GapAckBlock { start, end }
}

#[test]
fn pushed_chunks_are_sorted_and_popped_in_order() {
    let mut q = PayloadQueue::new();
    assert!(q.is_empty());
    assert_eq!(q.get_last_tsn_received(), None);
    assert!(q.push(chunk(3, 10), 0));
    assert!(q.push(chunk(1, 20), 0));
    assert!(q.push(chunk(2, 30), 0));
    assert_eq!(q.len(), 3);
    assert_eq!(q.get_num_bytes(), 60);
    assert_eq!(q.sorted, vec![1, 2, 3]);
    assert_eq!(q.get_last_tsn_received(), Some(&3));
    assert!(q.pop(2).is_none());
    assert_eq!(q.pop(1).unwrap().user_data.len(), 20);
    assert_eq!(q.get_num_bytes(), 40);
    assert_eq!(q.pop(2).unwrap().tsn, 2);
    assert_eq!(q.pop(3).unwrap().tsn, 3);
    assert!(q.is_empty());
    assert_eq!(q.get_num_bytes(), 0);
}

#[test]
fn order_goes_round_the_end_of_the_numbers() {
    let mut q = PayloadQueue::new();
    assert!(q.push(chunk(1, 1), 0xffff_fffd));
    assert!(q.push(chunk(0xffff_ffff, 1), 0xffff_fffd));
    assert!(q.push(chunk(0, 1), 0xffff_fffd));
    assert_eq!(q.sorted, vec![0xffff_ffff, 0, 1]);
}

#[test]
fn update_sorted_keys_sorts() {
    let mut q = PayloadQueue::new();
    q.sorted = vec![5, 0xffff_fff0, 2];
    q.update_sorted_keys();
    assert_eq!(q.sorted, vec![0xffff_fff0, 2, 5]);
}

#[test]
fn old_and_queued_chunks_are_duplicates() {
    let mut q = PayloadQueue::new();
    assert!(q.can_push(&chunk(5, 1), 3));
    assert!(!q.can_push(&chunk(3, 1), 3));
    assert!(!q.can_push(&chunk(2, 1), 3));
    assert!(q.push(chunk(5, 1), 3));
    assert!(!q.can_push(&chunk(5, 1), 3));
    assert!(!q.push(chunk(5, 1), 3));
    assert!(!q.push(chunk(2, 1), 3));
    assert_eq!(q.len(), 1);
    assert_eq!(q.pop_duplicates(), vec![5, 2]);
    assert!(q.pop_duplicates().is_empty());
}

#[test]
fn pop_undoes_push() {
    let mut q = PayloadQueue::new();
    q.push(chunk(12, 4), 9);
    q.push(chunk(11, 4), 9);
    let before = (q.sorted.clone(), q.get_num_bytes());
    q.push(chunk(10, 6), 9);
    assert_eq!(q.pop(10).unwrap().user_data.len(), 6);
    assert_eq!((q.sorted.clone(), q.get_num_bytes()), before);
}

#[test]
fn push_no_check_takes_all() {
    let mut q = PayloadQueue::new();
    q.push_no_check(chunk(2, 5));
    q.push_no_check(chunk(1, 6));
    assert_eq!(q.sorted, vec![1, 2]);
    assert_eq!(q.get_num_bytes(), 11);
}

#[test]
fn a_queue_holds_what_was_accepted_and_not_popped() {
    let mut q = PayloadQueue::new();
    assert!(q.push(chunk(5, 10), 3));
    q.push_no_check(chunk(7, 20));
    assert!(!q.push(chunk(3, 99), 3));
    assert!(!q.push(chunk(7, 99), 3));
    assert!(q.pop(7).is_none());
    assert!(q.pop(5).is_some());
    // what was popped can come again
    assert!(q.push(chunk(5, 4), 3));
    assert_eq!(q.mark_as_acked(7), 20);
    q.mark_all_to_retrasmit();
    assert_eq!(q.pop_duplicates(), vec![3, 7]);
    for tsn in 0..10 {
        match q.get(tsn) {
            Some(c) => assert!(c.tsn == tsn && (tsn == 5 || tsn == 7)),
            None => assert!(tsn != 5 && tsn != 7),
        }
    }
    assert_eq!(q.sorted, vec![5, 7]);
    assert_eq!(q.len(), 2);
    assert_eq!(q.get_num_bytes(), 4);
}

#[test]
fn a_chunk_that_is_accepted_is_put_in_as_without_the_check() {
    let (mut a, mut b) = (PayloadQueue::new(), PayloadQueue::new());
    for tsn in [9, 4, 6] {
        assert!(a.can_push(&chunk(tsn, tsn as usize), 3));
        assert!(a.push(chunk(tsn, tsn as usize), 3));
        b.push_no_check(chunk(tsn, tsn as usize));
        assert_eq!(a.sorted, b.sorted);
        assert_eq!(a.len(), b.len());
        assert_eq!(a.get_num_bytes(), b.get_num_bytes());
        assert_eq!(a.get(tsn).unwrap().user_data, b.get(tsn).unwrap().user_data);
    }
    assert_eq!(a.pop_duplicates(), b.pop_duplicates());
}

#[test]
fn chunks_can_be_looked_at_and_changed() {
    let mut q = PayloadQueue::new();
    q.push(chunk(4, 9), 0);
    assert_eq!(q.get(4).unwrap().user_data.len(), 9);
    assert!(q.get(5).is_none());
    q.get_mut(4).unwrap().nsent = 3;
    assert_eq!(q.get(4).unwrap().nsent, 3);
    assert!(q.get_mut(5).is_none());
}

#[test]
fn gaps_are_told_in_blocks() {
    let mut q = PayloadQueue::new();
    assert!(q.get_gap_ack_blocks(0).is_empty());
    for tsn in [2, 3, 4, 6, 9, 10] {
        q.push(chunk(tsn, 1), 0);
    }
    assert_eq!(q.get_gap_ack_blocks(0), vec![block(2, 4), block(6, 6), block(9, 10)]);
    assert_eq!(q.get_gap_ack_blocks(1), vec![block(1, 3), block(5, 5), block(8, 9)]);
    assert_eq!(q.get_gap_ack_blocks_string(0), "cumTSN=0,2-4,6-6,9-10");
}

#[test]
fn acknowledged_data_is_gone() {
    let mut q = PayloadQueue::new();
    q.push(chunk(1, 10), 0);
    q.push(chunk(2, 20), 0);
    assert_eq!(q.mark_as_acked(1), 10);
    assert_eq!(q.get_num_bytes(), 20);
    let c = q.get(1).unwrap();
    assert!(c.acked && !c.retransmit && c.user_data.is_empty());
    assert_eq!(q.mark_as_acked(1), 0);
    assert_eq!(q.mark_as_acked(7), 0);
    q.mark_all_to_retrasmit();
    assert!(!q.get(1).unwrap().retransmit);
    assert!(q.get(2).unwrap().retransmit);
}

#[test]
fn waiting_messages_leave_whole() {
    let mut q = PendingQueue::new();
    assert!(q.is_empty());
    assert!(q.peek().is_none());
    q.push(fragment(0, true, false, false, "a"));
    q.push(fragment(0, false, true, false, "bc"));
    assert_eq!(q.get_num_bytes(), 3);
    let c = q.peek().unwrap();
    let (b, u) = (c.beginning_fragment, c.unordered);
    assert_eq!(&q.pop(b, u).unwrap().user_data[..], b"a");
    // an unordered message that comes now waits until the one that was begun is through
    q.push(fragment(0, true, true, true, "x"));
    let c = q.peek().unwrap();
    assert_eq!(&c.user_data[..], b"bc");
    let (b, u) = (c.beginning_fragment, c.unordered);
    assert_eq!(&q.pop(b, u).unwrap().user_data[..], b"bc");
    let c = q.peek().unwrap();
    assert_eq!(&c.user_data[..], b"x");
    let (b, u) = (c.beginning_fragment, c.unordered);
    assert!(q.pop(b, u).is_some());
    assert!(q.is_empty());
    assert_eq!(q.get_num_bytes(), 0);
}

#[test]
fn unordered_messages_go_first() {
    let mut q = PendingQueue::new();
    q.push(fragment(0, true, true, false, "ordered"));
    q.push(fragment(0, true, true, true, "unordered"));
    assert_eq!(&q.peek().unwrap().user_data[..], b"unordered");
}

#[test]
fn fragments_make_up_a_message_in_any_order() {
    let orders = [[10u32, 11, 12], [12, 11, 10], [11, 12, 10], [10, 12, 11]];
    for order in orders {
        let mut q = ReassemblyQueue::new(0);
        for (k, tsn) in order.iter().enumerate() {
            assert!(!q.is_readable());
            assert!(q.read().is_none());
            let c = match *tsn {
                10 => fragment(10, true, false, false, "abc"),
                11 => fragment(11, false, false, false, "de"),
                _ => fragment(12, false, true, false, "f"),
            };
            q.push(c);
            assert_eq!(k == 2, q.is_readable());
        }
        assert_eq!(q.get_num_bytes(), 6);
        let m = q.read().unwrap();
        assert_eq!(tsns(&m), vec![10, 11, 12]);
        assert_eq!(text(m), "abcdef");
        assert_eq!(q.get_num_bytes(), 0);
        assert_eq!(q.next_ssn, 1);
    }
}

#[test]
fn ordered_messages_wait_for_their_turn() {
    let mut q = ReassemblyQueue::new(0);
    let mut second = fragment(2, true, true, false, "second");
    second.stream_sequence_number = 1;
    q.push(second);
    assert!(!q.is_readable());
    q.push(fragment(1, true, true, false, "first"));
    assert_eq!(text(q.read().unwrap()), "first");
    assert_eq!(text(q.read().unwrap()), "second");
    assert!(q.read().is_none());
    // a message that was read before is dropped
    q.push(fragment(1, true, true, false, "first"));
    assert_eq!(q.get_num_bytes(), 0);
}

#[test]
fn unordered_messages_do_not_wait() {
    let mut q = ReassemblyQueue::new(0);
    let mut late = fragment(2, true, true, true, "late");
    late.stream_sequence_number = 9;
    q.push(late);
    assert_eq!(text(q.read().unwrap()), "late");
    q.push(fragment(5, true, false, true, "a"));
    q.push(fragment(7, true, true, true, "c"));
    assert_eq!(text(q.read().unwrap()), "c");
    q.push(fragment(6, false, true, true, "b"));
    assert_eq!(text(q.read().unwrap()), "ab");
}

#[test]
fn chunks_of_other_streams_are_dropped() {
    let mut q = ReassemblyQueue::new(3);
    q.push(fragment(1, true, true, false, "x"));
    assert!(!q.is_readable());
    assert_eq!(q.get_num_bytes(), 0);
}

#[test]
fn skipped_messages_are_forgotten() {
    let mut q = ReassemblyQueue::new(0);
    q.push(fragment(1, true, false, false, "half"));
    let mut next = fragment(3, true, true, false, "next");
    next.stream_sequence_number = 1;
    q.push(next);
    assert!(!q.is_readable());
    q.forward_tsn_for_ordered(0);
    assert_eq!(q.get_num_bytes(), 4);
    assert_eq!(text(q.read().unwrap()), "next");

    let mut q = ReassemblyQueue::new(0);
    q.push(fragment(5, true, false, true, "half"));
    q.push(fragment(9, true, false, true, "other"));
    q.forward_tsn_for_unordered(6);
    assert_eq!(q.get_num_bytes(), 5);
    assert_eq!(tsns(&q.unordered_chunks), vec![9]);
}

#[test]
fn an_empty_fragment_has_to_belong_to_a_message() {
    let mut q = PendingQueue::new();
    let empty = |unordered| fragment(0, false, true, unordered, "");
    let begun = |unordered| fragment(0, true, false, unordered, "a");
    assert!(q.can_push_all(&vec![]));
    assert!(q.can_push_all(&vec![fragment(0, true, true, false, "")]));
    assert!(!q.can_push_all(&vec![empty(false)]));
    assert!(q.can_push_all(&vec![begun(false), empty(false)]));
    assert!(!q.can_push_all(&vec![begun(false), empty(true)]));
    assert!(!q.can_push_all(&vec![begun(false), empty(false), empty(false)]));
    // behind what is queued, and behind what has left
    q.push(begun(true));
    assert!(q.can_push_all(&vec![empty(true)]));
    assert!(!q.can_push_all(&vec![empty(false)]));
    assert!(q.pop(true, true).is_some());
    assert!(q.can_push_all(&vec![empty(true)]));
    q.push(empty(true));
    assert!(q.peek().unwrap().user_data.is_empty());
    assert!(q.pop(false, true).is_some());
    assert!(q.is_empty());
    assert!(!q.can_push_all(&vec![empty(true)]));
}
