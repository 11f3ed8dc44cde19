use rakrs::acklist::{Ack, Nack, TriadList};
use rakrs::error::DecodeError;

fn encode_list(list: &TriadList) -> Vec<u8> {
    let mut v: Vec<u8> = Vec::new();
    list.write(&mut v);
    v
}

#[test]
fn coalesces_into_one_range_record() {
    // Consecutive integers coalesce: one range record, not three singles.
    let list = TriadList::from_sorted(&vec![2, 3, 4]);
    let v = encode_list(&list);
    assert_eq!(v, vec![0x00, 0x02, 0x00, 0x00, 0x04, 0x00, 0x00]);
}

#[test]
fn range_and_single_records() {
    // from_sorted([2,3,4,7]): the range [2,4], then the single [7], both
    // triads little-endian.
    let list = TriadList::from_sorted(&vec![2, 3, 4, 7]);
    let v = encode_list(&list);
    assert_eq!(
        v,
        vec![0x00, 0x02, 0x00, 0x00, 0x04, 0x00, 0x00, 0x01, 0x07, 0x00, 0x00]
    );
    let mut off = 0usize;
    let back = TriadList::read(&v, &mut off).unwrap();
    assert_eq!(back.to_sorted(), vec![2, 3, 4, 7]);
    assert_eq!(off, v.len());
}

#[test]
fn round_trip_restores_input() {
    let input = vec![0, 1, 2, 10, 11, 50, 0xffffff];
    let list = TriadList::from_sorted(&input);
    let v = encode_list(&list);
    let mut off = 0usize;
    let back = TriadList::read(&v, &mut off).unwrap();
    assert_eq!(back.to_sorted(), input);
}

#[test]
fn cluster_single() {
    let v = encode_list(&TriadList::from_sorted(&vec![2]));
    assert_eq!(v, vec![0x01, 0x02, 0x00, 0x00]);
}

#[test]
fn cluster_single_single() {
    let v = encode_list(&TriadList::from_sorted(&vec![2, 4]));
    assert_eq!(v, vec![0x01, 0x02, 0x00, 0x00, 0x01, 0x04, 0x00, 0x00]);
}

#[test]
fn cluster_single_continuous() {
    let v = encode_list(&TriadList::from_sorted(&vec![2, 4, 5]));
    assert_eq!(
        v,
        vec![0x01, 0x02, 0x00, 0x00, 0x00, 0x04, 0x00, 0x00, 0x05, 0x00, 0x00]
    );
}

#[test]
fn cluster_continuous_single() {
    let v = encode_list(&TriadList::from_sorted(&vec![2, 3, 5]));
    assert_eq!(
        v,
        vec![0x00, 0x02, 0x00, 0x00, 0x03, 0x00, 0x00, 0x01, 0x05, 0x00, 0x00]
    );
}

#[test]
fn cluster_continuous_continuous() {
    let v = encode_list(&TriadList::from_sorted(&vec![2, 3, 5, 6]));
    assert_eq!(
        v,
        vec![0x00, 0x02, 0x00, 0x00, 0x03, 0x00, 0x00, 0x00, 0x05, 0x00, 0x00, 0x06, 0x00, 0x00]
    );
}

#[test]
fn list_size_counts_covered_numbers() {
    let list = TriadList::from_sorted(&vec![2, 3, 4, 7]);
    assert_eq!(list.size(), 4);
}

#[test]
fn decoder_sorts_and_deduplicates() {
    // Records out of order and overlapping: [5,9] then [3,6] sorts to
    // [3,6],[5,9]; the second start is advanced past the first end.
    let mut v: Vec<u8> = Vec::new();
    v.extend_from_slice(&[0x00, 0x05, 0x00, 0x00, 0x09, 0x00, 0x00]);
    v.extend_from_slice(&[0x00, 0x03, 0x00, 0x00, 0x06, 0x00, 0x00]);
    let mut off = 0usize;
    let back = TriadList::read(&v, &mut off).unwrap();
    assert_eq!(back.to_sorted(), vec![3, 4, 5, 6, 7, 8, 9]);
}

#[test]
fn decoder_rejects_unknown_record_type() {
    let v = vec![0x02, 0x01, 0x00, 0x00];
    let mut off = 0usize;
    assert_eq!(TriadList::read(&v, &mut off), Err(DecodeError::OutOfRange));
    assert_eq!(off, 0);
}

#[test]
fn decoder_rejects_truncated_record() {
    let v = vec![0x01, 0x02, 0x00];
    let mut off = 0usize;
    assert_eq!(
        TriadList::read(&v, &mut off),
        Err(DecodeError::UnexpectedEof)
    );
}

#[test]
fn ack_round_trip() {
    let ack = Ack::new(vec![2, 3, 4, 7]);
    assert_eq!(ack.packets(), &vec![2, 3, 4, 7]);
    let mut v: Vec<u8> = Vec::new();
    ack.write(&mut v);
    let mut off = 0usize;
    let back = Ack::read(&v, &mut off).unwrap();
    assert_eq!(back.packets(), &vec![2, 3, 4, 7]);
}

#[test]
fn nack_round_trip() {
    let nack = Nack::new(vec![10, 12]);
    assert_eq!(nack.packets(), &vec![10, 12]);
    let mut v: Vec<u8> = Vec::new();
    nack.write(&mut v);
    let mut off = 0usize;
    let back = Nack::read(&v, &mut off).unwrap();
    assert_eq!(back.packets(), &vec![10, 12]);
}
