use lib::error::AppError;
use lib::memory::{
    copy_action, copy_mapping, page_size_from, CopyAction, CopyReport, Dump, KernelCopy, FALLBACK_PAGE_SIZE,
};

#[test]
fn counts_unreadable_bytes() {
    let dump = Dump::complete(vec![1, 2, 3]);
    assert_eq!(dump.unreadable_count(), 0);
    assert_eq!(dump.readable, vec![true, true, true]);
    let partial = Dump { bytes: vec![0; 8], readable: vec![false; 8], readable_count: 3 };
    assert_eq!(partial.unreadable_count(), 5);
}

#[test]
fn accepts_only_power_of_two_page_sizes() {
    assert_eq!(FALLBACK_PAGE_SIZE, 4096);
    assert_eq!(page_size_from(16384), 16384);
    assert_eq!(page_size_from(65536), 65536);
    assert_eq!(page_size_from(0), 4096);
    assert_eq!(page_size_from(2048), 4096);
    assert_eq!(page_size_from(12288), 4096);
}

#[test]
fn copies_block_by_block_and_zero_fills_faults() {
    let mut copy = KernelCopy::new(10, 4);
    assert_eq!(copy.next_request(), Some((0, 4)));
    copy.record_copied(&[1, 2]);
    assert_eq!(copy.next_request(), Some((2, 2)));
    copy.record_copied(&[3, 4]);
    assert_eq!(copy.next_request(), Some((4, 4)));
    copy.skip_block();
    assert_eq!(copy.next_request(), Some((8, 2)));
    copy.record_copied(&[9, 10]);
    assert_eq!(copy.next_request(), None);
    let dump = copy.finish();
    assert_eq!(dump.bytes, vec![1, 2, 3, 4, 0, 0, 0, 0, 9, 10]);
    assert_eq!(dump.readable, vec![true, true, true, true, false, false, false, false, true, true]);
    assert_eq!(dump.readable_count, 6);
    assert_eq!(dump.unreadable_count(), 4);
}

#[test]
fn copies_nothing_from_an_empty_mapping() {
    let mut copy = KernelCopy::new(0, 4096);
    assert_eq!(copy.next_request(), None);
    let dump = copy.finish();
    assert!(dump.bytes.is_empty());
    assert_eq!(dump.unreadable_count(), 0);
}

#[test]
fn stops_after_an_unreadable_last_block() {
    let mut copy = KernelCopy::new(6, 4);
    assert_eq!(copy.next_request(), Some((0, 4)));
    copy.record_copied(&[0, 7]);
    assert_eq!(copy.next_request(), Some((2, 2)));
    copy.skip_block();
    assert_eq!(copy.next_request(), Some((4, 2)));
    copy.skip_block();
    assert_eq!(copy.next_request(), None);
    assert_eq!(copy.next_request(), None);
    let dump = copy.finish();
    assert_eq!(dump.bytes, vec![0, 7, 0, 0, 0, 0]);
    assert_eq!(dump.readable, vec![true, true, false, false, false, false]);
}

#[test]
fn decides_what_follows_a_copy() {
    assert_eq!(copy_action(4, false, false), CopyAction::Receive(4));
    assert_eq!(copy_action(0, false, false), CopyAction::SkipBlock);
    assert_eq!(copy_action(-1, true, false), CopyAction::Retry);
    assert_eq!(copy_action(-1, false, true), CopyAction::SkipBlock);
    assert_eq!(copy_action(-1, false, false), CopyAction::Fail);
}

/// A guarded copy from `memory` (at address `start`), where `None` marks an
/// unreadable byte: the bytes up to the first unreadable one.
fn simulated_copy(memory: &[Option<u8>], start: usize, address: usize, count: usize) -> CopyReport {
    let at = address - start;
    let data: Vec<u8> = memory[at..at + count].iter().map_while(|byte| *byte).collect();
    if data.is_empty() {
        CopyReport::Stopped
    } else {
        CopyReport::Copied(data)
    }
}

#[test]
fn copies_a_mapping_with_unreadable_pages() {
    let memory = [Some(1), Some(2), None, Some(4), Some(5), Some(6), Some(7), Some(8), None, None];
    let mut requests = Vec::new();
    let mut copy = |address: usize, count: usize| -> Result<CopyReport, AppError> {
        requests.push((address, count));
        Ok(simulated_copy(&memory, 0x1000, address, count))
    };
    let dump = copy_mapping(0x1000, 0x1000 + memory.len(), 4, &mut copy).unwrap();
    assert_eq!(dump.bytes, vec![1, 2, 0, 0, 5, 6, 7, 8, 0, 0]);
    assert_eq!(dump.readable, vec![true, true, false, false, true, true, true, true, false, false]);
    assert_eq!(dump.readable_count, 6);
    assert_eq!(requests, vec![(0x1000, 4), (0x1002, 2), (0x1004, 4), (0x1008, 2)]);
}

#[test]
fn stops_a_mapping_copy_at_the_first_error() {
    let mut copy = |_address: usize, _count: usize| -> Result<CopyReport, AppError> {
        Err(AppError::io("cannot copy mapping bytes", "Bad file descriptor (os error 9)".into(), false))
    };
    let error = copy_mapping(0x1000, 0x1008, 4, &mut copy).unwrap_err();
    assert_eq!(error.message(), "cannot copy mapping bytes: Bad file descriptor (os error 9)");
}

#[test]
fn copies_a_wholly_readable_mapping() {
    let memory: Vec<Option<u8>> = (0..10).map(Some).collect();
    let mut copy = |address: usize, count: usize| -> Result<CopyReport, AppError> {
        Ok(simulated_copy(&memory, 0x2000, address, count))
    };
    let dump = copy_mapping(0x2000, 0x200a, 4, &mut copy).unwrap();
    assert_eq!(dump.bytes, (0..10).collect::<Vec<u8>>());
    assert!(dump.readable.iter().all(|readable| *readable));
    assert_eq!(dump.unreadable_count(), 0);

    let mut never_called = |_address: usize, _count: usize| -> Result<CopyReport, AppError> {
        panic!("an empty mapping needs no copy")
    };
    let dump = copy_mapping(0x3000, 0x3000, 4, &mut never_called).unwrap();
    assert!(dump.bytes.is_empty());
}
