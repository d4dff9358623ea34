use tokimo_package_iso::{block_count, ExtentScan, ExtentStep, IsoExtent, SECTOR_SIZE};

/// Runs a scan of a file of `size` bytes, answering each lookup from `table`;
/// returns the blocks asked for and the extents found.
fn scan_with_table(size: u64, table: &[u32]) -> (Vec<u32>, Vec<IsoExtent>) {
    let mut scan = ExtentScan::new(size);
    let mut asked = Vec::new();
    loop {
        match scan.next_step() {
            ExtentStep::Lookup(b) => {
                asked.push(b);
                scan.feed(table[b as usize]);
            }
            ExtentStep::Done => break,
        }
    }
    assert!(scan.is_finished());
    (asked, scan.into_extents())
}

fn ext(offset: u64, length: u64) -> IsoExtent {
    IsoExtent { offset, length }
}

#[test]
fn block_count_rounds_up() {
    assert_eq!(SECTOR_SIZE, 2048);
    assert_eq!(block_count(0), 0);
    assert_eq!(block_count(1), 1);
    assert_eq!(block_count(2048), 1);
    assert_eq!(block_count(2049), 2);
    assert_eq!(block_count(6154), 4);
}

#[test]
fn block_count_keeps_32_bits() {
    // 2^32 blocks exactly wraps to 0, as the 32-bit block interface counts them.
    assert_eq!(block_count(1u64 << 43), 0);
    assert_eq!(block_count((1u64 << 43) + 1), 1);
}

#[test]
fn empty_file_has_no_extents() {
    let (asked, extents) = scan_with_table(0, &[]);
    assert!(asked.is_empty());
    assert!(extents.is_empty());
}

#[test]
fn first_block_without_address_gives_no_extents() {
    let (asked, extents) = scan_with_table(5000, &[0, 1, 2]);
    assert_eq!(asked, vec![0]);
    assert!(extents.is_empty());
}

#[test]
fn single_block_file() {
    let (asked, extents) = scan_with_table(100, &[7]);
    assert_eq!(asked, vec![0]);
    assert_eq!(extents, vec![ext(7 * 2048, 100)]);
}

#[test]
fn contiguous_file_needs_two_lookups() {
    let (asked, extents) = scan_with_table(5000, &[100, 101, 102]);
    assert_eq!(asked, vec![0, 2]);
    assert_eq!(extents, vec![ext(100 * 2048, 5000)]);
}

#[test]
fn fragmented_file_is_split_into_runs() {
    let size = 3 * 2048 + 10;
    let (asked, extents) = scan_with_table(size, &[10, 11, 50, 51]);
    assert_eq!(asked, vec![0, 3, 0, 1, 2, 3]);
    assert_eq!(extents, vec![ext(10 * 2048, 2 * 2048), ext(50 * 2048, size - 2 * 2048)]);
    let total: u64 = extents.iter().map(|e| e.length).sum();
    assert_eq!(total, size);
}

#[test]
fn blocks_without_address_are_skipped() {
    let size = 4 * 2048;
    let (_, extents) = scan_with_table(size, &[10, 0, 12, 20]);
    assert_eq!(
        extents,
        vec![ext(10 * 2048, 2048), ext(12 * 2048, 2048), ext(20 * 2048, 2048)]
    );
}

#[test]
fn trailing_block_without_address_closes_last_run() {
    let size = 3 * 2048;
    let (_, extents) = scan_with_table(size, &[10, 11, 0]);
    assert_eq!(extents, vec![ext(10 * 2048, 2 * 2048)]);
}

#[test]
fn contiguous_table_gives_same_extent_either_way() {
    // First and last block consistent with a contiguous run: one extent.
    let size = 5 * 2048;
    let (_, fast) = scan_with_table(size, &[40, 41, 42, 43, 44]);
    assert_eq!(fast, vec![ext(40 * 2048, size)]);
}

#[test]
fn fast_path_trusts_first_and_last_block() {
    // Middle block out of place, but first and last look contiguous.
    let size = 3 * 2048;
    let (asked, extents) = scan_with_table(size, &[40, 99, 42]);
    assert_eq!(asked, vec![0, 2]);
    assert_eq!(extents, vec![ext(40 * 2048, size)]);
}

#[test]
fn feeding_a_finished_scan_changes_nothing() {
    let mut scan = ExtentScan::new(100);
    scan.feed(5);
    assert!(scan.is_finished());
    scan.feed(9);
    assert_eq!(scan.next_step(), ExtentStep::Done);
    assert_eq!(scan.into_extents(), vec![ext(5 * 2048, 100)]);
}

#[test]
fn unfinished_scan_has_no_extents_yet() {
    let mut scan = ExtentScan::new(5000);
    scan.feed(5);
    assert!(!scan.is_finished());
    assert_eq!(scan.next_step(), ExtentStep::Lookup(2));
    assert!(scan.into_extents().is_empty());
}

#[test]
fn extents_of_distinct_addresses_do_not_overlap() {
    let size = 6 * 2048 - 100;
    let (_, extents) = scan_with_table(size, &[30, 31, 5, 6, 7, 29]);
    assert_eq!(extents, vec![ext(30 * 2048, 4096), ext(5 * 2048, 3 * 2048), ext(29 * 2048, 2048 - 100)]);
    for (i, a) in extents.iter().enumerate() {
        assert_eq!(a.offset % 2048, 0);
        for b in extents.iter().skip(i + 1) {
            assert!(a.offset + a.length <= b.offset || b.offset + b.length <= a.offset);
        }
    }
    let total: u64 = extents.iter().map(|e| e.length).sum();
    assert_eq!(total, size);
}

#[test]
fn extents_with_holes_stay_within_size() {
    let size = 4 * 2048 - 1;
    let (_, extents) = scan_with_table(size, &[10, 0, 12, 0]);
    assert_eq!(extents, vec![ext(10 * 2048, 2048), ext(12 * 2048, 2048)]);
    assert!(extents.iter().all(|e| e.length > 0));
    let total: u64 = extents.iter().map(|e| e.length).sum();
    assert!(total <= size);
}
