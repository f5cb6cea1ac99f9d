use portscan::{partition, total_batches, total_ports};

#[test]
fn partition_cuts_the_range_into_batches() {
    assert_eq!(
        partition(1, 10, 3),
        vec![vec![1, 2, 3], vec![4, 5, 6], vec![7, 8, 9], vec![10]]
    );
    assert_eq!(partition(1, 9, 3), vec![vec![1, 2, 3], vec![4, 5, 6], vec![7, 8, 9]]);
    assert_eq!(partition(20, 25, 100), vec![vec![20, 21, 22, 23, 24, 25]]);
    assert_eq!(partition(7, 9, 1), vec![vec![7], vec![8], vec![9]]);
}

#[test]
fn partition_of_one_port_is_one_batch_of_one() {
    assert_eq!(partition(80, 80, 100), vec![vec![80]]);
    assert_eq!(partition(80, 80, 1), vec![vec![80]]);
    assert_eq!(partition(0, 0, 5), vec![vec![0]]);
    assert_eq!(partition(65535, 65535, usize::MAX), vec![vec![65535]]);
}

#[test]
fn partition_covers_each_port_once_in_ascending_order() {
    let cases: [(u16, u16, usize); 8] = [
        (1, 1024, 100),
        (1, 1024, 1024),
        (1, 1024, 1023),
        (1, 1024, 1025),
        (0, 65535, 4096),
        (0, 65535, 65535),
        (65000, 65535, 7),
        (100, 200, usize::MAX),
    ];
    for (start, end, size) in cases {
        let batches = partition(start, end, size);
        let all: Vec<u16> = batches.iter().flatten().copied().collect();
        let expected: Vec<u16> = (start..=end).collect();
        assert_eq!(all, expected);
        for batch in &batches {
            assert!(!batch.is_empty());
            assert!(batch.len() <= size);
        }
        for batch in &batches[..batches.len() - 1] {
            assert_eq!(batch.len(), size);
        }
        assert_eq!(batches.len(), total_batches(total_ports(start, end), size));
    }
}

#[test]
fn partition_of_the_whole_port_space() {
    let batches = partition(0, 65535, 65536);
    assert_eq!(batches.len(), 1);
    assert_eq!(batches[0].len(), 65536);
    assert_eq!(batches[0][0], 0);
    assert_eq!(batches[0][65535], 65535);

    let singles = partition(0, 65535, 1);
    assert_eq!(singles.len(), 65536);
    assert_eq!(singles[0], vec![0]);
    assert_eq!(singles[65535], vec![65535]);
}

#[test]
fn total_ports_counts_both_ends() {
    assert_eq!(total_ports(1, 1024), 1024);
    assert_eq!(total_ports(80, 80), 1);
    assert_eq!(total_ports(80, 443), 364);
    assert_eq!(total_ports(0, 65535), 65536);
}

#[test]
fn total_batches_rounds_up() {
    assert_eq!(total_batches(1024, 100), 11);
    assert_eq!(total_batches(100, 100), 1);
    assert_eq!(total_batches(101, 100), 2);
    assert_eq!(total_batches(99, 100), 1);
    assert_eq!(total_batches(1, 1), 1);
    assert_eq!(total_batches(65536, 1), 65536);
    assert_eq!(total_batches(65536, usize::MAX), 1);
    assert_eq!(total_batches(0, 100), 0);
}
