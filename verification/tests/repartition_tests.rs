//! Tests for byte-range repartitioning of file groups.

use scan_config::config::FileScanConfig;
use scan_config::repartition::{FileRange, PartitionedFile};

fn b(s: &str) -> Vec<u8> {
    s.as_bytes().to_vec()
}

fn whole(path: &str, size: u64) -> PartitionedFile {
    PartitionedFile::new(b(path), size)
}

fn ranges_of(groups: &Vec<Vec<PartitionedFile>>) -> Vec<Vec<(Vec<u8>, u64, u64)>> {
    groups
        .iter()
        .map(|g| {
            g.iter()
                .map(|f| {
                    let r = f.range.unwrap();
                    (f.path.clone(), r.start, r.end)
                })
                .collect()
        })
        .collect()
}

#[test]
fn one_file_splits_evenly() {
    let groups = vec![vec![whole("x", 10)]];
    let out = FileScanConfig::repartition_file_groups(groups, 2, 1).unwrap();
    assert!(
        ranges_of(&out)
            == vec![vec![(b("x"), 0, 5)], vec![(b("x"), 5, 10)]]
    );
}

#[test]
fn partitions_cross_file_boundaries() {
    let groups = vec![vec![whole("x", 6)], vec![whole("y", 4)]];
    let out = FileScanConfig::repartition_file_groups(groups, 2, 1).unwrap();
    // The second partition holds the tail of `x` and all of `y`: fills
    // are not aligned to file boundaries.
    assert!(
        ranges_of(&out)
            == vec![
                vec![(b("x"), 0, 5)],
                vec![(b("x"), 5, 6), (b("y"), 0, 4)],
            ]
    );
}

#[test]
fn remainder_stays_in_final_partition() {
    let groups = vec![vec![whole("x", 3)]];
    let out = FileScanConfig::repartition_file_groups(groups, 2, 0).unwrap();
    assert!(ranges_of(&out) == vec![vec![(b("x"), 0, 2)], vec![(b("x"), 2, 3)]]);
}

#[test]
fn rounding_can_leave_fewer_partitions() {
    // Ten bytes over three partitions: the target size rounds up to
    // four, so only three groups of sizes 4, 4 and 2 come out.
    let groups = vec![vec![whole("x", 10)]];
    let out = FileScanConfig::repartition_file_groups(groups, 3, 1).unwrap();
    assert!(
        ranges_of(&out)
            == vec![
                vec![(b("x"), 0, 4)],
                vec![(b("x"), 4, 8)],
                vec![(b("x"), 8, 10)],
            ]
    );
}

#[test]
fn no_change_when_a_range_is_already_assigned() {
    let mut f = whole("x", 10);
    f.range = Some(FileRange { start: 0, end: 4 });
    let groups = vec![vec![f], vec![whole("y", 20)]];
    assert!(FileScanConfig::repartition_file_groups(groups, 2, 1).is_none());
}

#[test]
fn no_change_below_minimum_size() {
    let groups = vec![vec![whole("x", 10)]];
    assert!(FileScanConfig::repartition_file_groups(groups, 2, 11).is_none());
}

#[test]
fn no_change_when_empty() {
    let groups: Vec<Vec<PartitionedFile>> = vec![vec![]];
    assert!(FileScanConfig::repartition_file_groups(groups, 2, 0).is_none());
    let zero = vec![vec![whole("x", 0)]];
    assert!(FileScanConfig::repartition_file_groups(zero, 2, 0).is_none());
}

#[test]
fn every_byte_is_covered_exactly_once() {
    let groups = vec![
        vec![whole("a", 7), whole("b", 1)],
        vec![whole("c", 9)],
    ];
    let out = FileScanConfig::repartition_file_groups(groups, 4, 1).unwrap();
    // Flatten the output and walk each source file's pieces in order:
    // they must abut, start at zero and end at the file's size.
    let flat: Vec<(Vec<u8>, u64, u64, u64)> = out
        .iter()
        .flatten()
        .map(|f| {
            let r = f.range.unwrap();
            (f.path.clone(), f.size, r.start, r.end)
        })
        .collect();
    for (name, size) in [(b("a"), 7u64), (b("b"), 1), (b("c"), 9)] {
        let pieces: Vec<&(Vec<u8>, u64, u64, u64)> =
            flat.iter().filter(|p| p.0 == name).collect();
        let mut pos = 0u64;
        for p in &pieces {
            assert!(p.1 == size);
            assert!(p.2 == pos, "pieces must abut");
            assert!(p.3 > p.2, "pieces are non-empty");
            pos = p.3;
        }
        assert!(pos == size, "the last piece ends at the file's size");
    }
    // Total output bytes equal total input bytes.
    let covered: u64 = flat.iter().map(|p| p.3 - p.2).sum();
    assert!(covered == 17);
}
