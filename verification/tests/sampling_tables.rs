use dzp::face::Face;
use dzp::sampling::{SamplingTable, SamplingTableCache, SamplingTableSet};

fn numbered(count: u32) -> Vec<(u32, u32)> {
    (0..count).map(|i| (i, i.wrapping_mul(3))).collect()
}

fn set_of(face_size: u32, first: u32) -> SamplingTableSet {
    let sources: Vec<Vec<(u32, u32)>> = (0..6)
        .map(|k| (0..face_size * face_size).map(|i| (first + k, i)).collect())
        .collect();
    SamplingTableSet::from_sources(face_size, &sources).unwrap()
}

fn check_permutation(width: u32) {
    let face_size = width / 4;
    let table = SamplingTable::from_sources(face_size, &numbered(face_size * face_size)).unwrap();
    assert_eq!(table.len() as u64, (face_size as u64) * (face_size as u64));
    let mut seen = vec![false; table.len()];
    for i in 0..table.len() {
        let mapping = table.get(i);
        let (x, y) = mapping.face_coordinate;
        assert!(x < face_size && y < face_size);
        assert_eq!((x as usize) * (face_size as usize) + y as usize, i);
        assert!(!seen[i]);
        seen[i] = true;
        assert_eq!(mapping.source_bits, (i as u32, (i as u32).wrapping_mul(3)));
    }
    assert!(seen.iter().all(|s| *s));
}

#[test]
fn table_for_width_256_is_a_permutation() {
    check_permutation(256);
}

#[test]
fn table_for_width_1024_is_a_permutation() {
    check_permutation(1024);
}

#[test]
fn table_for_width_4096_is_a_permutation() {
    check_permutation(4096);
}

#[test]
fn table_for_width_14400_is_a_permutation() {
    check_permutation(14400);
}

#[test]
fn table_is_in_column_major_order() {
    let table = SamplingTable::from_sources(3, &numbered(9)).unwrap();
    let order: Vec<(u32, u32)> = (0..9).map(|i| table.get(i).face_coordinate).collect();
    assert_eq!(
        order,
        vec![(0, 0), (0, 1), (0, 2), (1, 0), (1, 1), (1, 2), (2, 0), (2, 1), (2, 2)]
    );
    assert_eq!(table.face_size(), 3);
}

#[test]
fn table_needs_one_source_for_each_pixel() {
    assert!(SamplingTable::from_sources(3, &numbered(8)).is_none());
    assert!(SamplingTable::from_sources(3, &numbered(10)).is_none());
    assert!(SamplingTable::from_sources(0, &numbered(1)).is_none());
    assert_eq!(SamplingTable::from_sources(0, &numbered(0)).unwrap().len(), 0);
}

#[test]
fn set_needs_six_complete_lists() {
    let five: Vec<Vec<(u32, u32)>> = (0..5).map(|_| numbered(4)).collect();
    assert!(SamplingTableSet::from_sources(2, &five).is_none());
    let mut six: Vec<Vec<(u32, u32)>> = (0..6).map(|_| numbered(4)).collect();
    assert!(SamplingTableSet::from_sources(2, &six).is_some());
    six[4].pop();
    assert!(SamplingTableSet::from_sources(2, &six).is_none());
}

#[test]
fn set_keeps_the_tables_by_face() {
    let set = set_of(2, 100);
    assert_eq!(set.face_size(), 2);
    assert_eq!(set.table(Face::Front).get(0).source_bits, (100, 0));
    assert_eq!(set.table(Face::Back).get(1).source_bits, (101, 1));
    assert_eq!(set.table(Face::Left).get(2).source_bits, (102, 2));
    assert_eq!(set.table(Face::Right).get(3).source_bits, (103, 3));
    assert_eq!(set.table(Face::Down).get(0).source_bits, (104, 0));
    assert_eq!(set.table(Face::Up).get(0).source_bits, (105, 0));
}

#[test]
fn ensure_keeps_the_first_tables_of_a_width() {
    let mut cache = SamplingTableCache::new();
    assert_eq!(cache.len(), 0);
    assert!(!cache.contains(8));
    assert!(cache.get(8).is_none());
    cache.ensure(8, set_of(2, 10));
    assert!(cache.contains(8));
    assert_eq!(cache.len(), 1);
    cache.ensure(8, set_of(2, 50));
    cache.ensure(16, set_of(4, 70));
    cache.ensure(8, set_of(2, 90));
    assert_eq!(cache.len(), 2);
    assert_eq!(cache.get(8).unwrap().table(Face::Front).get(0).source_bits, (10, 0));
    assert_eq!(cache.get(16).unwrap().table(Face::Front).get(0).source_bits, (70, 0));
}
