use rinha_rust::index::format::IndexWriter;
use rinha_rust::index::{compute_partition_key, IndexError, IndexMetadata, SearchMode, SpecialistIndex};

const REFERENCES: usize = 10;
const BLOCKS: usize = 2;
const CUTS: [i16; 7] = [-5000, -2000, 0, 1000, 2000, 5000, 8000];
const HEADER: usize = 46;

fn value(reference: usize, dim: usize) -> i16 {
    (100 * reference + dim) as i16
}

fn label(reference: usize) -> u8 {
    if reference >= 6 {
        1
    } else {
        0
    }
}

fn boxed(lo_ref: usize, hi_ref: usize) -> ([i16; 16], [i16; 16]) {
    let mut min = [0i16; 16];
    let mut max = [0i16; 16];
    for d in 0..14 {
        min[d] = value(lo_ref, d);
        max[d] = value(hi_ref, d);
    }
    (min, max)
}

/// One partition over a root with two leaves: references 0..8 in block 0 and 8..10 in
/// block 1.
fn sample_image() -> Vec<u8> {
    let mut w = IndexWriter::new();
    w.write_header(REFERENCES as i32, CUTS).unwrap();
    w.write_partition_count(1).unwrap();
    w.write_node_count(3).unwrap();
    w.write_block_count(BLOCKS as i32).unwrap();
    let (all_min, all_max) = boxed(0, 9);
    w.write_partition_entry(0, 0, REFERENCES, all_min, all_max).unwrap();
    w.write_node_entry(1, 2, 0, REFERENCES, all_min, all_max).unwrap();
    let (lmin, lmax) = boxed(0, 7);
    w.write_node_entry(-1, -1, 0, 8, lmin, lmax).unwrap();
    let (rmin, rmax) = boxed(8, 9);
    w.write_node_entry(-1, -1, 1, 2, rmin, rmax).unwrap();
    for block in 0..BLOCKS {
        for dim in 0..14 {
            for lane in 0..8 {
                let reference = block * 8 + lane;
                let v = if reference < REFERENCES { value(reference, dim) } else { 0 };
                w.write_i16(v).unwrap();
            }
        }
    }
    for block in 0..BLOCKS {
        for lane in 0..8 {
            let reference = block * 8 + lane;
            w.write_u8(if reference < REFERENCES { label(reference) } else { 0 }).unwrap();
        }
    }
    w.into_bytes()
}

fn brute_force_count(query: &[i16; 16]) -> u8 {
    let mut all: Vec<(i64, usize)> = (0..REFERENCES)
        .map(|g| {
            let d: i64 = (0..14)
                .map(|dim| {
                    let diff = query[dim] as i64 - value(g, dim) as i64;
                    diff * diff
                })
                .sum();
            (d, g)
        })
        .collect();
    all.sort();
    all.iter().take(5).map(|&(_, g)| label(g)).sum()
}

#[test]
fn writer_emits_header_with_its_scale_cuts_and_patched_counts() {
    let mut w = IndexWriter::new();
    w.write_header(7, CUTS).unwrap();
    w.write_partition_count(3).unwrap();
    w.write_node_count(4).unwrap();
    w.write_block_count(5).unwrap();
    let bytes = w.into_bytes();
    let mut expected = b"RNSPCST2".to_vec();
    for v in [10000i32, 16, 7, 3, 4, 5] {
        expected.extend_from_slice(&v.to_le_bytes());
    }
    for c in CUTS {
        expected.extend_from_slice(&c.to_le_bytes());
    }
    assert_eq!(expected.len(), HEADER);
    assert_eq!(bytes, expected);
}

#[test]
fn writer_emits_entries_little_endian() {
    let mut w = IndexWriter::new();
    let mut min = [0i16; 16];
    let mut max = [0i16; 16];
    min[0] = -2;
    max[15] = 0x0102;
    w.write_partition_entry(0xAABBCCDD, 3, 9, min, max).unwrap();
    w.write_node_entry(-1, 5, 6, 7, min, max).unwrap();
    let bytes = w.into_bytes();
    assert_eq!(bytes.len(), 160);
    assert_eq!(&bytes[0..16], &[0xDD, 0xCC, 0xBB, 0xAA, 3, 0, 0, 0, 0, 0, 0, 0, 9, 0, 0, 0]);
    assert_eq!(&bytes[16..18], &[0xFE, 0xFF]);
    assert_eq!(&bytes[78..80], &[0x02, 0x01]);
    assert_eq!(&bytes[80..96], &[0xFF, 0xFF, 0xFF, 0xFF, 5, 0, 0, 0, 6, 0, 0, 0, 7, 0, 0, 0]);
}

#[test]
fn writer_image_is_accepted() {
    let mut w = IndexWriter::new();
    w.write_header(0, CUTS).unwrap();
    let bytes = w.into_bytes();
    let index = SpecialistIndex::open(&bytes, SearchMode::Exact).unwrap();
    assert_eq!(index.metadata(), IndexMetadata::default());
    assert_eq!(index.predict_fraud_count(&[0i16; 16]), 0);
    let mut scale = bytes.clone();
    scale[8..12].copy_from_slice(&8192i32.to_le_bytes());
    assert_eq!(SpecialistIndex::open(&scale, SearchMode::Exact).err(), Some(IndexError::InvalidScale));
}

#[test]
fn open_reports_each_refusal() {
    let image = sample_image();
    let open = |b: &[u8]| SpecialistIndex::open(b, SearchMode::Specialist).err();
    assert_eq!(open(b"RNSP"), Some(IndexError::FileTooShort));
    assert_eq!(open(b"NOTANIDXAAAA"), Some(IndexError::UnknownMagic));
    assert_eq!(open(&image[..20]), Some(IndexError::UnexpectedEof));
    assert_eq!(open(&image[..40]), Some(IndexError::UnexpectedEof));
    assert_eq!(open(b"RNSPCST1AAAA"), Some(IndexError::UnknownMagic));

    let mut dims = image.clone();
    dims[12..16].copy_from_slice(&15i32.to_le_bytes());
    assert_eq!(open(&dims), Some(IndexError::InvalidPackedDims));

    assert_eq!(open(&image[..100]), Some(IndexError::UnexpectedEof));
    let vectors_at = HEADER + 80 * 4;
    assert_eq!(open(&image[..vectors_at + 10]), Some(IndexError::TruncatedVectors));
    let labels_at = vectors_at + 2 * 112 * BLOCKS;
    assert_eq!(open(&image[..labels_at + 3]), Some(IndexError::TruncatedLabels));
}

#[test]
fn sample_index_metadata() {
    let index = SpecialistIndex::open(&sample_image(), SearchMode::Exact).unwrap();
    assert_eq!(
        index.metadata(),
        IndexMetadata { reference_count: 10, partition_count: 1, node_count: 3, block_count: 2 }
    );
}

#[test]
fn every_search_mode_finds_the_exact_neighbours() {
    let image = sample_image();
    let modes = [SearchMode::Exact, SearchMode::Specialist, SearchMode::KeyFirst];
    for (fill, expected) in [(0i16, 0u8), (450, 1), (880, 4), (-300, 0), (2000, 4)] {
        let query = [fill; 16];
        assert_eq!(brute_force_count(&query), expected);
        for mode in modes {
            let index = SpecialistIndex::open(&image, mode).unwrap();
            assert_eq!(index.predict_fraud_count(&query), expected, "mode {:?} fill {}", mode, fill);
            assert_eq!(index.predict_fraud_count_exact(&query), expected);
            let (count, stats) = index.predict_fraud_count_with_stats(&query);
            assert_eq!(count, expected);
            if mode != SearchMode::Exact {
                assert!(stats.partitions_visited >= 1);
            }
        }
    }
}

#[test]
fn pruning_skips_the_far_leaf() {
    let index = SpecialistIndex::open(&sample_image(), SearchMode::Specialist).unwrap();
    let (count, stats) = index.predict_fraud_count_with_stats(&[0i16; 16]);
    assert_eq!(count, 0);
    assert_eq!(stats.leaves_scanned, 1);
    assert_eq!(stats.blocks_scanned, 1);
}

#[test]
fn partition_key_bits() {
    let mut v = [0i16; 16];
    v[0] = -6000;
    assert_eq!(compute_partition_key(&v, &CUTS), 0);
    v[5] = -10000;
    v[9] = 1;
    assert_eq!(compute_partition_key(&v, &CUTS), 1);
    v[11] = 10000;
    v[8] = 3000;
    v[2] = 5000;
    v[0] = 1500;
    assert_eq!(compute_partition_key(&v, &CUTS), 1 + 4 + 8 + 16 + 32 * 4);
    v[10] = 10000;
    v[0] = 8000;
    assert_eq!(compute_partition_key(&v, &CUTS), 255);
    v[0] = -5000;
    assert_eq!(compute_partition_key(&v, &CUTS), 31 + 32);
}

/// Three partitions, one leaf each, listed near, far, closest: the closest only counts if
/// the partitions are ranked by their boxes before the search.
fn ranked_image() -> Vec<u8> {
    let levels: Vec<(i16, u8)> = (0..8)
        .map(|i| (100 + i as i16, 0u8))
        .chain((0..8).map(|i| (5000 + i as i16, 0u8)))
        .chain(std::iter::once((50i16, 1u8)))
        .collect();
    let refs = levels.len();
    let blocks = 3;
    let mut w = IndexWriter::new();
    w.write_header(refs as i32, CUTS).unwrap();
    w.write_partition_count(3).unwrap();
    w.write_node_count(3).unwrap();
    w.write_block_count(blocks).unwrap();
    let ranges = [(0usize, 8usize), (8, 16), (16, 17)];
    let box_of = |lo: usize, hi: usize| {
        let mut min = [0i16; 16];
        let mut max = [0i16; 16];
        for d in 0..14 {
            min[d] = (lo..hi).map(|r| levels[r].0).min().unwrap();
            max[d] = (lo..hi).map(|r| levels[r].0).max().unwrap();
        }
        (min, max)
    };
    for (p, &(lo, hi)) in ranges.iter().enumerate() {
        let (min, max) = box_of(lo, hi);
        w.write_partition_entry(0, p, hi - lo, min, max).unwrap();
    }
    for &(lo, hi) in ranges.iter() {
        let (min, max) = box_of(lo, hi);
        w.write_node_entry(-1, -1, lo / 8, hi - lo, min, max).unwrap();
    }
    for block in 0..3 {
        for _dim in 0..14 {
            for lane in 0..8 {
                let r = block * 8 + lane;
                w.write_i16(if r < refs { levels[r].0 } else { 0 }).unwrap();
            }
        }
    }
    for block in 0..3 {
        for lane in 0..8 {
            let r = block * 8 + lane;
            w.write_u8(if r < refs { levels[r].1 } else { 0 }).unwrap();
        }
    }
    w.into_bytes()
}

#[test]
fn partitions_are_searched_nearest_box_first() {
    let image = ranked_image();
    let query = [0i16; 16];
    for mode in [SearchMode::Exact, SearchMode::Specialist, SearchMode::KeyFirst] {
        let index = SpecialistIndex::open(&image, mode).unwrap();
        assert_eq!(index.predict_fraud_count(&query), 1, "mode {:?}", mode);
    }
    let index = SpecialistIndex::open(&image, SearchMode::Specialist).unwrap();
    let (_, stats) = index.predict_fraud_count_with_stats(&query);
    assert_eq!(stats.partitions_visited, 2);
    assert_eq!(stats.leaves_scanned, 2);
}

/// Two leaves padded to whole blocks, as the builder lays them out: five references in
/// block 0 and three in block 1. Padding lanes are never neighbours.
#[test]
fn padding_lanes_are_not_references() {
    let leaves = [(0usize, 5usize), (1, 3)];
    let value = |block: usize, lane: usize| (1000 * (block + 1) + 10 * lane) as i16;
    let mut w = IndexWriter::new();
    w.write_header(8, CUTS).unwrap();
    w.write_partition_count(1).unwrap();
    w.write_node_count(3).unwrap();
    w.write_block_count(2).unwrap();
    let mut all_min = [0i16; 16];
    let mut all_max = [0i16; 16];
    for d in 0..14 {
        all_min[d] = value(0, 0);
        all_max[d] = value(1, 2);
    }
    w.write_partition_entry(0, 0, 8, all_min, all_max).unwrap();
    w.write_node_entry(1, 2, 0, 8, all_min, all_max).unwrap();
    for &(block, len) in leaves.iter() {
        let mut min = [0i16; 16];
        let mut max = [0i16; 16];
        for d in 0..14 {
            min[d] = value(block, 0);
            max[d] = value(block, len - 1);
        }
        w.write_node_entry(-1, -1, block, len, min, max).unwrap();
    }
    for &(block, len) in leaves.iter() {
        for _dim in 0..14 {
            for lane in 0..8 {
                w.write_i16(if lane < len { value(block, lane) } else { 0 }).unwrap();
            }
        }
    }
    for &(block, len) in leaves.iter() {
        for lane in 0..8 {
            w.write_u8(if lane < len && block == 0 { 1 } else { 0 }).unwrap();
        }
    }
    let image = w.into_bytes();
    let query = [0i16; 16];
    for mode in [SearchMode::Exact, SearchMode::Specialist, SearchMode::KeyFirst] {
        let index = SpecialistIndex::open(&image, mode).unwrap();
        assert_eq!(index.predict_fraud_count(&query), 5, "mode {:?}", mode);
        assert_eq!(index.predict_fraud_count_exact(&query), 5);
        assert_eq!(index.predict_fraud_count_exact(&[2100i16; 16]), 2);
        assert_eq!(index.predict_fraud_count(&[2100i16; 16]), 2, "mode {:?}", mode);
    }
}

/// Equally distant references with different labels inside the five nearest: every mode
/// counts them all, since the fifth and sixth nearest lie at different distances.
#[test]
fn ties_inside_the_nearest_five_are_counted_alike() {
    // (fill, label) per reference; leaf A holds block 0, leaf B block 1.
    let leaves: [&[(i16, u8)]; 2] = [&[(10, 1), (20, 0)], &[(-10, 0), (-20, 1), (100, 0), (200, 0)]];
    let boxed_fill = |lo: i16, hi: i16| {
        let mut min = [0i16; 16];
        let mut max = [0i16; 16];
        for d in 0..14 {
            min[d] = lo;
            max[d] = hi;
        }
        (min, max)
    };
    let mut w = IndexWriter::new();
    w.write_header(6, CUTS).unwrap();
    w.write_partition_count(1).unwrap();
    w.write_node_count(3).unwrap();
    w.write_block_count(2).unwrap();
    let (all_min, all_max) = boxed_fill(-20, 200);
    w.write_partition_entry(0, 0, 6, all_min, all_max).unwrap();
    w.write_node_entry(1, 2, 0, 6, all_min, all_max).unwrap();
    let (amin, amax) = boxed_fill(10, 20);
    w.write_node_entry(-1, -1, 0, 2, amin, amax).unwrap();
    let (bmin, bmax) = boxed_fill(-20, 200);
    w.write_node_entry(-1, -1, 1, 4, bmin, bmax).unwrap();
    for refs in leaves.iter() {
        for _dim in 0..14 {
            for lane in 0..8 {
                w.write_i16(if lane < refs.len() { refs[lane].0 } else { 0 }).unwrap();
            }
        }
    }
    for refs in leaves.iter() {
        for lane in 0..8 {
            w.write_u8(if lane < refs.len() { refs[lane].1 } else { 0 }).unwrap();
        }
    }
    let image = w.into_bytes();
    for mode in [SearchMode::Exact, SearchMode::Specialist, SearchMode::KeyFirst] {
        let index = SpecialistIndex::open(&image, mode).unwrap();
        assert_eq!(index.predict_fraud_count(&[0i16; 16]), 2, "mode {:?}", mode);
        assert_eq!(index.predict_fraud_count_exact(&[0i16; 16]), 2);
    }
}

/// Links that name no later node of the directory lead to an empty leaf: the image is
/// accepted, and the searches find nothing under such a link.
#[test]
fn dangling_links_are_empty_subtrees() {
    let image = sample_image();
    let mut bad_root = image.clone();
    bad_root[HEADER + 4..HEADER + 8].copy_from_slice(&9i32.to_le_bytes());
    let index = SpecialistIndex::open(&bad_root, SearchMode::Specialist).unwrap();
    assert_eq!(index.metadata().node_count, 3);
    assert_eq!(index.predict_fraud_count(&[880i16; 16]), 0);
    assert_eq!(index.predict_fraud_count_exact(&[880i16; 16]), 4);

    // Node 1 turned into an inner node whose left link points back to the root.
    let mut backward = image.clone();
    let node1 = HEADER + 80 * 2;
    backward[node1..node1 + 4].copy_from_slice(&0i32.to_le_bytes());
    backward[node1 + 4..node1 + 8].copy_from_slice(&2i32.to_le_bytes());
    let index = SpecialistIndex::open(&backward, SearchMode::Specialist).unwrap();
    // The leaf of references 8 and 9 is reached through the root and through node 1.
    assert_eq!(index.predict_fraud_count(&[0i16; 16]), 4);
    assert_eq!(index.predict_fraud_count_exact(&[0i16; 16]), 2);

    let mut no_nodes = image[..HEADER + 80].to_vec();
    no_nodes[24..28].copy_from_slice(&0i32.to_le_bytes());
    no_nodes[28..32].copy_from_slice(&0i32.to_le_bytes());
    let index = SpecialistIndex::open(&no_nodes, SearchMode::Specialist).unwrap();
    assert_eq!(index.metadata().node_count, 0);
    assert_eq!(index.predict_fraud_count(&[0i16; 16]), 0);
}
