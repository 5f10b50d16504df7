use vdb_rs::benchmark::{
    count_hits, effective_k, effective_refine_k, matrix, percentile_places, read_fvecs, read_ivecs,
    truth_of, DatasetError,
};
use vdb_rs::fulltext::{FulltextIndex, FulltextQuery};
use vdb_rs::gpu::GpuDevice;
use vdb_rs::hybrid::{reciprocal_rank_fusion, weighted_fusion};
use vdb_rs::index_ivf_rq::Payload;
use vdb_rs::ordering::sort_by_distance;
use vdb_rs::simd::{batch_hamming_distance, hamming_distance, hamming_distance_fallback};
use vdb_rs::sys_info::{
    recommend_mmap_cache_bytes, recommend_num_partitions, recommend_search_options,
};

fn reciprocal(score: u32, entry: (usize, usize)) -> u32 {
    let (k, rank) = entry;
    (f32::from_bits(score) + 1.0 / (k as f32 + rank as f32)).to_bits()
}

fn weighted(score: u32, entry: (u32, u32)) -> u32 {
    (f32::from_bits(score) + f32::from_bits(entry.0) * f32::from_bits(entry.1)).to_bits()
}

fn list(items: &[(u64, f32)]) -> Vec<(u64, u32)> {
    items.iter().map(|(id, s)| (*id, s.to_bits())).collect()
}

fn rows(items: &[Vec<u32>]) -> Vec<u8> {
    let mut b = Vec::new();
    for row in items {
        b.extend_from_slice(&(row.len() as u32).to_le_bytes());
        for x in row {
            b.extend_from_slice(&x.to_le_bytes());
        }
    }
    b
}

#[test]
fn test_hamming_distance_aligned() {
    let a = vec![0b0000_1111u8; 16];
    let b = vec![0b1111_0000u8; 16];
    assert_eq!(hamming_distance(&a, &b), 8 * 16);
}

#[test]
fn test_hamming_distance_random() {
    for len in [1, 7, 16, 33, 64, 127, 256] {
        let a: Vec<u8> = (0..len).map(|_| rand::random::<u8>()).collect();
        let b: Vec<u8> = (0..len).map(|_| rand::random::<u8>()).collect();
        let expected = hamming_distance_fallback(&a, &b);
        let actual = hamming_distance(&a, &b);
        assert_eq!(expected, actual, "len={}", len);
    }
}

#[test]
fn test_batch_hamming_distance() {
    let query = vec![0xFFu8; 16];
    let codes: Vec<Vec<u8>> = (0..4).map(|i| vec![i as u8; 16]).collect();
    let code_refs: Vec<&[u8]> = codes.iter().map(|c| c.as_slice()).collect();
    let mut out = vec![0u64; 4];
    batch_hamming_distance(&query, &code_refs, &mut out);
    for i in 0..4 {
        assert_eq!(out[i], hamming_distance(&query, &codes[i]));
    }
    assert_eq!(out, vec![128, 112, 112, 96]);
}

#[test]
fn test_hamming_distance_empty() {
    assert_eq!(hamming_distance(&[], &[]), 0);
}

#[test]
fn simd_hamming_distance() {
    let x = vec![0b0000_1111u8; 16];
    let y = vec![0b1111_0000u8; 16];
    assert_eq!(hamming_distance(&x, &y), 8 * 16);
}

#[test]
fn simd_batch_hamming_distance() {
    let query = vec![0xFFu8; 16];
    let codes: Vec<Vec<u8>> = (0..4).map(|i| vec![i as u8; 16]).collect();
    let refs: Vec<&[u8]> = codes.iter().map(|c| c.as_slice()).collect();
    let mut out = vec![0u64; 4];
    batch_hamming_distance(&query, &refs, &mut out);
    for i in 0..4 {
        assert_eq!(out[i], hamming_distance(&query, &codes[i]));
    }
}

#[test]
fn test_gpu_fallback_matches_cpu() {
    let query = vec![0xFFu8; 16];
    let codes: Vec<Vec<u8>> = (0..4).map(|i| vec![i as u8; 16]).collect();
    let code_refs: Vec<&[u8]> = codes.iter().map(|c| c.as_slice()).collect();
    let mut cpu_out = vec![0u64; 4];
    batch_hamming_distance(&query, &code_refs, &mut cpu_out);
    let device = GpuDevice::new();
    let mut gpu_out = vec![0u64; 4];
    if let Some(dev) = device {
        dev.batch_rabitq_popcount(&query, &code_refs, &mut gpu_out);
        assert_eq!(cpu_out, gpu_out);
    }
}

#[test]
fn gpu_fallback() {
    if let Some(dev) = GpuDevice::new() {
        let query = vec![0xFFu8; 16];
        let codes: Vec<Vec<u8>> = (0..4).map(|i| vec![i as u8; 16]).collect();
        let refs: Vec<&[u8]> = codes.iter().map(|c| c.as_slice()).collect();
        let mut out = vec![0u64; 4];
        dev.batch_rabitq_popcount(&query, &refs, &mut out);
        let mut expected = vec![0u64; 4];
        batch_hamming_distance(&query, &refs, &mut expected);
        assert_eq!(out, expected);
    }
}

#[test]
fn the_processor_takes_the_place_of_a_device() {
    assert!(GpuDevice::new().is_none());
    let codes: Vec<&[u8]> = vec![&[0, 1], &[255, 255]];
    let mut out = vec![0u64; 2];
    GpuDevice.batch_rabitq_popcount(&[0, 0], &codes, &mut out);
    assert_eq!(out, vec![1, 16]);
}

#[test]
fn test_recommend_num_partitions() {
    assert_eq!(recommend_num_partitions(1), 4);
    assert_eq!(recommend_num_partitions(100), 10);
    assert_eq!(recommend_num_partitions(1_000_000), 1000);
}

#[test]
fn test_recommend_mmap_cache_bytes() {
    let mem_8g = 8u64 * 1024 * 1024 * 1024;
    assert_eq!(recommend_mmap_cache_bytes(mem_8g), mem_8g / 2);
    let mem_32g = 32u64 * 1024 * 1024 * 1024;
    assert_eq!(recommend_mmap_cache_bytes(mem_32g), (mem_32g * 85) / 100);
}

#[test]
fn sys_info_recommend_mmap_cache_bytes_boundary() {
    let mem_16g = 16u64 * 1024 * 1024 * 1024;
    assert_eq!(recommend_mmap_cache_bytes(mem_16g), (mem_16g * 85) / 100);
}

#[test]
fn sys_info_recommend_num_partitions_clamped() {
    assert_eq!(recommend_num_partitions(0), 4);
    assert_eq!(recommend_num_partitions(3), 4);
    assert_eq!(recommend_num_partitions(100), 10);
    assert_eq!(recommend_num_partitions(65536 * 65536), 65536);
}

#[test]
fn sys_info_recommend_search_options_scales() {
    let memory = Some(8u64 * 1024 * 1024 * 1024);
    let small = recommend_search_options(1_000, 10, memory);
    assert_eq!(small.partitions, recommend_num_partitions(1_000));
    assert!(small.balanced.nprobe <= 50);

    let medium = recommend_search_options(100_000, 10, memory);
    assert_eq!(medium.partitions, 316);
    assert_eq!(medium.balanced.nprobe, 50);

    let large = recommend_search_options(10_000_000, 10, memory);
    assert!(large.partitions > 1000);
    assert!(large.balanced.nprobe >= 100 && large.balanced.nprobe <= 300);

    assert_eq!(small.latency.query_bits, 8);
    assert_eq!(small.recall.query_bits, 0);
}

#[test]
fn recommendations_are_those_of_the_table() {
    let r = recommend_search_options(100_000, 10, None);
    assert_eq!((r.latency.nprobe, r.latency.refine_k, r.latency.fastscan), (16, 100, true));
    assert_eq!((r.balanced.nprobe, r.balanced.refine_k, r.balanced.query_bits), (50, 1000, 0));
    assert_eq!((r.recall.nprobe, r.recall.refine_k), (100, 5000));
    assert_eq!(r.balanced.recall_target, "≥ 0.95");
    assert_eq!(r.recall.recall_target, "≥ 0.99");
    assert_eq!(r.latency.recall_target, "中等");
    assert_eq!(r.mmap_cache_bytes, None);
    let small = recommend_search_options(9_999, 7, Some(100));
    assert_eq!((small.balanced.nprobe, small.balanced.refine_k), (50, 140));
    assert_eq!(small.mmap_cache_bytes, Some(50));
    let large = recommend_search_options(10_000_000_000, 10, None);
    assert_eq!((large.partitions, large.balanced.nprobe), (65536, 300));
    assert_eq!(large.balanced.recall_target, "≥ 0.96");
}

#[test]
fn hybrid_rrf_basic() {
    let list_a = list(&[(1, 0.0), (2, 0.0), (3, 0.0)]);
    let list_b = list(&[(2, 0.0), (3, 0.0), (4, 0.0)]);
    let merged = reciprocal_rank_fusion(60, &[list_a, list_b], &reciprocal);
    let ids: Vec<u64> = merged.iter().map(|(id, _)| *id).collect();
    assert!(ids[..2].contains(&2));
    assert!(ids[..2].contains(&3));
    assert!(ids.contains(&1));
    assert!(ids.contains(&4));
}

#[test]
fn hybrid_weighted_fusion_basic() {
    let list_a = list(&[(1, 1.0), (2, 0.5)]);
    let list_b = list(&[(2, 1.0), (3, 0.5)]);
    let half = 0.5f32.to_bits();
    let merged = weighted_fusion(&[(half, list_a), (half, list_b)], &weighted);
    let ids: Vec<u64> = merged.iter().map(|(id, _)| *id).collect();
    assert_eq!(ids[0], 2);
}

#[test]
fn equal_scores_are_ranked_by_id() {
    let lists = [list(&[(9, 0.0)]), list(&[(4, 0.0)]), list(&[(7, 0.0)])];
    let merged = reciprocal_rank_fusion(60, &lists, &reciprocal);
    let ids: Vec<u64> = merged.iter().map(|(id, _)| *id).collect();
    assert_eq!(ids, vec![4, 7, 9]);
    assert_eq!(f32::from_bits(merged[0].1), 1.0 / 61.0);
    assert!(reciprocal_rank_fusion(60, &[], &reciprocal).is_empty());
    let weights = [(2.0f32.to_bits(), list(&[(1, 0.5), (1, 0.25)]))];
    assert_eq!(weighted_fusion(&weights, &weighted), vec![(1, 1.5f32.to_bits())]);
}

#[test]
fn every_document_is_found_by_a_text() {
    let query = FulltextQuery::new("word");
    assert_eq!(query.text, "word");
    assert_eq!(FulltextQuery::new(String::from("x")).text, "x");
    assert!(FulltextIndex::new().search(&query).is_empty());
    assert!(FulltextIndex::default().search(&query).is_empty());
    let two = FulltextIndex::build(&[Payload::new(), Payload::new()]);
    assert_eq!(two.search(&query), vec![0, 1]);
    assert_eq!(two.search(&FulltextQuery::new("")), vec![0, 1]);
    assert!(FulltextIndex::build(&[]).search(&query).is_empty());
}

#[test]
fn data_sets_are_read() {
    let a: Vec<u32> = (0..64).collect();
    let b: Vec<u32> = (64..128).collect();
    let mut file = rows(&[a.clone(), b.clone()]);
    assert_eq!(read_fvecs(&file), Ok(vec![a.clone(), b.clone()]));
    file.push(1);
    assert_eq!(read_fvecs(&file), Ok(vec![a.clone(), b.clone()]));
    assert_eq!(read_fvecs(&file[..300]), Err(DatasetError::Truncated));
    let lists = rows(&[vec![5, 6, 7], vec![]]);
    assert_eq!(read_ivecs(&lists), Ok(vec![vec![5, 6, 7], vec![]]));
    assert_eq!(read_fvecs(&lists), Err(DatasetError::Dimension(3)));
    assert_eq!(read_ivecs(&[]), Ok(vec![]));
}

#[test]
fn measurements_are_counted() {
    assert_eq!(effective_k(10, None), 10);
    assert_eq!(effective_k(10, Some(3)), 3);
    assert_eq!(effective_k(10, Some(30)), 10);
    assert_eq!(effective_refine_k(0, 7), 70);
    assert_eq!(effective_refine_k(5, 7), 5);
    assert_eq!(effective_refine_k(5, usize::MAX), 5);
    let rows = vec![vec![4, 0xFFFF_FFFF, 6], vec![]];
    assert_eq!(truth_of(&rows, 0, 2), vec![4, u64::MAX]);
    assert_eq!(truth_of(&rows, 0, 9), vec![4, u64::MAX, 6]);
    assert!(truth_of(&rows, 1, 9).is_empty() && truth_of(&rows, 2, 9).is_empty());
    assert_eq!(count_hits(&vec![(1, 0), (2, 0), (3, 0)], &vec![3, 1, 9]), 2);
    assert_eq!(percentile_places(100), (50, 99));
    assert_eq!(percentile_places(1), (0, 0));
    let m = matrix();
    assert_eq!(m.len(), 16);
    assert!(m.contains(&(512, 100_000)) && !m.contains(&(768, 100_000)));
    assert_eq!(m[0], (64, 1_000));
}

#[test]
fn more_vectors_never_have_fewer_partitions() {
    let counts: Vec<usize> =
        [0, 15, 16, 24, 25, 1_000, 4_294_967_296].iter().map(|n| recommend_num_partitions(*n)).collect();
    assert_eq!(counts, vec![4, 4, 4, 4, 5, 31, 65536]);
}

#[test]
fn more_memory_never_gives_less_cache() {
    let gib = 1u64 << 30;
    let below = recommend_mmap_cache_bytes(16 * gib - 1);
    let at = recommend_mmap_cache_bytes(16 * gib);
    assert_eq!((below, at), ((16 * gib - 1) * 50 / 100, 16 * gib * 85 / 100));
    assert!(below <= at);
}

#[test]
fn sorting_by_distance_is_stable_and_loses_nothing() {
    let items: Vec<(u64, u32)> = list(&[(3, 2.0), (1, -0.0), (4, 2.0), (5, -1.0), (2, 0.0)]);
    let ids: Vec<u64> = sort_by_distance(&items).iter().map(|(id, _)| *id).collect();
    assert_eq!(ids, vec![5, 1, 2, 3, 4]);
}

#[test]
fn distances_agree_whoever_computes_them() {
    let query = [0b1010_1010u8, 0xff, 0, 7, 9, 1, 2, 3, 4];
    let a = [0u8, 0xff, 1, 7, 9, 1, 2, 3, 5];
    let b = [0xffu8; 9];
    let codes: [&[u8]; 2] = [&a, &b];
    let mut by_processor = [0u64; 2];
    batch_hamming_distance(&query, &codes, &mut by_processor);
    assert_eq!(by_processor, [6, 50]);
    let one = hamming_distance(&query, &a);
    assert_eq!(one, hamming_distance_fallback(&query, &a));
    assert_eq!(one, hamming_distance(&a, &query));
    assert_eq!(one, 6);
}

#[test]
fn all_memory_there_is_gives_a_cache() {
    assert_eq!(recommend_mmap_cache_bytes(u64::MAX), 15_679_732_462_653_118_872);
    assert_eq!(recommend_search_options(10, 1, Some(u64::MAX)).mmap_cache_bytes, Some(15_679_732_462_653_118_872));
    assert_eq!(recommend_mmap_cache_bytes(17_179_869_184), 14_602_888_806);
    assert_eq!(recommend_mmap_cache_bytes(17_179_869_183), 8_589_934_591);
}
