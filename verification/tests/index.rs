#![allow(dead_code)]

use serde_json::Value;
use std::collections::HashSet;
use vdb_rs::index_ivf_rq::{IvfRabitqIndex, Payload, QueryQuantizedCode, RabitqConfig, RabitqQuantizer};
use vdb_rs::rabitq::{encode_rotated, levels};
use vdb_rs::search::{query_code, search, QueryCode, SearchOptions};
use std::time::Instant;
use vdb_rs::clustering::{
    kmeans, kmeans_plus_plus_init, nearest_partition, pick_seed, place_of_draw, random_place,
};
use vdb_rs::index_ivf_rq::{default_num_partitions, RabitqCode, Sq8Data};
use vdb_rs::rabitq::{pack_signs, positive_sum};

fn bits(v: &[f32]) -> Vec<u32> {
    v.iter().map(|x| x.to_bits()).collect()
}

fn floats(v: &[u32]) -> Vec<f32> {
    v.iter().map(|x| f32::from_bits(*x)).collect()
}

fn gaussian_random() -> f32 {
    let u1 = rand::random::<f32>().max(1e-7);
    let u2 = rand::random::<f32>();
    (-2.0 * u1.ln()).sqrt() * (2.0 * std::f32::consts::PI * u2).cos()
}

fn gaussian_vector(dim: usize) -> Vec<f32> {
    (0..dim).map(|_| gaussian_random()).collect()
}

fn uniform_vector(dim: usize) -> Vec<f32> {
    (0..dim).map(|_| rand::random::<f32>()).collect()
}

fn dot(a: &[f32], b: &[f32]) -> f32 {
    a.iter().zip(b.iter()).map(|(x, y)| x * y).sum()
}

fn l2(a: &[f32], b: &[f32]) -> f32 {
    a.iter().zip(b.iter()).map(|(x, y)| (x - y) * (x - y)).sum()
}

/// A random orthogonal matrix, row by row, by Gram-Schmidt on its columns.
fn random_rotation(dim: usize) -> Vec<u32> {
    let mut columns: Vec<Vec<f32>> = Vec::new();
    for _ in 0..dim {
        let mut c: Vec<f32> = (0..dim).map(|_| rand::random::<f32>() * 2.0 - 1.0).collect();
        for p in &columns {
            let proj = dot(&c, p);
            for (x, y) in c.iter_mut().zip(p.iter()) {
                *x -= proj * y;
            }
        }
        let norm = dot(&c, &c).sqrt();
        for x in c.iter_mut() {
            *x /= norm;
        }
        columns.push(c);
    }
    let mut rows = Vec::with_capacity(dim * dim);
    for r in 0..dim {
        for c in &columns {
            rows.push(c[r].to_bits());
        }
    }
    rows
}

fn dist(a: &Vec<u32>, b: &Vec<u32>) -> u32 {
    let sum: f32 = a
        .iter()
        .zip(b.iter())
        .map(|(x, y)| {
            let d = f32::from_bits(*x) - f32::from_bits(*y);
            d * d
        })
        .sum();
    sum.to_bits()
}

fn rotate(rotation: &Vec<u32>, vector: &Vec<u32>) -> Vec<u32> {
    let dim = vector.len();
    let v = floats(vector);
    (0..dim)
        .map(|r| {
            let row = &rotation[r * dim..(r + 1) * dim];
            let mut sum = 0.0f32;
            for (x, y) in row.iter().zip(v.iter()) {
                sum += f32::from_bits(*x) * y;
            }
            sum.to_bits()
        })
        .collect()
}

fn corrections(rotated: &Vec<u32>, epsilon_0: u32) -> (u32, u32) {
    let r = floats(rotated);
    let norm_sq = dot(&r, &r);
    let beta = r.iter().map(|x| x.abs()).sum::<f32>() / (norm_sq.sqrt() + f32::from_bits(epsilon_0));
    (norm_sq.to_bits(), beta.to_bits())
}

fn norm(v: &Vec<u32>) -> u32 {
    let f = floats(v);
    dot(&f, &f).to_bits()
}

fn quantize(v: u32, lo: u32, hi: u32) -> u8 {
    let (v, lo, hi) = (f32::from_bits(v), f32::from_bits(lo), f32::from_bits(hi));
    let range = hi - lo;
    if range > 0.0 {
        ((v - lo) / range * 255.0).round() as u8
    } else {
        0
    }
}

fn restore(code: u8, lo: u32, hi: u32) -> u32 {
    let (lo, hi) = (f32::from_bits(lo), f32::from_bits(hi));
    (lo + (code as f32 / 255.0) * (hi - lo)).to_bits()
}

fn running_sums(weights: &Vec<u32>) -> Vec<u32> {
    let mut sum = 0.0f32;
    weights
        .iter()
        .map(|w| {
            sum += f32::from_bits(*w);
            sum.to_bits()
        })
        .collect()
}

fn draw(total: u32) -> u32 {
    (rand::random::<f32>() * f32::from_bits(total)).to_bits()
}

fn new_index(dim: usize) -> IvfRabitqIndex {
    IvfRabitqIndex::new(dim, random_rotation(dim))
}

fn insert(index: &mut IvfRabitqIndex, v: &[f32]) -> u64 {
    index.add(bits(v), &dist, &rotate, &corrections)
}

fn insert_with(index: &mut IvfRabitqIndex, v: &[f32], payload: Payload) -> u64 {
    index.add_with_payload(bits(v), payload, &dist, &rotate, &corrections)
}

fn build(vectors: &[Vec<f32>]) -> IvfRabitqIndex {
    let dim = vectors[0].len();
    let config = RabitqConfig::new(dim);
    let quantizer = RabitqQuantizer::from_rotation(config, random_rotation(dim));
    let all: Vec<Vec<u32>> = vectors.iter().map(|v| bits(v)).collect();
    let copy = all.clone();
    let mean = move |places: &Vec<usize>| -> Vec<u32> {
        let mut sum = vec![0.0f32; copy[0].len()];
        for p in places {
            for (s, x) in sum.iter_mut().zip(copy[*p].iter()) {
                *s += f32::from_bits(*x);
            }
        }
        let inv = 1.0 / places.len() as f32;
        sum.iter().map(|s| (s * inv).to_bits()).collect()
    };
    let config = RabitqConfig::new(dim);
    IvfRabitqIndex::build(
        all,
        config,
        quantizer,
        &dist,
        &mean,
        &running_sums,
        &draw,
        &rotate,
        &corrections,
        &norm,
        &quantize,
    )
}

fn estimate_of_signs(dim: usize, alpha: u32, beta: u32, h: u64, a: u32, b: u32) -> u32 {
    let s = dim as f32 - 2.0 * h as f32;
    let product = f32::from_bits(beta) * f32::from_bits(b) * s / dim as f32;
    (f32::from_bits(alpha) + f32::from_bits(a) - 2.0 * product).to_bits()
}

fn step(top: u32, levels: u8) -> u32 {
    (f32::from_bits(top) / levels as f32).to_bits()
}

fn level(v: u32, top: u32, levels: u8) -> u8 {
    let part = f32::from_bits(v).abs() / f32::from_bits(top) * levels as f32;
    (part.round() as u8).min(levels)
}

fn coded_query(index: &IvfRabitqIndex, query: &[f32], query_bits: u8) -> QueryCode {
    query_code(
        index,
        &bits(query),
        query_bits,
        &rotate,
        &corrections,
        &norm,
        &step,
        &level,
    )
}

fn run_search(index: &IvfRabitqIndex, query: &[f32], options: &SearchOptions) -> Vec<(u64, f32)> {
    let dim = index.config().dim;
    let rotated = rotate(index.rotation_matrix(), &bits(query));
    let r = floats(&rotated);
    let q_norm = dot(&r, &r);
    let (alpha, beta) = corrections(&rotated, index.quantizer().config().epsilon_0);
    let code = coded_query(index, query, options.query_bits);
    let (scale, total) = match &code {
        QueryCode::Quantized(q) => (f32::from_bits(q.scale), q.total_sum as f32),
        QueryCode::Signs(_) => (0.0, 0.0),
    };
    let by_signs = options.query_bits == 0;
    let route = |c: &Vec<u32>, n: u32| -> u32 {
        (q_norm + f32::from_bits(n) - 2.0 * dot(&r, &floats(c))).to_bits()
    };
    let estimate = |h: u64, a: u32, b: u32| -> u32 {
        if by_signs {
            estimate_of_signs(dim, alpha, beta, h, a, b)
        } else {
            let sum = 2.0 * h as f32 - total;
            let product = f32::from_bits(b) * scale * sum / dim as f32;
            (f32::from_bits(alpha) + f32::from_bits(a) - 2.0 * product).to_bits()
        }
    };
    let exact = |v: &Vec<u32>| -> u32 { l2(query, &floats(v)).to_bits() };
    search(index, &code, options, &route, &estimate, &exact, &restore)
        .into_iter()
        .map(|(id, d)| (id, f32::from_bits(d)))
        .collect()
}

fn estimate_search(index: &IvfRabitqIndex, query: &[f32], k: usize, nprobe: usize) -> Vec<(u64, f32)> {
    let dim = index.config().dim;
    let rotated = rotate(index.rotation_matrix(), &bits(query));
    let r = floats(&rotated);
    let q_norm = dot(&r, &r);
    let (alpha, beta) = corrections(&rotated, index.quantizer().config().epsilon_0);
    let code = QueryCode::Signs(encode_rotated(&rotated, alpha, beta));
    let route = |c: &Vec<u32>, n: u32| -> u32 {
        (q_norm + f32::from_bits(n) - 2.0 * dot(&r, &floats(c))).to_bits()
    };
    let estimate = |h: u64, a: u32, b: u32| -> u32 { estimate_of_signs(dim, alpha, beta, h, a, b) };
    index
        .search(&code, k, nprobe, &route, &estimate)
        .into_iter()
        .map(|(id, d)| (id, f32::from_bits(d)))
        .collect()
}

fn flat(index: &IvfRabitqIndex, query: &[f32], k: usize) -> Vec<(u64, f32)> {
    let exact = |v: &Vec<u32>| -> u32 { l2(query, &floats(v)).to_bits() };
    index
        .flat_search(k, &exact)
        .into_iter()
        .map(|(id, d)| (id, f32::from_bits(d)))
        .collect()
}

fn options(k: usize, nprobe: usize, refine: bool, refine_k: usize, fastscan: bool) -> SearchOptions {
    SearchOptions {
        k,
        nprobe,
        refine,
        refine_k,
        fastscan,
        query_bits: 0,
        sq8_refine: false,
        sql_filter: None,
    }
}

fn hits(results: &[(u64, f32)], truth: &[(u64, f32)]) -> usize {
    let truth: HashSet<u64> = truth.iter().map(|(id, _)| *id).collect();
    results.iter().filter(|(id, _)| truth.contains(id)).count()
}

#[test]
fn test_dim_assertion() {
    let cfg = RabitqConfig::new(64);
    assert_eq!(cfg.dim, 64);
    assert_eq!(cfg.code_bytes(), 8);
}

#[test]
fn config_has_fixed_parameters() {
    let cfg = RabitqConfig::new(128);
    assert_eq!(f32::from_bits(cfg.epsilon_0), 1.9);
    assert_eq!(cfg.code_bytes(), 16);
}

#[test]
fn test_encode_recall_like() {
    let dim = 128;
    let quantizer = RabitqQuantizer::from_rotation(RabitqConfig::new(dim), random_rotation(dim));
    let normalized = || {
        let v: Vec<f32> = (0..dim).map(|_| rand::random::<f32>() - 0.5).collect();
        let n = dot(&v, &v).sqrt();
        v.iter().map(|x| x / n).collect::<Vec<f32>>()
    };

    let n = 100;
    let vectors: Vec<Vec<f32>> = (0..n).map(|_| normalized()).collect();
    let codes: Vec<RabitqCode> = vectors
        .iter()
        .map(|v| quantizer.encode(&bits(v), &rotate, &corrections))
        .collect();
    let query = normalized();
    let query_code = quantizer.encode(&bits(&query), &rotate, &corrections);

    let mut truth: Vec<(usize, f32)> =
        vectors.iter().enumerate().map(|(i, v)| (i, l2(&query, v))).collect();
    truth.sort_by(|a, b| a.1.partial_cmp(&b.1).unwrap());

    let (alpha, beta) = (query_code.alpha, query_code.beta);
    let estimate = |h: u64, a: u32, b: u32| -> u32 { estimate_of_signs(dim, alpha, beta, h, a, b) };
    let mut est: Vec<(usize, f32)> = codes
        .iter()
        .enumerate()
        .map(|(i, c)| {
            (i, f32::from_bits(quantizer.estimate_distance_sq(&query_code, c, &estimate)))
        })
        .collect();
    est.sort_by(|a, b| a.1.partial_cmp(&b.1).unwrap());

    let truth_top20: HashSet<usize> = truth.iter().take(20).map(|(i, _)| *i).collect();
    let recall = est.iter().take(10).filter(|(i, _)| truth_top20.contains(i)).count();
    assert!(recall >= 3, "RaBitQ estimate recall@10 in top20 too low: {} / 10", recall);
}

#[test]
fn test_default_num_partitions() {
    assert_eq!(default_num_partitions(0), 4);
    assert_eq!(default_num_partitions(3), 4);
    assert_eq!(default_num_partitions(100), 10);
    assert_eq!(default_num_partitions(65536 * 65536), 65536);
}

#[test]
fn number_of_partitions_is_the_root_within_limits() {
    assert_eq!(default_num_partitions(24), 4);
    assert_eq!(default_num_partitions(25), 5);
    assert_eq!(default_num_partitions(99), 9);
    assert_eq!(default_num_partitions(1_000_000), 1000);
    assert_eq!(default_num_partitions(4_294_836_224), 65534);
    assert_eq!(default_num_partitions(4_294_836_225), 65535);
    assert_eq!(default_num_partitions(usize::MAX), 65536);
}

#[test]
fn test_empty_index() {
    let index = new_index(64);
    assert!(index.is_empty());
    assert_eq!(index.num_partitions(), 4);
}

#[test]
fn test_build_and_search_recall() {
    let dim = 128;
    let n = 1000;
    let k = 10;
    let vectors: Vec<Vec<f32>> = (0..n).map(|_| gaussian_vector(dim)).collect();
    let index = build(&vectors);
    assert_eq!(index.len(), n);
    assert!(index.num_partitions() > 1);

    let query = gaussian_vector(dim);
    let truth = flat(&index, &query, k);
    let results = run_search(&index, &query, &options(k, 0, true, k * 10, true));
    let recall = hits(&results, &truth);
    assert!(
        recall >= 8,
        "IVF_RaBitQ recall too low: {}/{}; nprobe={}",
        recall,
        k,
        index.num_partitions()
    );
}

#[test]
fn test_distance_estimation_correlation() {
    let dim = 128;
    let n = 200;
    let quantizer = RabitqQuantizer::from_rotation(RabitqConfig::new(dim), random_rotation(dim));
    let vectors: Vec<Vec<f32>> = (0..n).map(|_| gaussian_vector(dim)).collect();
    let codes: Vec<RabitqCode> = vectors
        .iter()
        .map(|v| quantizer.encode(&bits(v), &rotate, &corrections))
        .collect();
    let query = gaussian_vector(dim);
    let query_code = quantizer.encode(&bits(&query), &rotate, &corrections);
    let (alpha, beta) = (query_code.alpha, query_code.beta);
    let estimate = |h: u64, a: u32, b: u32| -> u32 { estimate_of_signs(dim, alpha, beta, h, a, b) };

    let mut true_dists: Vec<f32> = Vec::with_capacity(n);
    let mut est_dists: Vec<f32> = Vec::with_capacity(n);
    for (i, v) in vectors.iter().enumerate() {
        true_dists.push(l2(&query, v));
        est_dists.push(f32::from_bits(quantizer.estimate_distance_sq(
            &query_code,
            &codes[i],
            &estimate,
        )));
    }
    let mut true_ranked: Vec<usize> = (0..n).collect();
    true_ranked.sort_by(|&a, &b| true_dists[a].partial_cmp(&true_dists[b]).unwrap());
    let mut est_ranked: Vec<usize> = (0..n).collect();
    est_ranked.sort_by(|&a, &b| est_dists[a].partial_cmp(&est_dists[b]).unwrap());
    let mut true_pos = vec![0i64; n];
    let mut est_pos = vec![0i64; n];
    for p in 0..n {
        true_pos[true_ranked[p]] = p as i64;
        est_pos[est_ranked[p]] = p as i64;
    }
    let d2_sum: f64 = (0..n).map(|i| ((true_pos[i] - est_pos[i]).pow(2)) as f64).sum();
    let rho = 1.0 - (6.0 * d2_sum) / (n * (n * n - 1)) as f64;
    assert!(rho > 0.3, "RaBitQ distance estimation correlation too low: {:.3}", rho);
}

#[test]
fn test_add_incremental() {
    let dim = 64;
    let mut index = new_index(dim);
    for i in 0..10 {
        let id = insert(&mut index, &uniform_vector(dim));
        assert_eq!(id, i as u64);
    }
    assert_eq!(index.len(), 10);
    assert!(index.is_numbered());
    let results = estimate_search(&index, &uniform_vector(dim), 5, 2);
    assert_eq!(results.len(), 5);
}

#[test]
fn regression_rabitq_distance_is_nonnegative() {
    let dim = 64;
    let quantizer = RabitqQuantizer::from_rotation(RabitqConfig::new(dim), random_rotation(dim));
    let a: Vec<f32> = (0..dim).map(|_| rand::random::<f32>() - 0.5).collect();
    let b: Vec<f32> = (0..dim).map(|_| rand::random::<f32>() - 0.5).collect();
    let code_a = quantizer.encode(&bits(&a), &rotate, &corrections);
    let code_b = quantizer.encode(&bits(&b), &rotate, &corrections);
    let (alpha, beta) = (code_a.alpha, code_a.beta);
    let estimate = |h: u64, x: u32, y: u32| -> u32 { estimate_of_signs(dim, alpha, beta, h, x, y) };
    let dist = f32::from_bits(quantizer.estimate_distance_sq(&code_a, &code_b, &estimate));
    assert!(
        dist.is_finite() && dist >= 0.0,
        "estimated distance should be finite and non-negative, got {}",
        dist
    );
}

#[test]
fn index_build_and_recall() {
    let dim = 128;
    let n = 1000;
    let vectors: Vec<Vec<f32>> = (0..n).map(|_| gaussian_vector(dim)).collect();
    let index = build(&vectors);
    assert_eq!(index.len(), n);
    let query = gaussian_vector(dim);
    let truth = flat(&index, &query, 10);
    let results = run_search(&index, &query, &options(10, 0, true, 100, true));
    let recall = hits(&results, &truth);
    assert!(recall >= 5, "unit search recall too low: {}/10", recall);
}

#[test]
fn smoke_index_build_and_search() {
    let dim = 64;
    let n = 200;
    let vectors: Vec<Vec<f32>> = (0..n).map(|_| gaussian_vector(dim)).collect();
    let index = build(&vectors);
    assert_eq!(index.len(), n);
    let query = gaussian_vector(dim);
    let truth = flat(&index, &query, 5);
    let results = run_search(&index, &query, &options(5, 0, true, 50, true));
    let recall = hits(&results, &truth);
    assert!(recall >= 1, "smoke recall too low: {}/5", recall);
}

#[test]
fn system_bulk_insert_time_gate() {
    let dim = 64;
    let (n, limit_secs) = (50_000, 60);
    let start = Instant::now();
    let mut index = new_index(dim);
    for _ in 0..n {
        insert(&mut index, &gaussian_vector(dim));
    }
    let elapsed = start.elapsed();
    assert_eq!(index.len(), n, "total vectors after insert should equal n");
    let total_partitioned: usize =
        (0..index.num_partitions()).map(|pid| index.partition_entries(pid).len()).sum();
    assert_eq!(total_partitioned, n, "sum of partition entries should equal n");
    assert!(elapsed.as_secs() < limit_secs, "{} insert took too long: {:?}", n, elapsed);
}

#[test]
fn a_built_index_is_numbered_and_partitions_every_vector_once() {
    let dim = 64;
    let vectors: Vec<Vec<f32>> = (0..50).map(|_| gaussian_vector(dim)).collect();
    let index = build(&vectors);
    assert!(index.is_numbered());
    assert_eq!(index.num_partitions(), 7);
    assert_eq!(index.centroids().len(), 7);
    let mut ids: Vec<u64> = Vec::new();
    for p in 0..7 {
        for (id, _) in index.partition_entries(p) {
            ids.push(*id);
        }
    }
    ids.sort();
    assert_eq!(ids, (0..50).collect::<Vec<u64>>());
    for (i, v) in vectors.iter().enumerate() {
        assert_eq!(floats(index.raw_vector(i as u64).unwrap()), *v);
    }
    assert!(index.raw_vector(50).is_none());
}

#[test]
fn few_vectors_are_the_centroids_in_turn() {
    let dim = 64;
    let vectors: Vec<Vec<f32>> = (0..3).map(|_| gaussian_vector(dim)).collect();
    let index = build(&vectors);
    assert_eq!(index.num_partitions(), 4);
    assert_eq!(index.centroids().len(), 4);
    for (p, c) in index.centroids().iter().enumerate() {
        assert_eq!(floats(c), vectors[p % 3]);
    }
    let query = gaussian_vector(dim);
    assert_eq!(run_search(&index, &query, &options(5, 0, true, 10, true)), flat(&index, &query, 5));
    let mut grown = build(&vectors[..1]);
    assert_eq!(grown.centroids().len(), 4);
    assert_eq!(insert(&mut grown, &vectors[1]), 1);
}

#[test]
fn training_gives_a_centroid_for_each_partition() {
    let vectors: Vec<Vec<u32>> = (0..9).map(|_| bits(&gaussian_vector(8))).collect();
    let copy = vectors.clone();
    let mean_of = |places: &Vec<usize>| -> Vec<u32> {
        let sum = |d: usize| places.iter().map(|p| f32::from_bits(copy[*p][d])).sum::<f32>();
        (0..8).map(|d| (sum(d) / places.len() as f32).to_bits()).collect()
    };
    for n in [1usize, 4, 9, 20] {
        let centroids = kmeans(&vectors, n, 5, &dist, &mean_of, &running_sums, &draw);
        assert_eq!(centroids.len(), n);
        assert!(centroids.iter().all(|c| c.len() == 8));
    }
    assert!(kmeans(&Vec::new(), 3, 5, &dist, &mean_of, &running_sums, &draw).is_empty());
}

#[test]
fn codes_depend_on_the_configuration() {
    let dim = 64;
    let rotation = random_rotation(dim);
    let usual = RabitqConfig::new(dim);
    assert_eq!(usual.num_bits, 4);
    assert_eq!(f32::from_bits(usual.epsilon_0), 1.9);
    let other = RabitqConfig { dim, num_bits: 2, epsilon_0: 0.5f32.to_bits() };
    let a = RabitqQuantizer::from_rotation(usual, rotation.clone());
    let b = RabitqQuantizer::from_rotation(other, rotation);
    assert_eq!((b.config().num_bits, b.config().epsilon_0), (2, 0.5f32.to_bits()));
    let v = bits(&gaussian_vector(dim));
    let x = a.encode(&v, &rotate, &corrections);
    let y = b.encode(&v, &rotate, &corrections);
    assert_eq!(x.bits, y.bits);
    assert_eq!(x.alpha, y.alpha);
    assert!(f32::from_bits(x.beta) < f32::from_bits(y.beta));
    let index = new_index(dim);
    assert_eq!(index.config().num_bits, 4);
    assert_eq!(index.config().epsilon_0, index.quantizer().config().epsilon_0);
}

#[test]
fn a_vector_goes_to_the_partition_of_its_nearest_centroid() {
    let dim = 64;
    let vectors: Vec<Vec<f32>> = (0..60).map(|_| gaussian_vector(dim)).collect();
    let mut index = build(&vectors);
    let v = gaussian_vector(dim);
    let best = index
        .centroids()
        .iter()
        .enumerate()
        .min_by(|a, b| l2(&v, &floats(a.1)).partial_cmp(&l2(&v, &floats(b.1))).unwrap())
        .unwrap()
        .0;
    let before = index.partition_entries(best).len();
    let id = insert(&mut index, &v);
    assert_eq!(id, 60);
    assert_eq!(index.partition_entries(best).len(), before + 1);
    assert_eq!(index.partition_entries(best)[before].0, 60);
}

#[test]
fn signs_are_packed_lowest_bit_first() {
    let mut v = vec![-1.0f32; 64];
    v[0] = 1.0;
    v[9] = 0.0;
    v[63] = 2.0;
    let packed = pack_signs(&bits(&v));
    assert_eq!(packed, vec![1, 2, 0, 0, 0, 0, 0, 128]);
}

#[test]
fn magnitudes_are_packed_by_bits() {
    let rotated = bits(&vec![1.0f32; 64]);
    for bq in [1u8, 2, 4, 8] {
        let top = levels(bq);
        let magnitudes: Vec<u8> = (0..64).map(|d| (d as u8) % top).collect();
        let code = QueryQuantizedCode::pack(&rotated, &magnitudes, bq, 0, 0);
        assert_eq!(code.dims_per_byte(), 8 / bq as usize);
        assert_eq!(code.quantized.len(), 64 * bq as usize / 8);
        let mut sum = 0u64;
        for d in 0..64 {
            assert_eq!(code.value(d), magnitudes[d]);
            sum += magnitudes[d] as u64;
        }
        assert_eq!(code.total_sum, sum);
        let ones = vec![0xFFu8; 8];
        assert_eq!(positive_sum(64, &code, &ones), sum);
        let none = vec![0u8; 8];
        assert_eq!(positive_sum(64, &code, &none), 0);
    }
}

#[test]
fn sq8_restores_the_ends_of_the_range() {
    let a = bits(&[0.0, -2.0]);
    let b = bits(&[1.0, 2.0]);
    let rows: Vec<&[u32]> = vec![&a, &b];
    let data = Sq8Data::build(&rows, &quantize);
    assert_eq!(floats(&data.min), vec![0.0, -2.0]);
    assert_eq!(floats(&data.max), vec![1.0, 2.0]);
    assert_eq!(data.codes, vec![vec![0, 0], vec![255, 255]]);
    assert_eq!(floats(&data.dequantize(&data.codes[1], &restore)), vec![1.0, 2.0]);
    assert_eq!(Sq8Data::build(&[], &quantize).codes.len(), 0);
}

#[test]
fn sq8_distance_needs_codes() {
    let dim = 64;
    let mut index = new_index(dim);
    let v = uniform_vector(dim);
    insert(&mut index, &v);
    let exact = |x: &Vec<u32>| -> u32 { l2(&v, &floats(x)).to_bits() };
    assert!(index.sq8_dirty());
    assert!(index.sq8_distance(0, &restore, &exact).is_none());
    index.rebuild_sq8(&quantize);
    assert!(!index.sq8_dirty());
    assert!(f32::from_bits(index.sq8_distance(0, &restore, &exact).unwrap()) < 1e-6);
    assert!(index.sq8_distance(1, &restore, &exact).is_none());
}

#[test]
fn nearest_partition_takes_the_first_least_distance() {
    assert_eq!(nearest_partition(&bits(&[3.0, 1.0, 2.0, 1.0])), 1);
    assert_eq!(nearest_partition(&bits(&[f32::NAN, 5.0])), 1);
    assert_eq!(nearest_partition(&bits(&[f32::INFINITY, f32::INFINITY])), 0);
}

#[test]
fn a_draw_selects_the_first_sum_that_reaches_it() {
    let sums = bits(&[1.0, 1.0, 4.0, 6.0]);
    assert_eq!(pick_seed(&sums, 0.5f32.to_bits(), 1), 0);
    assert_eq!(pick_seed(&sums, 1.5f32.to_bits(), 1), 2);
    assert_eq!(pick_seed(&sums, 6.0f32.to_bits(), 1), 3);
    assert_eq!(pick_seed(&sums, 7.0f32.to_bits(), 1), 0);
    assert_eq!(pick_seed(&bits(&[0.0, 0.0, 0.0]), 0, 4), 1);
}

#[test]
fn random_places_vary() {
    let places: HashSet<usize> = (0..100).map(|_| random_place(1_000_000)).collect();
    assert!(places.len() > 1);
    assert_eq!(place_of_draw(17, 5), 2);
}

#[test]
fn seeds_are_drawn_among_the_vectors() {
    let vectors: Vec<Vec<u32>> = (0..20).map(|_| bits(&gaussian_vector(64))).collect();
    let seeds = kmeans_plus_plus_init(&vectors, 5, &dist, &running_sums, &draw);
    assert_eq!(seeds.len(), 5);
    for s in &seeds {
        assert!(vectors.contains(s));
    }
    let distinct: HashSet<Vec<u32>> = seeds.iter().cloned().collect();
    assert!(distinct.len() > 1);
}

#[test]
fn a_query_is_coded_by_its_magnitudes() {
    let identity: Vec<u32> =
        (0..64 * 64).map(|i| if i / 64 == i % 64 { 1.0f32.to_bits() } else { 0 }).collect();
    let quantizer = RabitqQuantizer::from_rotation(RabitqConfig::new(64), identity);
    let mut v = vec![0.0f32; 64];
    v[0] = -3.0;
    v[1] = 1.0;
    v[2] = f32::NAN;
    v[63] = 2.0;
    let code = quantizer.encode_query_quantized(&bits(&v), 2, &rotate_by_rows, &norm, &step, &level);
    assert_eq!(f32::from_bits(code.scale), 1.0);
    let got: Vec<u8> = (0..64).map(|d| code.value(d)).collect();
    assert_eq!((got[0], got[1], got[2], got[3], got[63]), (3, 1, 0, 0, 2));
    assert_eq!(code.total_sum, 6);
    assert_eq!(code.bits[0] & 0b1111, 0b1010);

    let zero = vec![0u32; 64];
    let code = quantizer.encode_query_quantized(&zero, 8, &rotate_by_rows, &norm, &step, &level);
    assert_eq!(f32::from_bits(code.scale), 1.0);
    assert_eq!((code.total_sum, code.alpha), (0, 0));
    assert_eq!(code.bits, vec![255u8; 8]);
}

/// A rotation by the identity, which leaves NaN where it stands.
fn rotate_by_rows(_rotation: &Vec<u32>, vector: &Vec<u32>) -> Vec<u32> {
    vector.clone()
}

#[test]
fn a_rotated_query_has_the_code_of_the_query() {
    let quantizer = RabitqQuantizer::from_rotation(RabitqConfig::new(64), random_rotation(64));
    let q = bits(&gaussian_vector(64));
    let rotated = quantizer.rotate_vector(&q, &rotate);
    let a = quantizer.encode_query_from_rotated(&rotated, &corrections);
    let b = quantizer.encode_query(&q, &rotate, &corrections);
    assert_eq!((&a.bits, a.alpha, a.beta), (&b.bits, b.alpha, b.beta));
    assert_ne!(rotated, q);
}
