#![allow(dead_code)]

use serde_json::Value;
use std::collections::HashSet;
use vdb_rs::index_ivf_rq::{IvfRabitqIndex, Payload, RabitqConfig, RabitqQuantizer};
use vdb_rs::rabitq::encode_rotated;
use vdb_rs::search::{query_code, search, search_query, QueryCode, SearchOptions};
use std::time::Instant;
use vdb_rs::sql::parse_sql_filter;

fn bits(v: &[f32]) -> Vec<u32> {
    v.iter().map(|x| x.to_bits()).collect()
}

fn floats(v: &[u32]) -> Vec<f32> {
    v.iter().map(|x| f32::from_bits(*x)).collect()
}

fn gaussian_random() -> f32 {
    let u1 = rand::random::<f32>().max(1e-7);
    let u2 = rand::random::<f32>();
    (-2.0 * u1.ln()).sqrt() * (2.0 * std::f32::consts::PI * u2).cos()
}

fn gaussian_vector(dim: usize) -> Vec<f32> {
    (0..dim).map(|_| gaussian_random()).collect()
}

fn uniform_vector(dim: usize) -> Vec<f32> {
    (0..dim).map(|_| rand::random::<f32>()).collect()
}

fn dot(a: &[f32], b: &[f32]) -> f32 {
    a.iter().zip(b.iter()).map(|(x, y)| x * y).sum()
}

fn l2(a: &[f32], b: &[f32]) -> f32 {
    a.iter().zip(b.iter()).map(|(x, y)| (x - y) * (x - y)).sum()
}

/// A random orthogonal matrix, row by row, by Gram-Schmidt on its columns.
fn random_rotation(dim: usize) -> Vec<u32> {
    let mut columns: Vec<Vec<f32>> = Vec::new();
    for _ in 0..dim {
        let mut c: Vec<f32> = (0..dim).map(|_| rand::random::<f32>() * 2.0 - 1.0).collect();
        for p in &columns {
            let proj = dot(&c, p);
            for (x, y) in c.iter_mut().zip(p.iter()) {
                *x -= proj * y;
            }
        }
        let norm = dot(&c, &c).sqrt();
        for x in c.iter_mut() {
            *x /= norm;
        }
        columns.push(c);
    }
    let mut rows = Vec::with_capacity(dim * dim);
    for r in 0..dim {
        for c in &columns {
            rows.push(c[r].to_bits());
        }
    }
    rows
}

fn dist(a: &Vec<u32>, b: &Vec<u32>) -> u32 {
    let sum: f32 = a
        .iter()
        .zip(b.iter())
        .map(|(x, y)| {
            let d = f32::from_bits(*x) - f32::from_bits(*y);
            d * d
        })
        .sum();
    sum.to_bits()
}

fn rotate(rotation: &Vec<u32>, vector: &Vec<u32>) -> Vec<u32> {
    let dim = vector.len();
    let v = floats(vector);
    (0..dim)
        .map(|r| {
            let row = &rotation[r * dim..(r + 1) * dim];
            let mut sum = 0.0f32;
            for (x, y) in row.iter().zip(v.iter()) {
                sum += f32::from_bits(*x) * y;
            }
            sum.to_bits()
        })
        .collect()
}

fn corrections(rotated: &Vec<u32>, epsilon_0: u32) -> (u32, u32) {
    let r = floats(rotated);
    let norm_sq = dot(&r, &r);
    let beta = r.iter().map(|x| x.abs()).sum::<f32>() / (norm_sq.sqrt() + f32::from_bits(epsilon_0));
    (norm_sq.to_bits(), beta.to_bits())
}

fn norm(v: &Vec<u32>) -> u32 {
    let f = floats(v);
    dot(&f, &f).to_bits()
}

fn quantize(v: u32, lo: u32, hi: u32) -> u8 {
    let (v, lo, hi) = (f32::from_bits(v), f32::from_bits(lo), f32::from_bits(hi));
    let range = hi - lo;
    if range > 0.0 {
        ((v - lo) / range * 255.0).round() as u8
    } else {
        0
    }
}

fn restore(code: u8, lo: u32, hi: u32) -> u32 {
    let (lo, hi) = (f32::from_bits(lo), f32::from_bits(hi));
    (lo + (code as f32 / 255.0) * (hi - lo)).to_bits()
}

fn running_sums(weights: &Vec<u32>) -> Vec<u32> {
    let mut sum = 0.0f32;
    weights
        .iter()
        .map(|w| {
            sum += f32::from_bits(*w);
            sum.to_bits()
        })
        .collect()
}

fn draw(total: u32) -> u32 {
    (rand::random::<f32>() * f32::from_bits(total)).to_bits()
}

fn new_index(dim: usize) -> IvfRabitqIndex {
    IvfRabitqIndex::new(dim, random_rotation(dim))
}

fn insert(index: &mut IvfRabitqIndex, v: &[f32]) -> u64 {
    index.add(bits(v), &dist, &rotate, &corrections)
}

fn insert_with(index: &mut IvfRabitqIndex, v: &[f32], payload: Payload) -> u64 {
    index.add_with_payload(bits(v), payload, &dist, &rotate, &corrections)
}

fn build(vectors: &[Vec<f32>]) -> IvfRabitqIndex {
    let dim = vectors[0].len();
    let config = RabitqConfig::new(dim);
    let quantizer = RabitqQuantizer::from_rotation(config, random_rotation(dim));
    let all: Vec<Vec<u32>> = vectors.iter().map(|v| bits(v)).collect();
    let copy = all.clone();
    let mean = move |places: &Vec<usize>| -> Vec<u32> {
        let mut sum = vec![0.0f32; copy[0].len()];
        for p in places {
            for (s, x) in sum.iter_mut().zip(copy[*p].iter()) {
                *s += f32::from_bits(*x);
            }
        }
        let inv = 1.0 / places.len() as f32;
        sum.iter().map(|s| (s * inv).to_bits()).collect()
    };
    let config = RabitqConfig::new(dim);
    IvfRabitqIndex::build(
        all,
        config,
        quantizer,
        &dist,
        &mean,
        &running_sums,
        &draw,
        &rotate,
        &corrections,
        &norm,
        &quantize,
    )
}

fn estimate_of_signs(dim: usize, alpha: u32, beta: u32, h: u64, a: u32, b: u32) -> u32 {
    let s = dim as f32 - 2.0 * h as f32;
    let product = f32::from_bits(beta) * f32::from_bits(b) * s / dim as f32;
    (f32::from_bits(alpha) + f32::from_bits(a) - 2.0 * product).to_bits()
}

fn step(top: u32, levels: u8) -> u32 {
    (f32::from_bits(top) / levels as f32).to_bits()
}

fn level(v: u32, top: u32, levels: u8) -> u8 {
    let part = f32::from_bits(v).abs() / f32::from_bits(top) * levels as f32;
    (part.round() as u8).min(levels)
}

fn coded_query(index: &IvfRabitqIndex, query: &[f32], query_bits: u8) -> QueryCode {
    query_code(
        index,
        &bits(query),
        query_bits,
        &rotate,
        &corrections,
        &norm,
        &step,
        &level,
    )
}

fn run_search(index: &IvfRabitqIndex, query: &[f32], options: &SearchOptions) -> Vec<(u64, f32)> {
    let dim = index.config().dim;
    let rotated = rotate(index.rotation_matrix(), &bits(query));
    let r = floats(&rotated);
    let q_norm = dot(&r, &r);
    let (alpha, beta) = corrections(&rotated, index.quantizer().config().epsilon_0);
    let code = coded_query(index, query, options.query_bits);
    let (scale, total) = match &code {
        QueryCode::Quantized(q) => (f32::from_bits(q.scale), q.total_sum as f32),
        QueryCode::Signs(_) => (0.0, 0.0),
    };
    let by_signs = options.query_bits == 0;
    let route = |c: &Vec<u32>, n: u32| -> u32 {
        (q_norm + f32::from_bits(n) - 2.0 * dot(&r, &floats(c))).to_bits()
    };
    let estimate = |h: u64, a: u32, b: u32| -> u32 {
        if by_signs {
            estimate_of_signs(dim, alpha, beta, h, a, b)
        } else {
            let sum = 2.0 * h as f32 - total;
            let product = f32::from_bits(b) * scale * sum / dim as f32;
            (f32::from_bits(alpha) + f32::from_bits(a) - 2.0 * product).to_bits()
        }
    };
    let exact = |v: &Vec<u32>| -> u32 { l2(query, &floats(v)).to_bits() };
    search(index, &code, options, &route, &estimate, &exact, &restore)
        .into_iter()
        .map(|(id, d)| (id, f32::from_bits(d)))
        .collect()
}

fn estimate_search(index: &IvfRabitqIndex, query: &[f32], k: usize, nprobe: usize) -> Vec<(u64, f32)> {
    let dim = index.config().dim;
    let rotated = rotate(index.rotation_matrix(), &bits(query));
    let r = floats(&rotated);
    let q_norm = dot(&r, &r);
    let (alpha, beta) = corrections(&rotated, index.quantizer().config().epsilon_0);
    let code = QueryCode::Signs(encode_rotated(&rotated, alpha, beta));
    let route = |c: &Vec<u32>, n: u32| -> u32 {
        (q_norm + f32::from_bits(n) - 2.0 * dot(&r, &floats(c))).to_bits()
    };
    let estimate = |h: u64, a: u32, b: u32| -> u32 { estimate_of_signs(dim, alpha, beta, h, a, b) };
    index
        .search(&code, k, nprobe, &route, &estimate)
        .into_iter()
        .map(|(id, d)| (id, f32::from_bits(d)))
        .collect()
}

fn flat(index: &IvfRabitqIndex, query: &[f32], k: usize) -> Vec<(u64, f32)> {
    let exact = |v: &Vec<u32>| -> u32 { l2(query, &floats(v)).to_bits() };
    index
        .flat_search(k, &exact)
        .into_iter()
        .map(|(id, d)| (id, f32::from_bits(d)))
        .collect()
}

fn options(k: usize, nprobe: usize, refine: bool, refine_k: usize, fastscan: bool) -> SearchOptions {
    SearchOptions {
        k,
        nprobe,
        refine,
        refine_k,
        fastscan,
        query_bits: 0,
        sq8_refine: false,
        sql_filter: None,
    }
}

fn hits(results: &[(u64, f32)], truth: &[(u64, f32)]) -> usize {
    let truth: HashSet<u64> = truth.iter().map(|(id, _)| *id).collect();
    results.iter().filter(|(id, _)| truth.contains(id)).count()
}

fn scored(i: usize) -> Payload {
    let mut payload = Payload::new();
    payload.insert("score".to_string(), Value::from(i as f64));
    payload
}

fn tagged(i: usize, tag: &str) -> Payload {
    let mut payload = scored(i);
    payload.insert("tag".to_string(), Value::from(tag));
    payload
}

fn filtered(k: usize, refine: bool, refine_k: usize, sql: &str) -> SearchOptions {
    let mut o = options(k, 0, refine, refine_k, false);
    o.sql_filter = Some(sql.to_string());
    o
}

#[test]
fn test_search_recall_with_refine() {
    let dim = 128;
    let vectors: Vec<Vec<f32>> = (0..1000).map(|_| gaussian_vector(dim)).collect();
    let index = build(&vectors);
    let query = gaussian_vector(dim);
    let truth = flat(&index, &query, 10);
    let results = run_search(&index, &query, &options(10, 0, true, 100, true));
    let recall = hits(&results, &truth);
    assert!(recall >= 5, "search recall too low: {}/10", recall);
}

#[test]
fn test_sql_filter_search() {
    let dim = 64;
    let mut index = new_index(dim);
    for i in 0..20 {
        insert_with(&mut index, &uniform_vector(dim), scored(i));
    }
    let results = run_search(&index, &uniform_vector(dim), &filtered(10, false, 0, "score >= 15"));
    assert!(!results.is_empty());
    for (id, _) in &results {
        let score = index.payload(*id).unwrap()["score"].as_f64().unwrap();
        assert!(score >= 15.0, "score {} should be >= 15", score);
    }
}

#[test]
fn test_sq8_refine_recall() {
    let dim = 128;
    let vectors: Vec<Vec<f32>> = (0..1000).map(|_| gaussian_vector(dim)).collect();
    let mut index = build(&vectors);
    let query = gaussian_vector(dim);
    let truth = flat(&index, &query, 10);
    let mut o = options(10, 0, true, 100, true);
    o.sq8_refine = true;
    let results = run_search(&index, &query, &o);
    let recall = hits(&results, &truth);
    assert!(recall >= 5, "SQ8 refine recall too low: {}/10", recall);

    insert(&mut index, &gaussian_vector(dim));
    assert!(index.sq8_dirty());
    index.rebuild_sq8(&quantize);
    assert!(!index.sq8_dirty());
}

#[test]
fn test_query_quantization_recall() {
    let dim = 128;
    let vectors: Vec<Vec<f32>> = (0..1000).map(|_| gaussian_vector(dim)).collect();
    let index = build(&vectors);
    let query = gaussian_vector(dim);
    let truth = flat(&index, &query, 10);
    for bits in [1u8, 2, 4, 8] {
        let mut o = options(10, 0, true, 100, false);
        o.query_bits = bits;
        let results = run_search(&index, &query, &o);
        let recall = hits(&results, &truth);
        assert!(recall >= 5, "query quantization {}-bit recall too low: {}/10", bits, recall);
    }
}

#[test]
fn sql_filter_matches_flat_filter() {
    let dim = 64;
    let mut index = new_index(dim);
    for i in 0..50 {
        insert_with(&mut index, &uniform_vector(dim), scored(i));
    }
    let results = run_search(&index, &uniform_vector(dim), &filtered(100, false, 0, "score >= 40"));
    for (id, _) in &results {
        let score = index.payload(*id).unwrap()["score"].as_f64().unwrap();
        assert!(score >= 40.0);
    }
    assert_eq!(results.len(), 10);
}

#[test]
fn regression_empty_index_search_returns_empty() {
    let index = new_index(64);
    let query = uniform_vector(64);
    assert!(run_search(&index, &query, &options(10, 2, false, 0, false)).is_empty());
    assert!(estimate_search(&index, &query, 10, 2).is_empty());
}

#[test]
fn regression_recall_at_10_contract_1k() {
    let dim = 128;
    let k = 10;
    let vectors: Vec<Vec<f32>> = (0..1_000).map(|_| gaussian_vector(dim)).collect();
    let index = build(&vectors);
    let query = gaussian_vector(dim);
    let truth = flat(&index, &query, k);
    let results = run_search(&index, &query, &options(k, 0, true, 100, true));
    let recall = hits(&results, &truth);
    assert!(
        recall as f32 / k as f32 >= 0.95,
        "Recall@10 contract failed: {}/{} = {:.2}",
        recall,
        k,
        recall as f32 / k as f32
    );
}

#[test]
fn regression_sql_pushdown_no_false_negative() {
    let dim = 64;
    let mut index = new_index(dim);
    for i in 0..100 {
        let tag = if i % 3 == 0 { "a" } else { "b" };
        insert_with(&mut index, &uniform_vector(dim), tagged(i, tag));
    }
    let query = uniform_vector(dim);
    let sql = "score >= 50 AND tag = 'a'";
    let predicate = parse_sql_filter(sql).unwrap();
    let mut truth: Vec<(u64, f32)> = index
        .raw_vectors()
        .iter()
        .enumerate()
        .filter(|(id, _)| predicate.eval(index.payload(*id as u64).unwrap()))
        .map(|(id, v)| (id as u64, l2(&query, &floats(v))))
        .collect();
    truth.sort_by(|a, b| a.1.partial_cmp(&b.1).unwrap());
    let truth_set: HashSet<u64> = truth.iter().take(10).map(|(id, _)| *id).collect();
    let results = run_search(&index, &query, &filtered(10, true, 100, sql));
    let result_set: HashSet<u64> = results.iter().map(|(id, _)| *id).collect();
    assert_eq!(result_set, truth_set, "SQL pushdown produced different top-10 than flat+SQL");
}

#[test]
fn acceptance_payload_filter_search() {
    let dim = 64;
    let mut index = new_index(dim);
    for i in 0..30 {
        let tag = if i % 2 == 0 { "even" } else { "odd" };
        insert_with(&mut index, &uniform_vector(dim), tagged(i, tag));
    }
    let o = filtered(100, false, 0, "tag = 'even' AND score >= 10");
    let results = run_search(&index, &uniform_vector(dim), &o);
    assert!(!results.is_empty());
    for (id, _) in &results {
        let p = index.payload(*id).unwrap();
        assert_eq!(p["tag"].as_str().unwrap(), "even");
        assert!(p["score"].as_f64().unwrap() >= 10.0);
    }
    assert_eq!(results.len(), 10);
}

#[test]
fn system_queries_time_gate() {
    let dim = 64;
    let vectors: Vec<Vec<f32>> = (0..5_000).map(|_| gaussian_vector(dim)).collect();
    let index = build(&vectors);
    let queries: Vec<Vec<f32>> = (0..100).map(|_| gaussian_vector(dim)).collect();
    let o = options(10, 8, true, 100, true);
    let start = Instant::now();
    for q in &queries {
        let _ = run_search(&index, q, &o);
    }
    let elapsed = start.elapsed();
    assert!(elapsed.as_secs() < 10, "100 queries took too long: {:?}", elapsed);
}

#[test]
fn search_options_have_defaults() {
    let o = SearchOptions::default();
    assert_eq!((o.k, o.nprobe, o.refine, o.refine_k), (10, 0, true, 100));
    assert!(o.fastscan && !o.sq8_refine && o.query_bits == 0 && o.sql_filter.is_none());
}

#[test]
fn a_search_of_all_partitions_is_exact() {
    let dim = 64;
    let vectors: Vec<Vec<f32>> = (0..300).map(|_| gaussian_vector(dim)).collect();
    let index = build(&vectors);
    for _ in 0..5 {
        let query = gaussian_vector(dim);
        let truth = flat(&index, &query, 7);
        assert_eq!(run_search(&index, &query, &options(7, 0, true, 1, true)), truth);
        assert_eq!(run_search(&index, &query, &options(7, 1_000, true, 1, false)), truth);
    }
}

#[test]
fn batches_change_nothing() {
    let dim = 64;
    let vectors: Vec<Vec<f32>> = (0..400).map(|_| gaussian_vector(dim)).collect();
    let index = build(&vectors);
    let query = gaussian_vector(dim);
    let with = run_search(&index, &query, &options(20, 5, false, 0, true));
    let without = run_search(&index, &query, &options(20, 5, false, 0, false));
    assert_eq!(with, without);
}

#[test]
fn a_filter_that_cannot_be_parsed_filters_nothing() {
    let dim = 64;
    let mut index = new_index(dim);
    for i in 0..5 {
        insert_with(&mut index, &uniform_vector(dim), scored(i));
    }
    let results = run_search(&index, &uniform_vector(dim), &filtered(10, true, 10, "score >="));
    assert_eq!(results.len(), 5);
    let none = run_search(&index, &uniform_vector(dim), &filtered(10, true, 10, "score > 100"));
    assert!(none.is_empty());
}

#[test]
fn refinement_measures_no_more_than_it_is_asked_for() {
    let dim = 64;
    let vectors: Vec<Vec<f32>> = (0..400).map(|_| gaussian_vector(dim)).collect();
    let index = build(&vectors);
    let results = run_search(&index, &gaussian_vector(dim), &options(50, 10, true, 3, true));
    assert_eq!(results.len(), 3);
    let all = run_search(&index, &gaussian_vector(dim), &options(50, 10, true, 0, true));
    assert_eq!(all.len(), 50);
}

#[test]
fn nothing_is_found_where_nothing_is_asked_for() {
    let dim = 64;
    let mut index = new_index(dim);
    insert(&mut index, &uniform_vector(dim));
    assert!(run_search(&index, &uniform_vector(dim), &options(0, 0, true, 10, true)).is_empty());
}

#[test]
fn fewer_results_are_the_first_of_more() {
    let dim = 64;
    let vectors: Vec<Vec<f32>> = (0..400).map(|_| gaussian_vector(dim)).collect();
    let index = build(&vectors);
    let query = gaussian_vector(dim);
    for refine in [true, false] {
        let more = run_search(&index, &query, &options(30, 6, refine, 40, true));
        assert_eq!(more.len(), 30);
        for k in [0usize, 1, 12, 30] {
            let fewer = run_search(&index, &query, &options(k, 6, refine, 40, true));
            assert_eq!(fewer, more[..k].to_vec());
        }
    }
}

#[test]
fn a_filter_that_cannot_be_parsed_is_as_none() {
    let dim = 64;
    let mut index = new_index(dim);
    for i in 0..40 {
        insert_with(&mut index, &uniform_vector(dim), scored(i));
    }
    let query = uniform_vector(dim);
    let without = run_search(&index, &query, &options(10, 0, true, 10, true));
    for text in ["score >=", "(", "score = 1 2", "'open"] {
        let results = run_search(&index, &query, &filtered(10, true, 10, text));
        assert_eq!(results, without);
    }
}

#[test]
fn a_filtered_search_gives_all_that_pass() {
    let dim = 64;
    let mut index = new_index(dim);
    for i in 0..40 {
        insert_with(&mut index, &uniform_vector(dim), scored(i));
    }
    let query = uniform_vector(dim);
    let all = flat(&index, &query, 40);
    let passing: Vec<(u64, f32)> = all.into_iter().filter(|(id, _)| *id >= 33).collect();
    assert_eq!(passing.len(), 7);
    assert_eq!(run_search(&index, &query, &filtered(20, true, 1, "score >= 33")), passing);
    assert_eq!(
        run_search(&index, &query, &filtered(3, true, 1, "score >= 33")),
        passing[..3].to_vec()
    );
}

fn routing(rotated: &Vec<u32>) -> Box<dyn Fn(&Vec<u32>, u32) -> u32> {
    let r = floats(rotated);
    let q_norm = dot(&r, &r);
    Box::new(move |c: &Vec<u32>, n: u32| -> u32 {
        (q_norm + f32::from_bits(n) - 2.0 * dot(&r, &floats(c))).to_bits()
    })
}

fn estimating(code: &QueryCode) -> Box<dyn Fn(u64, u32, u32) -> u32> {
    match code {
        QueryCode::Signs(c) => {
            let (dim, alpha, beta) = (c.bits.len() * 8, c.alpha, c.beta);
            Box::new(move |h: u64, a: u32, b: u32| -> u32 {
                estimate_of_signs(dim, alpha, beta, h, a, b)
            })
        }
        QueryCode::Quantized(c) => {
            let dim = c.bits.len() * 8;
            let (alpha, scale) = (f32::from_bits(c.alpha), f32::from_bits(c.scale));
            let total = c.total_sum as f32;
            Box::new(move |h: u64, a: u32, b: u32| -> u32 {
                let sum = 2.0 * h as f32 - total;
                let product = f32::from_bits(b) * scale * sum / dim as f32;
                (alpha + f32::from_bits(a) - 2.0 * product).to_bits()
            })
        }
    }
}

fn measuring(query: &Vec<u32>) -> Box<dyn Fn(&Vec<u32>) -> u32> {
    let q = floats(query);
    Box::new(move |v: &Vec<u32>| -> u32 { l2(&q, &floats(v)).to_bits() })
}

fn query_search(index: &IvfRabitqIndex, query: &[f32], options: &SearchOptions) -> Vec<(u64, f32)> {
    search_query(
        index,
        &bits(query),
        options,
        &rotate,
        &corrections,
        &norm,
        &step,
        &level,
        &routing,
        &estimating,
        &measuring,
        &restore,
    )
    .into_iter()
    .map(|(id, d)| (id, f32::from_bits(d)))
    .collect()
}

#[test]
fn a_query_is_coded_by_the_options() {
    let dim = 64;
    let vectors: Vec<Vec<f32>> = (0..300).map(|_| gaussian_vector(dim)).collect();
    let index = build(&vectors);
    let query = gaussian_vector(dim);
    let mut seen = Vec::new();
    for query_bits in [0u8, 1, 2, 4, 8] {
        for refine in [false, true] {
            let mut o = options(7, 4, refine, 20, true);
            o.query_bits = query_bits;
            let results = query_search(&index, &query, &o);
            assert_eq!(results, run_search(&index, &query, &o));
            if !refine {
                seen.push(results);
            }
        }
    }
    assert!(seen.iter().any(|r| *r != seen[0]));
}

#[test]
fn the_bits_of_a_query_do_not_matter_where_nothing_is_looked_up() {
    let dim = 64;
    let mut o = options(5, 0, true, 20, true);
    o.query_bits = 3;
    assert!(query_search(&new_index(dim), &uniform_vector(dim), &o).is_empty());
    let index = build(&(0..20).map(|_| gaussian_vector(dim)).collect::<Vec<_>>());
    o.k = 0;
    assert!(query_search(&index, &uniform_vector(dim), &o).is_empty());
}

#[test]
fn magnitudes_of_a_query_are_packed() {
    let dim = 128;
    let index = new_index(dim);
    let query = gaussian_vector(dim);
    let rotated = floats(&rotate(index.rotation_matrix(), &bits(&query)));
    let mut largest = 0;
    for d in 0..dim {
        if rotated[d].abs() > rotated[largest].abs() {
            largest = d;
        }
    }
    let signs = match coded_query(&index, &query, 0) {
        QueryCode::Signs(c) => c,
        QueryCode::Quantized(_) => unreachable!(),
    };
    for bq in [1u8, 2, 4, 8] {
        let code = match coded_query(&index, &query, bq) {
            QueryCode::Quantized(c) => c,
            QueryCode::Signs(_) => unreachable!(),
        };
        assert_eq!((code.bq, code.alpha), (bq, signs.alpha));
        assert_eq!(code.bits, signs.bits);
        assert_eq!(code.quantized.len(), dim * bq as usize / 8);
        let top = ((1u32 << bq) - 1) as u64;
        let values: Vec<u64> = (0..dim)
            .map(|d| {
                let at = d * bq as usize;
                (code.quantized[at / 8] as u64 >> (at % 8)) & top
            })
            .collect();
        assert_eq!(values[largest], top);
        assert_eq!(code.total_sum, values.iter().sum::<u64>());
        for d in 0..dim {
            let value = values[d] as f32 * f32::from_bits(code.scale);
            let error = (value - rotated[d].abs()).abs();
            assert!(error <= 0.5001 * f32::from_bits(code.scale), "{} of {}", error, bq);
        }
    }
}
