#![allow(dead_code)]

use serde_json::Value;
use std::collections::HashSet;
use vdb_rs::index_ivf_rq::{IvfRabitqIndex, Payload, RabitqConfig, RabitqQuantizer};
use vdb_rs::rabitq::{encode_rotated, RabitqCode};
use vdb_rs::search::{query_code, search, QueryCode, SearchOptions};
use vdb_rs::chunked_storage::CHUNK_SIZE;
use vdb_rs::mmap_index::{ChunkLayout, ChunkedMmapStorage, MmapError, MmapIndex};
use vdb_rs::simd::hamming_distance;
use vdb_rs::storage::save_index;
use vdb_rs::storage_format::{Header, HEADER_SIZE};

fn bits(v: &[f32]) -> Vec<u32> {
    v.iter().map(|x| x.to_bits()).collect()
}

fn floats(v: &[u32]) -> Vec<f32> {
    v.iter().map(|x| f32::from_bits(*x)).collect()
}

fn gaussian_random() -> f32 {
    let u1 = rand::random::<f32>().max(1e-7);
    let u2 = rand::random::<f32>();
    (-2.0 * u1.ln()).sqrt() * (2.0 * std::f32::consts::PI * u2).cos()
}

fn gaussian_vector(dim: usize) -> Vec<f32> {
    (0..dim).map(|_| gaussian_random()).collect()
}

fn uniform_vector(dim: usize) -> Vec<f32> {
    (0..dim).map(|_| rand::random::<f32>()).collect()
}

fn dot(a: &[f32], b: &[f32]) -> f32 {
    a.iter().zip(b.iter()).map(|(x, y)| x * y).sum()
}

fn l2(a: &[f32], b: &[f32]) -> f32 {
    a.iter().zip(b.iter()).map(|(x, y)| (x - y) * (x - y)).sum()
}

/// A random orthogonal matrix, row by row, by Gram-Schmidt on its columns.
fn random_rotation(dim: usize) -> Vec<u32> {
    let mut columns: Vec<Vec<f32>> = Vec::new();
    for _ in 0..dim {
        let mut c: Vec<f32> = (0..dim).map(|_| rand::random::<f32>() * 2.0 - 1.0).collect();
        for p in &columns {
            let proj = dot(&c, p);
            for (x, y) in c.iter_mut().zip(p.iter()) {
                *x -= proj * y;
            }
        }
        let norm = dot(&c, &c).sqrt();
        for x in c.iter_mut() {
            *x /= norm;
        }
        columns.push(c);
    }
    let mut rows = Vec::with_capacity(dim * dim);
    for r in 0..dim {
        for c in &columns {
            rows.push(c[r].to_bits());
        }
    }
    rows
}

fn dist(a: &Vec<u32>, b: &Vec<u32>) -> u32 {
    let sum: f32 = a
        .iter()
        .zip(b.iter())
        .map(|(x, y)| {
            let d = f32::from_bits(*x) - f32::from_bits(*y);
            d * d
        })
        .sum();
    sum.to_bits()
}

fn rotate(rotation: &Vec<u32>, vector: &Vec<u32>) -> Vec<u32> {
    let dim = vector.len();
    let v = floats(vector);
    (0..dim)
        .map(|r| {
            let row = &rotation[r * dim..(r + 1) * dim];
            let mut sum = 0.0f32;
            for (x, y) in row.iter().zip(v.iter()) {
                sum += f32::from_bits(*x) * y;
            }
            sum.to_bits()
        })
        .collect()
}

fn corrections(rotated: &Vec<u32>, epsilon_0: u32) -> (u32, u32) {
    let r = floats(rotated);
    let norm_sq = dot(&r, &r);
    let beta = r.iter().map(|x| x.abs()).sum::<f32>() / (norm_sq.sqrt() + f32::from_bits(epsilon_0));
    (norm_sq.to_bits(), beta.to_bits())
}

fn norm(v: &Vec<u32>) -> u32 {
    let f = floats(v);
    dot(&f, &f).to_bits()
}

fn quantize(v: u32, lo: u32, hi: u32) -> u8 {
    let (v, lo, hi) = (f32::from_bits(v), f32::from_bits(lo), f32::from_bits(hi));
    let range = hi - lo;
    if range > 0.0 {
        ((v - lo) / range * 255.0).round() as u8
    } else {
        0
    }
}

fn restore(code: u8, lo: u32, hi: u32) -> u32 {
    let (lo, hi) = (f32::from_bits(lo), f32::from_bits(hi));
    (lo + (code as f32 / 255.0) * (hi - lo)).to_bits()
}

fn running_sums(weights: &Vec<u32>) -> Vec<u32> {
    let mut sum = 0.0f32;
    weights
        .iter()
        .map(|w| {
            sum += f32::from_bits(*w);
            sum.to_bits()
        })
        .collect()
}

fn draw(total: u32) -> u32 {
    (rand::random::<f32>() * f32::from_bits(total)).to_bits()
}

fn new_index(dim: usize) -> IvfRabitqIndex {
    IvfRabitqIndex::new(dim, random_rotation(dim))
}

fn insert(index: &mut IvfRabitqIndex, v: &[f32]) -> u64 {
    index.add(bits(v), &dist, &rotate, &corrections)
}

fn insert_with(index: &mut IvfRabitqIndex, v: &[f32], payload: Payload) -> u64 {
    index.add_with_payload(bits(v), payload, &dist, &rotate, &corrections)
}

fn build(vectors: &[Vec<f32>]) -> IvfRabitqIndex {
    let dim = vectors[0].len();
    let config = RabitqConfig::new(dim);
    let quantizer = RabitqQuantizer::from_rotation(config, random_rotation(dim));
    let all: Vec<Vec<u32>> = vectors.iter().map(|v| bits(v)).collect();
    let copy = all.clone();
    let mean = move |places: &Vec<usize>| -> Vec<u32> {
        let mut sum = vec![0.0f32; copy[0].len()];
        for p in places {
            for (s, x) in sum.iter_mut().zip(copy[*p].iter()) {
                *s += f32::from_bits(*x);
            }
        }
        let inv = 1.0 / places.len() as f32;
        sum.iter().map(|s| (s * inv).to_bits()).collect()
    };
    let config = RabitqConfig::new(dim);
    IvfRabitqIndex::build(
        all,
        config,
        quantizer,
        &dist,
        &mean,
        &running_sums,
        &draw,
        &rotate,
        &corrections,
        &norm,
        &quantize,
    )
}

fn estimate_of_signs(dim: usize, alpha: u32, beta: u32, h: u64, a: u32, b: u32) -> u32 {
    let s = dim as f32 - 2.0 * h as f32;
    let product = f32::from_bits(beta) * f32::from_bits(b) * s / dim as f32;
    (f32::from_bits(alpha) + f32::from_bits(a) - 2.0 * product).to_bits()
}

fn step(top: u32, levels: u8) -> u32 {
    (f32::from_bits(top) / levels as f32).to_bits()
}

fn level(v: u32, top: u32, levels: u8) -> u8 {
    let part = f32::from_bits(v).abs() / f32::from_bits(top) * levels as f32;
    (part.round() as u8).min(levels)
}

fn coded_query(index: &IvfRabitqIndex, query: &[f32], query_bits: u8) -> QueryCode {
    query_code(
        index,
        &bits(query),
        query_bits,
        &rotate,
        &corrections,
        &norm,
        &step,
        &level,
    )
}

fn run_search(index: &IvfRabitqIndex, query: &[f32], options: &SearchOptions) -> Vec<(u64, f32)> {
    let dim = index.config().dim;
    let rotated = rotate(index.rotation_matrix(), &bits(query));
    let r = floats(&rotated);
    let q_norm = dot(&r, &r);
    let (alpha, beta) = corrections(&rotated, index.quantizer().config().epsilon_0);
    let code = coded_query(index, query, options.query_bits);
    let (scale, total) = match &code {
        QueryCode::Quantized(q) => (f32::from_bits(q.scale), q.total_sum as f32),
        QueryCode::Signs(_) => (0.0, 0.0),
    };
    let by_signs = options.query_bits == 0;
    let route = |c: &Vec<u32>, n: u32| -> u32 {
        (q_norm + f32::from_bits(n) - 2.0 * dot(&r, &floats(c))).to_bits()
    };
    let estimate = |h: u64, a: u32, b: u32| -> u32 {
        if by_signs {
            estimate_of_signs(dim, alpha, beta, h, a, b)
        } else {
            let sum = 2.0 * h as f32 - total;
            let product = f32::from_bits(b) * scale * sum / dim as f32;
            (f32::from_bits(alpha) + f32::from_bits(a) - 2.0 * product).to_bits()
        }
    };
    let exact = |v: &Vec<u32>| -> u32 { l2(query, &floats(v)).to_bits() };
    search(index, &code, options, &route, &estimate, &exact, &restore)
        .into_iter()
        .map(|(id, d)| (id, f32::from_bits(d)))
        .collect()
}

fn estimate_search(index: &IvfRabitqIndex, query: &[f32], k: usize, nprobe: usize) -> Vec<(u64, f32)> {
    let dim = index.config().dim;
    let rotated = rotate(index.rotation_matrix(), &bits(query));
    let r = floats(&rotated);
    let q_norm = dot(&r, &r);
    let (alpha, beta) = corrections(&rotated, index.quantizer().config().epsilon_0);
    let code = QueryCode::Signs(encode_rotated(&rotated, alpha, beta));
    let route = |c: &Vec<u32>, n: u32| -> u32 {
        (q_norm + f32::from_bits(n) - 2.0 * dot(&r, &floats(c))).to_bits()
    };
    let estimate = |h: u64, a: u32, b: u32| -> u32 { estimate_of_signs(dim, alpha, beta, h, a, b) };
    index
        .search(&code, k, nprobe, &route, &estimate)
        .into_iter()
        .map(|(id, d)| (id, f32::from_bits(d)))
        .collect()
}

fn flat(index: &IvfRabitqIndex, query: &[f32], k: usize) -> Vec<(u64, f32)> {
    let exact = |v: &Vec<u32>| -> u32 { l2(query, &floats(v)).to_bits() };
    index
        .flat_search(k, &exact)
        .into_iter()
        .map(|(id, d)| (id, f32::from_bits(d)))
        .collect()
}

fn options(k: usize, nprobe: usize, refine: bool, refine_k: usize, fastscan: bool) -> SearchOptions {
    SearchOptions {
        k,
        nprobe,
        refine,
        refine_k,
        fastscan,
        query_bits: 0,
        sq8_refine: false,
        sql_filter: None,
    }
}

fn hits(results: &[(u64, f32)], truth: &[(u64, f32)]) -> usize {
    let truth: HashSet<u64> = truth.iter().map(|(id, _)| *id).collect();
    results.iter().filter(|(id, _)| truth.contains(id)).count()
}

/// The chunks of a file in memory.
struct Chunks {
    file: Vec<u8>,
    chunk_size: u64,
}

impl Chunks {
    fn fetch(&self) -> impl Fn(u64, usize, usize) -> Option<Vec<u8>> + '_ {
        move |chunk: u64, start: usize, n: usize| {
            let at = (chunk * self.chunk_size) as usize + start;
            self.file.get(at..at + n).map(|s| s.to_vec())
        }
    }
}

fn chunks_of(file: Vec<u8>) -> (ChunkedMmapStorage, Chunks) {
    let storage = ChunkedMmapStorage::open(file.len(), Some(8 << 30)).unwrap();
    (storage, Chunks { file, chunk_size: CHUNK_SIZE })
}

fn open(storage: &ChunkedMmapStorage, chunks: &Chunks) -> Result<MmapIndex, MmapError> {
    MmapIndex::open(storage, &chunks.fetch(), &rotate, &norm)
}

fn mapped_search(
    index: &MmapIndex,
    chunks: &Chunks,
    query: &[f32],
    k: usize,
    nprobe: usize,
) -> Vec<(u64, f32)> {
    let dim = index.dim();
    let rotated = rotate(index.quantizer().rotation_matrix(), &bits(query));
    let r = floats(&rotated);
    let q_norm = dot(&r, &r);
    let (alpha, beta) = corrections(&rotated, index.quantizer().config().epsilon_0);
    let code = encode_rotated(&rotated, alpha, beta);
    let route = |c: &Vec<u32>, n: u32| -> u32 {
        (q_norm + f32::from_bits(n) - 2.0 * dot(&r, &floats(c))).to_bits()
    };
    let estimate = |h: u64, a: u32, b: u32| -> u32 { estimate_of_signs(dim, alpha, beta, h, a, b) };
    let exact = |v: &Vec<u32>| -> u32 { l2(query, &floats(v)).to_bits() };
    index
        .search(&code, k, nprobe, &chunks.fetch(), &route, &estimate, &exact)
        .into_iter()
        .map(|(id, d)| (id, f32::from_bits(d)))
        .collect()
}

#[test]
fn test_mmap_index_zero_copy_search() {
    let dim = 64;
    let n = 1000;
    let vectors: Vec<Vec<f32>> = (0..n).map(|_| gaussian_vector(dim)).collect();
    let index = build(&vectors);
    let (storage, chunks) = chunks_of(save_index(&index).unwrap());
    let mmap_index = open(&storage, &chunks).unwrap();
    assert_eq!(mmap_index.len(), n);
    assert_eq!(mmap_index.dim(), dim);
    let query = gaussian_vector(dim);
    let truth = flat(&index, &query, 10);
    let results = mapped_search(&mmap_index, &chunks, &query, 10, 0);
    assert_eq!(results.len(), 10);
    let recall = hits(&results, &truth);
    assert!(recall >= 5, "MmapIndex recall too low: {}/10", recall);
}

#[test]
fn test_mmap_index_refine_topk() {
    let dim = 128;
    let vectors: Vec<Vec<f32>> = (0..500).map(|_| gaussian_vector(dim)).collect();
    let (storage, chunks) = chunks_of(save_index(&build(&vectors)).unwrap());
    let mmap_index = open(&storage, &chunks).unwrap();
    let results = mapped_search(&mmap_index, &chunks, &gaussian_vector(dim), 5, 8);
    assert_eq!(results.len(), 5);
    for (_, dist) in &results {
        assert!(dist.is_finite() && *dist >= 0.0);
    }
}

#[test]
fn test_mmap_index_checksum_detects_corruption() {
    let dim = 64;
    let vectors: Vec<Vec<f32>> = (0..500).map(|_| gaussian_vector(dim)).collect();
    let mut file = save_index(&build(&vectors)).unwrap();
    file[HEADER_SIZE + 10] = !file[HEADER_SIZE + 10];
    let (storage, chunks) = chunks_of(file);
    assert!(
        open(&storage, &chunks).is_err(),
        "corrupted file should fail checksum under chunked mmap"
    );
}

#[test]
fn test_chunked_mmap_storage_bounds() {
    let dim = 64;
    let n = 2000;
    let mut index = new_index(dim);
    for _ in 0..n {
        insert(&mut index, &gaussian_vector(dim));
    }
    let (storage, chunks) = chunks_of(save_index(&index).unwrap());
    assert!(storage.max_total_bytes() > 0);
    let buf = storage.read(0, HEADER_SIZE as u64, &chunks.fetch()).unwrap();
    let header = Header::deserialize(&buf).unwrap();
    assert_eq!(header.num_vectors, n as u64);
}

#[test]
fn a_mapped_search_of_all_partitions_is_exact() {
    let dim = 64;
    let vectors: Vec<Vec<f32>> = (0..200).map(|_| gaussian_vector(dim)).collect();
    let index = build(&vectors);
    let (storage, chunks) = chunks_of(save_index(&index).unwrap());
    let mapped = open(&storage, &chunks).unwrap();
    assert_eq!(mapped.num_partitions(), index.num_partitions());
    assert!(!mapped.is_empty());
    let query = gaussian_vector(dim);
    assert_eq!(mapped_search(&mapped, &chunks, &query, 6, 0), flat(&index, &query, 6));
    for id in [0u64, 77, 199] {
        let v = mapped.raw_vector(id, &chunks.fetch()).unwrap();
        assert_eq!(floats(&v), vectors[id as usize]);
    }
    assert!(mapped.raw_vector(200, &chunks.fetch()).is_none());
    assert!(mapped_search(&mapped, &chunks, &query, 0, 0).is_empty());
}

#[test]
fn a_partition_is_scanned_in_the_file() {
    let dim = 64;
    let vectors: Vec<Vec<f32>> = (0..100).map(|_| gaussian_vector(dim)).collect();
    let index = build(&vectors);
    let (storage, chunks) = chunks_of(save_index(&index).unwrap());
    let mapped = open(&storage, &chunks).unwrap();
    let code = index.partition_entries(0).first().map(|e| e.1.bits.len()).unwrap_or(8);
    assert_eq!(code, 8);
    let query = encode_rotated(&bits(&gaussian_vector(dim)), 0, 0);
    let estimate = |h: u64, _a: u32, _b: u32| -> u32 { (h as f32).to_bits() };
    for p in 0..index.num_partitions() {
        let found = mapped.scan_partition(p, &query, &chunks.fetch(), &estimate);
        let entries = index.partition_entries(p);
        assert_eq!(found.len(), entries.len());
        for (f, e) in found.iter().zip(entries.iter()) {
            assert_eq!(f.0, e.0);
            assert_eq!(f32::from_bits(f.1), hamming_distance(&query.bits, &e.1.bits) as f32);
        }
    }
}

#[test]
fn a_file_that_cannot_be_read_is_not_opened() {
    let file = save_index(&new_index(64)).unwrap();
    let storage = ChunkedMmapStorage::open(file.len(), None).unwrap();
    let fails = |_: u64, _: usize, _: usize| -> Option<Vec<u8>> { None };
    let r = MmapIndex::open(&storage, &fails, &rotate, &norm);
    assert_eq!(r.err(), Some(MmapError::Unreadable));
    assert_eq!(storage.read(0, 1, &fails).err(), Some(MmapError::Unreadable));
    let n = file.len() as u64;
    assert_eq!(storage.read(n, 1, &fails).err(), Some(MmapError::OutOfBounds));
    assert_eq!(storage.read(n, 0, &fails), Ok(Vec::new()));
}

#[test]
fn mapped_faults_have_names() {
    let file = save_index(&new_index(64)).unwrap();
    assert_eq!(ChunkedMmapStorage::open(0, None).err(), Some(MmapError::Empty));
    let (s, c) = chunks_of(file[..100].to_vec());
    assert_eq!(open(&s, &c).err(), Some(MmapError::OutOfBounds));
    let mut magic = file.clone();
    magic[3] ^= 1;
    let (s, c) = chunks_of(magic);
    assert_eq!(open(&s, &c).err(), Some(MmapError::BadMagic));
    let mut version = file.clone();
    version[8] = 9;
    let (s, c) = chunks_of(version);
    assert_eq!(open(&s, &c).err(), Some(MmapError::UnsupportedVersion));
    let mut body = file.clone();
    body[200] ^= 1;
    let (s, c) = chunks_of(body);
    assert_eq!(open(&s, &c).err(), Some(MmapError::ChecksumMismatch));
    let mut dim = file.clone();
    dim[12] = 65;
    let (s, c) = chunks_of(dim);
    assert_eq!(open(&s, &c).err(), Some(MmapError::Malformed));
    assert_eq!(MmapError::Empty.message(), "empty file");
    assert_eq!(MmapError::OutOfBounds.message(), "read out of bounds");
    assert_eq!(MmapError::ChecksumMismatch.message(), "checksum mismatch");
}

#[test]
fn a_read_goes_over_chunks() {
    let file: Vec<u8> = (0..100u8).collect();
    let layout = ChunkLayout { file_len: 100, chunk_size: 16 };
    let chunks = Chunks { file: file.clone(), chunk_size: 16 };
    assert_eq!(layout.read(10, 50, &chunks.fetch()).unwrap(), &file[10..60]);
    assert_eq!(layout.read(0, 100, &chunks.fetch()).unwrap(), file);
    assert_eq!(layout.chunk_range(0), (0, 16));
    assert_eq!(layout.chunk_range(6), (96, 4));
}

#[test]
fn chunks_that_were_used_last_stay() {
    let chunk = CHUNK_SIZE as usize;
    let mut storage = ChunkedMmapStorage::open(10 * chunk, Some(4 * CHUNK_SIZE)).unwrap();
    assert_eq!(storage.max_total_bytes(), 2 * CHUNK_SIZE);
    assert!(!storage.touch(0));
    assert_eq!(storage.take_in(0, &vec![]), Vec::<u64>::new());
    assert_eq!(storage.take_in(1, &vec![]), Vec::<u64>::new());
    assert!(storage.touch(0));
    assert_eq!(storage.take_in(2, &vec![]), vec![1]);
    assert_eq!(storage.current_bytes(), 2 * CHUNK_SIZE as u128);
    assert_eq!(storage.take_in(2, &vec![]), Vec::<u64>::new());
    assert_eq!(storage.take_in(3, &vec![0]), vec![2]);
    assert_eq!(storage.take_in(4, &vec![0, 3]), Vec::<u64>::new());
    assert_eq!(storage.current_bytes(), 3 * CHUNK_SIZE as u128);
    assert_eq!(storage.take_in(5, &vec![3]), vec![0, 4]);
    assert_eq!(storage.current_bytes(), 2 * CHUNK_SIZE as u128);
}

#[test]
fn a_search_in_the_file_is_the_search_in_memory() {
    let dim = 64;
    let vectors: Vec<Vec<f32>> = (0..300).map(|_| gaussian_vector(dim)).collect();
    let index = build(&vectors);
    let (storage, chunks) = chunks_of(save_index(&index).unwrap());
    let mapped = open(&storage, &chunks).unwrap();
    assert_eq!(mapped.quantizer().config().num_bits, 4);
    for nprobe in [1usize, 3, 0] {
        let query = gaussian_vector(dim);
        let in_memory = run_search(&index, &query, &options(4, nprobe, true, 40, true));
        assert_eq!(mapped_search(&mapped, &chunks, &query, 4, nprobe), in_memory);
    }
}

fn routing(rotated: &Vec<u32>) -> Box<dyn Fn(&Vec<u32>, u32) -> u32> {
    let r = floats(rotated);
    let q_norm = dot(&r, &r);
    Box::new(move |c: &Vec<u32>, n: u32| -> u32 {
        (q_norm + f32::from_bits(n) - 2.0 * dot(&r, &floats(c))).to_bits()
    })
}

fn estimating_signs(code: &RabitqCode) -> Box<dyn Fn(u64, u32, u32) -> u32> {
    let (dim, alpha, beta) = (code.bits.len() * 8, code.alpha, code.beta);
    Box::new(move |h: u64, a: u32, b: u32| -> u32 { estimate_of_signs(dim, alpha, beta, h, a, b) })
}

fn measuring(query: &Vec<u32>) -> Box<dyn Fn(&Vec<u32>) -> u32> {
    let q = floats(query);
    Box::new(move |v: &Vec<u32>| -> u32 { l2(&q, &floats(v)).to_bits() })
}

fn mapped_query_search<F: Fn(u64, usize, usize) -> Option<Vec<u8>>>(
    index: &MmapIndex,
    fetch: &F,
    query: &[f32],
    k: usize,
    nprobe: usize,
) -> Vec<(u64, f32)> {
    index
        .search_query(
            &bits(query),
            k,
            nprobe,
            fetch,
            &rotate,
            &corrections,
            &routing,
            &estimating_signs,
            &measuring,
        )
        .into_iter()
        .map(|(id, d)| (id, f32::from_bits(d)))
        .collect()
}

#[test]
fn a_query_is_coded_before_the_file_is_searched() {
    let dim = 64;
    let vectors: Vec<Vec<f32>> = (0..200).map(|_| gaussian_vector(dim)).collect();
    let index = build(&vectors);
    let (storage, chunks) = chunks_of(save_index(&index).unwrap());
    let mapped = open(&storage, &chunks).unwrap();
    for nprobe in [1usize, 4, 0] {
        let query = gaussian_vector(dim);
        let results = mapped_query_search(&mapped, &chunks.fetch(), &query, 5, nprobe);
        assert_eq!(results, mapped_search(&mapped, &chunks, &query, 5, nprobe));
    }
    assert!(mapped_query_search(&mapped, &chunks.fetch(), &[], 0, 0).is_empty());
    let (storage, chunks) = chunks_of(save_index(&new_index(dim)).unwrap());
    let empty = open(&storage, &chunks).unwrap();
    assert!(mapped_query_search(&empty, &chunks.fetch(), &[], 5, 0).is_empty());
}

/// Reads a file but for the bytes from `from` up to `to`.
fn fetch_around(
    file: &[u8],
    from: usize,
    to: usize,
) -> impl Fn(u64, usize, usize) -> Option<Vec<u8>> + '_ {
    move |chunk: u64, start: usize, n: usize| {
        let at = (chunk * CHUNK_SIZE) as usize + start;
        if at < to && from < at + n {
            None
        } else {
            file.get(at..at + n).map(|s| s.to_vec())
        }
    }
}

#[test]
fn a_vector_that_cannot_be_read_is_farthest() {
    let dim = 64;
    let vectors: Vec<Vec<f32>> = (0..60).map(|_| gaussian_vector(dim)).collect();
    let index = build(&vectors);
    let file = save_index(&index).unwrap();
    let header = Header::deserialize(&file).unwrap();
    let (storage, chunks) = chunks_of(file.clone());
    let mapped = open(&storage, &chunks).unwrap();
    let from = header.raw_offset as usize + 5 * dim * 4;
    let fetch = fetch_around(&file, from, from + dim * 4);
    for id in 0..60u64 {
        let v = mapped.raw_vector(id, &fetch);
        assert_eq!(v.map(|v| floats(&v)), if id == 5 { None } else { Some(vectors[id as usize].clone()) });
    }
    let query = gaussian_vector(dim);
    let mut truth: Vec<(u64, f32)> =
        flat(&index, &query, 60).into_iter().filter(|(id, _)| *id != 5).collect();
    truth.push((5, f32::MAX));
    assert_eq!(mapped_query_search(&mapped, &fetch, &query, 60, 0), truth);
    assert_eq!(
        MmapIndex::open(&storage, &fetch, &rotate, &norm).err(),
        Some(MmapError::Unreadable)
    );
}

#[test]
fn a_partition_that_cannot_be_read_is_missed_alone() {
    let dim = 64;
    let vectors: Vec<Vec<f32>> = (0..100).map(|_| gaussian_vector(dim)).collect();
    let index = build(&vectors);
    let file = save_index(&index).unwrap();
    let header = Header::deserialize(&file).unwrap();
    let (storage, chunks) = chunks_of(file.clone());
    let mapped = open(&storage, &chunks).unwrap();
    let from = header.partition_data_offset as usize;
    let fetch = fetch_around(&file, from, from + 1);
    let lost = (0..index.num_partitions()).find(|p| !index.partition_entries(*p).is_empty()).unwrap();
    let query = encode_rotated(&bits(&gaussian_vector(dim)), 0, 0);
    let estimate = |h: u64, _a: u32, _b: u32| -> u32 { (h as f32).to_bits() };
    for p in 0..index.num_partitions() {
        let found = mapped.scan_partition(p, &query, &fetch, &estimate);
        let entries = index.partition_entries(p);
        assert_eq!(found.len(), if p == lost { 0 } else { entries.len() });
    }
}

#[test]
fn a_read_fails_by_its_own_part() {
    let file: Vec<u8> = (0..100u8).collect();
    let layout = ChunkLayout { file_len: 100, chunk_size: 16 };
    let fetch = |chunk: u64, start: usize, n: usize| -> Option<Vec<u8>> {
        let at = chunk as usize * 16 + start;
        if chunk == 3 || at + n > 100 {
            None
        } else {
            Some(file[at..at + n].to_vec())
        }
    };
    assert_eq!(layout.read(0, 48, &fetch).unwrap(), &file[..48]);
    assert_eq!(layout.read(64, 36, &fetch).unwrap(), &file[64..]);
    assert_eq!(layout.read(48, 0, &fetch).unwrap(), Vec::<u8>::new());
    assert_eq!(layout.read(47, 2, &fetch).err(), Some(MmapError::Unreadable));
}
