#![allow(dead_code)]

use serde_json::Value;
use std::collections::HashSet;
use vdb_rs::index_ivf_rq::{IvfRabitqIndex, Payload, RabitqConfig, RabitqQuantizer};
use vdb_rs::rabitq::encode_rotated;
use vdb_rs::search::{query_code, search, QueryCode, SearchOptions};
use vdb_rs::checksum::{crc32, crc32_finalize, crc32_init, crc32_update};
use vdb_rs::memory::{check_budget, mmap_budget};
use vdb_rs::storage::{
    available_physical_memory, load_index, load_index_mmap, save_index, MmapStorage, StorageError,
};
use vdb_rs::storage_format::{Header, Manifest, PartitionMeta, HEADER_SIZE};

fn bits(v: &[f32]) -> Vec<u32> {
    v.iter().map(|x| x.to_bits()).collect()
}

fn floats(v: &[u32]) -> Vec<f32> {
    v.iter().map(|x| f32::from_bits(*x)).collect()
}

fn gaussian_random() -> f32 {
    let u1 = rand::random::<f32>().max(1e-7);
    let u2 = rand::random::<f32>();
    (-2.0 * u1.ln()).sqrt() * (2.0 * std::f32::consts::PI * u2).cos()
}

fn gaussian_vector(dim: usize) -> Vec<f32> {
    (0..dim).map(|_| gaussian_random()).collect()
}

fn uniform_vector(dim: usize) -> Vec<f32> {
    (0..dim).map(|_| rand::random::<f32>()).collect()
}

fn dot(a: &[f32], b: &[f32]) -> f32 {
    a.iter().zip(b.iter()).map(|(x, y)| x * y).sum()
}

fn l2(a: &[f32], b: &[f32]) -> f32 {
    a.iter().zip(b.iter()).map(|(x, y)| (x - y) * (x - y)).sum()
}

/// A random orthogonal matrix, row by row, by Gram-Schmidt on its columns.
fn random_rotation(dim: usize) -> Vec<u32> {
    let mut columns: Vec<Vec<f32>> = Vec::new();
    for _ in 0..dim {
        let mut c: Vec<f32> = (0..dim).map(|_| rand::random::<f32>() * 2.0 - 1.0).collect();
        for p in &columns {
            let proj = dot(&c, p);
            for (x, y) in c.iter_mut().zip(p.iter()) {
                *x -= proj * y;
            }
        }
        let norm = dot(&c, &c).sqrt();
        for x in c.iter_mut() {
            *x /= norm;
        }
        columns.push(c);
    }
    let mut rows = Vec::with_capacity(dim * dim);
    for r in 0..dim {
        for c in &columns {
            rows.push(c[r].to_bits());
        }
    }
    rows
}

fn dist(a: &Vec<u32>, b: &Vec<u32>) -> u32 {
    let sum: f32 = a
        .iter()
        .zip(b.iter())
        .map(|(x, y)| {
            let d = f32::from_bits(*x) - f32::from_bits(*y);
            d * d
        })
        .sum();
    sum.to_bits()
}

fn rotate(rotation: &Vec<u32>, vector: &Vec<u32>) -> Vec<u32> {
    let dim = vector.len();
    let v = floats(vector);
    (0..dim)
        .map(|r| {
            let row = &rotation[r * dim..(r + 1) * dim];
            let mut sum = 0.0f32;
            for (x, y) in row.iter().zip(v.iter()) {
                sum += f32::from_bits(*x) * y;
            }
            sum.to_bits()
        })
        .collect()
}

fn corrections(rotated: &Vec<u32>, epsilon_0: u32) -> (u32, u32) {
    let r = floats(rotated);
    let norm_sq = dot(&r, &r);
    let beta = r.iter().map(|x| x.abs()).sum::<f32>() / (norm_sq.sqrt() + f32::from_bits(epsilon_0));
    (norm_sq.to_bits(), beta.to_bits())
}

fn norm(v: &Vec<u32>) -> u32 {
    let f = floats(v);
    dot(&f, &f).to_bits()
}

fn quantize(v: u32, lo: u32, hi: u32) -> u8 {
    let (v, lo, hi) = (f32::from_bits(v), f32::from_bits(lo), f32::from_bits(hi));
    let range = hi - lo;
    if range > 0.0 {
        ((v - lo) / range * 255.0).round() as u8
    } else {
        0
    }
}

fn restore(code: u8, lo: u32, hi: u32) -> u32 {
    let (lo, hi) = (f32::from_bits(lo), f32::from_bits(hi));
    (lo + (code as f32 / 255.0) * (hi - lo)).to_bits()
}

fn running_sums(weights: &Vec<u32>) -> Vec<u32> {
    let mut sum = 0.0f32;
    weights
        .iter()
        .map(|w| {
            sum += f32::from_bits(*w);
            sum.to_bits()
        })
        .collect()
}

fn draw(total: u32) -> u32 {
    (rand::random::<f32>() * f32::from_bits(total)).to_bits()
}

fn new_index(dim: usize) -> IvfRabitqIndex {
    IvfRabitqIndex::new(dim, random_rotation(dim))
}

fn insert(index: &mut IvfRabitqIndex, v: &[f32]) -> u64 {
    index.add(bits(v), &dist, &rotate, &corrections)
}

fn insert_with(index: &mut IvfRabitqIndex, v: &[f32], payload: Payload) -> u64 {
    index.add_with_payload(bits(v), payload, &dist, &rotate, &corrections)
}

fn build(vectors: &[Vec<f32>]) -> IvfRabitqIndex {
    let dim = vectors[0].len();
    let config = RabitqConfig::new(dim);
    let quantizer = RabitqQuantizer::from_rotation(config, random_rotation(dim));
    let all: Vec<Vec<u32>> = vectors.iter().map(|v| bits(v)).collect();
    let copy = all.clone();
    let mean = move |places: &Vec<usize>| -> Vec<u32> {
        let mut sum = vec![0.0f32; copy[0].len()];
        for p in places {
            for (s, x) in sum.iter_mut().zip(copy[*p].iter()) {
                *s += f32::from_bits(*x);
            }
        }
        let inv = 1.0 / places.len() as f32;
        sum.iter().map(|s| (s * inv).to_bits()).collect()
    };
    let config = RabitqConfig::new(dim);
    IvfRabitqIndex::build(
        all,
        config,
        quantizer,
        &dist,
        &mean,
        &running_sums,
        &draw,
        &rotate,
        &corrections,
        &norm,
        &quantize,
    )
}

fn estimate_of_signs(dim: usize, alpha: u32, beta: u32, h: u64, a: u32, b: u32) -> u32 {
    let s = dim as f32 - 2.0 * h as f32;
    let product = f32::from_bits(beta) * f32::from_bits(b) * s / dim as f32;
    (f32::from_bits(alpha) + f32::from_bits(a) - 2.0 * product).to_bits()
}

fn step(top: u32, levels: u8) -> u32 {
    (f32::from_bits(top) / levels as f32).to_bits()
}

fn level(v: u32, top: u32, levels: u8) -> u8 {
    let part = f32::from_bits(v).abs() / f32::from_bits(top) * levels as f32;
    (part.round() as u8).min(levels)
}

fn coded_query(index: &IvfRabitqIndex, query: &[f32], query_bits: u8) -> QueryCode {
    query_code(
        index,
        &bits(query),
        query_bits,
        &rotate,
        &corrections,
        &norm,
        &step,
        &level,
    )
}

fn run_search(index: &IvfRabitqIndex, query: &[f32], options: &SearchOptions) -> Vec<(u64, f32)> {
    let dim = index.config().dim;
    let rotated = rotate(index.rotation_matrix(), &bits(query));
    let r = floats(&rotated);
    let q_norm = dot(&r, &r);
    let (alpha, beta) = corrections(&rotated, index.quantizer().config().epsilon_0);
    let code = coded_query(index, query, options.query_bits);
    let (scale, total) = match &code {
        QueryCode::Quantized(q) => (f32::from_bits(q.scale), q.total_sum as f32),
        QueryCode::Signs(_) => (0.0, 0.0),
    };
    let by_signs = options.query_bits == 0;
    let route = |c: &Vec<u32>, n: u32| -> u32 {
        (q_norm + f32::from_bits(n) - 2.0 * dot(&r, &floats(c))).to_bits()
    };
    let estimate = |h: u64, a: u32, b: u32| -> u32 {
        if by_signs {
            estimate_of_signs(dim, alpha, beta, h, a, b)
        } else {
            let sum = 2.0 * h as f32 - total;
            let product = f32::from_bits(b) * scale * sum / dim as f32;
            (f32::from_bits(alpha) + f32::from_bits(a) - 2.0 * product).to_bits()
        }
    };
    let exact = |v: &Vec<u32>| -> u32 { l2(query, &floats(v)).to_bits() };
    search(index, &code, options, &route, &estimate, &exact, &restore)
        .into_iter()
        .map(|(id, d)| (id, f32::from_bits(d)))
        .collect()
}

fn estimate_search(index: &IvfRabitqIndex, query: &[f32], k: usize, nprobe: usize) -> Vec<(u64, f32)> {
    let dim = index.config().dim;
    let rotated = rotate(index.rotation_matrix(), &bits(query));
    let r = floats(&rotated);
    let q_norm = dot(&r, &r);
    let (alpha, beta) = corrections(&rotated, index.quantizer().config().epsilon_0);
    let code = QueryCode::Signs(encode_rotated(&rotated, alpha, beta));
    let route = |c: &Vec<u32>, n: u32| -> u32 {
        (q_norm + f32::from_bits(n) - 2.0 * dot(&r, &floats(c))).to_bits()
    };
    let estimate = |h: u64, a: u32, b: u32| -> u32 { estimate_of_signs(dim, alpha, beta, h, a, b) };
    index
        .search(&code, k, nprobe, &route, &estimate)
        .into_iter()
        .map(|(id, d)| (id, f32::from_bits(d)))
        .collect()
}

fn flat(index: &IvfRabitqIndex, query: &[f32], k: usize) -> Vec<(u64, f32)> {
    let exact = |v: &Vec<u32>| -> u32 { l2(query, &floats(v)).to_bits() };
    index
        .flat_search(k, &exact)
        .into_iter()
        .map(|(id, d)| (id, f32::from_bits(d)))
        .collect()
}

fn options(k: usize, nprobe: usize, refine: bool, refine_k: usize, fastscan: bool) -> SearchOptions {
    SearchOptions {
        k,
        nprobe,
        refine,
        refine_k,
        fastscan,
        query_bits: 0,
        sq8_refine: false,
        sql_filter: None,
    }
}

fn hits(results: &[(u64, f32)], truth: &[(u64, f32)]) -> usize {
    let truth: HashSet<u64> = truth.iter().map(|(id, _)| *id).collect();
    results.iter().filter(|(id, _)| truth.contains(id)).count()
}

fn load(bytes: &[u8]) -> Result<IvfRabitqIndex, StorageError> {
    load_index(bytes, &rotate, &norm, &quantize)
}

fn load_mapped(bytes: Vec<u8>) -> Result<IvfRabitqIndex, StorageError> {
    let storage = MmapStorage::from_bytes(&bytes)?;
    load_index_mmap(&storage, &rotate, &norm, &quantize)
}

fn filled(dim: usize, n: usize) -> IvfRabitqIndex {
    let mut index = new_index(dim);
    for _ in 0..n {
        insert(&mut index, &uniform_vector(dim));
    }
    index
}

#[test]
fn test_save_load_roundtrip() {
    let dim = 64;
    let n = 100;
    let index = filled(dim, n);
    assert_eq!(index.len(), n);
    let file = save_index(&index).unwrap();
    let loaded = load(&file).unwrap();
    assert_eq!(loaded.len(), n);
    assert_eq!(loaded.num_partitions(), index.num_partitions());
    let r1 = estimate_search(&loaded, &uniform_vector(dim), 5, 2);
    assert_eq!(r1.len(), 5);
}

#[test]
fn test_checksum_detects_corruption() {
    let mut file = save_index(&filled(64, 10)).unwrap();
    file[HEADER_SIZE + 10] = !file[HEADER_SIZE + 10];
    assert!(load(&file).is_err());
}

#[test]
fn test_load_index_mmap_roundtrip() {
    let dim = 64;
    let n = 100;
    let index = filled(dim, n);
    let file = save_index(&index).unwrap();
    let loaded = load_mapped(file).unwrap();
    assert_eq!(loaded.len(), n);
    assert_eq!(loaded.num_partitions(), index.num_partitions());
    let r1 = estimate_search(&loaded, &uniform_vector(dim), 5, 2);
    assert_eq!(r1.len(), 5);
}

#[test]
fn test_mmap_storage_checksum_detects_corruption() {
    let mut file = save_index(&filled(64, 10)).unwrap();
    file[HEADER_SIZE + 10] = !file[HEADER_SIZE + 10];
    assert!(load_mapped(file).is_err());
}

#[test]
fn test_available_physical_memory_nonzero() {
    let mem = available_physical_memory(2_097_152, 4096);
    assert!(mem.is_some(), "should detect physical memory on unix");
    assert!(mem.unwrap() > 0);
    assert_eq!(mem, Some(8_589_934_592));
    assert_eq!(available_physical_memory(-1, 4096), None);
    assert_eq!(available_physical_memory(100, 0), None);
}

#[test]
fn smoke_storage_roundtrip() {
    let index = filled(64, 50);
    let file = save_index(&index).unwrap();
    let loaded = load(&file).unwrap();
    assert_eq!(loaded.len(), index.len());
    assert_eq!(loaded.num_partitions(), index.num_partitions());
}

#[test]
fn save_load_search_recall() {
    let dim = 128;
    let n = 1000;
    let vectors: Vec<Vec<f32>> = (0..n).map(|_| gaussian_vector(dim)).collect();
    let index = build(&vectors);
    let loaded = load(&save_index(&index).unwrap()).unwrap();
    assert_eq!(loaded.len(), n);
    assert_eq!(loaded.num_partitions(), index.num_partitions());
    let query = gaussian_vector(dim);
    let truth = flat(&loaded, &query, 10);
    let results = run_search(&loaded, &query, &options(10, 0, true, 100, true));
    let recall = hits(&results, &truth);
    assert!(recall >= 5, "loaded index recall too low: {}/10", recall);
}

#[test]
fn acceptance_save_load_recall() {
    let dim = 128;
    let vectors: Vec<Vec<f32>> = (0..500).map(|_| gaussian_vector(dim)).collect();
    let index = build(&vectors);
    let loaded = load(&save_index(&index).unwrap()).unwrap();
    let query = gaussian_vector(dim);
    let truth = flat(&loaded, &query, 10);
    let results = run_search(&loaded, &query, &options(10, 0, true, 100, true));
    let recall = hits(&results, &truth);
    assert!(recall >= 5, "acceptance recall too low: {}/10", recall);
}

#[test]
fn regression_checksum_detects_file_corruption() {
    let mut file = save_index(&filled(64, 20)).unwrap();
    file[150 + 10] = !file[150 + 10];
    assert!(load(&file).is_err(), "corrupted file should fail checksum");
}

#[test]
fn every_part_comes_back() {
    let dim = 64;
    let mut index = new_index(dim);
    for i in 0..9 {
        let mut payload = Payload::new();
        payload.insert("name".to_string(), Value::from(format!("n\"{}é", i)));
        payload.insert("even".to_string(), Value::from(i % 2 == 0));
        insert_with(&mut index, &uniform_vector(dim), payload);
    }
    let loaded = load(&save_index(&index).unwrap()).unwrap();
    assert_eq!(loaded.rotation_matrix(), index.rotation_matrix());
    assert_eq!(loaded.centroids(), index.centroids());
    assert_eq!(loaded.raw_vectors(), index.raw_vectors());
    assert_eq!(loaded.payloads(), index.payloads());
    assert_eq!(loaded.next_id(), 9);
    assert!(loaded.is_numbered());
    for p in 0..index.num_partitions() {
        let a = index.partition_entries(p);
        let b = loaded.partition_entries(p);
        assert_eq!(a.len(), b.len());
        for (x, y) in a.iter().zip(b.iter()) {
            assert_eq!(x.0, y.0);
            assert_eq!(x.1.bits, y.1.bits);
            assert_eq!((x.1.alpha, x.1.beta), (y.1.alpha, y.1.beta));
        }
    }
    let mut again = loaded;
    assert_eq!(insert(&mut again, &uniform_vector(dim)), 9);
    assert!(!again.sq8_dirty() || again.len() == 10);
}

#[test]
fn an_empty_index_comes_back() {
    let index = new_index(64);
    let loaded = load(&save_index(&index).unwrap()).unwrap();
    assert!(loaded.is_empty());
    assert_eq!(loaded.num_partitions(), 4);
}

#[test]
fn any_changed_byte_behind_the_header_is_found() {
    let file = save_index(&filled(64, 3)).unwrap();
    let n = file.len();
    for at in [HEADER_SIZE, HEADER_SIZE + 7000, n - 17, n - 16, n - 8, n - 5, n - 4, n - 1] {
        let mut damaged = file.clone();
        damaged[at] ^= 0x10;
        assert!(load(&damaged).is_err(), "byte {}", at);
        assert!(load_mapped(damaged).is_err(), "byte {}", at);
    }
}

#[test]
fn faults_have_names() {
    let file = save_index(&filled(64, 3)).unwrap();
    assert_eq!(load(&file[..100]).err(), Some(StorageError::Truncated));
    assert_eq!(load_mapped(file[..100].to_vec()).err(), Some(StorageError::TooShort));
    assert_eq!(load_mapped(Vec::new()).err(), Some(StorageError::Empty));
    let mut magic = file.clone();
    magic[0] = b'X';
    assert_eq!(load(&magic).err(), Some(StorageError::BadMagic));
    let mut version = file.clone();
    version[8] = 2;
    assert_eq!(load(&version).err(), Some(StorageError::UnsupportedVersion));
    let cut = &file[..file.len() - 1];
    assert_eq!(load(cut).err(), Some(StorageError::Truncated));
    let mut body = file.clone();
    body[HEADER_SIZE] ^= 1;
    assert_eq!(load(&body).err(), Some(StorageError::ChecksumMismatch));
    let header = Header::deserialize(&file).unwrap();
    let mut json = file.clone();
    json[header.payload_offset as usize] = b'}';
    assert_eq!(load(&json).err(), Some(StorageError::BadPayload));
    assert_eq!(load_mapped(json).err(), Some(StorageError::ChecksumMismatch));
    let mut dim = file.clone();
    dim[12] = 65;
    assert_eq!(load(&dim).err(), Some(StorageError::Malformed));
}

#[test]
fn faults_have_messages() {
    assert_eq!(StorageError::Empty.message(), "empty index file");
    assert_eq!(StorageError::TooShort.message(), "file too short for header");
    assert_eq!(StorageError::BadHeader.message(), "bad header");
    assert_eq!(StorageError::BadMagic.message(), "bad magic");
    assert_eq!(StorageError::UnsupportedVersion.message(), "unsupported version");
    assert_eq!(StorageError::ChecksumMismatch.message(), "checksum mismatch");
}

#[test]
fn a_file_begins_with_its_header() {
    let file = save_index(&filled(64, 3)).unwrap();
    assert_eq!(&file[..8], b"VDBRQIDX");
    let h = Header::deserialize(&file).unwrap();
    assert_eq!((h.version, h.dim, h.num_partitions), (1, 64, 4));
    assert_eq!((h.num_vectors, h.next_id), (3, 3));
    assert_eq!(h.rotation_offset, HEADER_SIZE as u64);
    assert_eq!(h.rotation_len, 64 * 64 * 4);
    assert_eq!(h.raw_len, 3 * 64 * 4);
    assert_eq!(h.manifest_offset + h.manifest_len, file.len() as u64);
    assert_eq!(h.serialize(), &file[..HEADER_SIZE]);
    assert!(Header::deserialize(&file[..HEADER_SIZE - 1]).is_none());
}

#[test]
fn notes_and_manifests_come_back() {
    let meta = PartitionMeta { offset: 7, len: 1 << 40, count: 3 };
    let bytes = meta.serialize();
    assert_eq!(bytes.len(), 24);
    let back = PartitionMeta::deserialize(&bytes).unwrap();
    assert_eq!((back.offset, back.len, back.count), (7, 1 << 40, 3));
    assert!(PartitionMeta::deserialize(&bytes[1..]).is_none());
    let manifest = Manifest { version: 9, checksum: 0xDEADBEEF };
    let bytes = manifest.serialize();
    assert_eq!(bytes.len(), 16);
    let back = Manifest::deserialize(&bytes).unwrap();
    assert_eq!((back.version, back.checksum), (9, 0xDEADBEEF));
}

#[test]
fn checksums_are_those_of_the_standard() {
    assert_eq!(crc32(b"123456789"), 0xCBF43926);
    assert_eq!(crc32(b""), 0);
    let c = crc32_update(crc32_init(), b"12345");
    let c = crc32_update(c, b"6789");
    assert_eq!(crc32_finalize(c), 0xCBF43926);
}

#[test]
fn a_mapped_file_is_sliced() {
    let storage = MmapStorage::from_bytes(&[1, 2, 3, 4, 5]).unwrap();
    assert_eq!(storage.slice(1, 3), &[2, 3, 4]);
    assert_eq!(storage.as_slice().len(), 5);
}

#[test]
fn half_of_little_memory_may_be_mapped() {
    assert_eq!(mmap_budget(Some(8 << 30)), 4 << 30);
    assert_eq!(mmap_budget(Some(100 << 30)), 85 << 30);
    assert_eq!(check_budget(4 << 30, Some(8 << 30)), Ok(()));
    let e = check_budget((4 << 30) + 1, Some(8 << 30)).unwrap_err();
    assert_eq!((e.len, e.budget, e.physical), ((4 << 30) + 1, 4 << 30, 8 << 30));
    assert_eq!(check_budget(1 << 60, None), Ok(()));
}

#[test]
fn payloads_come_back_as_they_were_saved() {
    let mut index = new_index(64);
    let mut payload = Payload::new();
    payload.insert("text".to_string(), Value::from("a \"b\" \u{e9}\n"));
    payload.insert("yes".to_string(), Value::from(true));
    payload.insert("none".to_string(), Value::Null);
    payload.insert("count".to_string(), Value::from(-12345));
    payload.insert("large".to_string(), Value::from(562_949_953_421_311u64));
    payload.insert("whole".to_string(), Value::from(562_949_953_421_311.0f64));
    payload.insert("round".to_string(), Value::from(500_000_000_000_000.0f64));
    payload.insert("minus".to_string(), Value::from(-0.0f64));
    insert_with(&mut index, &uniform_vector(64), payload.clone());
    let file = save_index(&index).unwrap();
    let back = load_index(&file, &rotate, &norm, &quantize).unwrap();
    assert_eq!(back.payload(0), Some(&payload));
    let minus = back.payload(0).unwrap().get("minus").unwrap().as_f64().unwrap();
    assert_eq!(minus.to_bits(), (-0.0f64).to_bits());
}

#[test]
fn fractions_come_back() {
    let mut index = new_index(64);
    let mut payload = Payload::new();
    payload.insert("ratio".to_string(), Value::from(0.95f64));
    payload.insert("minus".to_string(), Value::from(-123.456f64));
    payload.insert("small".to_string(), Value::from(8.99e-20f64));
    payload.insert("places".to_string(), Value::from(0.000_000_123_456_789f64));
    payload.insert("near".to_string(), Value::from(899_999_999_999.999f64));
    payload.insert("top".to_string(), Value::from(899_999_999_999_999.0f64));
    payload.insert("least".to_string(), Value::from(i64::MIN));
    payload.insert("most".to_string(), Value::from(u64::MAX));
    insert_with(&mut index, &uniform_vector(64), payload.clone());
    let file = save_index(&index).unwrap();
    let back = load(&file).unwrap();
    for (name, value) in &payload {
        let read = back.payload(0).unwrap().get(name).unwrap();
        assert_eq!(read, value);
        assert_eq!(read.as_f64().unwrap().to_bits(), value.as_f64().unwrap().to_bits());
    }
}

#[test]
fn any_number_comes_back_as_a_number() {
    let mut index = new_index(64);
    let mut payload = Payload::new();
    for i in 0..200u64 {
        let exponent = (i * 10 + i % 7) % 2046;
        let number = f64::from_bits((exponent << 52) | rand::random::<u64>() >> 12);
        payload.insert(format!("n{}", i), Value::from(number));
    }
    payload.insert("huge".to_string(), Value::from(8.9e307f64));
    insert_with(&mut index, &uniform_vector(64), payload.clone());
    let back = load(&save_index(&index).unwrap()).unwrap();
    let fields = back.payload(0).unwrap();
    assert_eq!(fields.len(), payload.len());
    for (name, value) in &payload {
        let (read, was) = (fields.get(name).unwrap(), value.as_f64().unwrap());
        assert!(read.is_f64());
        assert!((read.as_f64().unwrap() - was).abs() <= was.abs() * 1e-14);
    }
}

#[test]
fn a_mapped_file_may_end_behind_its_checksum() {
    let file = save_index(&filled(64, 5)).unwrap();
    let manifest = file.len() - 16;
    for cut in [12usize, 13, 15] {
        let mut short = file[..manifest + cut].to_vec();
        short[manifest + 8..manifest + 12].fill(0);
        let sum = crc32(&short[HEADER_SIZE..]);
        short[manifest + 8..manifest + 12].copy_from_slice(&sum.to_le_bytes());
        assert_eq!(load_mapped(short.clone()).unwrap().len(), 5);
        assert!(matches!(load(&short), Err(StorageError::Truncated)));
    }
    let short = file[..manifest + 11].to_vec();
    assert!(matches!(load_mapped(short), Err(StorageError::Truncated)));
}

#[test]
fn a_small_index_is_saved_and_searched() {
    let vectors: Vec<Vec<f32>> = (0..2).map(|_| gaussian_vector(64)).collect();
    let index = build(&vectors);
    let back = load(&save_index(&index).unwrap()).unwrap();
    assert_eq!(back.centroids(), index.centroids());
    assert_eq!(back.config().epsilon_0, index.config().epsilon_0);
    let query = gaussian_vector(64);
    assert_eq!(
        run_search(&back, &query, &options(2, 0, true, 5, true)),
        run_search(&index, &query, &options(2, 0, true, 5, true))
    );
}

#[test]
fn a_loaded_index_is_searched_as_before() {
    let vectors: Vec<Vec<f32>> = (0..80).map(|_| gaussian_vector(64)).collect();
    let mut index = build(&vectors);
    for i in 0..40 {
        let mut payload = Payload::new();
        payload.insert("score".to_string(), Value::from(i as f64 / 40.0));
        insert_with(&mut index, &gaussian_vector(64), payload);
    }
    let back = load(&save_index(&index).unwrap()).unwrap();
    let query = gaussian_vector(64);
    for filter in [None, Some("score >= 0.9".to_string()), Some("score < 0.1".to_string())] {
        for nprobe in [2usize, 0] {
            let wanted = SearchOptions { sql_filter: filter.clone(), ..options(9, nprobe, true, 20, true) };
            assert_eq!(run_search(&back, &query, &wanted), run_search(&index, &query, &wanted));
        }
    }
    let all = SearchOptions {
        sql_filter: Some("score >= 0.9".to_string()),
        ..options(9, 0, true, 20, true)
    };
    assert_eq!(run_search(&back, &query, &all).len(), 4);
}
