#![allow(dead_code)]

use serde_json::Value;
use std::collections::HashSet;
use vdb_rs::index_ivf_rq::{IvfRabitqIndex, Payload, RabitqConfig, RabitqQuantizer};
use vdb_rs::rabitq::encode_rotated;
use vdb_rs::search::{query_code, search, QueryCode, SearchOptions};
use vdb_rs::chunked_storage::CHUNK_SIZE;
use vdb_rs::mmap_index::{ChunkedMmapStorage, MmapIndex};
use vdb_rs::storage::{load_index, save_index};
use vdb_rs::vdb::{index_file_of, stale_file, Database, Manifest, MmapDatabase};

fn bits(v: &[f32]) -> Vec<u32> {
    v.iter().map(|x| x.to_bits()).collect()
}

fn floats(v: &[u32]) -> Vec<f32> {
    v.iter().map(|x| f32::from_bits(*x)).collect()
}

fn gaussian_random() -> f32 {
    let u1 = rand::random::<f32>().max(1e-7);
    let u2 = rand::random::<f32>();
    (-2.0 * u1.ln()).sqrt() * (2.0 * std::f32::consts::PI * u2).cos()
}

fn gaussian_vector(dim: usize) -> Vec<f32> {
    (0..dim).map(|_| gaussian_random()).collect()
}

fn uniform_vector(dim: usize) -> Vec<f32> {
    (0..dim).map(|_| rand::random::<f32>()).collect()
}

fn dot(a: &[f32], b: &[f32]) -> f32 {
    a.iter().zip(b.iter()).map(|(x, y)| x * y).sum()
}

fn l2(a: &[f32], b: &[f32]) -> f32 {
    a.iter().zip(b.iter()).map(|(x, y)| (x - y) * (x - y)).sum()
}

/// A random orthogonal matrix, row by row, by Gram-Schmidt on its columns.
fn random_rotation(dim: usize) -> Vec<u32> {
    let mut columns: Vec<Vec<f32>> = Vec::new();
    for _ in 0..dim {
        let mut c: Vec<f32> = (0..dim).map(|_| rand::random::<f32>() * 2.0 - 1.0).collect();
        for p in &columns {
            let proj = dot(&c, p);
            for (x, y) in c.iter_mut().zip(p.iter()) {
                *x -= proj * y;
            }
        }
        let norm = dot(&c, &c).sqrt();
        for x in c.iter_mut() {
            *x /= norm;
        }
        columns.push(c);
    }
    let mut rows = Vec::with_capacity(dim * dim);
    for r in 0..dim {
        for c in &columns {
            rows.push(c[r].to_bits());
        }
    }
    rows
}

fn dist(a: &Vec<u32>, b: &Vec<u32>) -> u32 {
    let sum: f32 = a
        .iter()
        .zip(b.iter())
        .map(|(x, y)| {
            let d = f32::from_bits(*x) - f32::from_bits(*y);
            d * d
        })
        .sum();
    sum.to_bits()
}

fn rotate(rotation: &Vec<u32>, vector: &Vec<u32>) -> Vec<u32> {
    let dim = vector.len();
    let v = floats(vector);
    (0..dim)
        .map(|r| {
            let row = &rotation[r * dim..(r + 1) * dim];
            let mut sum = 0.0f32;
            for (x, y) in row.iter().zip(v.iter()) {
                sum += f32::from_bits(*x) * y;
            }
            sum.to_bits()
        })
        .collect()
}

fn corrections(rotated: &Vec<u32>, epsilon_0: u32) -> (u32, u32) {
    let r = floats(rotated);
    let norm_sq = dot(&r, &r);
    let beta = r.iter().map(|x| x.abs()).sum::<f32>() / (norm_sq.sqrt() + f32::from_bits(epsilon_0));
    (norm_sq.to_bits(), beta.to_bits())
}

fn norm(v: &Vec<u32>) -> u32 {
    let f = floats(v);
    dot(&f, &f).to_bits()
}

fn quantize(v: u32, lo: u32, hi: u32) -> u8 {
    let (v, lo, hi) = (f32::from_bits(v), f32::from_bits(lo), f32::from_bits(hi));
    let range = hi - lo;
    if range > 0.0 {
        ((v - lo) / range * 255.0).round() as u8
    } else {
        0
    }
}

fn restore(code: u8, lo: u32, hi: u32) -> u32 {
    let (lo, hi) = (f32::from_bits(lo), f32::from_bits(hi));
    (lo + (code as f32 / 255.0) * (hi - lo)).to_bits()
}

fn running_sums(weights: &Vec<u32>) -> Vec<u32> {
    let mut sum = 0.0f32;
    weights
        .iter()
        .map(|w| {
            sum += f32::from_bits(*w);
            sum.to_bits()
        })
        .collect()
}

fn draw(total: u32) -> u32 {
    (rand::random::<f32>() * f32::from_bits(total)).to_bits()
}

fn new_index(dim: usize) -> IvfRabitqIndex {
    IvfRabitqIndex::new(dim, random_rotation(dim))
}

fn insert(index: &mut IvfRabitqIndex, v: &[f32]) -> u64 {
    index.add(bits(v), &dist, &rotate, &corrections)
}

fn insert_with(index: &mut IvfRabitqIndex, v: &[f32], payload: Payload) -> u64 {
    index.add_with_payload(bits(v), payload, &dist, &rotate, &corrections)
}

fn build(vectors: &[Vec<f32>]) -> IvfRabitqIndex {
    let dim = vectors[0].len();
    let config = RabitqConfig::new(dim);
    let quantizer = RabitqQuantizer::from_rotation(config, random_rotation(dim));
    let all: Vec<Vec<u32>> = vectors.iter().map(|v| bits(v)).collect();
    let copy = all.clone();
    let mean = move |places: &Vec<usize>| -> Vec<u32> {
        let mut sum = vec![0.0f32; copy[0].len()];
        for p in places {
            for (s, x) in sum.iter_mut().zip(copy[*p].iter()) {
                *s += f32::from_bits(*x);
            }
        }
        let inv = 1.0 / places.len() as f32;
        sum.iter().map(|s| (s * inv).to_bits()).collect()
    };
    let config = RabitqConfig::new(dim);
    IvfRabitqIndex::build(
        all,
        config,
        quantizer,
        &dist,
        &mean,
        &running_sums,
        &draw,
        &rotate,
        &corrections,
        &norm,
        &quantize,
    )
}

fn estimate_of_signs(dim: usize, alpha: u32, beta: u32, h: u64, a: u32, b: u32) -> u32 {
    let s = dim as f32 - 2.0 * h as f32;
    let product = f32::from_bits(beta) * f32::from_bits(b) * s / dim as f32;
    (f32::from_bits(alpha) + f32::from_bits(a) - 2.0 * product).to_bits()
}

fn step(top: u32, levels: u8) -> u32 {
    (f32::from_bits(top) / levels as f32).to_bits()
}

fn level(v: u32, top: u32, levels: u8) -> u8 {
    let part = f32::from_bits(v).abs() / f32::from_bits(top) * levels as f32;
    (part.round() as u8).min(levels)
}

fn coded_query(index: &IvfRabitqIndex, query: &[f32], query_bits: u8) -> QueryCode {
    query_code(
        index,
        &bits(query),
        query_bits,
        &rotate,
        &corrections,
        &norm,
        &step,
        &level,
    )
}

fn run_search(index: &IvfRabitqIndex, query: &[f32], options: &SearchOptions) -> Vec<(u64, f32)> {
    let dim = index.config().dim;
    let rotated = rotate(index.rotation_matrix(), &bits(query));
    let r = floats(&rotated);
    let q_norm = dot(&r, &r);
    let (alpha, beta) = corrections(&rotated, index.quantizer().config().epsilon_0);
    let code = coded_query(index, query, options.query_bits);
    let (scale, total) = match &code {
        QueryCode::Quantized(q) => (f32::from_bits(q.scale), q.total_sum as f32),
        QueryCode::Signs(_) => (0.0, 0.0),
    };
    let by_signs = options.query_bits == 0;
    let route = |c: &Vec<u32>, n: u32| -> u32 {
        (q_norm + f32::from_bits(n) - 2.0 * dot(&r, &floats(c))).to_bits()
    };
    let estimate = |h: u64, a: u32, b: u32| -> u32 {
        if by_signs {
            estimate_of_signs(dim, alpha, beta, h, a, b)
        } else {
            let sum = 2.0 * h as f32 - total;
            let product = f32::from_bits(b) * scale * sum / dim as f32;
            (f32::from_bits(alpha) + f32::from_bits(a) - 2.0 * product).to_bits()
        }
    };
    let exact = |v: &Vec<u32>| -> u32 { l2(query, &floats(v)).to_bits() };
    search(index, &code, options, &route, &estimate, &exact, &restore)
        .into_iter()
        .map(|(id, d)| (id, f32::from_bits(d)))
        .collect()
}

fn estimate_search(index: &IvfRabitqIndex, query: &[f32], k: usize, nprobe: usize) -> Vec<(u64, f32)> {
    let dim = index.config().dim;
    let rotated = rotate(index.rotation_matrix(), &bits(query));
    let r = floats(&rotated);
    let q_norm = dot(&r, &r);
    let (alpha, beta) = corrections(&rotated, index.quantizer().config().epsilon_0);
    let code = QueryCode::Signs(encode_rotated(&rotated, alpha, beta));
    let route = |c: &Vec<u32>, n: u32| -> u32 {
        (q_norm + f32::from_bits(n) - 2.0 * dot(&r, &floats(c))).to_bits()
    };
    let estimate = |h: u64, a: u32, b: u32| -> u32 { estimate_of_signs(dim, alpha, beta, h, a, b) };
    index
        .search(&code, k, nprobe, &route, &estimate)
        .into_iter()
        .map(|(id, d)| (id, f32::from_bits(d)))
        .collect()
}

fn flat(index: &IvfRabitqIndex, query: &[f32], k: usize) -> Vec<(u64, f32)> {
    let exact = |v: &Vec<u32>| -> u32 { l2(query, &floats(v)).to_bits() };
    index
        .flat_search(k, &exact)
        .into_iter()
        .map(|(id, d)| (id, f32::from_bits(d)))
        .collect()
}

fn options(k: usize, nprobe: usize, refine: bool, refine_k: usize, fastscan: bool) -> SearchOptions {
    SearchOptions {
        k,
        nprobe,
        refine,
        refine_k,
        fastscan,
        query_bits: 0,
        sq8_refine: false,
        sql_filter: None,
    }
}

fn hits(results: &[(u64, f32)], truth: &[(u64, f32)]) -> usize {
    let truth: HashSet<u64> = truth.iter().map(|(id, _)| *id).collect();
    results.iter().filter(|(id, _)| truth.contains(id)).count()
}

/// The files of a database in memory.
struct Files {
    files: Vec<(String, Vec<u8>)>,
}

impl Files {
    fn write(&mut self, name: &str, bytes: Vec<u8>) {
        self.files.retain(|f| f.0 != name);
        self.files.push((name.to_string(), bytes));
    }

    fn names(&self) -> Vec<String> {
        self.files.iter().map(|f| f.0.clone()).collect()
    }

    fn read(&self, name: &str) -> &[u8] {
        &self.files.iter().find(|f| f.0 == name).unwrap().1
    }
}

fn create(dim: usize) -> (Database, Files) {
    let db = Database::create(dim, random_rotation(dim));
    let mut files = Files { files: Vec::new() };
    let name = db.manifest().index_file.clone();
    files.write(&name, save_index(db.index()).unwrap());
    (db, files)
}

fn save(db: &mut Database, files: &mut Files) {
    let next = db.next_manifest();
    files.write(&next.index_file, save_index(db.index()).unwrap());
    db.commit(next);
}

fn put(db: &mut Database, files: &mut Files, v: &[f32]) -> u64 {
    let id = db.insert(bits(v), &dist, &rotate, &corrections);
    save(db, files);
    id
}

fn manifest_of(db: &Database) -> Manifest {
    Manifest {
        version: db.manifest().version,
        index_file: db.manifest().index_file.clone(),
    }
}

fn reopen(db: &Database, files: &Files) -> Database {
    let manifest = manifest_of(db);
    let index = load_index(files.read(&manifest.index_file), &rotate, &norm, &quantize).unwrap();
    assert!(index.is_numbered());
    Database::open(manifest, index)
}

#[test]
fn test_create_insert_search() {
    let (mut db, mut files) = create(64);
    let v = uniform_vector(64);
    assert_eq!(put(&mut db, &mut files, &v), 0);
    let results = run_search(db.index(), &v, &SearchOptions::default());
    assert!(!results.is_empty());
    assert_eq!(results[0].0, 0);
}

#[test]
fn test_persist_and_reopen() {
    let (mut db, mut files) = create(64);
    for _ in 0..10 {
        put(&mut db, &mut files, &uniform_vector(64));
    }
    let before = db.stats();
    let db2 = reopen(&db, &files);
    let after = db2.stats();
    assert_eq!(after.num_vectors, before.num_vectors);
    assert_eq!(after.num_partitions, before.num_partitions);
    assert_eq!(after.version, before.version);
    let results = run_search(db2.index(), &uniform_vector(64), &SearchOptions::default());
    assert_eq!(results.len(), 10);
}

#[test]
fn test_mmap_database_zero_copy_open() {
    let (mut db, mut files) = create(64);
    for _ in 0..100 {
        db.insert(bits(&uniform_vector(64)), &dist, &rotate, &corrections);
    }
    save(&mut db, &mut files);
    let file = files.read(&db.manifest().index_file).to_vec();
    let storage = ChunkedMmapStorage::open(file.len(), None).unwrap();
    let fetch = |chunk: u64, start: usize, n: usize| -> Option<Vec<u8>> {
        let at = (chunk * CHUNK_SIZE) as usize + start;
        file.get(at..at + n).map(|s| s.to_vec())
    };
    let index = MmapIndex::open(&storage, &fetch, &rotate, &norm).unwrap();
    let mapped = MmapDatabase::open(manifest_of(&db), index);
    assert_eq!(mapped.dim(), 64);
    assert_eq!(mapped.stats().num_vectors, 100);
    assert_eq!(mapped.stats().version, db.stats().version);
    let query = uniform_vector(64);
    let rotated = mapped.index().quantizer().rotate_vector(&bits(&query), &rotate);
    let code = mapped.index().quantizer().encode_query_from_rotated(&rotated, &corrections);
    let (alpha, beta) = (code.alpha, code.beta);
    let route = |c: &Vec<u32>, _n: u32| -> u32 { dist(c, &rotated) };
    let estimate = |h: u64, a: u32, b: u32| -> u32 { estimate_of_signs(64, alpha, beta, h, a, b) };
    let exact = |v: &Vec<u32>| -> u32 { l2(&query, &floats(v)).to_bits() };
    let results = mapped.search(&code, 10, 0, &fetch, &route, &estimate, &exact);
    assert_eq!(results.len(), 10);
}

#[test]
fn acceptance_database_create_insert_search() {
    let (mut db, mut files) = create(64);
    let v = uniform_vector(64);
    assert_eq!(put(&mut db, &mut files, &v), 0);
    let results = run_search(db.index(), &v, &SearchOptions::default());
    assert!(!results.is_empty());
    assert_eq!(results[0].0, 0);
}

#[test]
fn acceptance_database_persist_and_reopen() {
    let (mut db, mut files) = create(64);
    for _ in 0..20 {
        put(&mut db, &mut files, &uniform_vector(64));
    }
    let stats = db.stats();
    let db2 = reopen(&db, &files);
    let stats2 = db2.stats();
    assert_eq!(stats2.num_vectors, stats.num_vectors);
    assert_eq!(stats2.num_partitions, stats.num_partitions);
    assert_eq!(stats2.version, stats.version);
    let results = run_search(db2.index(), &uniform_vector(64), &SearchOptions::default());
    assert_eq!(results.len(), SearchOptions::default().k.min(stats.num_vectors));
}

#[test]
fn acceptance_database_batch_insert_and_compact() {
    let (mut db, mut files) = create(64);
    let mut vectors = Vec::new();
    let mut payloads = Vec::new();
    for i in 0..5 {
        vectors.push(uniform_vector(64));
        let mut payload = Payload::new();
        payload.insert("idx".to_string(), Value::from(i));
        payloads.push(payload);
    }
    let rows: Vec<Vec<u32>> = vectors.iter().map(|v| bits(v)).collect();
    let first_id = db.batch_insert_with_payload(rows, payloads, &dist, &rotate, &corrections);
    save(&mut db, &mut files);
    assert_eq!(first_id, 0);
    assert_eq!(db.stats().num_vectors, 5);

    put(&mut db, &mut files, &uniform_vector(64));
    assert_eq!(db.stats().num_vectors, 6);

    let mut names = files.names();
    names.push("notes.json".to_string());
    let gone = db.compact(&names);
    assert!(gone.len() >= 1, "compact should remove at least one old snapshot");
    let kept: Vec<String> = (0..names.len())
        .filter(|i| !gone.contains(i) && names[*i].starts_with("index-"))
        .map(|i| names[i].clone())
        .collect();
    assert_eq!(kept, vec![db.manifest().index_file.clone()]);

    let db2 = reopen(&db, &files);
    assert_eq!(db2.stats().num_vectors, 6);
    let mut o = options(6, 0, true, 50, true);
    o.sql_filter = Some("idx = 0".to_string());
    let results = run_search(db2.index(), &vectors[0], &o);
    assert!(!results.is_empty());
    assert!(results.iter().any(|(id, _)| *id == 0));
}

#[test]
fn regression_manifest_persists_after_reopen() {
    let (mut db, mut files) = create(64);
    for _ in 0..5 {
        put(&mut db, &mut files, &uniform_vector(64));
    }
    let before = db.stats();
    assert!(before.version > 0);
    let after = reopen(&db, &files).stats();
    assert_eq!(after.version, before.version);
    assert_eq!(after.num_vectors, before.num_vectors);
}

#[test]
fn every_version_has_its_own_file() {
    assert_eq!(index_file_of(0), "index-0.vdb");
    assert_eq!(index_file_of(1207), "index-1207.vdb");
    assert_eq!(index_file_of(u64::MAX), "index-18446744073709551615.vdb");
    let (mut db, mut files) = create(64);
    assert_eq!(db.manifest().index_file, "index-0.vdb");
    put(&mut db, &mut files, &uniform_vector(64));
    put(&mut db, &mut files, &uniform_vector(64));
    assert_eq!(db.stats().version, 2);
    assert_eq!(files.names(), vec!["index-0.vdb", "index-1.vdb", "index-2.vdb"]);
}

#[test]
fn only_index_files_are_compacted() {
    let manifest = Manifest::of_version(3);
    assert!(stale_file("index-2.vdb", &manifest));
    assert!(stale_file("index-.vdb", &manifest));
    assert!(!stale_file("index-3.vdb", &manifest));
    assert!(!stale_file("notes.json", &manifest));
    assert!(!stale_file("index-2.vdb.tmp", &manifest));
    assert!(!stale_file("my-index-2.vdb", &manifest));
    assert!(!stale_file("", &manifest));
}

#[test]
fn an_empty_batch_gives_zero() {
    let (mut db, _) = create(64);
    db.insert(bits(&uniform_vector(64)), &dist, &rotate, &corrections);
    let first = db.batch_insert_with_payload(vec![], vec![], &dist, &rotate, &corrections);
    assert_eq!(first, 0);
    let rows = vec![bits(&uniform_vector(64)), bits(&uniform_vector(64))];
    let payloads = vec![Payload::new(), Payload::new()];
    let first = db.batch_insert_with_payload(rows, payloads, &dist, &rotate, &corrections);
    assert_eq!(first, 1);
    let id = db.insert_with_payload(
        bits(&uniform_vector(64)),
        Payload::new(),
        &dist,
        &rotate,
        &corrections,
    );
    assert_eq!(id, 3);
}

#[test]
fn a_database_is_searched_as_its_index() {
    let (mut db, mut files) = create(64);
    for _ in 0..30 {
        db.insert(bits(&uniform_vector(64)), &dist, &rotate, &corrections);
    }
    save(&mut db, &mut files);
    let query = uniform_vector(64);
    let o = options(5, 0, true, 30, true);
    let code = coded_query(db.index(), &query, 0);
    let route = |_: &Vec<u32>, _: u32| -> u32 { 0 };
    let estimate = |h: u64, _: u32, _: u32| -> u32 { (h as f32).to_bits() };
    let exact = |v: &Vec<u32>| -> u32 { l2(&query, &floats(v)).to_bits() };
    let found = db.search(&code, &o, &route, &estimate, &exact, &restore);
    let found: Vec<(u64, f32)> =
        found.into_iter().map(|(id, d)| (id, f32::from_bits(d))).collect();
    assert_eq!(found, flat(db.index(), &query, 5));
}

#[test]
fn compacting_again_takes_nothing_away() {
    let (mut db, _) = create(64);
    let manifest = db.next_manifest();
    db.commit(manifest);
    let latest = db.manifest().index_file.clone();
    let names: Vec<String> = vec![
        "index-0.vdb".to_string(),
        "notes.json".to_string(),
        latest.clone(),
        "index-77.vdb".to_string(),
        "index-7.vdb.tmp".to_string(),
    ];
    let gone = db.compact(&names);
    let left: Vec<String> = names
        .iter()
        .enumerate()
        .filter(|(i, _)| !gone.contains(i))
        .map(|(_, n)| n.clone())
        .collect();
    assert!(left.contains(&latest));
    assert!(!left.contains(&"index-77.vdb".to_string()));
    assert!(db.compact(&left).is_empty());
}
