use wom::le::{from_le, to_le};
use wom::score::{is_at_least, is_greater, is_zero, total_order_key};
use wom::topk::{merge_hits, top_k, Hit, TopK};
use wom::vectors::{
    chunk_rows, dot_i8, hash_model, open_plan, scored, OpenPlan, Quantised, StoreError, VectorStore,
    GROW_ROWS, HEADER,
};

/// A store in memory, quantised the way a caller does it.
struct Mem {
    store: VectorStore,
    map: Vec<u8>,
}

fn quantise(v: &[f32]) -> Option<Quantised> {
    let peak = v.iter().fold(0f32, |m, x| m.max(x.abs()));
    if peak <= 1e-12 {
        return None;
    }
    let inv = 127.0 / peak;
    let components = v.iter().map(|x| (x * inv).round().clamp(-127.0, 127.0) as i8).collect();
    Some(Quantised { components, scale: (peak / 127.0).to_bits() })
}

impl Mem {
    fn open(map: Vec<u8>, dim: usize, model: &str) -> Result<Mem, StoreError> {
        match open_plan(dim, !map.is_empty(), map.len() as u64)? {
            OpenPlan::Existing => {
                let store = VectorStore::open(&map, dim, model)?;
                assert!(store.fits(&map));
                Ok(Mem { store, map })
            }
            OpenPlan::Fresh { len } => {
                let mut map = vec![0u8; len as usize];
                let store = VectorStore::create(&mut map, dim, model);
                Ok(Mem { store, map })
            }
        }
    }

    fn new(dim: usize) -> Mem {
        Mem::open(Vec::new(), dim, "m").unwrap()
    }

    fn put(&mut self, row: usize, v: &[f32]) -> Result<(), StoreError> {
        self.store.check_vector(v.len())?;
        if let Some(g) = self.store.growth(row) {
            self.map.resize(g.len as usize, 0);
            self.store.grown(&mut self.map, g.capacity);
        }
        self.store.put(&mut self.map, row, &quantise(v));
        Ok(())
    }

    fn get(&self, row: usize) -> Option<Vec<f32>> {
        let q = self.store.get(&self.map, row)?;
        let scale = f32::from_bits(q.scale);
        Some(q.components.iter().map(|c| *c as f32 * scale).collect())
    }

    fn search(&self, query: &[f32], k: usize, allow: Option<&[bool]>) -> Result<Vec<Hit>, StoreError> {
        self.store.check_search(query.len(), allow.map(|a| a.len()))?;
        let Some(q) = quantise(query) else {
            return Ok(Vec::new());
        };
        let n = self.store.high_water();
        let step = chunk_rows(n, 2);
        let mut lists = Vec::new();
        let mut lo = 0;
        while lo < n {
            let hi = (lo + step).min(n);
            let c = self.store.scan(&self.map, &q.components, allow, lo, hi);
            let scores = c
                .iter()
                .map(|c| (c.raw as f32 * f32::from_bits(c.scale) * f32::from_bits(q.scale)).to_bits())
                .collect();
            lists.push(top_k(&scored(&c, &scores), k));
            lo = hi;
        }
        Ok(merge_hits(&lists, k))
    }
}

fn norm(v: &[f32]) -> f32 {
    v.iter().map(|x| x * x).sum::<f32>().sqrt()
}

fn unit(v: &[f32]) -> Vec<f32> {
    let n = norm(v);
    v.iter().map(|x| x / n).collect()
}

fn cosine(a: &[f32], b: &[f32]) -> f32 {
    a.iter().zip(b).map(|(x, y)| x * y).sum()
}

#[test]
fn roundtrip_preserves_direction_within_quantisation_error() {
    let mut s = Mem::new(4);
    let v = unit(&[0.5, -0.25, 0.8, 0.1]);
    s.put(0, &v).unwrap();
    let got = s.get(0).unwrap();

    let cos = cosine(&v, &got) / norm(&got);
    assert!(cos > 0.9999, "cosine after quantisation was {cos}");
}

#[test]
fn quantisation_error_stays_small_across_many_random_vectors() {
    let dim = 384;
    let mut s = Mem::new(dim);
    // Deterministic pseudo-random directions.
    let mut worst = 1.0f32;
    for i in 0..64 {
        let v = unit(
            &(0..dim)
                .map(|j| (((i * 7919 + j * 104729) % 2003) as f32 / 1000.0) - 1.0)
                .collect::<Vec<f32>>(),
        );
        s.put(i, &v).unwrap();
        let got = s.get(i).unwrap();
        let cos = cosine(&v, &got) / norm(&got);
        worst = worst.min(cos);
    }
    assert!(worst > 0.999, "worst cosine was {worst}");
}

#[test]
fn search_ranks_the_nearest_vector_first() {
    let mut s = Mem::new(3);
    s.put(0, &unit(&[1.0, 0.0, 0.0])).unwrap();
    s.put(1, &unit(&[0.0, 1.0, 0.0])).unwrap();
    s.put(2, &unit(&[0.9, 0.1, 0.0])).unwrap();

    let hits = s.search(&unit(&[1.0, 0.0, 0.0]), 3, None).unwrap();
    assert_eq!(hits[0].row, 0);
    assert_eq!(hits[1].row, 2);
    let score = |h: &Hit| f32::from_bits(h.score);
    assert!(score(&hits[0]) > score(&hits[1]));
    assert!((score(&hits[0]) - 1.0).abs() < 0.01, "self-cosine {}", score(&hits[0]));
}

#[test]
fn cleared_rows_never_rank() {
    let mut s = Mem::new(3);
    s.put(0, &unit(&[1.0, 0.0, 0.0])).unwrap();
    s.put(1, &unit(&[1.0, 0.0, 0.0])).unwrap();
    s.store.clear(&mut s.map, 0);

    let hits = s.search(&unit(&[1.0, 0.0, 0.0]), 5, None).unwrap();
    assert_eq!(hits.len(), 1, "a cleared row was returned");
    assert_eq!(hits[0].row, 1);
    assert!(s.get(0).is_none(), "cleared row still readable");
}

#[test]
fn allow_list_restricts_the_search() {
    let mut s = Mem::new(3);
    s.put(0, &unit(&[1.0, 0.0, 0.0])).unwrap();
    s.put(1, &unit(&[0.9, 0.1, 0.0])).unwrap();

    let allow = vec![false, true];
    let hits = s.search(&unit(&[1.0, 0.0, 0.0]), 5, Some(&allow)).unwrap();
    assert_eq!(hits.len(), 1);
    assert_eq!(hits[0].row, 1);
}

#[test]
fn growth_past_the_initial_capacity_preserves_earlier_rows() {
    let mut s = Mem::new(3);
    s.put(0, &unit(&[1.0, 0.0, 0.0])).unwrap();
    // Force several remaps.
    let far = GROW_ROWS * 2 + 5;
    s.put(far, &unit(&[0.0, 0.0, 1.0])).unwrap();

    assert_eq!(s.store.high_water(), far + 1);
    let first = s.get(0).unwrap();
    let last = s.get(far).unwrap();
    assert!(first[0] > 0.9, "row 0 was corrupted by growth: {first:?}");
    assert!(last[2] > 0.9, "far row wrong: {last:?}");
    assert_eq!(s.map.len(), HEADER + 3 * GROW_ROWS * 7);
}

#[test]
fn reopening_recovers_dim_high_water_and_contents() {
    let mut s = Mem::new(3);
    s.put(5, &unit(&[0.0, 1.0, 0.0])).unwrap();
    let s = Mem::open(s.map, 3, "m").unwrap();
    assert_eq!(s.store.high_water(), 6);
    let v = s.get(5).unwrap();
    assert!(v[1] > 0.9);
}

#[test]
fn reopening_with_a_different_dim_is_refused() {
    let s = Mem::new(384);
    let err = match Mem::open(s.map, 1024, "m") {
        Ok(_) => panic!("opening with a mismatched dim should have failed"),
        Err(e) => e.message("/d/files.i8"),
    };
    assert!(err.contains("384"), "unhelpful error: {err}");
    assert!(err.contains("rebuild"), "error should say how to fix: {err}");
}

#[test]
fn reopening_with_a_different_model_is_refused() {
    // Same dimension, different model: silent corruption otherwise.
    let s = Mem::open(Vec::new(), 384, "bge-small-en-v1.5").unwrap();
    let err = match Mem::open(s.map, 384, "all-MiniLM-L6-v2") {
        Ok(_) => panic!("opening with a different model should have failed"),
        Err(e) => e.message("/d/files.i8"),
    };
    assert!(err.contains("different model"), "unhelpful error: {err}");
}

#[test]
fn dimension_mismatch_on_put_and_search_is_an_error() {
    let mut s = Mem::new(3);
    assert!(s.put(0, &[1.0, 0.0]).is_err());
    assert!(s.search(&[1.0, 0.0], 1, None).is_err());
}

#[test]
fn empty_store_and_zero_k_return_nothing() {
    let mut s = Mem::new(3);
    assert!(s.search(&unit(&[1.0, 0.0, 0.0]), 5, None).unwrap().is_empty());
    s.put(0, &unit(&[1.0, 0.0, 0.0])).unwrap();
    assert!(s.search(&unit(&[1.0, 0.0, 0.0]), 0, None).unwrap().is_empty());
}

#[test]
fn zero_vectors_are_stored_dead_rather_than_producing_nan() {
    let mut s = Mem::new(3);
    s.put(0, &[0.0, 0.0, 0.0]).unwrap();
    assert!(s.get(0).is_none());
    let hits = s.search(&unit(&[1.0, 0.0, 0.0]), 5, None).unwrap();
    assert!(hits.is_empty());
}

#[test]
fn topk_keeps_the_highest_scores() {
    let mut t = TopK::new(2);
    for (row, score) in [(0, 0.1f32), (1, 0.9), (2, 0.5), (3, 0.3)] {
        t.push(Hit { row, score: score.to_bits() });
    }
    let mut v = t.into_vec();
    v.sort_unstable_by(|a, b| f32::from_bits(b.score).total_cmp(&f32::from_bits(a.score)));
    assert_eq!(v.len(), 2);
    assert_eq!(v[0].row, 1);
    assert_eq!(v[1].row, 2);
}

#[test]
fn search_is_deterministic_for_tied_scores() {
    let mut s = Mem::new(3);
    for row in 0..10 {
        s.put(row, &unit(&[1.0, 0.0, 0.0])).unwrap();
    }
    let a = s.search(&unit(&[1.0, 0.0, 0.0]), 3, None).unwrap();
    let b = s.search(&unit(&[1.0, 0.0, 0.0]), 3, None).unwrap();
    assert_eq!(
        a.iter().map(|h| h.row).collect::<Vec<_>>(),
        b.iter().map(|h| h.row).collect::<Vec<_>>()
    );
    assert_eq!(a.iter().map(|h| h.row).collect::<Vec<_>>(), vec![0, 1, 2]);
}

#[test]
fn dot_i8_matches_a_scalar_reference() {
    let a: Vec<i8> = (0..64).map(|i| (i as i8) - 32).collect();
    let b: Vec<i8> = (0..64).map(|i| 31 - (i as i8)).collect();
    let want: i32 = a.iter().zip(&b).map(|(x, y)| *x as i32 * *y as i32).sum();
    assert_eq!(dot_i8(&a, &b), want);
}

#[test]
fn damaged_stores_are_refused() {
    assert_eq!(Mem::open(Vec::new(), 0, "m").err().unwrap(), StoreError::ZeroDim);
    let mut bad = Mem::new(3).map;
    bad[0] = b'X';
    assert_eq!(Mem::open(bad, 3, "m").err().unwrap(), StoreError::BadMagic);
    let mut bad = Mem::new(3).map;
    bad[24..32].copy_from_slice(&9000u64.to_le_bytes());
    assert_eq!(
        Mem::open(bad, 3, "m").err().unwrap(),
        StoreError::Inconsistent { high_water: 9000, capacity: 8192 }
    );
}

#[test]
fn a_short_allow_list_is_refused() {
    let mut s = Mem::new(3);
    s.put(4, &unit(&[1.0, 0.0, 0.0])).unwrap();
    assert_eq!(
        s.search(&unit(&[1.0, 0.0, 0.0]), 1, Some(&[true])).err().unwrap(),
        StoreError::ShortAllowList { got: 1, rows: 5 }
    );
}

#[test]
fn a_store_is_bound_to_the_digest_of_its_model() {
    let d = blake3::hash(b"m");
    let want = u64::from_le_bytes(d.as_bytes()[..8].try_into().unwrap());
    assert_eq!(hash_model("m"), want);
    assert_eq!(Mem::new(3).store.model_hash, want);
}

#[test]
fn chunking_does_not_change_the_result() {
    let mut s = Mem::new(2);
    for row in 0..9000usize {
        let a = row as f32 / 9000.0;
        s.put(row, &[a.cos(), a.sin()]).unwrap();
    }
    let q = [0.6f32, 0.8];
    let hits = s.search(&q, 5, None).unwrap();
    let qq = quantise(&q).unwrap();
    let all = s.store.scan(&s.map, &qq.components, None, 0, 9000);
    let scores: Vec<u32> = all
        .iter()
        .map(|c| (c.raw as f32 * f32::from_bits(c.scale) * f32::from_bits(qq.scale)).to_bits())
        .collect();
    assert_eq!(hits, top_k(&scored(&all, &scores), 5));
}

#[test]
fn score_bits_compare_like_floats() {
    let xs = [-1.5f32, -0.0, 0.0, 0.25, 1.0, f32::INFINITY, f32::NAN];
    for a in xs {
        for b in xs {
            let (p, q) = (a.to_bits(), b.to_bits());
            assert_eq!(is_greater(p, q), a > b, "{a} > {b}");
            assert_eq!(is_at_least(p, q), a >= b, "{a} >= {b}");
            assert_eq!(
                total_order_key(p) < total_order_key(q),
                a.total_cmp(&b).is_lt(),
                "{a} before {b}"
            );
        }
        assert_eq!(is_zero(a.to_bits()), a == 0.0);
    }
}

#[test]
fn rows_that_were_skipped_hold_nothing() {
    let mut s = Mem::new(2);
    s.put(1, &[1.0, 0.0]).unwrap();
    let far = GROW_ROWS + 5;
    s.put(far, &[0.0, 1.0]).unwrap();
    assert_eq!(s.store.high_water(), far + 1);
    assert!(s.get(0).is_none());
    assert!(s.get(2).is_none() && s.get(GROW_ROWS).is_none() && s.get(far - 1).is_none());
    assert!(s.get(far + 1).is_none());
    assert_eq!(s.get(1).unwrap()[1], 0.0);
    assert!(s.get(far).unwrap()[1] > 0.99);
    s.store.clear(&mut s.map, far);
    assert!(s.get(far).is_none() && s.get(1).is_some());
}

#[test]
fn numbers_are_spelled_least_significant_byte_first() {
    let s = Mem::new(3);
    assert_eq!(s.map[0..8], *b"WOMVEC01");
    assert_eq!(s.map[8..12], 3u32.to_le_bytes());
    assert_eq!(s.map[12..16], (GROW_ROWS as u32).to_le_bytes());
    assert_eq!(s.map[16..24], hash_model("m").to_le_bytes());
    assert_eq!(to_le(0x0102_0304, 4), 0x0102_0304u32.to_le_bytes());
    assert_eq!(to_le(u64::MAX, 8), u64::MAX.to_le_bytes());
    assert_eq!(from_le(&[0xff; 8]), u64::MAX);
    assert_eq!(from_le(&[1, 2, 3]), 0x03_02_01);
}
