use hnsw_core::Graph;
use hnsw_core::DotScorer;
use hnsw_core::Scored;
use hnsw_core::HnswError;
use hnsw_core::sample_level;
use hnsw_core::level_from_draws;
use hnsw_core::random_int_payload;
use hnsw_core::random_keyword;
use hnsw_core::scorer::score_points;
use rand::Rng;
use rand::SeedableRng;
use rand::rngs::StdRng;

fn random_vectors(n: usize, dim: usize, seed: u64) -> Vec<Vec<i64>> {
    let mut rng = StdRng::seed_from_u64(seed);
    let mut out = Vec::new();
    for _ in 0..n {
        let mut v = Vec::new();
        for _ in 0..dim {
            v.push(rng.gen_range(-1000..=1000));
        }
        out.push(v);
    }
    out
}

fn build_graph(
    vectors: &Vec<Vec<i64>>,
    m: usize,
    m0: usize,
    ef_construct: usize,
    max_level: usize,
    use_heuristic: bool,
    seed: u64,
) -> Graph {
    let mut g = Graph::new(vectors.len(), m, m0, ef_construct, max_level, use_heuristic)
        .ok()
        .expect("valid parameters");
    let mut rng = StdRng::seed_from_u64(seed);
    for pid in 0..vectors.len() {
        let level = sample_level(&mut rng, m, max_level);
        let scorer = DotScorer::new(vectors.clone(), vectors[pid].clone(), None)
            .ok()
            .expect("valid vectors");
        g.insert(pid, level, &scorer);
    }
    g
}

fn dot(a: &[i64], b: &[i64]) -> i64 {
    let mut acc = 0;
    for i in 0..a.len() {
        acc += a[i] * b[i];
    }
    acc
}

#[test]
fn construction_thousand_points() {
    let vectors = random_vectors(1000, 8, 7);
    let g = build_graph(&vectors, 16, 32, 50, 16, true, 11);
    let mut max_level_seen = 0;
    for pid in 0..1000 {
        assert!(g.is_inserted(pid));
        let top = g.top_level_of(pid);
        if top > max_level_seen {
            max_level_seen = top;
        }
    }
    // Expected maximum around ln(1000)/ln(16), roughly 2.5.
    assert!(max_level_seen >= 1);
    assert!(max_level_seen <= 6);
}

#[test]
fn search_finds_exact_point_on_small_graph() {
    let vectors = vec![
        vec![1, 0],
        vec![0, 1],
        vec![3, 4],
        vec![-1, 2],
        vec![2, 2],
    ];
    let g = build_graph(&vectors, 4, 8, 10, 4, false, 3);
    let scorer = DotScorer::new(vectors.clone(), vectors[2].clone(), None)
        .ok()
        .expect("valid vectors");
    let r = g.search(1, 5, &scorer);
    assert_eq!(r.len(), 1);
    assert_eq!(r[0].id, 2);
    assert_eq!(r[0].score, 25);
}

#[test]
fn search_on_empty_graph_returns_nothing() {
    let g = Graph::new(10, 4, 8, 10, 4, true).ok().expect("valid parameters");
    let scorer = DotScorer::new(random_vectors(10, 4, 5), vec![1, 2, 3, 4], None)
        .ok()
        .expect("valid vectors");
    let r = g.search(5, 10, &scorer);
    assert!(r.is_empty());
}

#[test]
fn filtered_search_returns_only_even_ids() {
    let vectors = random_vectors(100, 4, 21);
    let g = build_graph(&vectors, 8, 16, 30, 8, true, 23);
    let mask: Vec<bool> = (0..100).map(|i| i % 2 == 0).collect();
    let query = vec![500, -250, 750, 125];
    let scorer = DotScorer::new(vectors.clone(), query, Some(mask))
        .ok()
        .expect("valid vectors");
    let r = g.search(10, 40, &scorer);
    assert!(!r.is_empty());
    for e in &r {
        assert_eq!(e.id % 2, 0);
    }
}

#[test]
fn recall_monotone_in_beam_width() {
    let vectors = random_vectors(200, 6, 31);
    let g = build_graph(&vectors, 8, 16, 30, 8, true, 37);
    let query = vec![900, -100, 40, 700, -300, 10];
    let scorer = DotScorer::new(vectors.clone(), query.clone(), None)
        .ok()
        .expect("valid vectors");
    let entry = g.entry.unwrap();
    let entry_score = dot(&vectors[entry.id], &query);
    let mut prev_best: Option<i64> = None;
    for ef in [1, 2, 4, 8, 16, 32, 64, 128] {
        let r = g.search(1, ef, &scorer);
        assert_eq!(r.len(), 1);
        // The top result never scores below the entry point itself.
        assert!(r[0].score >= entry_score);
        if let Some(p) = prev_best {
            assert!(r[0].score >= p);
        }
        prev_best = Some(r[0].score);
    }
}

#[test]
fn repeated_searches_are_identical() {
    let vectors = random_vectors(150, 5, 41);
    let g = build_graph(&vectors, 8, 16, 25, 8, false, 43);
    let query = vec![10, 20, -30, 40, -50];
    let scorer = DotScorer::new(vectors.clone(), query, None)
        .ok()
        .expect("valid vectors");
    let r1 = g.search(10, 20, &scorer);
    let r2 = g.search(10, 20, &scorer);
    assert_eq!(r1, r2);
    assert_eq!(r1.len(), 10);
}

#[test]
fn results_are_sorted_best_first_with_id_tiebreak() {
    let vectors = random_vectors(80, 4, 51);
    let g = build_graph(&vectors, 8, 16, 25, 8, true, 53);
    let query = vec![100, 200, 300, 400];
    let scorer = DotScorer::new(vectors.clone(), query.clone(), None)
        .ok()
        .expect("valid vectors");
    let r = g.search(20, 40, &scorer);
    assert_eq!(r.len(), 20);
    for w in r.windows(2) {
        assert!(
            w[0].score > w[1].score || (w[0].score == w[1].score && w[0].id < w[1].id)
        );
    }
    for e in &r {
        assert_eq!(e.score, dot(&vectors[e.id], &query));
    }
}

#[test]
fn neighbor_lists_respect_structure() {
    let vectors = random_vectors(120, 4, 61);
    let m = 6;
    let m0 = 12;
    let g = build_graph(&vectors, m, m0, 20, 8, true, 67);
    for p in 0..120 {
        assert!(g.is_inserted(p));
        let top = g.top_level_of(p);
        for l in 0..=top {
            let ns = g.neighbors_of(p, l);
            let cap = if l == 0 { m0 } else { m };
            assert!(ns.len() <= cap);
            for (i, &n) in ns.iter().enumerate() {
                assert_ne!(n, p);
                assert!(g.is_inserted(n));
                assert!(g.top_level_of(n) >= l);
                for &n2 in &ns[i + 1..] {
                    assert_ne!(n, n2);
                }
            }
        }
    }
}

#[test]
fn symmetry_or_capacity_after_build() {
    let vectors = random_vectors(60, 4, 71);
    let m = 4;
    let m0 = 8;
    let max_level = 8;
    let mut g = Graph::new(60, m, m0, 15, max_level, true).ok().expect("valid parameters");
    let mut rng = StdRng::seed_from_u64(73);
    for pid in 0..60 {
        // Snapshot every list length before the insert: a one-sided link
        // is only allowed when the far list was full at link time.
        let mut pre_len = Vec::new();
        for n in 0..pid {
            let top = g.top_level_of(n);
            let mut per_layer = Vec::new();
            for l in 0..=top {
                per_layer.push(g.neighbors_of(n, l).len());
            }
            pre_len.push(per_layer);
        }
        let level = sample_level(&mut rng, m, max_level);
        let pre_entry = g.entry;
        let scorer = DotScorer::new(vectors.clone(), vectors[pid].clone(), None)
            .ok()
            .expect("valid vectors");
        g.insert(pid, level, &scorer);
        let top = g.top_level_of(pid);
        for l in 0..=top {
            // On every layer shared with the pre-insert graph the new
            // point got at least one link.
            if let Some(e) = pre_entry {
                if l <= e.level {
                    assert!(!g.neighbors_of(pid, l).is_empty());
                }
            }
            for &n in &g.neighbors_of(pid, l) {
                let back = g.neighbors_of(n, l);
                let cap = if l == 0 { m0 } else { m };
                assert!(back.contains(&pid) || pre_len[n][l] == cap);
            }
        }
    }
}

#[test]
fn level_from_draws_counts_zero_prefix() {
    assert_eq!(level_from_draws(&vec![0, 16, 5], 16, 10), 2);
    assert_eq!(level_from_draws(&vec![7, 0, 0], 16, 10), 0);
    assert_eq!(level_from_draws(&vec![0, 0, 0], 2, 2), 2);
    assert_eq!(level_from_draws(&vec![], 3, 5), 0);
    assert_eq!(level_from_draws(&vec![32, 48, 64, 3], 16, 10), 3);
}

#[test]
fn fixture_draws_have_verified_shape() {
    let mut rng = StdRng::seed_from_u64(99);
    let ints = random_int_payload(&mut rng, 10);
    assert_eq!(ints.len(), 10);
    for v in &ints {
        assert!(0 <= *v && *v < 500);
    }
    assert!(random_int_payload(&mut rng, 0).is_empty());
    let kw = random_keyword(&mut rng);
    let words: Vec<&str> = kw.split(' ').collect();
    assert_eq!(words.len(), 2);
    assert!(!words[0].is_empty());
    assert!(!words[1].is_empty());
}

#[test]
fn degenerate_parameters_are_rejected() {
    assert_eq!(
        Graph::new(10, 0, 8, 10, 4, true).err(),
        Some(HnswError::InvalidConfig)
    );
    assert_eq!(
        Graph::new(10, 1, 8, 10, 4, true).err(),
        Some(HnswError::InvalidConfig)
    );
    assert_eq!(
        Graph::new(10, 4, 0, 10, 4, true).err(),
        Some(HnswError::InvalidConfig)
    );
    assert_eq!(
        Graph::new(10, 4, 8, 0, 4, true).err(),
        Some(HnswError::InvalidConfig)
    );
    assert!(Graph::new(0, 4, 8, 10, 4, true).is_ok());
}

#[test]
fn bad_scorer_inputs_are_rejected() {
    // Mismatched dimension.
    let r = DotScorer::new(vec![vec![1, 2, 3]], vec![1, 2], None);
    assert_eq!(r.err(), Some(HnswError::InvalidVectors));
    // Coordinate out of range.
    let r = DotScorer::new(vec![vec![2_000_000]], vec![1], None);
    assert_eq!(r.err(), Some(HnswError::InvalidVectors));
    // Mask of the wrong length.
    let r = DotScorer::new(vec![vec![1], vec![2]], vec![1], Some(vec![true]));
    assert_eq!(r.err(), Some(HnswError::InvalidVectors));
    assert!(DotScorer::new(vec![vec![1], vec![2]], vec![1], None).is_ok());
}

#[test]
fn sample_level_is_clamped_and_deterministic() {
    let mut rng = StdRng::seed_from_u64(9);
    let mut seen_positive = false;
    for _ in 0..200 {
        let l = sample_level(&mut rng, 2, 5);
        assert!(l <= 5);
        if l > 0 {
            seen_positive = true;
        }
    }
    assert!(seen_positive);
    let mut a = StdRng::seed_from_u64(17);
    let mut b = StdRng::seed_from_u64(17);
    for _ in 0..50 {
        assert_eq!(sample_level(&mut a, 16, 8), sample_level(&mut b, 16, 8));
    }
    let mut c = StdRng::seed_from_u64(19);
    assert_eq!(sample_level(&mut c, 7, 0), 0);
}

#[test]
fn score_points_keeps_best_eligible() {
    let vectors = vec![
        vec![1, 0],
        vec![2, 0],
        vec![3, 0],
        vec![4, 0],
        vec![5, 0],
    ];
    let mask = vec![true, true, true, false, true];
    let scorer = DotScorer::new(vectors, vec![10, 0], Some(mask))
        .ok()
        .expect("valid vectors");
    let ids = vec![0, 1, 2, 3, 4, 2];
    let r = score_points(&scorer, &ids, 3);
    assert_eq!(
        r,
        vec![
            Scored { id: 4, score: 50 },
            Scored { id: 2, score: 30 },
            Scored { id: 1, score: 20 },
        ]
    );
}

#[test]
fn heuristic_keeps_results_valid() {
    let vectors = random_vectors(50, 3, 81);
    let g_plain = build_graph(&vectors, 4, 8, 12, 6, false, 83);
    let g_heur = build_graph(&vectors, 4, 8, 12, 6, true, 83);
    let query = vec![700, -200, 90];
    let scorer = DotScorer::new(vectors.clone(), query.clone(), None)
        .ok()
        .expect("valid vectors");
    for g in [&g_plain, &g_heur] {
        let r = g.search(5, 20, &scorer);
        assert_eq!(r.len(), 5);
        for e in &r {
            assert_eq!(e.score, dot(&vectors[e.id], &query));
        }
    }
}

#[test]
fn entry_point_tracks_highest_level() {
    let vectors = random_vectors(30, 3, 91);
    let mut g = Graph::new(30, 4, 8, 10, 6, true).ok().expect("valid parameters");
    let levels = [0, 2, 1, 0, 3, 0, 1, 0, 0, 2];
    for pid in 0..10 {
        let scorer = DotScorer::new(vectors.clone(), vectors[pid].clone(), None)
            .ok()
            .expect("valid vectors");
        g.insert(pid, levels[pid], &scorer);
    }
    let mut max_top = 0;
    for pid in 0..10 {
        let t = g.top_level_of(pid);
        assert_eq!(t, levels[pid]);
        if t > max_top {
            max_top = t;
        }
    }
    assert_eq!(max_top, 3);
    let scorer = DotScorer::new(vectors.clone(), vectors[4].clone(), None)
        .ok()
        .expect("valid vectors");
    let r = g.search(1, 4, &scorer);
    assert_eq!(r[0].id, 4);
}
