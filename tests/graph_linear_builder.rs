use segment::graph_linear_builder::{GraphLinearBuilder, GraphLinkRequest, GraphLinkResponse};
use segment::types::{PointOffsetType, PointsScorer, ScoredPointOffset};

/// A symmetric scorer from a function of two ids.
fn scorer_from(n: usize, f: impl Fn(usize, usize) -> i64) -> PointsScorer {
    let mut scores = Vec::with_capacity(n * n);
    for a in 0..n {
        for b in 0..n {
            scores.push(f(a, b));
        }
    }
    PointsScorer::new(n, scores).unwrap()
}

/// Scorer from a table of pairwise scores; every point scores 1000 with itself.
fn table_scorer(n: usize, pairs: &[(usize, usize, i64)]) -> PointsScorer {
    scorer_from(n, |a, b| {
        if a == b {
            return 1000;
        }
        for &(x, y, s) in pairs {
            if (x == a && y == b) || (x == b && y == a) {
                return s;
            }
        }
        -1000
    })
}

/// Negated squared distance between points of the plane.
fn plane_scorer(points: &[(i64, i64)]) -> PointsScorer {
    scorer_from(points.len(), |a, b| {
        let dx = points[a].0 - points[b].0;
        let dy = points[a].1 - points[b].1;
        -(dx * dx + dy * dy)
    })
}

fn sorted(v: &[PointOffsetType]) -> Vec<PointOffsetType> {
    let mut v = v.to_vec();
    v.sort();
    v
}

/// Checks degree, self links, duplicates and the level bound everywhere.
fn check_graph(g: &GraphLinearBuilder, levels: &[usize], m: usize, m0: usize) {
    let layers = levels.iter().copied().max().unwrap() + 1;
    for (p, &lp) in levels.iter().enumerate() {
        for level in 0..layers {
            let links = g.get_links(p as PointOffsetType, level);
            let bound = if level == 0 { m0 } else { m };
            assert!(links.len() <= bound);
            assert!(!links.contains(&(p as PointOffsetType)));
            assert_eq!(sorted(links).windows(2).filter(|w| w[0] == w[1]).count(), 0);
            if level > lp {
                assert!(links.is_empty());
            }
            for &q in links {
                assert!(levels[q as usize] >= level);
            }
        }
    }
}

/// A deterministic pseudo-random sequence.
fn lcg(state: &mut u64) -> u64 {
    *state = state.wrapping_mul(6364136223846793005).wrapping_add(1442695040888963407);
    *state >> 33
}

#[test]
fn trivial_single_point() {
    let levels = [0usize];
    let mut g = GraphLinearBuilder::new(&levels, 4, 8, 4, 10, table_scorer(1, &[]));
    g.link_new_point(0);
    assert_eq!(g.get_links(0, 0), &[] as &[PointOffsetType]);
}

#[test]
fn single_point_on_high_level() {
    let levels = [3usize];
    let mut g = GraphLinearBuilder::new(&levels, 4, 8, 4, 10, table_scorer(1, &[]));
    g.link_new_point(0);
    for level in 0..4 {
        assert!(g.get_links(0, level).is_empty());
    }
}

#[test]
fn pair_links_both_ways() {
    let levels = [0usize, 0];
    let mut g = GraphLinearBuilder::new(&levels, 2, 4, 4, 10, table_scorer(2, &[(0, 1, 500)]));
    g.link_new_point(0);
    g.link_new_point(1);
    assert_eq!(g.get_links(0, 0), &[1]);
    assert_eq!(g.get_links(1, 0), &[0]);
}

#[test]
fn collinear_triple_rejects_shadowed_point() {
    let levels = [0usize, 0, 0];
    let scorer = table_scorer(3, &[(0, 1, 900), (1, 2, 900), (0, 2, 500)]);
    let mut g = GraphLinearBuilder::new(&levels, 1, 2, 4, 10, scorer);
    for p in 0..3 {
        g.link_new_point(p);
    }
    assert_eq!(g.get_links(2, 0), &[1]);
    assert_eq!(sorted(g.get_links(1, 0)), vec![0, 2]);
    assert_eq!(g.get_links(0, 0), &[1]);
}

#[test]
fn full_neighbor_list_is_pruned_again() {
    let levels = [0usize, 0, 0];
    let scorer = table_scorer(3, &[(0, 1, 900), (1, 2, 900), (0, 2, 500)]);
    let mut g = GraphLinearBuilder::new(&levels, 1, 1, 4, 10, scorer);
    for p in 0..3 {
        g.link_new_point(p);
    }
    assert_eq!(g.get_links(2, 0), &[1]);
    assert_eq!(g.get_links(1, 0), &[2]);
    assert_eq!(g.get_links(0, 0), &[1]);
}

#[test]
fn heuristic_keeps_one_point_per_direction() {
    // The query (4) sits at the origin; 3 lies behind 0 and is dropped.
    let points = [(1, 0), (0, 2), (-3, 0), (2, 0), (0, 0)];
    let levels = [0usize; 5];
    let mut g = GraphLinearBuilder::new(&levels, 3, 3, 8, 10, plane_scorer(&points));
    for p in 0..5 {
        g.link_new_point(p);
    }
    assert_eq!(g.get_links(4, 0), &[0, 1, 2]);
    check_graph(&g, &levels, 3, 3);
}

#[test]
fn entry_descent_refines_entry() {
    // 0 and 1 reach level 2; 2 sits next to 1, far from 0.
    let points = [(0, 0), (10, 0), (9, 0)];
    let levels = [2usize, 2, 0];
    let mut g = GraphLinearBuilder::new(&levels, 2, 4, 4, 10, plane_scorer(&points));
    g.link_new_point(0);
    g.link_new_point(1);
    assert_eq!(g.get_links(0, 2), &[1]);
    let request = g.get_link_request(2).unwrap();
    assert_eq!(request.point_id, 2);
    assert_eq!(request.level, 0);
    assert_eq!(request.entry, ScoredPointOffset { idx: 1, score: -1 });
}

#[test]
fn first_request_is_none() {
    let levels = [1usize, 0];
    let mut g = GraphLinearBuilder::new(&levels, 2, 4, 4, 10, table_scorer(2, &[(0, 1, 500)]));
    assert!(g.get_link_request(0).is_none());
    let request = g.get_link_request(1).unwrap();
    assert_eq!(request.level, 0);
    assert_eq!(request.entry, ScoredPointOffset { idx: 0, score: 500 });
}

#[test]
fn single_level_touches_only_layer_zero() {
    let n = 12;
    let points: Vec<(i64, i64)> = (0..n).map(|i| ((i * 7 % 11) as i64, (i * 3 % 5) as i64)).collect();
    let levels = vec![0usize; n];
    let mut g = GraphLinearBuilder::new(&levels, 2, 4, 6, 4, plane_scorer(&points));
    for p in 0..n {
        g.link_new_point(p as PointOffsetType);
    }
    check_graph(&g, &levels, 2, 4);
    assert!((0..n).any(|p| !g.get_links(p as PointOffsetType, 0).is_empty()));
}

#[test]
fn beam_of_one_keeps_invariants() {
    let n = 40;
    let mut state = 7u64;
    let points: Vec<(i64, i64)> = (0..n).map(|_| ((lcg(&mut state) % 100) as i64, (lcg(&mut state) % 100) as i64)).collect();
    let levels: Vec<usize> = (0..n).map(|_| (lcg(&mut state) % 3) as usize).collect();
    let mut g = GraphLinearBuilder::new(&levels, 3, 6, 1, 2, plane_scorer(&points));
    for p in 0..n {
        g.link_new_point(p as PointOffsetType);
    }
    check_graph(&g, &levels, 3, 6);
}

#[test]
fn layered_cosine_graph_keeps_invariants() {
    let n = 1000;
    let dim = 16;
    let mut state = 42u64;
    let vectors: Vec<Vec<f64>> = (0..n)
        .map(|_| {
            let v: Vec<f64> = (0..dim).map(|_| (lcg(&mut state) % 2001) as f64 - 1000.0).collect();
            let norm = v.iter().map(|x| x * x).sum::<f64>().sqrt();
            v.iter().map(|x| x / norm).collect()
        })
        .collect();
    let levels: Vec<usize> = (0..n)
        .map(|_| {
            let mut level = 0;
            while lcg(&mut state) % 8 == 0 {
                level += 1;
            }
            level
        })
        .collect();
    let scorer = scorer_from(n, |a, b| {
        let dot: f64 = vectors[a].iter().zip(vectors[b].iter()).map(|(x, y)| x * y).sum();
        (dot * 1_000_000.0).round() as i64
    });
    let mut g = GraphLinearBuilder::new(&levels, 8, 16, 16, 10, scorer);
    for p in 0..n {
        g.link_new_point(p as PointOffsetType);
    }
    check_graph(&g, &levels, 8, 16);
    for p in 1..n {
        assert!(!g.get_links(p as PointOffsetType, 0).is_empty());
    }
}

#[test]
fn set_links_replaces_one_list() {
    let levels = [1usize, 1, 0];
    let mut g = GraphLinearBuilder::new(&levels, 2, 4, 4, 10, table_scorer(3, &[]));
    g.set_links(0, 0, &[2, 1]);
    g.set_links(1, 1, &[0]);
    assert_eq!(g.get_links(0, 0), &[2, 1]);
    assert_eq!(g.get_links(1, 1), &[0]);
    assert!(g.get_links(1, 0).is_empty());
    assert!(g.get_links(0, 1).is_empty());
    g.set_links(0, 0, &[1]);
    assert_eq!(g.get_links(0, 0), &[1]);
}

#[test]
fn next_request_steps_down() {
    let response = GraphLinkResponse {
        point_id: 3,
        level: 2,
        entry: ScoredPointOffset { idx: 1, score: 7 },
        links: vec![],
        neighbor_ids: vec![],
        neighbor_links: vec![],
    };
    let next = response.next_request().unwrap();
    assert_eq!(next.point_id, 3);
    assert_eq!(next.level, 1);
    assert_eq!(next.entry, ScoredPointOffset { idx: 1, score: 7 });
    let last = GraphLinkResponse { level: 0, ..response };
    assert!(last.next_request().is_none());
}

#[test]
fn link_then_apply_writes_both_sides() {
    let levels = [0usize, 0];
    let mut g = GraphLinearBuilder::new(&levels, 2, 4, 4, 10, table_scorer(2, &[(0, 1, 500)]));
    g.link_new_point(0);
    let request = GraphLinkRequest { point_id: 1, level: 0, entry: ScoredPointOffset { idx: 0, score: 500 } };
    let response = g.link(request);
    assert_eq!(response.links, vec![0]);
    assert_eq!(response.neighbor_ids, vec![0]);
    assert_eq!(response.neighbor_links, vec![vec![1]]);
    assert_eq!(response.entry, ScoredPointOffset { idx: 0, score: 500 });
    assert!(g.get_links(1, 0).is_empty());
    g.apply_link_response(&response);
    assert_eq!(g.get_links(1, 0), &[0]);
    assert_eq!(g.get_links(0, 0), &[1]);
}

#[test]
fn scorer_needs_square_matrix() {
    assert!(PointsScorer::new(2, vec![1, 2, 3]).is_none());
    assert!(PointsScorer::new(2, vec![1, 2, 3, 4]).is_some());
}
