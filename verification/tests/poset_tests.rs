use hasse_map::Poset;

fn s(x: &str) -> String {
    x.to_string()
}

#[test]
fn scenario_single_row() {
    let rows = vec![vec![s("a"), s("b"), s("c")]];
    let p = Poset::from_rows(&rows);
    assert_eq!(p.keys, vec![s("a"), s("b"), s("c")]);
    let succ: Vec<Vec<usize>> = vec![vec![1], vec![2], vec![]];
    let amb: Vec<Vec<usize>> = vec![vec![], vec![], vec![]];
    assert_eq!(p.succ, succ);
    assert_eq!(p.amb, amb);
    assert_eq!(p.topo_one(), Ok(vec![s("a"), s("b"), s("c")]));
}

#[test]
fn scenario_two_chains() {
    let rows = vec![vec![s("a"), s("b")], vec![s("c"), s("d")]];
    let p = Poset::from_rows(&rows);
    assert_eq!(p.keys, vec![s("a"), s("b"), s("c"), s("d")]);
    let succ: Vec<Vec<usize>> = vec![vec![1], vec![], vec![3], vec![]];
    let amb: Vec<Vec<usize>> = vec![vec![2, 3], vec![2, 3], vec![], vec![]];
    assert_eq!(p.succ, succ);
    assert_eq!(p.amb, amb);
    assert_eq!(p.topo_one(), Ok(vec![s("a"), s("b"), s("c"), s("d")]));
}

#[test]
fn scenario_cycle() {
    let rows = vec![vec![s("a"), s("b")], vec![s("b"), s("a")]];
    let p = Poset::from_rows(&rows);
    assert_eq!(p.keys, vec![s("a"), s("b")]);
    assert_eq!(p.topo_one(), Err(vec![s("a"), s("b")]));
}

#[test]
fn scenario_empty() {
    let rows: Vec<Vec<String>> = vec![];
    let p = Poset::from_rows(&rows);
    assert!(p.keys.is_empty());
    assert!(p.succ.is_empty());
    assert!(p.amb.is_empty());
    assert_eq!(p.topo_one(), Ok(vec![]));
}

#[test]
fn normalize_is_idempotent() {
    let rows = vec![
        vec![s("a"), s("b"), s("d")],
        vec![s("a"), s("c"), s("d")],
    ];
    let mut p = Poset::from_rows(&rows);
    let keys = p.keys.clone();
    let succ = p.succ.clone();
    let amb = p.amb.clone();
    p.normalize();
    assert_eq!(p.keys, keys);
    assert_eq!(p.succ, succ);
    assert_eq!(p.amb, amb);
}

#[test]
fn same_rows_same_result() {
    let rows = vec![
        vec![s("x"), s("y"), s("z")],
        vec![s("w"), s("y")],
        vec![s("x"), s("w")],
    ];
    let p1 = Poset::from_rows(&rows);
    let p2 = Poset::from_rows(&rows);
    assert_eq!(p1.keys, p2.keys);
    assert_eq!(p1.succ, p2.succ);
    assert_eq!(p1.amb, p2.amb);
    assert_eq!(p1.topo_one(), p2.topo_one());
}

#[test]
fn implied_edge_is_dropped() {
    // draft holds a->b, a->c, b->c; a->c is implied through b
    let p = Poset {
        keys: vec![s("a"), s("b"), s("c")],
        succ: vec![vec![1, 2], vec![2], vec![]],
        amb: vec![vec![], vec![], vec![]],
    };
    let mut p = p;
    p.normalize();
    let succ: Vec<Vec<usize>> = vec![vec![1], vec![2], vec![]];
    assert_eq!(p.succ, succ);
}

#[test]
fn diamond_keeps_cover_edges() {
    let rows = vec![
        vec![s("a"), s("b"), s("d")],
        vec![s("a"), s("c"), s("d")],
    ];
    let p = Poset::from_rows(&rows);
    assert_eq!(p.keys, vec![s("a"), s("b"), s("d"), s("c")]);
    // a->d is implied; b and c stay incomparable (indices 1 and 3)
    let succ: Vec<Vec<usize>> = vec![vec![1, 3], vec![2], vec![], vec![2]];
    let amb: Vec<Vec<usize>> = vec![vec![], vec![3], vec![], vec![]];
    assert_eq!(p.succ, succ);
    assert_eq!(p.amb, amb);
    assert_eq!(p.topo_one(), Ok(vec![s("a"), s("b"), s("c"), s("d")]));
}

#[test]
fn duplicate_key_in_row() {
    let rows = vec![vec![s("a"), s("a"), s("b")]];
    let p = Poset::from_rows(&rows);
    assert_eq!(p.keys, vec![s("a"), s("b")]);
    let succ: Vec<Vec<usize>> = vec![vec![1], vec![]];
    assert_eq!(p.succ, succ);
    assert_eq!(p.topo_one(), Ok(vec![s("a"), s("b")]));
}

#[test]
fn repeated_rows_store_each_edge_once() {
    let rows = vec![vec![s("a"), s("b")], vec![s("a"), s("b")]];
    let p = Poset::from_rows(&rows);
    let succ: Vec<Vec<usize>> = vec![vec![1], vec![]];
    assert_eq!(p.succ, succ);
}

#[test]
fn first_appearance_order_breaks_ties() {
    let rows = vec![vec![s("b"), s("a")]];
    let p = Poset::from_rows(&rows);
    assert_eq!(p.keys, vec![s("b"), s("a")]);
    assert_eq!(p.topo_one(), Ok(vec![s("b"), s("a")]));
}

#[test]
fn order_chains_across_rows() {
    let rows = vec![vec![s("a"), s("b")], vec![s("b"), s("c")]];
    let p = Poset::from_rows(&rows);
    let succ: Vec<Vec<usize>> = vec![vec![1], vec![2], vec![]];
    let amb: Vec<Vec<usize>> = vec![vec![], vec![], vec![]];
    assert_eq!(p.succ, succ);
    // a reaches c through b, so the pair is ordered, not ambiguous
    assert_eq!(p.amb, amb);
    assert_eq!(p.topo_one(), Ok(vec![s("a"), s("b"), s("c")]));
}

#[test]
fn cycle_blocks_downstream_keys() {
    let rows = vec![
        vec![s("a"), s("b")],
        vec![s("b"), s("a")],
        vec![s("b"), s("c")],
    ];
    let p = Poset::from_rows(&rows);
    // c can never be placed because b never becomes free
    assert_eq!(p.topo_one(), Err(vec![s("a"), s("b"), s("c")]));
}

#[test]
fn cycle_beside_free_key() {
    let rows = vec![vec![s("a"), s("b")], vec![s("b"), s("a")], vec![s("c")]];
    let p = Poset::from_rows(&rows);
    // c is unconstrained and places fine; only the cycle members are stuck
    assert_eq!(p.topo_one(), Err(vec![s("a"), s("b")]));
}

#[test]
fn index_lookup() {
    let rows = vec![vec![s("k1"), s("k2")]];
    let p = Poset::from_rows(&rows);
    assert_eq!(p.index_of(&s("k1")), Some(0));
    assert_eq!(p.index_of(&s("k2")), Some(1));
    assert_eq!(p.index_of(&s("missing")), None);
}

#[test]
fn single_key_row() {
    let rows = vec![vec![s("solo")]];
    let p = Poset::from_rows(&rows);
    assert_eq!(p.keys, vec![s("solo")]);
    let succ: Vec<Vec<usize>> = vec![vec![]];
    assert_eq!(p.succ, succ);
    assert_eq!(p.topo_one(), Ok(vec![s("solo")]));
}

#[test]
fn empty_row_is_ignored() {
    let rows = vec![Vec::<String>::new(), vec![s("a"), s("b")]];
    let p = Poset::from_rows(&rows);
    assert_eq!(p.keys, vec![s("a"), s("b")]);
    let succ: Vec<Vec<usize>> = vec![vec![1], vec![]];
    assert_eq!(p.succ, succ);
    assert_eq!(p.topo_one(), Ok(vec![s("a"), s("b")]));
}

#[test]
fn long_row_keeps_only_cover_edges() {
    // one row asserts the full relative order; only adjacent edges survive
    let rows = vec![vec![s("a"), s("b"), s("c"), s("d")]];
    let p = Poset::from_rows(&rows);
    let succ: Vec<Vec<usize>> = vec![vec![1], vec![2], vec![3], vec![]];
    let amb: Vec<Vec<usize>> = vec![vec![], vec![], vec![], vec![]];
    assert_eq!(p.succ, succ);
    assert_eq!(p.amb, amb);
    assert_eq!(
        p.topo_one(),
        Ok(vec![s("a"), s("b"), s("c"), s("d")])
    );
}

#[test]
fn empty_poset_from_new() {
    let p = Poset::new();
    assert!(p.keys.is_empty());
    assert!(p.succ.is_empty());
    assert!(p.amb.is_empty());
    assert_eq!(p.topo_one(), Ok(vec![]));
}
