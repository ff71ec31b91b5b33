use nearest_neighbors::{
    distance, dot_product, get_search_algorithm, AnyIndex, BinaryTree, Exact, KDTree, LoadError,
    Node, VPTree, LSH, NSW,
};

/// The spread scenario dataset, scaled by 1000: `{0:[0,0], 1:[1,0],
/// 2:[0,1], 3:[10,10]}`.
fn spread_dataset() -> Vec<(usize, Vec<i64>)> {
    vec![
        (0, vec![0, 0]),
        (1, vec![1000, 0]),
        (2, vec![0, 1000]),
        (3, vec![10000, 10000]),
    ]
}

/// Ten 3-dimensional points at pairwise distinct distances from the queries
/// used below.
fn mixed_dataset() -> Vec<(usize, Vec<i64>)> {
    vec![
        (4, vec![100, 200, -300]),
        (7, vec![-4000, 50, 1200]),
        (1, vec![999, -999, 0]),
        (12, vec![5, 5, 5]),
        (3, vec![-2500, -2500, 7]),
        (9, vec![10000, -10000, 10000]),
        (5, vec![123, 456, 789]),
        (8, vec![-1, 2, -3]),
        (2, vec![777, 0, -777]),
        (6, vec![0, 0, 60000]),
    ]
}

fn sorted(mut v: Vec<usize>) -> Vec<usize> {
    v.sort();
    v
}

#[test]
fn exact_scenario_spread() {
    let data = spread_dataset();
    let e = Exact::load(&data).unwrap();
    let r = e.nearest_neighbors(&vec![100, 100], 2);
    assert_eq!(r.len(), 2);
    assert_eq!(r[0], 0);
    assert!(r[1] == 1 || r[1] == 2);
}

#[test]
fn kdtree_scenario_spread() {
    let data = spread_dataset();
    let t = KDTree::load(&data).unwrap();
    let r = t.nearest_neighbors(&vec![100, 100], 2);
    assert_eq!(r.len(), 2);
    assert_eq!(r[0], 0);
    assert!(r[1] == 1 || r[1] == 2);
}

#[test]
fn vptree_scenario_spread() {
    let data = spread_dataset();
    let t = VPTree::load_seeded(&data, 7).unwrap();
    let r = t.nearest_neighbors(&vec![100, 100], 2);
    assert_eq!(r.len(), 2);
    assert_eq!(r[0], 0);
    assert!(r[1] == 1 || r[1] == 2);
}

#[test]
fn k_zero_returns_empty() {
    let data = spread_dataset();
    let q = vec![100, 100];
    assert_eq!(Exact::load(&data).unwrap().nearest_neighbors(&q, 0).len(), 0);
    assert_eq!(KDTree::load(&data).unwrap().nearest_neighbors(&q, 0).len(), 0);
    assert_eq!(VPTree::load_seeded(&data, 1).unwrap().nearest_neighbors(&q, 0).len(), 0);
    assert_eq!(LSH::load_seeded(&data, 1).unwrap().nearest_neighbors(&q, 0).len(), 0);
    assert_eq!(NSW::load_seeded(&data, 1).unwrap().search_seeded(&q, 0, 1).len(), 0);
}

#[test]
fn k_large_returns_all() {
    let data = spread_dataset();
    let q = vec![100, 100];
    let all = vec![0, 1, 2, 3];
    assert_eq!(sorted(Exact::load(&data).unwrap().nearest_neighbors(&q, 100)), all);
    assert_eq!(sorted(KDTree::load(&data).unwrap().nearest_neighbors(&q, 100)), all);
    assert_eq!(sorted(VPTree::load_seeded(&data, 2).unwrap().nearest_neighbors(&q, 100)), all);
    assert_eq!(sorted(LSH::load_seeded(&data, 2).unwrap().nearest_neighbors(&q, 100)), all);
}

#[test]
fn self_query_returns_own_id_first() {
    let data = mixed_dataset();
    for (id, v) in data.iter() {
        let e = Exact::load(&data).unwrap();
        assert_eq!(e.nearest_neighbors(v, 1), vec![*id]);
        let t = KDTree::load(&data).unwrap();
        assert_eq!(t.nearest_neighbors(v, 1), vec![*id]);
        let p = VPTree::load_seeded(&data, 5).unwrap();
        assert_eq!(p.nearest_neighbors(v, 1), vec![*id]);
    }
}

#[test]
fn exact_returns_min_k_n_sorted_best_first() {
    let data = mixed_dataset();
    let e = Exact::load(&data).unwrap();
    let q = vec![10, -20, 30];
    for k in 0..13usize {
        let r = e.nearest_neighbors(&q, k);
        assert_eq!(r.len(), k.min(data.len()));
        let mut prev: Option<i64> = None;
        for id in r.iter() {
            let v = &data.iter().find(|p| p.0 == *id).unwrap().1;
            let d = distance(&q, v);
            if let Some(pd) = prev {
                assert!(pd <= d);
            }
            prev = Some(d);
        }
        let dedup = sorted(r.clone());
        let mut uniq = dedup.clone();
        uniq.dedup();
        assert_eq!(dedup.len(), uniq.len());
    }
}

#[test]
fn trees_match_exact_answers() {
    let data = mixed_dataset();
    let e = Exact::load(&data).unwrap();
    let t = KDTree::load(&data).unwrap();
    let p = VPTree::load_seeded(&data, 99).unwrap();
    let queries = vec![vec![10, -20, 30], vec![-3000, 0, 500], vec![9000, -9000, 9000]];
    for q in queries.iter() {
        for k in 1..=10usize {
            let re = e.nearest_neighbors(q, k);
            let rt = t.nearest_neighbors(q, k);
            let rp = p.nearest_neighbors(q, k);
            assert_eq!(re, rt);
            assert_eq!(re, rp);
        }
    }
}

#[test]
fn rebuild_yields_identical_results() {
    let data = mixed_dataset();
    let q = vec![10, -20, 30];

    let e1 = Exact::load(&data).unwrap();
    let e2 = Exact::load(&data).unwrap();
    assert_eq!(e1.nearest_neighbors(&q, 4), e2.nearest_neighbors(&q, 4));

    let t1 = KDTree::load(&data).unwrap();
    let t2 = KDTree::load(&data).unwrap();
    assert_eq!(t1.nearest_neighbors(&q, 4), t2.nearest_neighbors(&q, 4));

    let p1 = VPTree::load_seeded(&data, 31).unwrap();
    let p2 = VPTree::load_seeded(&data, 31).unwrap();
    assert_eq!(p1.nearest_neighbors(&q, 4), p2.nearest_neighbors(&q, 4));

    let l1 = LSH::load_seeded(&data, 31).unwrap();
    let l2 = LSH::load_seeded(&data, 31).unwrap();
    assert_eq!(l1.nearest_neighbors(&q, 4), l2.nearest_neighbors(&q, 4));

    let g1 = NSW::load_seeded(&data, 31).unwrap();
    let g2 = NSW::load_seeded(&data, 31).unwrap();
    assert_eq!(g1.search_seeded(&q, 4, 17), g2.search_seeded(&q, 4, 17));
}

#[test]
fn lsh_same_bucket_means_same_signs() {
    let data = mixed_dataset();
    let l = LSH::load_seeded(&data, 12345).unwrap();
    for t in 0..l.num_buckets() {
        let members = l.bucket_members(t);
        for a in members.iter() {
            for b in members.iter() {
                let va = &data.iter().find(|p| p.0 == *a).unwrap().1;
                let vb = &data.iter().find(|p| p.0 == *b).unwrap().1;
                for pi in 0..l.num_planes() {
                    let plane = l.plane_vector(pi);
                    let da = dot_product(va, &plane);
                    let db = dot_product(vb, &plane);
                    assert_eq!(da >= 0, db >= 0);
                }
            }
        }
    }
}

#[test]
fn lsh_probes_nearest_buckets_first() {
    // Every returned id's bucket hash is Hamming-no-farther from the query
    // hash than every omitted id's bucket hash.
    let data = mixed_dataset();
    let l = LSH::load_seeded(&data, 2024).unwrap();
    let q = vec![50, 50, 50];
    let signs = |v: &Vec<i64>| -> Vec<bool> {
        (0..l.num_planes()).map(|p| dot_product(v, &l.plane_vector(p)) >= 0).collect()
    };
    let qsigns = signs(&q);
    let ham = |id: usize| -> usize {
        let v = &data.iter().find(|x| x.0 == id).unwrap().1;
        signs(v).iter().zip(qsigns.iter()).filter(|(a, b)| a != b).count()
    };
    for k in 1..=data.len() {
        let r = l.nearest_neighbors(&q, k);
        for kept in r.iter() {
            for (id, _) in data.iter() {
                if !r.contains(id) {
                    assert!(ham(*kept) <= ham(*id));
                }
            }
        }
    }
}

#[test]
fn nsw_bootstrap_reaches_every_node() {
    // Ten points stay within the dense bootstrap, so the graph is complete
    // and a search can reach everything.
    let data = mixed_dataset();
    let g = NSW::load_seeded(&data, 5).unwrap();
    let r = g.search_seeded(&vec![0, 0, 0], data.len(), 2);
    assert_eq!(sorted(r), sorted(data.iter().map(|p| p.0).collect()));
}

#[test]
fn nsw_insert_makes_point_findable() {
    let data = mixed_dataset();
    let mut g = NSW::load_seeded(&data, 5).unwrap();
    g.insert(&(42, vec![11, -21, 31]), 10, 2);
    let r = g.search_seeded(&vec![11, -21, 31], data.len() + 1, 3);
    assert!(r.contains(&42));
    assert_eq!(r[0], 42);
}

#[test]
fn nsw_results_are_distinct_and_sorted() {
    let data = mixed_dataset();
    let g = NSW::load_seeded(&data, 8).unwrap();
    let q = vec![100, 100, 100];
    let r = g.search_seeded(&q, 6, 9);
    assert!(r.len() <= 6);
    assert!(!r.is_empty());
    let mut prev: Option<i64> = None;
    for id in r.iter() {
        let v = &data.iter().find(|p| p.0 == *id).unwrap().1;
        let d = distance(&q, v);
        if let Some(pd) = prev {
            assert!(pd <= d);
        }
        prev = Some(d);
    }
    let dedup = sorted(r.clone());
    let mut uniq = dedup.clone();
    uniq.dedup();
    assert_eq!(dedup.len(), uniq.len());
}

#[test]
fn dispatcher_selects_by_name_and_defaults_to_exact() {
    let data = spread_dataset();
    let q = vec![100, 100];
    let expected = Exact::load(&data).unwrap().nearest_neighbors(&q, 2);

    let a = get_search_algorithm("exact", &data).unwrap();
    assert!(matches!(a, AnyIndex::Exact(_)));
    assert_eq!(a.search(&q, 2), expected);

    let b = get_search_algorithm("anything-else", &data).unwrap();
    assert!(matches!(b, AnyIndex::Exact(_)));
    assert_eq!(b.search(&q, 2), expected);

    assert!(matches!(get_search_algorithm("kdtree", &data).unwrap(), AnyIndex::KDTree(_)));
    assert!(matches!(get_search_algorithm("vptree", &data).unwrap(), AnyIndex::VPTree(_)));
    assert!(matches!(get_search_algorithm("lsh", &data).unwrap(), AnyIndex::LSH(_)));
    assert!(matches!(get_search_algorithm("nsw", &data).unwrap(), AnyIndex::NSW(_)));

    let t = get_search_algorithm("kdtree", &data).unwrap();
    let r = t.search(&q, 2);
    assert_eq!(r[0], 0);
}

#[test]
fn load_rejects_bad_datasets() {
    let empty: Vec<(usize, Vec<i64>)> = vec![];
    assert_eq!(Exact::load(&empty).err().unwrap(), LoadError::EmptyDataset);
    assert_eq!(KDTree::load(&empty).err().unwrap(), LoadError::EmptyDataset);

    let zero_dim = vec![(0, vec![])];
    assert_eq!(Exact::load(&zero_dim).err().unwrap(), LoadError::DimensionOutOfRange);

    let mismatched = vec![(0, vec![1, 2]), (1, vec![1, 2, 3])];
    assert_eq!(Exact::load(&mismatched).err().unwrap(), LoadError::DimensionMismatch);
    assert_eq!(VPTree::load_seeded(&mismatched, 1).err().unwrap(), LoadError::DimensionMismatch);

    let huge = vec![(0, vec![1, 2]), (1, vec![1, 2_000_000])];
    assert_eq!(Exact::load(&huge).err().unwrap(), LoadError::ComponentOutOfRange);
    assert_eq!(LSH::load_seeded(&huge, 1).err().unwrap(), LoadError::ComponentOutOfRange);

    let dup = vec![(0, vec![1, 2]), (0, vec![3, 4])];
    assert_eq!(Exact::load(&dup).err().unwrap(), LoadError::DuplicateId);
    assert_eq!(NSW::load_seeded(&dup, 1).err().unwrap(), LoadError::DuplicateId);
}

#[test]
fn single_point_and_one_dimension() {
    let one = vec![(7usize, vec![5i64])];
    let q = vec![3i64];
    assert_eq!(Exact::load(&one).unwrap().nearest_neighbors(&q, 3), vec![7]);
    assert_eq!(KDTree::load(&one).unwrap().nearest_neighbors(&q, 3), vec![7]);
    assert_eq!(VPTree::load_seeded(&one, 4).unwrap().nearest_neighbors(&q, 3), vec![7]);
    assert_eq!(LSH::load_seeded(&one, 4).unwrap().nearest_neighbors(&q, 3), vec![7]);
    assert_eq!(NSW::load_seeded(&one, 4).unwrap().search_seeded(&q, 3, 4), vec![7]);

    let line = vec![(0usize, vec![-10i64]), (1, vec![0]), (2, vec![10]), (3, vec![25])];
    let q = vec![8i64];
    assert_eq!(Exact::load(&line).unwrap().nearest_neighbors(&q, 3), vec![2, 1, 3]);
    assert_eq!(KDTree::load(&line).unwrap().nearest_neighbors(&q, 3), vec![2, 1, 3]);
    assert_eq!(
        sorted(VPTree::load_seeded(&line, 9).unwrap().nearest_neighbors(&q, 3)),
        vec![1, 2, 3]
    );
}

#[test]
fn tied_coordinates_stay_exact() {
    // Several points share coordinates along each axis, and two are at the
    // same distance from the query; all three exact indexes pin the same
    // answer, ties broken by identifier.
    let data = vec![
        (0usize, vec![0i64, 0]),
        (1, vec![0, 4]),
        (2, vec![4, 0]),
        (3, vec![4, 4]),
        (4, vec![0, -4]),
        (5, vec![-4, 0]),
    ];
    let e = Exact::load(&data).unwrap();
    let t = KDTree::load(&data).unwrap();
    let p = VPTree::load_seeded(&data, 77).unwrap();
    let q = vec![1, 0];
    for k in 1..=6usize {
        let re = e.nearest_neighbors(&q, k);
        let rt = t.nearest_neighbors(&q, k);
        let rp = p.nearest_neighbors(&q, k);
        assert_eq!(re.len(), k);
        assert_eq!(re, rt);
        assert_eq!(re, rp);
    }
}

#[test]
fn metric_values_are_exact() {
    let x = vec![3, 4, 5];
    let y = vec![0, 0, 5];
    assert_eq!(distance(&x, &y), 25);
    assert_eq!(dot_product(&x, &y), 25);
    assert_eq!(distance(&x, &x), 0);
    let a = vec![-1000, 2000];
    let b = vec![500, -500];
    assert_eq!(distance(&a, &b), 1500 * 1500 + 2500 * 2500);
    assert_eq!(dot_product(&a, &b), -1000 * 500 + 2000 * -500);
}

#[test]
fn binary_tree_len_counts_nodes() {
    let leaf_l = BinaryTree(Some(Box::new(Node {
        value: 1u32,
        left: BinaryTree(None),
        right: BinaryTree(None),
    })));
    let tree = BinaryTree(Some(Box::new(Node {
        value: 2u32,
        left: leaf_l,
        right: BinaryTree(None),
    })));
    assert_eq!(tree.len(), 2);
    assert!(!tree.is_empty());
    assert!(BinaryTree::<u32>(None).is_empty());
}
