//! The machine's locality map.

use soul::numa::{decode_mask, encode_mask, parse_cpu_list, NumaTopology, Readings};

#[test]
fn parses_ranges_and_singles() {
    assert_eq!(parse_cpu_list("0-3"), vec![0, 1, 2, 3]);
    assert_eq!(parse_cpu_list("0,2,4"), vec![0, 2, 4]);
    assert_eq!(parse_cpu_list(""), Vec::<usize>::new());
}

#[test]
fn parses_an_epyc_node_cpulist() {
    let cpus = parse_cpu_list("0-95,192-287");
    assert_eq!(cpus.len(), 192);
    assert_eq!(cpus.first(), Some(&0));
    assert_eq!(cpus.last(), Some(&287));
    assert!(!cpus.contains(&96));
}

#[test]
fn distribute_balances_by_fill() {
    let topo = NumaTopology { nodes: vec![(0..32).collect()], domains: vec![(0..16).collect(), (16..32).collect()] };
    let assignment = topo.distribute(4);
    assert_eq!(assignment.iter().filter(|&&d| d == 0).count(), 2);
    assert_eq!(assignment.iter().filter(|&&d| d == 1).count(), 2);
}

#[test]
fn single_domain_never_binds() {
    let topo = NumaTopology { nodes: vec![(0..8).collect()], domains: vec![(0..8).collect()] };
    assert!(!topo.should_bind(8));
    assert_eq!(topo.distribute(4), vec![0, 0, 0, 0]);
}

#[test]
fn detect_is_sane_on_this_box() {
    // Nothing can be read: what is left is how many threads run at once.
    let silent = Readings { affinity: None, online: None, parallelism: 8, node_lists: None, l3_lists: vec![] };
    let topo = NumaTopology::detect(&silent);
    assert!(topo.num_nodes() >= 1);
    assert!(topo.num_domains() >= 1);
    assert_eq!(topo.nodes, vec![(0..8).collect::<Vec<usize>>()]);
}

#[test]
fn two_caches_split_a_node() {
    let list = |s: &str| s.chars().collect::<Vec<char>>();
    let mut l3 = Vec::new();
    for cpu in 0..8 {
        l3.push(Some(if cpu < 4 { list("0-3") } else { list("4-7") }));
    }
    let read = Readings {
        affinity: Some((0..8).collect()),
        online: Some(list("0-7\n")),
        parallelism: 8,
        node_lists: Some(vec![list("0-7\n")]),
        l3_lists: l3,
    };
    let topo = NumaTopology::detect(&read);
    assert_eq!(topo.num_nodes(), 1);
    assert_eq!(topo.num_domains(), 2);
    assert_eq!(topo.domains[1], vec![4, 5, 6, 7]);
    assert_eq!(topo.bind_to_domain(1), Some(vec![4, 5, 6, 7]));
    assert_eq!(topo.bind_to_domain(2), None);
    assert_eq!(topo.bind_to_node(0), Some((0..8).collect()));
}

#[test]
fn equal_domains_fill_evenly() {
    let topo = NumaTopology { nodes: vec![vec![0, 1], vec![2, 3]], domains: vec![vec![0, 1], vec![2, 3]] };
    let fill = topo.distribute(6);
    assert_eq!(fill.iter().filter(|&&d| d == 0).count(), 3);
    assert_eq!(fill.iter().filter(|&&d| d == 1).count(), 3);
    assert!(topo.spans_nodes());
    assert!(topo.should_distribute(4));
    for (id, d) in topo.distribute(4).into_iter().enumerate() {
        assert_eq!(topo.bind_search_thread(id, 4), Some(topo.domains[d].clone()));
    }
}

#[test]
fn a_mask_marks_its_processors() {
    assert_eq!(decode_mask(&[0b1010, 0, 1]), vec![1, 3, 128]);
    assert_eq!(encode_mask(&[128, 3, 1]), Some(vec![0b1010, 0, 1]));
    assert_eq!(encode_mask(&[]), None);
    assert_eq!(decode_mask(&encode_mask(&[63, 64]).unwrap()), vec![63, 64]);
}

#[test]
fn numbers_may_carry_a_plus_sign_and_be_large() {
    assert_eq!(parse_cpu_list("+3,+5-+7"), vec![3, 5, 6, 7]);
    assert_eq!(parse_cpu_list("4294967296"), vec![4294967296]);
    assert_eq!(parse_cpu_list("18446744073709551616,2"), vec![2]);
}

#[test]
fn threads_are_spread_in_proportion_and_fewer_are_a_start() {
    let topo = NumaTopology {
        nodes: vec![(0..16).collect()],
        domains: vec![(0..8).collect(), (8..10).collect(), (10..16).collect()],
    };
    let many = topo.distribute(23);
    let load = |d: usize| many.iter().filter(|&&x| x == d).count();
    for a in 0..3 {
        for b in 0..3 {
            assert!(load(a) * topo.domains[b].len() <= (load(b) + 1) * topo.domains[a].len());
        }
    }
    for n in 0..23 {
        assert_eq!(topo.distribute(n)[..], many[..n]);
    }
}
