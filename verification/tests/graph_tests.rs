use microgpt::graph::Graph;

fn sample() -> Graph {
    let mut g = Graph::new();
    let a = g.push(vec![]); // 0
    let b = g.push(vec![]); // 1
    let s = g.push(vec![a, b]); // 2
    let _p = g.push(vec![s, a]); // 3
    let _unused = g.push(vec![]); // 4
    g
}

#[test]
fn push_returns_consecutive_indices() {
    let mut g = Graph::new();
    assert_eq!(g.len(), 0);
    assert_eq!(g.push(vec![]), 0);
    assert_eq!(g.push(vec![]), 1);
    assert_eq!(g.push(vec![0, 1]), 2);
    assert_eq!(g.len(), 3);
    assert_eq!(g.children(2), &vec![0, 1]);
}

#[test]
fn topo_order_is_depth_first_postorder() {
    let g = sample();
    assert_eq!(g.topo_order(3), vec![0, 1, 2, 3]);
}

#[test]
fn topo_order_leaves_out_unreachable_nodes() {
    let g = sample();
    assert_eq!(g.topo_order(2), vec![0, 1, 2]);
    assert_eq!(g.topo_order(4), vec![4]);
}

#[test]
fn topo_order_of_shared_subexpression_lists_it_once() {
    let mut g = Graph::new();
    let x = g.push(vec![]); // 0
    let sq = g.push(vec![x, x]); // 1
    let y = g.push(vec![sq, x]); // 2
    let z = g.push(vec![y, sq]); // 3
    let order = g.topo_order(z);
    assert_eq!(order, vec![0, 1, 2, 3]);
}

#[test]
fn every_child_comes_before_its_parent() {
    let mut g = Graph::new();
    for i in 0..30usize {
        let kids: Vec<usize> = if i < 3 { vec![] } else { vec![i - 1, i / 2, i - 3] };
        g.push(kids);
    }
    let order = g.topo_order(29);
    assert_eq!(*order.last().unwrap(), 29);
    for (pos, &v) in order.iter().enumerate() {
        for &c in g.children(v) {
            let cpos = order.iter().position(|&w| w == c).unwrap();
            assert!(cpos < pos);
        }
    }
    let mut seen = order.clone();
    seen.sort();
    seen.dedup();
    assert_eq!(seen.len(), order.len());
}

#[test]
fn topo_order_follows_children_in_recorded_order() {
    let mut g = Graph::new();
    g.push(vec![]); // 0
    g.push(vec![]); // 1
    g.push(vec![]); // 2
    g.push(vec![2]); // 3
    g.push(vec![1]); // 4
    g.push(vec![3, 4]); // 5
    assert_eq!(g.topo_order(5), vec![2, 3, 1, 4, 5]);
}
