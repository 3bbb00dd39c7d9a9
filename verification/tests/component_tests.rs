use sarmq::rmq::{query_index, Min, RMQ};
use sarmq::sa::{lcp, SA};
use sarmq::tree::cartesian_tree;

fn suffix_less_naive(a: &[usize], i: usize, j: usize) -> bool {
    a[i..] < a[j..]
}

#[test]
fn suffix_array_of_banana_pattern() {
    // 1 0 2 0 2 0: suffixes sorted as 5, 3, 1, 0, 4, 2
    let a: Vec<usize> = vec![1, 0, 2, 0, 2, 0];
    let s = SA::create_suffix_array(&a);
    assert_eq!(s.sa, vec![5, 3, 1, 0, 4, 2]);
    for k in 0..a.len() {
        assert_eq!(s.sa_inverse[s.sa[k]], k);
    }
    for k in 0..a.len() - 1 {
        assert!(suffix_less_naive(&a, s.sa[k], s.sa[k + 1]));
    }
}

#[test]
fn suffix_array_is_sorted_permutation_large() {
    // deterministic pseudo-random values below n
    let n = 300usize;
    let mut a: Vec<usize> = Vec::new();
    let mut state = 7usize;
    for _ in 0..n {
        state = (state * 131 + 17) % 257;
        a.push(state % 3);
    }
    let s = SA::create_suffix_array(&a);
    let mut seen = vec![false; n];
    for k in 0..n {
        assert!(s.sa[k] < n && !seen[s.sa[k]]);
        seen[s.sa[k]] = true;
    }
    for k in 0..n - 1 {
        assert!(suffix_less_naive(&a, s.sa[k], s.sa[k + 1]));
    }
}

#[test]
fn suffix_array_with_huge_symbols() {
    // symbols above the length still sort correctly
    let a: Vec<usize> = vec![
        900_000_000,
        7,
        900_000_000,
        7,
        900_000_000,
        42,
        7,
        900_000_000,
        42,
        7,
        900_000_000,
        42,
    ];
    let s = SA::create_suffix_array(&a);
    let n = a.len();
    let mut seen = vec![false; n];
    for k in 0..n {
        assert!(s.sa[k] < n && !seen[s.sa[k]]);
        seen[s.sa[k]] = true;
    }
    for k in 0..n - 1 {
        assert!(suffix_less_naive(&a, s.sa[k], s.sa[k + 1]));
    }
}

#[test]
fn lcp_array_matches_naive() {
    let a: Vec<usize> = vec![1, 0, 2, 0, 2, 0];
    let s = SA::create_suffix_array(&a);
    let l = lcp(&a, &s);
    assert_eq!(l.len(), a.len());
    for k in 0..a.len() - 1 {
        let (i, j) = (s.sa[k], s.sa[k + 1]);
        let mut h = 0;
        while i + h < a.len() && j + h < a.len() && a[i + h] == a[j + h] {
            h += 1;
        }
        assert_eq!(l[k], h);
    }
    assert_eq!(l[a.len() - 1], 0);
}

fn walk_inorder(
    v: usize,
    lefts: &Vec<Option<usize>>,
    rights: &Vec<Option<usize>>,
    keys: &Vec<usize>,
    order: &mut Vec<usize>,
) {
    if let Some(c) = lefts[v] {
        assert!(keys[v] <= keys[c]);
        walk_inorder(c, lefts, rights, keys, order);
    }
    order.push(v);
    if let Some(c) = rights[v] {
        assert!(keys[v] <= keys[c]);
        walk_inorder(c, lefts, rights, keys, order);
    }
}

#[test]
fn cartesian_tree_heap_and_inorder() {
    let keys: Vec<usize> = vec![3, 1, 4, 0, 5, 2, 6];
    let t = cartesian_tree(&keys);
    let n = keys.len();
    // in-order traversal gives 0..n and parents carry smaller keys
    let mut order: Vec<usize> = Vec::new();
    walk_inorder(t.root, &t.lefts, &t.rights, &keys, &mut order);
    assert_eq!(order, (0..n).collect::<Vec<usize>>());
    assert_eq!(keys[t.root], 0);
}

#[test]
fn euler_walk_shape_and_depth_steps() {
    let keys: Vec<usize> = vec![2, 0, 3, 1, 4];
    let t = cartesian_tree(&keys);
    let w = t.euler_walk();
    let n = keys.len();
    // standard tour length, every node first occurs where recorded
    assert_eq!(w.euler.len(), 2 * n - 1);
    for v in 0..n {
        assert!(w.first_occ[v] < w.euler.len());
        assert_eq!(w.euler[w.first_occ[v]], v);
        for t in 0..w.first_occ[v] {
            assert_ne!(w.euler[t], v);
        }
    }
    // consecutive depths along the tour differ by exactly one
    for q in 1..w.euler.len() {
        let d1 = w.depth[w.euler[q - 1]] as i64;
        let d2 = w.depth[w.euler[q]] as i64;
        assert!((d1 - d2).abs() == 1);
    }
    assert_eq!(w.depth[t.root], 0);
}

#[test]
fn rmq_returns_leftmost_positions_of_minima() {
    // unit steps, several equal minima: the answer is the leftmost one
    let vals: Vec<usize> = vec![3, 2, 1, 2, 1, 2, 3, 2, 1, 0, 1, 2, 3, 4, 3];
    let r = RMQ::create_rmq(&vals);
    for left in 0..vals.len() {
        for right in left..vals.len() {
            let t = r.query(left, right);
            assert!(left <= t && t <= right);
            let m = *vals[left..=right].iter().min().unwrap();
            assert_eq!(vals[t], m);
            for u in left..t {
                assert!(vals[u] > m);
            }
        }
    }
}

#[test]
fn rmq_across_many_blocks() {
    // long zig-zag so several blocks and the doubling table take part
    let mut vals: Vec<usize> = Vec::new();
    let mut v = 50usize;
    let mut state = 11usize;
    for _ in 0..500 {
        vals.push(v);
        state = (state * 97 + 31) % 101;
        if state % 2 == 0 && v > 0 {
            v -= 1;
        } else {
            v += 1;
        }
    }
    let r = RMQ::create_rmq(&vals);
    let mut left = 0usize;
    for step in 0..200 {
        let right = left + (step * 7) % (vals.len() - left);
        let t = r.query(left, right);
        assert!(left <= t && t <= right);
        let m = *vals[left..=right].iter().min().unwrap();
        assert_eq!(vals[t], m);
        for u in left..t {
            assert!(vals[u] > m);
        }
        left = (left + 13) % (vals.len() - 1);
    }
}

#[test]
fn min_prefers_smaller_then_left() {
    let a: Min<usize, usize> = Min::new(3, 10);
    let b: Min<usize, usize> = Min::new(5, 20);
    let c: Min<usize, usize> = Min::new(3, 30);
    assert_eq!(a.min(b).argmin, 10);
    assert_eq!(b.min(a).argmin, 10);
    assert_eq!(a.min(c).argmin, 10);
    assert_eq!(c.min(a).argmin, 30);
}

#[test]
fn query_index_formula() {
    assert_eq!(query_index(0, 0), 0);
    assert_eq!(query_index(0, 1), 1);
    assert_eq!(query_index(1, 1), 2);
    assert_eq!(query_index(0, 2), 3);
    assert_eq!(query_index(2, 3), 8);
    assert_eq!(query_index(4, 4), 14);
}
