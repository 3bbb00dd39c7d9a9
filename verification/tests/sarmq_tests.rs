use rand::RngExt;
use sarmq::create_sarmq;

pub fn random_query_random_sequence(n: usize, key_range: Option<usize>) {
    let key_range = key_range.unwrap_or(n);
    let mut rng = rand::rng();
    let xs = {
        let mut xs: Vec<usize> = vec![];
        for _ in 0..n {
            xs.push(rng.random_range(0..key_range))
        }
        xs
    };

    // naive
    let i = rng.random_range(0..n);
    let j = rng.random_range(i..n);
    let mut k = 0;
    loop {
        if i + k < n && j + k < n && xs[i + k] == xs[j + k] {
            k += 1;
        } else {
            break;
        }
    }

    let rmq = create_sarmq(&xs);
    assert_eq!(rmq.query(i, j), k);
}

#[test]
pub fn test_small_n_binary() {
    random_query_random_sequence(10, Some(2));
    random_query_random_sequence(1, Some(1));
    random_query_random_sequence(20, Some(2));
    random_query_random_sequence(50, Some(2));
    random_query_random_sequence(250, Some(2));
    random_query_random_sequence(10, Some(2));
    random_query_random_sequence(1, Some(1));
    random_query_random_sequence(20, Some(2));
    random_query_random_sequence(50, Some(2));
    random_query_random_sequence(250, Some(2));
    random_query_random_sequence(10, Some(2));
    random_query_random_sequence(1, Some(1));
    random_query_random_sequence(20, Some(2));
    random_query_random_sequence(50, Some(2));
    random_query_random_sequence(250, Some(2));
    random_query_random_sequence(10, Some(2));
    random_query_random_sequence(1, Some(1));
    random_query_random_sequence(20, Some(2));
    random_query_random_sequence(50, Some(2));
    random_query_random_sequence(250, Some(2));
}

#[test]
pub fn test_small_n() {
    random_query_random_sequence(10, None);
    random_query_random_sequence(1, None);
    random_query_random_sequence(20, None);
    random_query_random_sequence(50, None);
    random_query_random_sequence(250, None);
    random_query_random_sequence(10, None);
    random_query_random_sequence(1, None);
    random_query_random_sequence(20, None);
    random_query_random_sequence(50, None);
    random_query_random_sequence(250, None);
    random_query_random_sequence(10, None);
    random_query_random_sequence(1, None);
    random_query_random_sequence(20, None);
    random_query_random_sequence(50, None);
    random_query_random_sequence(250, None);
    random_query_random_sequence(10, None);
    random_query_random_sequence(1, None);
    random_query_random_sequence(20, None);
    random_query_random_sequence(50, None);
    random_query_random_sequence(250, None);
}

#[test]
pub fn test_medium_n() {
    random_query_random_sequence(1000, Some(3));
    random_query_random_sequence(10000, Some(3));
    random_query_random_sequence(100000, Some(3));
    random_query_random_sequence(1000, Some(100));
    random_query_random_sequence(10000, Some(100));
    random_query_random_sequence(100000, Some(100));
}

fn naive_lcp(xs: &[usize], i: usize, j: usize) -> usize {
    let n = xs.len();
    let mut k = 0;
    while i + k < n && j + k < n && xs[i + k] == xs[j + k] {
        k += 1;
    }
    k
}

#[test]
fn empty_sequence_builds() {
    // an index over the empty sequence exists; no index is below its length,
    // so it answers no query
    let a: Vec<usize> = vec![];
    let _s = create_sarmq(&a);
}

#[test]
fn large_symbols_small_sequence() {
    let a: Vec<usize> = vec![1_000_000_007, 5, 1_000_000_007, 5, 1_000_000_007];
    let s = create_sarmq(&a);
    assert_eq!(s.query(0, 2), 3);
    assert_eq!(s.query(1, 3), 2);
    assert_eq!(s.query(0, 1), 0);
}

#[test]
fn large_symbols_long_sequence() {
    // symbols far above the length: the construction still sorts correctly
    let mut a: Vec<usize> = Vec::new();
    let mut state = 3usize;
    for _ in 0..40 {
        state = (state * 1103515245 + 12345) % 2147483648;
        a.push(1_000_000 + state % 4);
    }
    let s = create_sarmq(&a);
    for i in 0..a.len() {
        for j in 0..a.len() {
            assert_eq!(s.query(i, j), naive_lcp(&a, i, j));
        }
    }
}

#[test]
fn single_element_self_query() {
    let a: Vec<usize> = vec![1];
    let s = create_sarmq(&a);
    assert_eq!(s.query(0, 0), 1);
}

#[test]
fn alternating_sequence_queries() {
    let a: Vec<usize> = vec![1, 2, 1, 2, 1];
    let s = create_sarmq(&a);
    assert_eq!(s.query(0, 2), 3);
    assert_eq!(s.query(1, 3), 2);
    assert_eq!(s.query(0, 4), 1);
}

#[test]
fn constant_sequence_query() {
    let a: Vec<usize> = vec![5, 5, 5, 5];
    let s = create_sarmq(&a);
    assert_eq!(s.query(0, 1), 3);
}

#[test]
fn strictly_increasing_query() {
    let a: Vec<usize> = vec![1, 2, 3, 4];
    let s = create_sarmq(&a);
    assert_eq!(s.query(0, 2), 0);
}

#[test]
fn self_identity_on_all_indices() {
    let a: Vec<usize> = vec![3, 1, 4, 1, 5, 2, 6, 5, 3, 5];
    let n = a.len();
    let s = create_sarmq(&a);
    for i in 0..n {
        assert_eq!(s.query(i, i), n - i);
    }
}

#[test]
fn symmetry_on_all_pairs() {
    let a: Vec<usize> = vec![2, 7, 1, 8, 2, 8, 1, 8, 2, 8, 4, 5];
    let s = create_sarmq(&a);
    for i in 0..a.len() {
        for j in 0..a.len() {
            assert_eq!(s.query(i, j), s.query(j, i));
        }
    }
}

#[test]
fn agrees_with_naive_on_all_pairs() {
    let a: Vec<usize> = vec![0, 1, 0, 0, 1, 1, 0, 1, 0, 0, 1, 0, 0];
    let s = create_sarmq(&a);
    for i in 0..a.len() {
        for j in 0..a.len() {
            assert_eq!(s.query(i, j), naive_lcp(&a, i, j));
        }
    }
}

#[test]
fn bound_on_all_pairs() {
    let a: Vec<usize> = vec![9, 9, 1, 9, 9, 1, 9, 9, 9, 1];
    let n = a.len();
    let s = create_sarmq(&a);
    for i in 0..n {
        for j in 0..n {
            assert!(s.query(i, j) <= n - i.max(j));
        }
    }
}

#[test]
fn extend_by_one_on_all_pairs() {
    let a: Vec<usize> = vec![1, 0, 1, 1, 0, 0, 1, 0, 1, 1];
    let n = a.len();
    let s = create_sarmq(&a);
    for i in 0..n {
        for j in 0..n {
            if i + 1 < n && j + 1 < n && a[i] == a[j] {
                assert_eq!(s.query(i, j), 1 + s.query(i + 1, j + 1));
            } else if a[i] == a[j] {
                assert_eq!(s.query(i, j), 1);
            } else {
                assert_eq!(s.query(i, j), 0);
            }
        }
    }
}
