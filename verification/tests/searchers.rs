use fraccascade::fc_ind::FractionalCascadingMultiListSearcher;
use fraccascade::key::key_from_bits;
use fraccascade::naive::NaiveMultiListSearcher;
use fraccascade::order::is_sorted;
use fraccascade::searcher::MultiListSearcher;
use rand::Rng;
use std::time::Instant;

fn key(x: f64) -> i64 {
    key_from_bits(x.to_bits()).unwrap()
}

fn keys(data: &Vec<Vec<f64>>) -> Vec<Vec<i64>> {
    data.iter()
        .map(|list| list.iter().map(|v| key(*v)).collect())
        .collect()
}

#[test]
fn create_without_crashing_naive() {
    let data = vec![vec![1., 2., 3.], vec![2., 3., 4.]];
    let _searcher = NaiveMultiListSearcher::new(&keys(&data));
}

#[test]
fn search_one_naive() {
    let data = vec![vec![1., 2., 3.], vec![2., 3., 4.]];
    let searcher = NaiveMultiListSearcher::new(&keys(&data));

    let mut result = vec![0; data.len()];
    let x = 2.5;
    searcher.search(key(x), &mut result);

    assert_eq!(result, [2, 1]);
}

#[test]
fn search_many_naive() {
    let data = vec![
        vec![-1., 2., 7., 11.],
        vec![-5., -5., -5., -5.],
        vec![3., 3., 3., 3.],
        vec![4., 5., 6., 7.],
        vec![2., 2., 2., 2.],
        vec![2.9, 3., 3.1, 4.],
        vec![2.9, 3.1, 4., 5.],
    ];
    let searcher = NaiveMultiListSearcher::new(&keys(&data));

    let mut result = vec![0; data.len()];
    let x = 3.;
    searcher.search(key(x), &mut result);

    assert_eq!(result, [2, 4, 4, 0, 4, 2, 1]);
}

#[test]
fn create_without_crashing_fc() {
    let data = vec![vec![1., 2., 3.], vec![2., 3., 4.]];
    let _searcher = FractionalCascadingMultiListSearcher::new(&keys(&data));
}

#[test]
fn search_one_fc() {
    let data = vec![vec![1., 2., 3.], vec![2., 3., 4.]];
    let searcher = FractionalCascadingMultiListSearcher::new(&keys(&data));

    let mut result = vec![0; data.len()];
    let x = 2.5;
    searcher.search(key(x), &mut result);

    assert_eq!(result, [2, 1]);
}

#[test]
fn search_many_simple_fc() {
    let data = vec![vec![1., 2., 3.], vec![2.1, 3., 4.]];
    let searcher = FractionalCascadingMultiListSearcher::new(&keys(&data));

    let mut result = vec![0; data.len()];

    searcher.search(key(0.), &mut result);
    assert_eq!(result, [0, 0]);

    searcher.search(key(1.), &mut result);
    assert_eq!(result, [1, 0]);

    searcher.search(key(1.5), &mut result);
    assert_eq!(result, [1, 0]);

    searcher.search(key(2.), &mut result);
    assert_eq!(result, [2, 0]);

    searcher.search(key(2.2), &mut result);
    assert_eq!(result, [2, 1]);

    searcher.search(key(3.), &mut result);
    assert_eq!(result, [3, 2]);

    searcher.search(key(4.), &mut result);
    assert_eq!(result, [3, 3]);
}

#[test]
fn search_many_fc() {
    let data = vec![
        vec![-1., 2., 7., 11.],
        vec![-5., -5., -5., -5.],
        vec![3., 3., 3., 3.],
        vec![4., 5., 6., 7.],
        vec![2., 2., 2., 2.],
        vec![2.9, 3., 3.1, 4.],
        vec![2.9, 3.1, 4., 5.],
    ];
    let searcher = FractionalCascadingMultiListSearcher::new(&keys(&data));

    let mut result = vec![0; data.len()];
    let x = 3.;
    searcher.search(key(x), &mut result);

    assert_eq!(result, [2, 4, 4, 0, 4, 2, 1]);
}

#[test]
fn search_many_same_fc() {
    let data = vec![vec![1., 1., 1., 1.], vec![1., 1.]];
    let searcher = FractionalCascadingMultiListSearcher::new(&keys(&data));
    let mut result = vec![0; data.len()];

    searcher.search(key(0.), &mut result);
    assert_eq!(result, [0, 0]);

    searcher.search(key(1.), &mut result);
    assert_eq!(result, [4, 2]);

    searcher.search(key(2.), &mut result);
    assert_eq!(result, [4, 2]);
}

#[test]
fn search_many_same_different_lists_fc() {
    let data = vec![vec![1., 1., 1., 1.], vec![2., 2.]];
    let searcher = FractionalCascadingMultiListSearcher::new(&keys(&data));
    let mut result = vec![0; data.len()];

    searcher.search(key(0.), &mut result);
    assert_eq!(result, [0, 0]);

    searcher.search(key(1.), &mut result);
    assert_eq!(result, [4, 0]);

    searcher.search(key(2.), &mut result);
    assert_eq!(result, [4, 2]);
}

#[test]
fn search_many_before_fc() {
    let data = vec![vec![2., 2.], vec![1., 1., 1., 1.]];
    let searcher = FractionalCascadingMultiListSearcher::new(&keys(&data));
    let mut result = vec![0; data.len()];

    searcher.search(key(0.), &mut result);
    assert_eq!(result, [0, 0]);

    searcher.search(key(1.), &mut result);
    assert_eq!(result, [0, 4]);

    searcher.search(key(2.), &mut result);
    assert_eq!(result, [2, 4]);
}

fn create_random_vector<
    T: rand::distributions::uniform::SampleUniform + Copy + PartialOrd,
    R: Rng + ?Sized,
>(
    min: T,
    max: T,
    n: usize,
    rng: &mut R,
    sorted: bool,
) -> Vec<T> {
    let mut vec: Vec<T> = Vec::with_capacity(n);
    for _ in 0..vec.capacity() {
        vec.push(rng.gen_range(min, max));
    }

    if sorted {
        vec.sort_by(|a, b| a.partial_cmp(b).unwrap());
    }
    vec
}

fn check_keys_are_correct<T: PartialOrd + std::fmt::Debug + Copy>(
    data: &Vec<Vec<T>>,
    x: T,
    result: &Vec<usize>,
) {
    for (list, x_out) in data.iter().zip(result) {
        if *x_out >= list.len() {
            assert_eq!(*x_out, list.len());
            assert!(list[list.len() - 1] <= x);
        } else {
            assert!(x < list[*x_out]);
            if *x_out > 0 {
                assert!(list[*x_out - 1] <= x);
            }
        }
    }
}

#[test]
fn check_random_fc() {
    let mut rng = rand::thread_rng();

    let num_keys = 10000;
    let num_lists = 10;
    let min_list_len = 1000;
    let max_list_len = 10000;

    let data: Vec<Vec<f64>> = (0..num_lists)
        .map(|_| {
            create_random_vector(
                -100.,
                100.,
                if min_list_len < max_list_len {
                    rng.gen_range(min_list_len, max_list_len)
                } else {
                    min_list_len
                },
                &mut rng,
                true,
            )
        })
        .collect();
    let searcher = FractionalCascadingMultiListSearcher::new(&keys(&data));

    let mut result = vec![0; data.len()];
    let search_keys = create_random_vector(-100., 100., num_keys, &mut rng, false);

    for x in search_keys.iter() {
        searcher.search(key(*x), &mut result);
        check_keys_are_correct(&data, *x, &result);
    }
}

#[test]
fn bench_large_naive() {
    let mut rng = rand::thread_rng();

    let num_iter = 100;
    let num_keys = 10000;
    let num_lists = 10;
    let min_list_len = 100000;
    let max_list_len = 1000000;

    let data: Vec<Vec<f64>> = (0..num_lists)
        .map(|_| {
            create_random_vector(
                -100.,
                100.,
                rng.gen_range(min_list_len, max_list_len),
                &mut rng,
                true,
            )
        })
        .collect();
    let searcher = NaiveMultiListSearcher::new(&keys(&data));

    let mut result = vec![0; data.len()];
    let search_keys: Vec<i64> = create_random_vector(-100., 100., num_keys, &mut rng, false)
        .iter()
        .map(|x| key(*x))
        .collect();
    searcher.search(search_keys[0], &mut result);
    searcher.search(search_keys[search_keys.len() - 1], &mut result);

    let before = Instant::now();
    for _ in 0..num_iter {
        for x in search_keys.iter() {
            searcher.search(*x, &mut result);
        }
    }
    let after = Instant::now();

    println!("Took {} seconds", (after - before).as_secs_f64());
}

#[test]
fn bench_large_fc() {
    let mut rng = rand::thread_rng();

    let num_iter = 100;
    let num_keys = 10000;
    let num_lists = 10;
    let min_list_len = 100000;
    let max_list_len = 1000000;

    let data: Vec<Vec<f64>> = (0..num_lists)
        .map(|_| {
            create_random_vector(
                -100.,
                100.,
                rng.gen_range(min_list_len, max_list_len),
                &mut rng,
                true,
            )
        })
        .collect();
    let searcher = FractionalCascadingMultiListSearcher::new(&keys(&data));

    let mut result = vec![0; data.len()];
    let search_keys: Vec<i64> = create_random_vector(-100., 100., num_keys, &mut rng, false)
        .iter()
        .map(|x| key(*x))
        .collect();
    searcher.search(search_keys[0], &mut result);
    searcher.search(search_keys[search_keys.len() - 1], &mut result);

    let before = Instant::now();
    for _ in 0..num_iter {
        for x in search_keys.iter() {
            searcher.search(*x, &mut result);
        }
    }
    let after = Instant::now();

    println!("Took {} seconds", (after - before).as_secs_f64());
}

#[test]
fn empty_list_yields_zero_for_every_query() {
    let data = vec![vec![1, 2, 3], vec![], vec![2, 3, 4], vec![]];
    let cascading = FractionalCascadingMultiListSearcher::new(&data);
    let naive = NaiveMultiListSearcher::new(&data);
    let mut a = vec![7; data.len()];
    let mut b = vec![7; data.len()];
    for x in [i64::MIN, -1, 0, 1, 2, 3, 4, 5, i64::MAX] {
        cascading.search(x, &mut a);
        naive.search(x, &mut b);
        assert_eq!(a[1], 0);
        assert_eq!(a[3], 0);
        assert_eq!(a, b);
    }
    cascading.search(3, &mut a);
    assert_eq!(a, [3, 0, 2, 0]);
}

#[test]
fn only_empty_lists() {
    let data: Vec<Vec<i64>> = vec![vec![], vec![], vec![]];
    let cascading = FractionalCascadingMultiListSearcher::new(&data);
    let naive = NaiveMultiListSearcher::new(&data);
    let mut a = vec![9; 3];
    let mut b = vec![9; 3];
    cascading.search(0, &mut a);
    naive.search(0, &mut b);
    assert_eq!(a, [0, 0, 0]);
    assert_eq!(b, [0, 0, 0]);
}

#[test]
fn no_lists_at_all() {
    let data: Vec<Vec<i64>> = Vec::new();
    let cascading = FractionalCascadingMultiListSearcher::new(&data);
    let naive = NaiveMultiListSearcher::new(&data);
    let mut a: Vec<usize> = Vec::new();
    let mut b: Vec<usize> = Vec::new();
    cascading.search(5, &mut a);
    naive.search(5, &mut b);
    assert!(a.is_empty());
    assert!(b.is_empty());
}

#[test]
fn single_list_counts_elements_up_to_the_query() {
    let data = vec![vec![10, 11, 13, 13, 15]];
    let cascading = FractionalCascadingMultiListSearcher::new(&data);
    let naive = NaiveMultiListSearcher::new(&data);
    let expected = [(9, 0), (10, 1), (11, 2), (12, 2), (13, 4), (14, 4), (15, 5), (16, 5)];
    let mut a = vec![0; 1];
    let mut b = vec![0; 1];
    for (x, r) in expected {
        cascading.search(x, &mut a);
        naive.search(x, &mut b);
        assert_eq!(a, [r]);
        assert_eq!(b, [r]);
    }
}

#[test]
fn cascading_agrees_with_naive_on_integer_lists() {
    let data = vec![
        vec![-7, -7, -3, 0, 0, 0, 4, 9, 9, 12],
        vec![5],
        vec![-20, -19, -18, -17, -16, -15],
        vec![],
        vec![1, 1, 1, 1, 1, 1, 1, 1, 1],
        vec![-1, 0, 1, 2, 3, 4, 5, 6, 7, 8, 9, 10, 11, 12, 13],
        vec![i64::MIN, 0, i64::MAX],
    ];
    for list in data.iter() {
        assert!(is_sorted(list));
    }
    let cascading = FractionalCascadingMultiListSearcher::new(&data);
    let naive = NaiveMultiListSearcher::new(&data);
    let mut a = vec![0; data.len()];
    let mut b = vec![0; data.len()];
    let mut queries: Vec<i64> = (-25..20).collect();
    queries.push(i64::MIN);
    queries.push(i64::MAX);
    for x in queries {
        cascading.search(x, &mut a);
        naive.search(x, &mut b);
        assert_eq!(a, b);
        for (list, r) in data.iter().zip(a.iter()) {
            assert_eq!(*r, list.iter().filter(|v| **v <= x).count());
        }
    }
}

#[test]
fn larger_query_never_gives_smaller_output() {
    let data = vec![vec![-4, -2, 0, 2, 4, 6], vec![1, 3, 5], vec![0, 0, 0], vec![7]];
    let cascading = FractionalCascadingMultiListSearcher::new(&data);
    let mut lower = vec![0; data.len()];
    let mut upper = vec![0; data.len()];
    for x1 in -6..9 {
        for x2 in (x1 + 1)..9 {
            cascading.search(x1, &mut lower);
            cascading.search(x2, &mut upper);
            for i in 0..data.len() {
                assert!(lower[i] <= upper[i]);
            }
        }
    }
}

#[test]
fn repeated_search_gives_the_same_output() {
    let data = vec![vec![1, 2, 3], vec![2, 3, 4], vec![0, 5]];
    let cascading = FractionalCascadingMultiListSearcher::new(&data);
    let mut first = vec![0; data.len()];
    let mut second = vec![11; data.len()];
    cascading.search(3, &mut first);
    cascading.search(1, &mut second);
    cascading.search(3, &mut second);
    assert_eq!(first, [3, 2, 1]);
    assert_eq!(second, first);
}

#[test]
fn output_brackets_the_query() {
    let data = vec![vec![1, 2, 2, 3, 8], vec![2, 3, 4], vec![-3, -3]];
    let cascading = FractionalCascadingMultiListSearcher::new(&data);
    let mut out = vec![0; data.len()];
    for x in -5..10 {
        cascading.search(x, &mut out);
        check_keys_are_correct(&data, x, &out);
    }
}

#[test]
fn is_sorted_tells_sorted_from_unsorted() {
    assert!(is_sorted(&[]));
    assert!(is_sorted(&[4]));
    assert!(is_sorted(&[1, 1, 2, 3]));
    assert!(!is_sorted(&[1, 3, 2]));
    assert!(!is_sorted(&[2, 1]));
}

fn ask<S: MultiListSearcher>(searcher: &S, x: i64, k: usize) -> Vec<usize> {
    let mut out = vec![0; k];
    MultiListSearcher::search(searcher, x, &mut out);
    out
}

#[test]
fn either_searcher_serves_as_the_other() {
    let data = vec![vec![1, 2, 3], vec![2, 3, 4]];
    let cascading = FractionalCascadingMultiListSearcher::new(&data);
    let naive = NaiveMultiListSearcher::new(&data);
    assert_eq!(ask(&cascading, 2, 2), [2, 1]);
    assert_eq!(ask(&naive, 2, 2), [2, 1]);
    for x in 0..6 {
        assert_eq!(ask(&cascading, x, 2), ask(&naive, x, 2));
    }
}

#[test]
fn node_count_is_own_elements_plus_half_of_the_next_range() {
    // Last list: 5 nodes. Middle list: 2 own and 3 carried over. First list:
    // 1 own and 3 carried over.
    let data = vec![vec![1], vec![2, 2], vec![3, 4, 5, 6, 7]];
    let cascading = FractionalCascadingMultiListSearcher::new(&data);
    assert_eq!(cascading.num_nodes(), 4 + 5 + 5);

    let single = FractionalCascadingMultiListSearcher::new(&vec![vec![1, 2, 3]]);
    assert_eq!(single.num_nodes(), 3);

    let empty = FractionalCascadingMultiListSearcher::new(&Vec::new());
    assert_eq!(empty.num_nodes(), 0);

    let sparse = FractionalCascadingMultiListSearcher::new(&vec![vec![], vec![], vec![9]]);
    assert_eq!(sparse.num_nodes(), 3);
}

#[test]
fn index_holds_at_most_two_nodes_per_element_and_one_per_list() {
    let data = vec![
        vec![-7, -7, -3, 0, 0, 0, 4, 9, 9, 12],
        vec![5],
        vec![],
        vec![1, 1, 1, 1, 1, 1, 1, 1, 1],
        vec![],
        vec![3],
    ];
    let elements: usize = data.iter().map(|list| list.len()).sum();
    let cascading = FractionalCascadingMultiListSearcher::new(&data);
    // From the last list to the first: 1, 1, 9 + 1, 0 + 5, 1 + 3, 10 + 2.
    assert_eq!(cascading.num_nodes(), 1 + 1 + 10 + 5 + 4 + 12);
    assert!(cascading.num_nodes() <= 2 * elements + data.len());
}
