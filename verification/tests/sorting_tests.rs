use sorting::bubble::bubble_sort;
use sorting::merge::merge_sort;
use sorting::prng::RandGen;
use sorting::quick::pivot;
use sorting::quick::quick_sort;
use sorting::quick::quick_sort_rayon;
use sorting::quick::threaded_quick_sort;

#[test]
fn pivot_test() {
    let mut v = vec![4, 6, 3, 1];
    let p = pivot(&mut v);

    for x in 0..v.len() {
        assert!((v[x] < v[p]) == (x < p));
    }
}

#[test]
fn quick_sort_rayon_simple() {
    let mut v = vec![2, 3, 1, 5, 10, 4];
    quick_sort_rayon(&mut v);
    assert_eq!(v, vec![1, 2, 3, 4, 5, 10]);
}

#[test]
fn quick_sort_rayon_neg() {
    let mut v = vec![2, 3, -1, 5, 10, -4];
    quick_sort_rayon(&mut v);
    assert_eq!(v, [-4, -1, 2, 3, 5, 10]);
}

#[test]
fn threaded_quick_sort_simple() {
    let mut v = vec![2, 3, 1, 5, 10, 4];
    threaded_quick_sort(&mut v);
    assert_eq!(v, vec![1, 2, 3, 4, 5, 10]);
}

#[test]
fn threaded_quick_sort_neg() {
    let mut v = vec![2, 3, -1, 5, 10, -4];
    threaded_quick_sort(&mut v);
    assert_eq!(v, [-4, -1, 2, 3, 5, 10]);
}

#[test]
fn quick_sort_simple() {
    let mut v = vec![2, 3, 1, 5, 10, 4];
    quick_sort(&mut v);
    assert_eq!(v, vec![1, 2, 3, 4, 5, 10]);
}

#[test]
fn quick_sort_neg() {
    let mut v = vec![2, 3, -1, 5, 10, -4];
    quick_sort(&mut v);
    assert_eq!(v, [-4, -1, 2, 3, 5, 10]);
}

#[test]
fn merge_sort_simple() {
    let v = vec![2, 3, 1, 5, 10, 4];
    let v = merge_sort(v);
    assert_eq!(v, vec![1, 2, 3, 4, 5, 10]);
}

#[test]
fn merge_sort_neg() {
    let v = vec![2, 3, -1, 5, 10, -4];
    let v = merge_sort(v);
    assert_eq!(v, [-4, -1, 2, 3, 5, 10]);
}

#[test]
fn bubble_sort_simple() {
    let mut v = vec![2, 3, 1, 5, 10, 4];
    bubble_sort(&mut v);
    assert_eq!(v, vec![1, 2, 3, 4, 5, 10]);
}

#[test]
fn bubble_sort_neg() {
    let mut v = vec![2, 3, -1, 5, 10, -4];
    bubble_sort(&mut v);
    assert_eq!(v, [-4, -1, 2, 3, 5, 10]);
}

#[test]
fn pivot_with_duplicates() {
    let mut v = vec![5, 1, 5, 2, 5, 9, 5, 0, 5];
    let p = pivot(&mut v);
    for x in 0..v.len() {
        assert!((v[x] < v[p]) == (x < p));
    }
}

#[test]
fn pivot_single_element() {
    let mut v = vec![42];
    let p = pivot(&mut v);
    assert_eq!(p, 0);
    assert_eq!(v, vec![42]);
}

#[test]
fn all_sorts_empty_input() {
    let mut v: Vec<i32> = Vec::new();
    bubble_sort(&mut v);
    assert_eq!(v, Vec::<i32>::new());
    quick_sort(&mut v);
    assert_eq!(v, Vec::<i32>::new());
    threaded_quick_sort(&mut v);
    assert_eq!(v, Vec::<i32>::new());
    quick_sort_rayon(&mut v);
    assert_eq!(v, Vec::<i32>::new());
    let r = merge_sort(v);
    assert_eq!(r, Vec::<i32>::new());
}

#[test]
fn all_sorts_single_element() {
    let mut v = vec![7];
    bubble_sort(&mut v);
    assert_eq!(v, vec![7]);
    quick_sort(&mut v);
    assert_eq!(v, vec![7]);
    threaded_quick_sort(&mut v);
    assert_eq!(v, vec![7]);
    quick_sort_rayon(&mut v);
    assert_eq!(v, vec![7]);
    let r = merge_sort(v);
    assert_eq!(r, vec![7]);
}

#[test]
fn all_sorts_equal_elements() {
    let mut v = vec![7, 7, 7];
    bubble_sort(&mut v);
    assert_eq!(v, vec![7, 7, 7]);
    quick_sort(&mut v);
    assert_eq!(v, vec![7, 7, 7]);
    threaded_quick_sort(&mut v);
    assert_eq!(v, vec![7, 7, 7]);
    quick_sort_rayon(&mut v);
    assert_eq!(v, vec![7, 7, 7]);
    let r = merge_sort(v);
    assert_eq!(r, vec![7, 7, 7]);
}

#[test]
fn all_sorts_idempotent_on_sorted_input() {
    let sorted_input = vec![-9, -1, 0, 0, 3, 3, 8, 120];
    let mut v = sorted_input.clone();
    bubble_sort(&mut v);
    assert_eq!(v, sorted_input);
    quick_sort(&mut v);
    assert_eq!(v, sorted_input);
    threaded_quick_sort(&mut v);
    assert_eq!(v, sorted_input);
    quick_sort_rayon(&mut v);
    assert_eq!(v, sorted_input);
    let r = merge_sort(v);
    assert_eq!(r, sorted_input);
}

#[test]
fn sorts_agree_on_larger_input() {
    let input = vec![31, -4, 17, 0, 17, 99, -200, 8, 8, 8, 54, 3, -4, 1000, 2];
    let mut expected = input.clone();
    expected.sort();

    let mut v = input.clone();
    bubble_sort(&mut v);
    assert_eq!(v, expected);
    let mut v = input.clone();
    quick_sort(&mut v);
    assert_eq!(v, expected);
    let mut v = input.clone();
    threaded_quick_sort(&mut v);
    assert_eq!(v, expected);
    let mut v = input.clone();
    quick_sort_rayon(&mut v);
    assert_eq!(v, expected);
    let v = merge_sort(input);
    assert_eq!(v, expected);
}

#[test]
fn prng_fixed_seed_exact_values() {
    // one step of the recurrence from the documented seed:
    // (34052 * 4259461 + 7060771) % 81935240129 == 63114986614
    let mut g = RandGen::new(34052);
    assert_eq!(g.next_val(100), 14);
    assert_eq!(g.next_val(100), 21);
    assert_eq!(g.next_val(100), 50);
    assert_eq!(g.next_val(100), 4);
    assert_eq!(g.next_val(100), 31);
}

#[test]
fn prng_deterministic_across_instances() {
    let mut a = RandGen::new(34052);
    let mut b = RandGen::new(34052);
    for max in [2usize, 10, 1000, 81935240129usize / 2, 7] {
        for _ in 0..20 {
            assert_eq!(a.next_val(max), b.next_val(max));
        }
    }
}

#[test]
fn prng_results_below_max() {
    let mut g = RandGen::new(1);
    for max in 1..50usize {
        let r = g.next_val(max);
        assert!(r < max);
    }
}
