use sotte::{par_radix_sort_by_key, radix_sort_by_key};

#[test]
fn radix_sort_is_stable_on_equal_keys() {
    let mut v: Vec<(usize, char)> = vec![(3, 'a'), (1, 'b'), (3, 'c'), (0, 'd'), (1, 'e')];
    radix_sort_by_key(&mut v, 6, |p: &(usize, char)| p.0);
    assert_eq!(v, vec![(0, 'd'), (1, 'b'), (1, 'e'), (3, 'a'), (3, 'c')]);
}

#[test]
fn radix_sort_orders_by_the_low_bits_only() {
    // Six bits give one pass: keys are compared modulo 64.
    let mut v: Vec<(usize, char)> = vec![(64, 'a'), (1, 'b'), (0, 'c'), (65, 'd')];
    radix_sort_by_key(&mut v, 6, |p: &(usize, char)| p.0);
    assert_eq!(v, vec![(64, 'a'), (0, 'c'), (1, 'b'), (65, 'd')]);
    // Seven bits give two passes: 12 bits are compared.
    let mut w: Vec<(usize, char)> = vec![(64, 'a'), (1, 'b'), (0, 'c'), (65, 'd')];
    radix_sort_by_key(&mut w, 7, |p: &(usize, char)| p.0);
    assert_eq!(w, vec![(0, 'c'), (1, 'b'), (64, 'a'), (65, 'd')]);
}

#[test]
fn radix_sort_without_bits_keeps_the_order() {
    let mut v: Vec<usize> = vec![5, 3, 9, 1];
    radix_sort_by_key(&mut v, 0, |x: &usize| *x);
    assert_eq!(v, vec![5, 3, 9, 1]);
}

#[test]
fn radix_sort_of_short_slices() {
    let mut empty: Vec<usize> = vec![];
    radix_sort_by_key(&mut empty, 30, |x: &usize| *x);
    assert!(empty.is_empty());
    let mut one: Vec<usize> = vec![42];
    radix_sort_by_key(&mut one, 30, |x: &usize| *x);
    assert_eq!(one, vec![42]);
}

#[test]
fn radix_sort_matches_a_stable_sort() {
    fastrand::seed(3);
    let data: Vec<(usize, usize)> = (0..20_000).map(|i| (fastrand::usize(..1 << 20), i)).collect();
    let mut radix = data.clone();
    radix_sort_by_key(&mut radix, 20, |p: &(usize, usize)| p.0);
    let mut expected = data;
    expected.sort_by_key(|p| p.0);
    assert_eq!(radix, expected);
}

#[test]
fn par_radix_sort_matches_a_stable_sort() {
    fastrand::seed(4);
    let data: Vec<(usize, usize)> = (0..40_000).map(|i| (fastrand::usize(..1 << 30), i)).collect();
    let mut radix = data.clone();
    par_radix_sort_by_key(&mut radix, 30, |p: &(usize, usize)| p.0);
    let mut expected = data;
    expected.sort_by_key(|p| p.0);
    assert_eq!(radix, expected);
}

#[test]
fn par_radix_sort_is_stable_on_equal_keys() {
    let mut v: Vec<(usize, char)> = vec![(3, 'a'), (1, 'b'), (3, 'c'), (0, 'd'), (1, 'e')];
    par_radix_sort_by_key(&mut v, 6, |p: &(usize, char)| p.0);
    assert_eq!(v, vec![(0, 'd'), (1, 'b'), (1, 'e'), (3, 'a'), (3, 'c')]);
}

#[test]
fn radix_sort_uses_all_sixty_six_bits() {
    let mut v: Vec<usize> = vec![usize::MAX, 0, 1usize << 63, 1];
    radix_sort_by_key(&mut v, 66, |x: &usize| *x);
    assert_eq!(v, vec![0, 1, 1usize << 63, usize::MAX]);
}

#[test]
fn short_slices_accept_any_bit_count() {
    let mut one: Vec<usize> = vec![42];
    radix_sort_by_key(&mut one, 1000, |x: &usize| *x);
    assert_eq!(one, vec![42]);
    let mut empty: Vec<usize> = vec![];
    par_radix_sort_by_key(&mut empty, 500, |x: &usize| *x);
    assert!(empty.is_empty());
}
