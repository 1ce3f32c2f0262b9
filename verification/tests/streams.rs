use copper_differential::java_random::{permutation, JavaRandom};
use copper_differential::xorshift::{rand_coord, random_box, random_point, rnd, XorShift64};

#[test]
fn java_random_next_int_matches_java() {
    let mut r = JavaRandom::new(42);
    let got: Vec<i32> = (0..5).map(|_| r.next_int(10)).collect();
    assert_eq!(got, vec![0, 3, 8, 4, 0]);
    let mut r = JavaRandom::new(42);
    let got: Vec<i32> = (0..3).map(|_| r.next_int(16)).collect();
    assert_eq!(got, vec![11, 0, 10]);
}

#[test]
fn java_random_next_long_and_next() {
    let mut r = JavaRandom::new(7);
    assert_eq!(r.next_long(), -4967725919621401576);
    assert_eq!(r.next_long(), -4627004027837150407);
    let mut r = JavaRandom::new(0);
    assert_eq!(r.next(31), 1569741360);
}

#[test]
fn next_int_stays_below_its_bound() {
    let mut r = JavaRandom::new(123);
    for bound in 1..200 {
        let v = r.next_int(bound);
        assert!(0 <= v && v < bound);
    }
}

#[test]
fn permutation_is_the_shuffle_of_random_99() {
    assert_eq!(permutation(5), vec![4, 3, 0, 1, 2]);
    assert_eq!(permutation(10), vec![8, 1, 4, 3, 9, 6, 0, 2, 5, 7]);
    let mut p = permutation(50);
    p.sort();
    assert_eq!(p, (0..50).collect::<Vec<usize>>());
    assert_eq!(permutation(0), Vec::<usize>::new());
    assert_eq!(permutation(1), vec![0]);
}

#[test]
fn xorshift_steps_and_draws() {
    let mut x = XorShift64::new(42);
    assert_eq!(x.next(), 45454805674);
    assert_eq!(x.next(), 11532217803599905471);
    let mut x = XorShift64::new(42);
    let got: Vec<i32> = (0..5).map(|_| x.rnd(100)).collect();
    assert_eq!(got, vec![74, 71, 54, 36, 62]);
    let zero = XorShift64::new(0);
    assert_eq!(zero.state, 0x9E37_79B9_7F4A_7C15);
}

#[test]
fn xorshift_free_draws_stay_in_range() {
    let mut x = XorShift64::new(3);
    for _ in 0..100 {
        let c = rand_coord(&mut x, 50);
        assert!((-50..=50).contains(&c));
        let p = random_point(&mut x, 10);
        assert!((-10..=10).contains(&p.x) && (-10..=10).contains(&p.y));
        let b = random_box(&mut x, 100, 5, 9);
        assert!((5..=9).contains(&(b.ur.x - b.ll.x)));
        assert!((5..=9).contains(&(b.ur.y - b.ll.y)));
        assert!(rnd(&mut x, 7) < 7);
    }
}

#[test]
fn permutations_hold_every_index_once() {
    for n in [0usize, 1, 2, 7, 50] {
        let mut p = permutation(n);
        assert_eq!(permutation(n), p);
        p.sort();
        assert_eq!(p, (0..n).collect::<Vec<usize>>());
    }
}
