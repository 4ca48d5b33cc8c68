use dicepool::Dicepool;

#[test]
fn every_face_is_about_as_frequent_as_any_other() {
    let pool = Dicepool::new(60_000, 6, 0);
    let mut seen = [0u32; 7];
    for face in pool.dice() {
        seen[face as usize] += 1;
    }
    assert_eq!(seen[0], 0);
    for face in 1..=6 {
        assert!(9_000 < seen[face] && seen[face] < 11_000, "{:?}", seen);
    }
}

#[test]
fn low_faces_of_a_huge_die_are_not_favoured() {
    let pool = Dicepool::new(30_000, 3221225472, 0);
    let low = pool.dice().iter().filter(|&&face| face <= 1073741824).count();
    assert!(9_000 < low && low < 11_000, "{}", low);
    let pool = Dicepool::new(30_000, u32::MAX, 0);
    let low = pool.dice().iter().filter(|&&face| face <= 1431655765).count();
    assert!(9_000 < low && low < 11_000, "{}", low);
}

#[test]
fn roll_with_dice_totals_the_dice_it_drew() {
    let pool = Dicepool::new(9, 12, -7);
    for _ in 0..2000 {
        let (dice, total) = pool.roll_with_dice();
        assert_eq!(dice.len(), 9);
        assert!(dice.iter().all(|&face| 1 <= face && face <= 12));
        let sum: i64 = dice.iter().map(|&face| i64::from(face)).sum();
        assert_eq!(total, sum - 7);
    }
    assert_eq!(Dicepool::new(0, 6, -4).roll_with_dice(), (vec![], -4));
    assert_eq!(Dicepool::new(3, 1, 2).roll_with_dice(), (vec![1, 1, 1], 5));
}

#[test]
fn total_is_the_sum_plus_the_modifier() {
    assert_eq!(Dicepool::new(3, 6, 2).total(&[1, 2, 3]), 8);
    assert_eq!(Dicepool::new(3, 6, -10).total(&[6, 6, 6]), 8);
    assert_eq!(Dicepool::new(0, 6, -4).total(&[]), -4);
    assert_eq!(Dicepool::new(2, 20, 0).total(&[20, 1]), 21);
    assert_eq!(
        Dicepool::new(2, u32::MAX, i32::MAX).total(&[u32::MAX, u32::MAX]),
        2 * 4294967295i64 + 2147483647
    );
    assert_eq!(Dicepool::new(1, 1, i32::MIN).total(&[1]), -2147483647);
}

#[test]
fn dice_gives_one_face_per_die() {
    let pool = Dicepool::from_description("7d6+3").unwrap();
    for _ in 0..2000 {
        let dice = pool.dice();
        assert_eq!(dice.len(), 7);
        assert!(dice.iter().all(|&face| 1 <= face && face <= 6));
    }
}

#[test]
fn dice_of_no_dice_is_empty() {
    assert_eq!(Dicepool::new(0, 6, 5).dice(), Vec::<u32>::new());
    assert_eq!(Dicepool::from_description("0d6+5").unwrap().dice().len(), 0);
}

#[test]
fn one_sided_dice_always_show_one() {
    let pool = Dicepool::new(5, 1, 3);
    for _ in 0..100 {
        assert_eq!(pool.dice(), vec![1, 1, 1, 1, 1]);
        assert_eq!(pool.roll(), 8);
    }
}

#[test]
fn roll_stays_within_its_bounds() {
    let pool = Dicepool::from_description("3d6+2").unwrap();
    assert!(pool.is_rollable());
    for _ in 0..10_000 {
        let total = pool.roll();
        assert!(5 <= total && total <= 20, "{}", total);
    }
    let pool = Dicepool::from_description("4d10-50").unwrap();
    for _ in 0..10_000 {
        let total = pool.roll();
        assert!(-46 <= total && total <= -10, "{}", total);
    }
}

#[test]
fn roll_of_no_dice_is_the_modifier() {
    assert_eq!(Dicepool::new(0, 6, -4).roll(), -4);
    assert_eq!(Dicepool::new(0, u32::MAX, i32::MAX).roll(), 2147483647);
}

#[test]
fn roll_reaches_both_ends_and_all_between() {
    let pool = Dicepool::new(2, 3, 1);
    let mut seen = [false; 8];
    for _ in 0..10_000 {
        let total = pool.roll();
        assert!(3 <= total && total <= 7);
        seen[total as usize] = true;
    }
    assert_eq!(seen, [false, false, false, true, true, true, true, true]);
}

#[test]
fn rolling_leaves_the_pool_as_it_was() {
    let pool = Dicepool::new(3, 20, 2);
    let before = pool;
    for _ in 0..10 {
        pool.roll();
        pool.dice();
    }
    assert_eq!(pool, before);
}

#[test]
fn draws_differ_from_one_another() {
    let pool = Dicepool::new(64, 1_000_000, 0);
    let dice = pool.dice();
    assert!(dice.iter().any(|&face| face != dice[0]));
    let first = pool.roll();
    assert!((0..64).any(|_| pool.roll() != first));
}

#[test]
fn total_of_a_draw_is_within_the_bounds_of_the_pool() {
    let pool = Dicepool::new(9, 12, -7);
    for _ in 0..2000 {
        let dice = pool.dice();
        let sum: i64 = dice.iter().map(|&face| i64::from(face)).sum();
        let total = pool.total(&dice);
        assert_eq!(total, sum - 7);
        assert!(9 - 7 <= total && total <= 9 * 12 - 7);
    }
}

#[test]
fn huge_dice_are_rolled_in_64_bits() {
    let pool = Dicepool::new(3, u32::MAX, i32::MAX);
    assert!(pool.is_rollable());
    for _ in 0..1000 {
        let total = pool.roll();
        assert!(3 + 2147483647 <= total && total <= 3 * 4294967295i64 + 2147483647);
    }
}

#[test]
fn zero_sided_dice_cannot_be_rolled() {
    assert!(!Dicepool::new(1, 0, 0).is_rollable());
    assert!(!Dicepool::new(0, 0, 0).is_rollable());
    assert_eq!(Dicepool::new(1, 0, 0).try_roll(), None);
    assert_eq!(Dicepool::new(1, 0, 0).try_dice(), None);
    assert_eq!(Dicepool::new(0, 0, 7).try_roll(), None);
    assert_eq!(Dicepool::new(0, 0, 7).try_dice(), None);
    assert!(Dicepool::from_description("1d0").is_err());
}

#[test]
fn try_roll_rolls_what_can_be_rolled() {
    let pool = Dicepool::new(2, 6, 1);
    for _ in 0..1000 {
        let total = pool.try_roll().unwrap();
        assert!(3 <= total && total <= 13);
        let dice = pool.try_dice().unwrap();
        assert_eq!(dice.len(), 2);
        assert!(dice.iter().all(|&face| 1 <= face && face <= 6));
    }
    assert_eq!(Dicepool::new(0, 6, 9).try_roll(), Some(9));
    assert_eq!(Dicepool::new(0, 6, 9).try_dice(), Some(vec![]));
    assert_eq!(Dicepool::new(u32::MAX, u32::MAX, 0).try_roll(), None);
}

#[test]
fn rollable_up_to_the_greatest_64_bit_total() {
    assert!(Dicepool::new(1, 20, 0).is_rollable());
    assert!(Dicepool::new(0, 1, i32::MIN).is_rollable());
    assert!(Dicepool::new(u32::MAX, 2147483648, i32::MAX).is_rollable());
    assert!(!Dicepool::new(u32::MAX, 2147483649, i32::MAX).is_rollable());
    assert!(Dicepool::new(2147483648, u32::MAX, i32::MAX).is_rollable());
    assert!(!Dicepool::new(2147483649, u32::MAX, 0).is_rollable());
    assert!(!Dicepool::new(u32::MAX, u32::MAX, i32::MIN).is_rollable());
    assert!(!Dicepool::from_description("4294967295d4294967295").unwrap().is_rollable());
}
