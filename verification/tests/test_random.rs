use lazarust::random::{choice, one_in, roll};

#[test]
fn roll_zero_sides_or_times() {
    assert_eq!(0, roll(0, 5));
    assert_eq!(0, roll(6, 0));
    assert_eq!(0, roll(0, 0));
}

#[test]
fn roll_single_sided_dice_is_exact() {
    // Every throw of a one-sided dice comes up 1.
    assert_eq!(5, roll(1, 5));
    assert_eq!(1, roll(1, 1));
}

#[test]
fn roll_stays_within_bounds() {
    for _ in 0..50 {
        let total = roll(6, 3);
        assert!((3..=18).contains(&total));
    }
}

#[test]
fn one_in_small_is_certain() {
    assert!(one_in(0));
    assert!(one_in(1));
}

#[test]
fn choice_empty_and_singleton() {
    let empty: Vec<u32> = Vec::new();
    assert_eq!(None, choice(&empty));
    let single = vec![42u32];
    assert_eq!(Some(&42), choice(&single));
}

#[test]
fn choice_returns_an_element() {
    let items = vec![3u32, 1, 4, 1, 5];
    for _ in 0..20 {
        let picked = *choice(&items).unwrap();
        assert!(items.contains(&picked));
    }
}
