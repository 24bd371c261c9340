use conc_linked_list::{chain_contains, chain_find, prepend, unlink};

#[test]
fn prepend_puts_value_first_and_unlink_takes_it_back() {
    let c = prepend(None, 1);
    let c = prepend(c, 2);
    let (c, v) = unlink(c);
    assert_eq!(v, Some(2));
    assert!(chain_contains(&c, &1));
    assert!(!chain_contains(&c, &2));
    let (c, v) = unlink(c);
    assert_eq!(v, Some(1));
    assert!(c.is_none());
}

#[test]
fn unlink_on_empty_chain_gives_nothing() {
    let (c, v) = unlink::<u32>(None);
    assert!(c.is_none());
    assert_eq!(v, None);
}

#[test]
fn unlink_keeps_every_value_behind_the_head() {
    let mut c = None;
    for n in 0..5 {
        c = prepend(c, n);
    }
    let (c, v) = unlink(c);
    assert_eq!(v, Some(4));
    for n in 0..4 {
        assert!(chain_contains(&c, &n));
    }
    assert_eq!(chain_find(&c, &0), (Some(2), Some(3)));
}

#[test]
fn chain_contains_finds_values_past_the_head() {
    let c = prepend(prepend(prepend(None, 7), 8), 9);
    assert!(chain_contains(&c, &7));
    assert!(chain_contains(&c, &8));
    assert!(chain_contains(&c, &9));
    assert!(!chain_contains(&c, &10));
    assert!(!chain_contains::<i32>(&None, &10));
}

#[test]
fn chain_find_positions() {
    let c = prepend(prepend(prepend(None, 7), 8), 9);
    assert_eq!(chain_find(&c, &9), (None, Some(0)));
    assert_eq!(chain_find(&c, &8), (Some(0), Some(1)));
    assert_eq!(chain_find(&c, &7), (Some(1), Some(2)));
    assert_eq!(chain_find(&c, &1), (Some(1), Some(2)));
    assert_eq!(chain_find::<i32>(&None, &1), (None, Some(0)));
}

#[test]
fn chain_find_takes_the_first_of_equal_values() {
    let c = prepend(prepend(prepend(None, 5), 6), 5);
    assert_eq!(chain_find(&c, &5), (None, Some(0)));
    let d = prepend(prepend(prepend(None, 6), 6), 5);
    assert_eq!(chain_find(&d, &6), (Some(0), Some(1)));
}
