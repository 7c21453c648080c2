use rinha_fraud::nearest::{Nearest, UNREACHED_KEY};

#[test]
fn keeps_the_smallest_keys_in_order() {
    let mut n: Nearest<u8> = Nearest::new(3, 0);
    for (k, it) in [(50_u32, 1_u8), (10, 2), (40, 3), (20, 4), (60, 5)] {
        n.offer(k, it);
    }
    assert_eq!(n.keys(), &vec![10, 20, 40]);
    assert_eq!(n.items(), &vec![2, 4, 3]);
}

#[test]
fn ties_keep_the_earlier_entry_first() {
    let mut n: Nearest<u8> = Nearest::new(2, 0);
    n.offer(7, 1);
    n.offer(7, 2);
    n.offer(7, 3);
    assert_eq!(n.items(), &vec![1, 2]);
}

#[test]
fn placeholders_stay_until_beaten() {
    let mut n: Nearest<usize> = Nearest::new(3, usize::MAX);
    n.offer(5, 0);
    n.offer(UNREACHED_KEY, 1);
    assert_eq!(n.items(), &vec![0, usize::MAX, usize::MAX]);
    assert_eq!(n.into_items(), vec![0, usize::MAX, usize::MAX]);
}

#[test]
fn kept_entries_are_the_nearest() {
    let offered = [(90_u32, 0_u8), (15, 1), (70, 2), (15, 3), (5, 4), (80, 5), (30, 6)];
    let mut n: Nearest<u8> = Nearest::new(4, 9);
    for (k, it) in offered {
        n.offer(k, it);
    }
    let kept = n.keys().clone();
    assert_eq!(kept, vec![5, 15, 15, 30]);
    assert_eq!(n.items(), &vec![4, 1, 3, 6]);
    let largest_kept = *kept.last().unwrap();
    for (k, it) in offered {
        if !n.items().contains(&it) {
            assert!(k >= largest_kept);
        }
    }
}
