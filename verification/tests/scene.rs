use raytracer::scene::{closest, HittableList, Nearest};

#[test]
fn new_list_is_empty() {
    let list: HittableList<u32> = HittableList::new();
    assert_eq!(list.len(), 0);
    assert!(list.get(0).is_none());
}

#[test]
fn add_keeps_order() {
    let mut list = HittableList::new();
    list.add("ground");
    list.add("glass");
    list.add("metal");
    assert_eq!(list.len(), 3);
    assert_eq!(list.get(0), Some(&"ground"));
    assert_eq!(list.get(1), Some(&"glass"));
    assert_eq!(list.get(2), Some(&"metal"));
    assert_eq!(list.get(3), None);
}

#[test]
fn clear_removes_all() {
    let mut list = HittableList::new();
    list.add(1u8);
    list.add(2u8);
    list.clear();
    assert_eq!(list.len(), 0);
    assert_eq!(list.get(0), None);
    list.add(9u8);
    assert_eq!(list.get(0), Some(&9u8));
}

#[test]
fn nearest_starts_at_the_far_end() {
    let nearest: Nearest<char> = Nearest::new(1000);
    assert_eq!(nearest.limit(), 1000);
    assert!(!nearest.is_hit());
    assert_eq!(nearest.into_record(), None);
}

#[test]
fn nearer_strike_replaces_farther() {
    let mut nearest = Nearest::new(1000);
    assert!(nearest.offer(700, 'a'));
    assert_eq!(nearest.limit(), 700);
    assert!(nearest.offer(300, 'b'));
    assert_eq!(nearest.limit(), 300);
    assert!(nearest.is_hit());
    assert_eq!(nearest.into_record(), Some('b'));
}

#[test]
fn farther_strike_is_hidden() {
    let mut nearest = Nearest::new(1000);
    assert!(nearest.offer(300, 'a'));
    assert!(!nearest.offer(301, 'b'));
    assert_eq!(nearest.limit(), 300);
    assert_eq!(nearest.into_record(), Some('a'));
}

#[test]
fn strike_beyond_the_window_is_not_taken() {
    let mut nearest = Nearest::new(1000);
    assert!(!nearest.offer(1001, 'a'));
    assert_eq!(nearest.limit(), 1000);
    assert!(!nearest.is_hit());
    assert_eq!(nearest.into_record(), None);
}

#[test]
fn strike_at_the_bound_is_taken() {
    let mut nearest = Nearest::new(1000);
    assert!(nearest.offer(1000, 'a'));
    assert!(nearest.offer(1000, 'b'));
    assert_eq!(nearest.into_record(), Some('b'));
}

#[test]
fn nearest_handles_extreme_ranks() {
    let mut nearest = Nearest::new(i64::MAX);
    assert!(nearest.offer(i64::MAX, 1));
    assert!(nearest.offer(i64::MIN, 2));
    assert!(!nearest.offer(0, 3));
    assert_eq!(nearest.limit(), i64::MIN);
    assert_eq!(nearest.into_record(), Some(2));
}

#[test]
fn closest_of_empty_scene_is_none() {
    assert_eq!(closest(&Vec::new(), 1000), None);
}

#[test]
fn closest_when_every_member_is_missed() {
    assert_eq!(closest(&vec![None, None, None], 1000), None);
}

#[test]
fn closest_picks_the_smallest_rank() {
    assert_eq!(closest(&vec![Some(500), Some(200), Some(900)], 1000), Some(1));
    assert_eq!(closest(&vec![Some(100), Some(200), Some(900)], 1000), Some(0));
    assert_eq!(closest(&vec![Some(500), None, Some(90)], 1000), Some(2));
}

#[test]
fn closest_ignores_strikes_beyond_the_window() {
    assert_eq!(closest(&vec![Some(1500), Some(1001)], 1000), None);
    assert_eq!(closest(&vec![Some(1500), Some(1000)], 1000), Some(1));
}

#[test]
fn closest_takes_the_last_of_equals() {
    assert_eq!(closest(&vec![Some(200), Some(200), Some(300)], 1000), Some(1));
    assert_eq!(closest(&vec![Some(200), Some(300), Some(200)], 1000), Some(2));
}

#[test]
fn occluded_member_is_never_reported() {
    let hits = vec![Some(250), Some(800), None, Some(799)];
    assert_eq!(closest(&hits, i64::MAX), Some(0));
}

#[test]
fn narrowing_the_window_keeps_the_closest() {
    let hits = vec![Some(700), Some(900), Some(300), None, Some(300), Some(301), Some(2000)];
    let t_max = 1000;
    let mut narrowed = Vec::new();
    let mut nearest = Nearest::new(t_max);
    for (index, hit) in hits.iter().enumerate() {
        let reported = match hit {
            Some(t) if *t <= nearest.limit() => Some(*t),
            _ => None,
        };
        if let Some(t) = reported {
            assert!(nearest.offer(t, index));
        }
        narrowed.push(reported);
    }
    assert_eq!(narrowed, vec![Some(700), None, Some(300), None, Some(300), None, None]);
    assert_eq!(closest(&hits, t_max), Some(4));
    assert_eq!(closest(&narrowed, t_max), Some(4));
    assert_eq!(nearest.into_record(), Some(4));
}
