use dslab::data_item::DataTransferMode;
use dslab::data_item::DataTransferStrategy;
use dslab::event::Event;
use dslab::heft_oct::HeftOctScheduler;
use dslab::order::first_min_index;
use dslab::order::stable_order;
use dslab::order::total_order_key;
use dslab::scheduler::SchedulerParams;
use std::cmp::Ordering;

fn key(x: f64) -> i64 {
    total_order_key(x.to_bits())
}

#[test]
fn total_order_key_orders_as_total_cmp() {
    let values = [-3.5, -0.0, 0.0, 1.0, 2.5, 1e300, -1e-300, f64::INFINITY, f64::NEG_INFINITY];
    for a in values.iter() {
        for b in values.iter() {
            assert_eq!(key(*a).cmp(&key(*b)), a.total_cmp(b), "{} {}", a, b);
        }
    }
}

#[test]
fn total_order_key_exact_values() {
    assert_eq!(total_order_key(0), 0);
    assert_eq!(total_order_key(1.0f64.to_bits()), 0x3ff0_0000_0000_0000);
    assert_eq!(total_order_key(0x8000_0000_0000_0000), -1);
    assert_eq!(total_order_key(u64::MAX), i64::MIN);
}

#[test]
fn stable_order_ascending_keeps_ties_in_index_order() {
    let keys = vec![5, 1, 5, 0, 1];
    assert_eq!(stable_order(&keys, false), vec![3, 1, 4, 0, 2]);
}

#[test]
fn stable_order_descending_keeps_ties_in_index_order() {
    let keys = vec![5, 1, 5, 0, 1];
    assert_eq!(stable_order(&keys, true), vec![0, 2, 1, 4, 3]);
}

#[test]
fn stable_order_matches_std_stable_sort() {
    let keys: Vec<i64> = vec![3, -1, 4, 1, -5, 9, 2, 6, 5, 3, 5, -1];
    let mut asc: Vec<usize> = (0..keys.len()).collect();
    asc.sort_by(|&a, &b| keys[a].cmp(&keys[b]));
    assert_eq!(stable_order(&keys, false), asc);
    let mut desc: Vec<usize> = (0..keys.len()).collect();
    desc.sort_by(|&a, &b| keys[b].cmp(&keys[a]));
    assert_eq!(stable_order(&keys, true), desc);
}

#[test]
fn stable_order_of_nothing_is_empty() {
    assert_eq!(stable_order(&Vec::new(), true), Vec::<usize>::new());
}

#[test]
fn first_min_index_takes_first_of_equal_minima() {
    let keys = vec![None, Some(7), Some(3), None, Some(3), Some(4)];
    assert_eq!(first_min_index(&keys), Some(2));
}

#[test]
fn first_min_index_none_when_nothing_fits() {
    assert_eq!(first_min_index(&vec![None, None]), None);
    assert_eq!(first_min_index(&Vec::new()), None);
}

#[test]
fn first_min_index_single_candidate() {
    assert_eq!(first_min_index(&vec![None, Some(i64::MAX)]), Some(1));
}

fn event(id: u64, time: f64) -> Event {
    Event { id, time_bits: time.to_bits(), src: 0, dest: 1 }
}

#[test]
fn earlier_event_is_greater() {
    let a = event(5, 1.0);
    let b = event(2, 2.0);
    assert_eq!(a.cmp(&b), Ordering::Greater);
    assert_eq!(b.cmp(&a), Ordering::Less);
    assert_eq!(a.partial_cmp(&b), Some(Ordering::Greater));
}

#[test]
fn simultaneous_events_go_by_id() {
    let a = event(3, 1.5);
    let b = event(4, 1.5);
    assert_eq!(a.cmp(&b), Ordering::Greater);
    assert_eq!(b.cmp(&a), Ordering::Less);
    assert_eq!(a.cmp(&event(3, 1.5)), Ordering::Equal);
}

#[test]
fn events_are_equal_by_id() {
    assert!(event(7, 1.0) == event(7, 3.0));
    assert!(event(7, 1.0) != event(8, 1.0));
}

#[test]
fn events_sorted_descending_come_in_time_order() {
    let mut events = vec![event(0, 3.0), event(1, 1.0), event(2, 2.0), event(3, 1.0)];
    events.sort_by(|a, b| b.cmp(a));
    let ids: Vec<u64> = events.iter().map(|e| e.id).collect();
    assert_eq!(ids, vec![1, 3, 2, 0]);
}

#[test]
fn strategy_parse() {
    assert_eq!(DataTransferStrategy::parse(&"Eager".to_string()), Some(DataTransferStrategy::Eager));
    assert_eq!(DataTransferStrategy::parse(&"Lazy".to_string()), Some(DataTransferStrategy::Lazy));
    assert_eq!(DataTransferStrategy::parse(&"lazy".to_string()), None);
    assert_eq!(DataTransferStrategy::parse(&"".to_string()), None);
}

#[test]
fn scheduler_params_later_setting_wins() {
    let params = SchedulerParams::new("HeftOct".to_string())
        .with_param("a".to_string(), "1".to_string())
        .with_param("b".to_string(), "2".to_string())
        .with_param("a".to_string(), "3".to_string());
    assert_eq!(params.name(), "HeftOct");
    assert_eq!(params.get(&"a".to_string()), Some(&"3".to_string()));
    assert_eq!(params.get(&"b".to_string()), Some(&"2".to_string()));
    assert_eq!(params.get(&"c".to_string()), None);
}

#[test]
fn heft_oct_new_is_eager_without_order() {
    let s = HeftOctScheduler::new();
    assert_eq!(s.data_transfer_strategy(), DataTransferStrategy::Eager);
    assert!(s.task_order.is_empty());
    let d = HeftOctScheduler::default();
    assert_eq!(d.data_transfer_strategy(), DataTransferStrategy::Eager);
    assert!(d.task_order.is_empty());
    assert!(s.is_static());
}

#[test]
fn heft_oct_from_params() {
    let lazy = SchedulerParams::new("HeftOct".to_string())
        .with_param("data_transfer_strategy".to_string(), "Lazy".to_string());
    assert_eq!(HeftOctScheduler::from_params(&lazy).data_transfer_strategy(), DataTransferStrategy::Lazy);
    let bad = SchedulerParams::new("HeftOct".to_string())
        .with_param("data_transfer_strategy".to_string(), "Sometimes".to_string());
    assert_eq!(HeftOctScheduler::from_params(&bad).data_transfer_strategy(), DataTransferStrategy::Eager);
    let none = SchedulerParams::new("HeftOct".to_string());
    let s = HeftOctScheduler::from_params(&none);
    assert_eq!(s.data_transfer_strategy(), DataTransferStrategy::Eager);
    assert!(s.task_order.is_empty());
}

#[test]
fn heft_oct_builders() {
    let s = HeftOctScheduler::new()
        .with_task_order(vec![2, 0, 1])
        .with_data_transfer_strategy(DataTransferStrategy::Lazy);
    assert_eq!(s.data_transfer_strategy(), DataTransferStrategy::Lazy);
    assert_eq!(s.task_order, vec![2, 0, 1]);
}

#[test]
fn heft_oct_records_rank_order() {
    let mut s = HeftOctScheduler::new();
    let ids = s.task_ids(&vec![key(1.0), key(5.0), key(3.0), key(5.0)]);
    assert_eq!(ids, vec![1, 3, 2, 0]);
    assert_eq!(s.task_order, vec![1, 3, 2, 0]);
    assert_eq!(s.get_task_order(), vec![1, 3, 2, 0]);
    assert!(s.task_order.is_empty());
}

#[test]
fn heft_oct_replays_given_order_once() {
    let mut s = HeftOctScheduler::new().with_task_order(vec![2, 1, 0]);
    let ids = s.task_ids(&vec![key(9.0), key(8.0), key(7.0)]);
    assert_eq!(ids, vec![2, 1, 0]);
    assert!(s.task_order.is_empty());
    let again = s.task_ids(&vec![key(9.0), key(8.0), key(7.0)]);
    assert_eq!(again, vec![0, 1, 2]);
}

#[test]
fn heft_oct_recorded_order_transfers() {
    let mut first = HeftOctScheduler::new();
    let ids = first.task_ids(&vec![key(2.0), key(4.0), key(1.0)]);
    let recorded = first.get_task_order();
    let mut second = HeftOctScheduler::new().with_task_order(recorded);
    assert_eq!(second.task_ids(&vec![key(0.0), key(0.0), key(9.0)]), ids);
}

#[test]
fn heft_oct_start_warning() {
    let s = HeftOctScheduler::new();
    assert!(!s.start_warning(DataTransferMode::Direct, &vec![(1, 1), (2, 2)]));
    assert!(s.start_warning(DataTransferMode::ViaMasterNode, &vec![(1, 1), (1, 4)]));
    assert!(!s.start_warning(DataTransferMode::Direct, &Vec::new()));
}

#[test]
fn event_order_is_antisymmetric_and_transitive() {
    let events = vec![event(0, 1.0), event(1, 1.0), event(2, 0.5), event(3, 2.0), event(4, 0.0)];
    for a in events.iter() {
        for b in events.iter() {
            assert_eq!(a.cmp(b), b.cmp(a).reverse());
            for c in events.iter() {
                if a.cmp(b) == Ordering::Less && b.cmp(c) == Ordering::Less {
                    assert_eq!(a.cmp(c), Ordering::Less);
                }
            }
        }
    }
}

#[test]
fn float_keys_keep_non_negative_order() {
    let values = [0.0, 1e-310, 0.5, 1.0, 3.0, 1e20, f64::INFINITY];
    for w in values.windows(2) {
        assert!(w[0].to_bits() < w[1].to_bits());
        assert!(key(w[0]) < key(w[1]));
    }
    assert!(key(-1.0) < key(0.0));
}

#[test]
fn rank_order_is_unique_stable_permutation() {
    let mut s = HeftOctScheduler::new();
    let ids = s.task_ids(&vec![key(2.0), key(2.0), key(7.0), key(-1.0), key(2.0)]);
    assert_eq!(ids, vec![2, 0, 1, 4, 3]);
    let mut t = HeftOctScheduler::new();
    assert_eq!(t.task_ids(&vec![key(2.0), key(2.0), key(7.0), key(-1.0), key(2.0)]), ids);
}
