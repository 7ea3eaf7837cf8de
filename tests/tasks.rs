use mtsfv_core::checksum::checksum_buffer;
use mtsfv_core::source::compute_crc_for_display;
use mtsfv_core::checksum::Checksum;
use mtsfv_core::tasks::{Delivery, OverallStatus, Task, TaskState, VerificationSet};

fn fed(bytes: &[u8]) -> Checksum {
    let mut sum = Checksum::new();
    sum.update(bytes);
    sum
}

fn delivery(generation: u64, identity: &str, outcome: Result<u32, String>) -> Delivery {
    Delivery { generation, identity: identity.to_string(), outcome }
}

fn ids(names: &[&str]) -> Vec<String> {
    names.iter().map(|n| n.to_string()).collect()
}

fn states(set: &VerificationSet) -> Vec<(String, String)> {
    set.tasks()
        .iter()
        .map(|t: &Task| (t.identity.clone(), format!("{:?}", t.state)))
        .collect()
}

#[test]
fn new_set_is_empty_and_ready() {
    let set = VerificationSet::new();
    assert!(set.tasks().is_empty());
    assert_eq!(set.overall_status(), OverallStatus::Ready);
}

#[test]
fn added_inputs_are_pending_in_order() {
    let mut set = VerificationSet::new();
    set.add_pending(&ids(&["a", "b", "c"]));
    let names: Vec<&str> = set.tasks().iter().map(|t| t.identity.as_str()).collect();
    assert_eq!(names, vec!["a", "b", "c"]);
    assert!(set.tasks().iter().all(|t| t.state == TaskState::Pending));
    assert_eq!(set.overall_status(), OverallStatus::Calculating);
}

#[test]
fn unknown_identity_delivery_changes_nothing() {
    let mut set = VerificationSet::new();
    set.add_pending(&ids(&["a", "b"]));
    let before = states(&set);
    assert!(!set.apply_delivery(0, &"zzz".to_string(), Ok(5)));
    assert_eq!(states(&set), before);
    assert_eq!(set.overall_status(), OverallStatus::Calculating);
}

#[test]
fn second_delivery_for_done_task_is_ignored() {
    let mut set = VerificationSet::new();
    set.add_pending(&ids(&["a", "b"]));
    assert!(set.apply_delivery(0, &"a".to_string(), Ok(1)));
    let before = states(&set);
    assert!(!set.apply_delivery(0, &"a".to_string(), Err("late".to_string())));
    assert_eq!(states(&set), before);
    assert_eq!(set.tasks()[0].state, TaskState::Done(Ok(1)));
}

#[test]
fn delivery_on_empty_set_is_dropped() {
    let mut set = VerificationSet::new();
    assert!(!set.apply_delivery(0, &"a".to_string(), Ok(1)));
    assert!(set.tasks().is_empty());
    assert_eq!(set.overall_status(), OverallStatus::Ready);
}

#[test]
fn batch_completes_in_any_order() {
    let names = ["one", "two", "three", "four"];
    let orders: [[usize; 4]; 4] = [[0, 1, 2, 3], [3, 2, 1, 0], [1, 3, 0, 2], [2, 0, 3, 1]];
    for order in orders.iter() {
        let mut set = VerificationSet::new();
        set.add_pending(&ids(&names));
        for &i in order.iter() {
            assert_eq!(set.overall_status(), OverallStatus::Calculating);
            set.apply_delivery(0, &names[i].to_string(), Ok(i as u32 + 100));
        }
        assert_eq!(set.overall_status(), OverallStatus::Ready);
        for (i, t) in set.tasks().iter().enumerate() {
            assert_eq!(t.identity, names[i]);
            assert_eq!(t.state, TaskState::Done(Ok(i as u32 + 100)));
        }
    }
}

#[test]
fn batch_of_deliveries_at_once() {
    let mut set = VerificationSet::new();
    set.add_pending(&ids(&["x", "y", "z"]));
    let deliveries = vec![
        delivery(0, "z", Ok(3)),
        delivery(0, "x", Ok(1)),
        delivery(0, "y", Err("y: denied".to_string())),
        delivery(0, "x", Ok(99)),
        delivery(0, "w", Ok(5)),
    ];
    assert_eq!(set.apply_deliveries(&deliveries), 2);
    assert_eq!(set.overall_status(), OverallStatus::Ready);
    assert_eq!(set.tasks()[0].state, TaskState::Done(Ok(1)));
    assert_eq!(set.tasks()[1].state, TaskState::Done(Err("y: denied".to_string())));
    assert_eq!(set.tasks()[2].state, TaskState::Done(Ok(3)));
}

#[test]
fn one_unreadable_input_fails_alone() {
    let mut set = VerificationSet::new();
    let names = ids(&["good1.txt", "missing.txt", "good2.txt"]);
    set.add_pending(&names);
    let reads: Vec<Result<Checksum, String>> = vec![
        Ok(fed(b"123456789")),
        Err("No such file or directory (os error 2)".to_string()),
        Ok(fed(b"Hello, World!")),
    ];
    let mut deliveries = Vec::new();
    for (name, read) in names.iter().zip(reads.into_iter()).rev() {
        deliveries.push(Delivery {
            generation: 0,
            identity: name.clone(),
            outcome: compute_crc_for_display(name, read),
        });
    }
    assert_eq!(set.apply_deliveries(&deliveries), 0);
    assert_eq!(set.overall_status(), OverallStatus::Ready);
    assert_eq!(set.tasks()[0].state, TaskState::Done(Ok(0xCBF43926)));
    assert_eq!(
        set.tasks()[1].state,
        TaskState::Done(Err("missing.txt: No such file or directory (os error 2)".to_string()))
    );
    assert_eq!(set.tasks()[2].state, TaskState::Done(Ok(checksum_buffer(b"Hello, World!"))));
}

#[test]
fn clear_then_readd_starts_fresh() {
    let mut set = VerificationSet::new();
    let first = set.add_pending(&ids(&["a", "b"]));
    assert!(set.apply_delivery(first, &"a".to_string(), Ok(7)));
    assert!(set.apply_delivery(first, &"b".to_string(), Err("b: bad".to_string())));
    assert_eq!(set.overall_status(), OverallStatus::Ready);
    set.clear();
    assert!(set.tasks().is_empty());
    assert_eq!(set.status_line(), "Cleared");
    let second = set.add_pending(&ids(&["a"]));
    assert!(second > first);
    assert_eq!(set.tasks().len(), 1);
    assert_eq!(set.tasks()[0].state, TaskState::Pending);
    assert_eq!(set.status_line(), "Calculating...");
    assert!(!set.apply_delivery(second, &"b".to_string(), Ok(9)));
    assert!(!set.apply_delivery(first, &"a".to_string(), Ok(8)));
    assert_eq!(set.tasks()[0].state, TaskState::Pending);
    assert!(set.apply_delivery(second, &"a".to_string(), Ok(10)));
    assert_eq!(set.tasks()[0].state, TaskState::Done(Ok(10)));
    assert_eq!(set.status_line(), "Ready");
}

#[test]
fn stale_result_after_clear_is_dropped() {
    let mut set = VerificationSet::new();
    let old = set.add_pending(&ids(&["a"]));
    set.clear();
    let new = set.add_pending(&ids(&["a"]));
    let late = vec![delivery(old, "a", Ok(1)), delivery(old, "a", Err("a: gone".to_string()))];
    assert_eq!(set.apply_deliveries(&late), 2);
    assert_eq!(set.tasks()[0].state, TaskState::Pending);
    assert_eq!(set.overall_status(), OverallStatus::Calculating);
    assert_eq!(set.apply_deliveries(&vec![delivery(new, "a", Ok(2))]), 0);
    assert_eq!(set.tasks()[0].state, TaskState::Done(Ok(2)));
    assert_eq!(set.overall_status(), OverallStatus::Ready);
}

#[test]
fn generation_moves_only_on_clear() {
    let mut set = VerificationSet::new();
    assert_eq!(set.generation(), 0);
    assert_eq!(set.add_pending(&ids(&["a"])), 0);
    set.clear();
    assert_eq!(set.generation(), 1);
    set.clear();
    assert_eq!(set.add_pending(&ids(&["b"])), 2);
    assert_eq!(set.status_line(), "Calculating...");
}

#[test]
fn duplicate_identity_resolves_first_pending_first() {
    let mut set = VerificationSet::new();
    set.add_pending(&ids(&["d", "d"]));
    set.apply_delivery(0, &"d".to_string(), Ok(1));
    assert_eq!(set.tasks()[0].state, TaskState::Done(Ok(1)));
    assert_eq!(set.tasks()[1].state, TaskState::Pending);
    set.apply_delivery(0, &"d".to_string(), Ok(2));
    assert_eq!(set.tasks()[1].state, TaskState::Done(Ok(2)));
    assert_eq!(set.overall_status(), OverallStatus::Ready);
}

#[test]
fn rows_and_labels_render_each_state() {
    let mut set = VerificationSet::new();
    set.add_pending(&ids(&["ok.bin", "bad.bin", "wait.bin"]));
    set.apply_delivery(0, &"ok.bin".to_string(), Ok(0xCBF43926));
    set.apply_delivery(0, &"bad.bin".to_string(), Err("bad.bin: permission denied".to_string()));
    let t = set.tasks();
    assert_eq!(t[0].checksum_text(), "CBF43926");
    assert_eq!(t[0].status_text(), "OK");
    assert_eq!(t[1].checksum_text(), "--");
    assert_eq!(t[1].status_text(), "bad.bin: permission denied");
    assert_eq!(t[2].checksum_text(), "--");
    assert_eq!(t[2].status_text(), "Calculating...");
    assert_eq!(set.overall_status().label(), "Calculating...");
    assert_eq!(OverallStatus::Ready.label(), "Ready");
}
