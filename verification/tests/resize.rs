use hanjie::layout::size::{
    can_settle, engine_window_resize, entity_resize, eventual_entity_resize, latest_reported_size,
    parent_resize, EntityResized, ResizeStats,
};

fn report(entity: u64, deps: &[u64]) -> EntityResized<(f32, f32)> {
    EntityResized { entity, size: (1.0, 2.0), dependencies: deps.to_vec() }
}

fn position(order: &[(u64, bool)], e: u64) -> usize {
    order.iter().position(|(x, _)| *x == e).unwrap()
}

#[test]
fn independent_elements_keep_their_size() {
    let order = eventual_entity_resize(&vec![report(1, &[]), report(2, &[7])]);
    assert_eq!(order.len(), 2);
    assert!(order.contains(&(1, true)));
    assert!(order.contains(&(2, true)));
}

#[test]
fn dependents_are_settled_after_their_dependencies() {
    let events = vec![report(3, &[2]), report(2, &[1]), report(1, &[]), report(4, &[3, 1])];
    assert!(can_settle(&events));
    let order = eventual_entity_resize(&events);
    assert_eq!(order.len(), 4);
    assert!(position(&order, 1) < position(&order, 2));
    assert!(position(&order, 2) < position(&order, 3));
    assert!(position(&order, 3) < position(&order, 4));
    assert!(order.contains(&(1, true)));
    assert!(order.contains(&(3, false)));
    assert!(order.contains(&(4, false)));
}

#[test]
fn the_last_report_of_an_element_counts() {
    let events = vec![report(1, &[2]), report(2, &[1]), report(1, &[])];
    assert!(can_settle(&events));
    let order = eventual_entity_resize(&events);
    assert_eq!(order, vec![(1, true), (2, false)]);
}

#[test]
fn elements_waiting_on_each_other_cannot_be_settled() {
    assert!(!can_settle(&vec![report(1, &[2]), report(2, &[1])]));
    assert!(!can_settle(&vec![report(5, &[5])]));
    assert!(!can_settle(&vec![report(1, &[]), report(2, &[3]), report(3, &[2])]));
}

#[test]
fn an_empty_batch_settles_nothing() {
    assert!(can_settle::<()>(&vec![]));
    assert_eq!(eventual_entity_resize::<()>(&vec![]), vec![]);
}

#[test]
fn resize_counts() {
    let events = vec![report(1, &[2]), report(2, &[]), report(1, &[3]), report(3, &[])];
    let stats = entity_resize(&events);
    assert_eq!(
        stats,
        ResizeStats { count: 4, were_resized: 3, were_deps: 2, were_ooo: 2, already_resized: 1 }
    );
    assert_eq!(stats.already_resized + stats.were_resized, stats.count);
}

#[test]
fn resize_counts_of_an_empty_batch() {
    assert_eq!(
        entity_resize::<()>(&vec![]),
        ResizeStats { count: 0, were_resized: 0, were_deps: 0, were_ooo: 0, already_resized: 0 }
    );
}

#[test]
fn children_follow_their_resized_parent() {
    let events = vec![report(1, &[]), report(2, &[]), report(1, &[])];
    let children = vec![(10u64, 1u64), (11, 2), (12, 1)];
    assert_eq!(parent_resize(&events, &children), vec![(0, 0), (0, 2), (1, 1), (2, 0), (2, 2)]);
}

#[test]
fn only_the_last_primary_window_resize_counts() {
    assert_eq!(engine_window_resize(&vec![1, 2, 1, 3], Some(1)), Some(2));
    assert_eq!(engine_window_resize(&vec![2, 3], Some(1)), None);
    assert_eq!(engine_window_resize(&vec![1], None), None);
}

#[test]
fn the_last_report_gives_the_size() {
    let events = vec![
        EntityResized { entity: 1u64, size: 10u32, dependencies: vec![] },
        EntityResized { entity: 2, size: 20, dependencies: vec![] },
        EntityResized { entity: 1, size: 30, dependencies: vec![] },
    ];
    assert_eq!(latest_reported_size(&events, 1), Some(30));
    assert_eq!(latest_reported_size(&events, 2), Some(20));
    assert_eq!(latest_reported_size(&events, 3), None);
}
