use frame_harness::registry::{SurfaceHandle, SurfaceRegistry};

#[test]
fn a_new_registry_is_empty() {
    let registry = SurfaceRegistry::new(50, 40);
    assert_eq!(registry.count(), 0);
    assert_eq!(registry.width(), 50);
    assert_eq!(registry.height(), 40);
    assert_eq!(registry.get(0), None);
}

#[test]
fn add_one_appends_a_surface() {
    let mut registry = SurfaceRegistry::new(50, 40);
    registry.add_one();
    assert_eq!(registry.count(), 1);
    assert_eq!(registry.get(0), Some(SurfaceHandle { index: 0, width: 50, height: 40 }));
    registry.add_one();
    assert_eq!(registry.count(), 2);
    assert_eq!(registry.get(0), Some(SurfaceHandle { index: 0, width: 50, height: 40 }));
    assert_eq!(registry.get(1), Some(SurfaceHandle { index: 1, width: 50, height: 40 }));
    assert_eq!(registry.get(2), None);
}

#[test]
fn add_ten_adds_exactly_ten_behind_the_others() {
    let mut registry = SurfaceRegistry::new(100, 100);
    registry.add_one();
    registry.add_one();
    let before: Vec<Option<SurfaceHandle>> = (0..2).map(|i| registry.get(i)).collect();
    registry.add_n(10);
    assert_eq!(registry.count(), 12);
    let after: Vec<Option<SurfaceHandle>> = (0..2).map(|i| registry.get(i)).collect();
    assert_eq!(before, after);
    for i in 0..12 {
        assert_eq!(registry.get(i), Some(SurfaceHandle { index: i, width: 100, height: 100 }));
    }
    assert_eq!(registry.get(12), None);
}

#[test]
fn add_none_changes_nothing() {
    let mut registry = SurfaceRegistry::new(100, 100);
    registry.add_n(0);
    assert_eq!(registry.count(), 0);
    registry.add_one();
    registry.add_n(0);
    assert_eq!(registry.count(), 1);
}

#[test]
fn for_each_walks_in_insertion_order() {
    let mut registry = SurfaceRegistry::new(20, 10);
    registry.add_n(4);
    let seen = registry.for_each(|index, handle| (index, handle));
    assert_eq!(seen.len(), 4);
    for (place, (index, handle)) in seen.iter().enumerate() {
        assert_eq!(*index, place);
        assert_eq!(*handle, SurfaceHandle { index: place, width: 20, height: 10 });
    }
}

#[test]
fn for_each_on_an_empty_registry_calls_nothing() {
    let registry = SurfaceRegistry::new(20, 10);
    let seen = registry.for_each(|index, _| index);
    assert_eq!(seen, Vec::<usize>::new());
}
