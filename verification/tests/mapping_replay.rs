//! Library-mapping replay and address resolution.

use samply_core::mapping::LibMappingAdd;
use samply_core::mapping::LibMappingInfo;
use samply_core::mapping::LibMappingOp;
use samply_core::mapping::LibMappingOpQueue;
use samply_core::mapping::LibMappingsHierarchy;

fn add(start: u64, end: u64, lib_id: u64) -> LibMappingOp {
    LibMappingOp::Add(LibMappingAdd {
        start_avma: start,
        end_avma: end,
        relocation_base: 0,
        info: LibMappingInfo { lib_id },
    })
}

#[test]
fn add_then_resolve_then_remove() {
    // an Add makes its range resolvable; the matching Remove takes it away
    let mut queue = LibMappingOpQueue::new();
    queue.push(10, add(0x1000, 0x2000, 7));
    queue.push(20, LibMappingOp::Remove { start_avma: 0x1000 });
    let mut hierarchy = LibMappingsHierarchy::new(queue);
    hierarchy.process_ops(10);
    let m = hierarchy.resolve(0x1800).expect("the added mapping covers the address");
    assert_eq!(m.info.lib_id, 7);
    assert_eq!(m.start_avma, 0x1000);
    assert!(hierarchy.resolve(0x2000).is_none());
    assert!(hierarchy.resolve(0x0fff).is_none());
    hierarchy.process_ops(20);
    assert!(hierarchy.resolve(0x1800).is_none());
}

#[test]
fn remove_without_matching_mapping_is_ignored() {
    let mut queue = LibMappingOpQueue::new();
    queue.push(5, add(0x1000, 0x2000, 1));
    queue.push(6, LibMappingOp::Remove { start_avma: 0x9000 });
    let mut hierarchy = LibMappingsHierarchy::new(queue);
    hierarchy.process_ops(100);
    // the stray Remove changed nothing
    assert_eq!(hierarchy.resolve(0x1500).expect("still mapped").info.lib_id, 1);
}

#[test]
fn conflicting_adds_at_equal_timestamp_apply_in_registration_order() {
    // regular applies before auxiliary at equal timestamps, so the
    // auxiliary mapping supersedes
    let mut regular = LibMappingOpQueue::new();
    regular.push(10, add(0x1000, 0x2000, 1));
    let mut aux = LibMappingOpQueue::new();
    aux.push(10, add(0x1000, 0x2000, 2));
    let mut hierarchy = LibMappingsHierarchy::new(regular);
    hierarchy.add_jitdump_lib_mappings_ops(aux);
    hierarchy.process_ops(10);
    let m = hierarchy.resolve(0x1234).expect("the range is mapped");
    assert_eq!(m.info.lib_id, 2);
}

#[test]
fn remap_at_same_start_supersedes() {
    let mut queue = LibMappingOpQueue::new();
    queue.push(1, add(0x1000, 0x2000, 1));
    queue.push(2, add(0x1000, 0x3000, 9));
    let mut hierarchy = LibMappingsHierarchy::new(queue);
    hierarchy.process_ops(2);
    let m = hierarchy.resolve(0x2800).expect("the re-mapped range");
    assert_eq!(m.info.lib_id, 9);
    assert_eq!(hierarchy.resolve(0x1100).expect("same mapping").info.lib_id, 9);
}

#[test]
fn ops_after_cutoff_are_not_applied() {
    let mut queue = LibMappingOpQueue::new();
    queue.push(10, add(0x1000, 0x2000, 1));
    queue.push(50, add(0x5000, 0x6000, 2));
    let mut hierarchy = LibMappingsHierarchy::new(queue);
    hierarchy.process_ops(20);
    assert!(hierarchy.resolve(0x5800).is_none());
    assert_eq!(hierarchy.resolve(0x1800).expect("mapped").info.lib_id, 1);
    hierarchy.process_ops(50);
    assert_eq!(hierarchy.resolve(0x5800).expect("mapped now").info.lib_id, 2);
}

#[test]
fn relative_address_uses_relocation_base() {
    let mut queue = LibMappingOpQueue::new();
    queue.push(
        1,
        LibMappingOp::Add(LibMappingAdd {
            start_avma: 0x1000,
            end_avma: 0x2000,
            relocation_base: 0x400000,
            info: LibMappingInfo { lib_id: 3 },
        }),
    );
    let mut hierarchy = LibMappingsHierarchy::new(queue);
    hierarchy.process_ops(1);
    let m = hierarchy.resolve(0x1080).expect("mapped");
    assert_eq!(m.relative_address(0x1080), 0x400080);
}
