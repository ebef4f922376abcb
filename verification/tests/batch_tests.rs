use automancy::batch::{
    batch, BatchResult, GeometryTable, IndexSubRange, IndirectDrawCommand, InstanceRecord,
};

fn rec(mesh: usize, payload: u64) -> InstanceRecord {
    InstanceRecord { mesh, payload }
}

fn range(start: u32, length: u32) -> IndexSubRange {
    IndexSubRange { start, length }
}

fn cmd(
    first_index: u32,
    index_count: u32,
    first_instance: u32,
    instance_count: u32,
) -> IndirectDrawCommand {
    IndirectDrawCommand {
        first_index,
        index_count,
        first_instance,
        instance_count,
        vertex_offset: 0,
    }
}

#[test]
fn two_meshes_with_shared_run() {
    let instances = vec![rec(2, 0xa), rec(1, 0xb), rec(2, 0xc)];
    let geometry = GeometryTable {
        entries: vec![
            None,
            Some(vec![range(0, 3)]),
            Some(vec![range(10, 2), range(20, 4)]),
        ],
    };
    let BatchResult {
        sorted_instances,
        commands,
    } = batch(&instances, &geometry);
    assert_eq!(sorted_instances, vec![rec(1, 0xb), rec(2, 0xa), rec(2, 0xc)]);
    assert_eq!(
        commands,
        vec![cmd(0, 3, 0, 1), cmd(10, 2, 1, 2), cmd(20, 4, 1, 2)]
    );
}

#[test]
fn missing_entry_advances_offset() {
    let instances = vec![rec(0, 1), rec(1, 2)];
    let geometry = GeometryTable {
        entries: vec![None, Some(vec![range(5, 7)])],
    };
    let r = batch(&instances, &geometry);
    assert_eq!(r.sorted_instances, vec![rec(0, 1), rec(1, 2)]);
    // the run of mesh 0 emits nothing, yet mesh 1's run starts at offset 1
    assert_eq!(r.commands, vec![cmd(5, 7, 1, 1)]);
    assert!(r.commands.iter().all(|c| c.first_instance != 0));
}

#[test]
fn empty_input_yields_empty_result() {
    let instances: Vec<InstanceRecord> = Vec::new();
    let geometry = GeometryTable {
        entries: vec![Some(vec![range(0, 3)])],
    };
    let r = batch(&instances, &geometry);
    assert!(r.sorted_instances.is_empty());
    assert!(r.commands.is_empty());
}

#[test]
fn length_is_preserved() {
    let instances = vec![rec(3, 0), rec(1, 1), rec(4, 2), rec(1, 3), rec(5, 4)];
    let geometry = GeometryTable { entries: vec![] };
    let r = batch(&instances, &geometry);
    assert_eq!(r.sorted_instances.len(), instances.len());
    assert!(r.commands.is_empty());
}

#[test]
fn groups_keep_input_order() {
    let instances = vec![rec(5, 0xa), rec(3, 0xb), rec(5, 0xc), rec(3, 0xd)];
    let geometry = GeometryTable { entries: vec![] };
    let r = batch(&instances, &geometry);
    assert_eq!(
        r.sorted_instances,
        vec![rec(3, 0xb), rec(3, 0xd), rec(5, 0xa), rec(5, 0xc)]
    );
}

#[test]
fn commands_share_run_offset_and_count() {
    let instances = vec![rec(1, 0), rec(1, 1), rec(1, 2)];
    let geometry = GeometryTable {
        entries: vec![
            None,
            Some(vec![range(0, 6), range(6, 9), range(15, 3)]),
        ],
    };
    let r = batch(&instances, &geometry);
    assert_eq!(r.commands.len(), 3);
    for c in &r.commands {
        assert_eq!(c.first_instance, 0);
        assert_eq!(c.instance_count, 3);
    }
    let total: u32 = r.commands.iter().map(|c| c.instance_count).sum();
    assert_eq!(total, 3 * r.commands.len() as u32);
}

#[test]
fn empty_entry_behaves_like_missing() {
    let instances = vec![rec(0, 0), rec(1, 1), rec(2, 2)];
    let geometry = GeometryTable {
        entries: vec![
            Some(Vec::new()),
            None,
            Some(vec![range(8, 4)]),
        ],
    };
    let r = batch(&instances, &geometry);
    // both kinds of empty geometry are skipped, both still advance the offset
    assert_eq!(r.commands, vec![cmd(8, 4, 2, 1)]);
}

#[test]
fn key_beyond_table_is_treated_as_empty() {
    let instances = vec![rec(9, 0), rec(0, 1)];
    let geometry = GeometryTable {
        entries: vec![Some(vec![range(1, 2)])],
    };
    let r = batch(&instances, &geometry);
    assert_eq!(r.sorted_instances, vec![rec(0, 1), rec(9, 0)]);
    assert_eq!(r.commands, vec![cmd(1, 2, 0, 1)]);
}

#[test]
fn sorted_input_is_returned_unchanged() {
    let instances = vec![rec(1, 9), rec(1, 4), rec(2, 7), rec(4, 1), rec(4, 0)];
    let geometry = GeometryTable {
        entries: vec![None, Some(vec![range(0, 3)]), Some(vec![range(3, 3)])],
    };
    let r = batch(&instances, &geometry);
    assert_eq!(r.sorted_instances, instances);
}

#[test]
fn batching_twice_gives_same_result() {
    let instances = vec![rec(7, 0), rec(2, 1), rec(7, 2), rec(0, 3)];
    let geometry = GeometryTable {
        entries: vec![Some(vec![range(0, 1)]), None, Some(vec![range(1, 5)])],
    };
    let once = batch(&instances, &geometry);
    let twice = batch(&once.sorted_instances, &geometry);
    assert_eq!(once.sorted_instances, twice.sorted_instances);
    assert_eq!(once.commands, twice.commands);
}

#[test]
fn single_instance_single_range() {
    let instances = vec![rec(0, 42)];
    let geometry = GeometryTable {
        entries: vec![Some(vec![range(100, 200)])],
    };
    let r = batch(&instances, &geometry);
    assert_eq!(r.sorted_instances, vec![rec(0, 42)]);
    assert_eq!(r.commands, vec![cmd(100, 200, 0, 1)]);
}

#[test]
fn geometry_entry_lookup() {
    let geometry = GeometryTable {
        entries: vec![Some(vec![range(4, 2)]), None],
    };
    assert_eq!(geometry.entry(0), Some(&vec![range(4, 2)]));
    assert_eq!(geometry.entry(1), None);
    assert_eq!(geometry.entry(2), None);
}
