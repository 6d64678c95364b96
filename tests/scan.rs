use ipc_scan::error::ScanError;
use ipc_scan::exec::IPCExec;
use ipc_scan::planner::{assign, group, plan, size_order};
use ipc_scan::run::{PartitionState, ScanRun, SlotOutcome};
use ipc_scan::schema::{DataType, Field, Schema};
use ipc_scan::table::{sum_known, FileInfo, IPCTable, Statistics};

fn base_schema() -> Schema {
    Schema::new(vec![
        Field::new("id", DataType::Int64, false),
        Field::new("name", DataType::Utf8, true),
        Field::new("price", DataType::Double, false),
    ])
}

fn file(rows: usize) -> FileInfo {
    FileInfo { schema: base_schema(), num_rows: Some(rows), byte_size: Some(rows * 8) }
}

fn table(sizes: &[usize], max_concurrency: usize) -> IPCTable {
    let files: Vec<FileInfo> = sizes.iter().map(|&n| file(n)).collect();
    IPCTable::try_new("/data/t", max_concurrency, &files).unwrap()
}

/// Drives one partition to its end, keeping rows under the run's limit.
fn drain(node: &IPCExec, run: &mut ScanRun, sizes: &[usize], p: usize) -> usize {
    let files = node.execute(run, p).unwrap();
    match run.poll_slot(p) {
        SlotOutcome::Granted => {}
        SlotOutcome::Finished => return 0,
        SlotOutcome::Wait => panic!("no slot"),
    }
    let mut total = 0;
    for f in files {
        if run.state(p) != PartitionState::Streaming {
            break;
        }
        total += run.on_batch(p, sizes[f]);
    }
    if run.state(p) == PartitionState::Streaming {
        run.finish(p);
    }
    total
}

#[test]
fn end_to_end_three_files_two_partitions() {
    let sizes = [10, 10, 4];
    let t = table(&sizes, 2);
    let node = IPCExec::try_new(&t, None, 1024, None, 2).unwrap();
    assert_eq!(node.output_partitioning().count, 2);
    let mut run = node.start_run();
    let r0 = drain(&node, &mut run, &sizes, 0);
    let r1 = drain(&node, &mut run, &sizes, 1);
    assert_eq!(r0, 10);
    assert_eq!(r1, 14);
    assert_eq!(r0 + r1, 24);
    assert_eq!(t.statistics().num_rows, Some(24));
}

#[test]
fn plan_balances_by_size() {
    let parts = plan(&vec![10, 10, 4], 2);
    assert_eq!(parts.len(), 2);
    assert_eq!(parts[0].files, vec![1]);
    assert_eq!(parts[1].files, vec![0, 2]);
}

#[test]
fn plan_excess_partitions_are_empty() {
    let parts = plan(&vec![5, 7], 4);
    let all: Vec<Vec<usize>> = parts.iter().map(|p| p.files.clone()).collect();
    assert_eq!(all, vec![vec![], vec![], vec![0], vec![1]]);
}

#[test]
fn plan_covers_every_file_once() {
    let sizes = vec![3, 9, 1, 9, 4, 0, 6];
    for p in 1..6 {
        let parts = plan(&sizes, p);
        let mut seen = vec![0; sizes.len()];
        for part in &parts {
            for &f in &part.files {
                seen[f] += 1;
            }
        }
        assert!(seen.iter().all(|&c| c == 1));
    }
}

#[test]
fn size_order_is_descending_with_ties_in_file_order() {
    assert_eq!(size_order(&vec![4, 10, 4, 10, 7]), vec![1, 3, 4, 0, 2]);
    assert_eq!(size_order(&vec![]), Vec::<usize>::new());
}

#[test]
fn assign_and_group_follow_least_loaded() {
    let sizes = vec![8, 5, 4, 3];
    let order = size_order(&sizes);
    let owner = assign(&sizes, &order, 2);
    assert_eq!(owner, vec![1, 0, 0, 1]);
    let parts = group(&owner, 2);
    assert_eq!(parts[0].files, vec![1, 2]);
    assert_eq!(parts[1].files, vec![0, 3]);
}

#[test]
fn projection_keeps_requested_columns_in_order() {
    let t = table(&[5], 1);
    let node = IPCExec::try_new(&t, Some(vec![2, 0]), 1024, None, 1).unwrap();
    let s = node.schema();
    assert_eq!(s.fields.len(), 2);
    assert_eq!(s.fields[0].name, "price");
    assert_eq!(s.fields[0].data_type, DataType::Double);
    assert_eq!(s.fields[1].name, "id");
    assert_eq!(s.fields[1].data_type, DataType::Int64);
}

#[test]
fn no_projection_keeps_all_columns() {
    let t = table(&[5], 1);
    let node = IPCExec::try_new(&t, None, 1024, None, 1).unwrap();
    assert!(node.schema().same_as(&base_schema()));
}

#[test]
fn projection_out_of_range_is_invalid_plan() {
    let t = table(&[5], 1);
    let r = IPCExec::try_new(&t, Some(vec![0, 3]), 1024, None, 1);
    assert!(matches!(r, Err(ScanError::InvalidPlan)));
}

#[test]
fn limit_is_global_across_partitions() {
    let sizes = [10, 10, 4];
    let t = table(&sizes, 2);
    let node = IPCExec::try_new(&t, None, 1024, Some(15), 2).unwrap();
    let mut run = node.start_run();
    let r0 = drain(&node, &mut run, &sizes, 0);
    let r1 = drain(&node, &mut run, &sizes, 1);
    assert_eq!(r0 + r1, 15);
    assert_eq!(run.rows_emitted(), 15);
}

#[test]
fn limit_above_row_count_keeps_everything() {
    let sizes = [10, 10, 4];
    let t = table(&sizes, 1);
    let node = IPCExec::try_new(&t, None, 1024, Some(100), 3).unwrap();
    let mut run = node.start_run();
    let total: usize = (0..3).map(|p| drain(&node, &mut run, &sizes, p)).sum();
    assert_eq!(total, 24);
}

#[test]
fn batch_after_limit_keeps_nothing() {
    let mut run = ScanRun::new(2, 2, Some(5));
    run.start(0);
    run.start(1);
    assert_eq!(run.poll_slot(0), SlotOutcome::Granted);
    assert_eq!(run.poll_slot(1), SlotOutcome::Granted);
    assert_eq!(run.on_batch(0, 3), 3);
    assert_eq!(run.on_batch(1, 4), 2);
    assert_eq!(run.state(1), PartitionState::Exhausted);
    assert_eq!(run.on_batch(0, 4), 0);
    assert_eq!(run.state(0), PartitionState::Exhausted);
    assert_eq!(run.slots_in_use(), 0);
}

#[test]
fn dropping_a_stream_frees_its_slot() {
    let sizes = [10, 10];
    let t = table(&sizes, 1);
    let node = IPCExec::try_new(&t, None, 1024, None, 2).unwrap();
    let mut run = node.start_run();
    node.execute(&mut run, 0).unwrap();
    assert_eq!(run.poll_slot(0), SlotOutcome::Granted);
    node.execute(&mut run, 1).unwrap();
    assert_eq!(run.poll_slot(1), SlotOutcome::Wait);
    run.on_batch(0, 3);
    run.abandon(0);
    assert_eq!(run.slots_in_use(), 0);
    assert_eq!(run.poll_slot(1), SlotOutcome::Granted);
}

#[test]
fn failure_releases_slot_and_is_terminal() {
    let mut run = ScanRun::new(2, 1, None);
    run.start(0);
    assert_eq!(run.poll_slot(0), SlotOutcome::Granted);
    run.fail(0);
    assert_eq!(run.state(0), PartitionState::Failed);
    assert_eq!(run.slots_in_use(), 0);
    run.start(1);
    assert_eq!(run.poll_slot(1), SlotOutcome::Granted);
}

#[test]
fn execute_out_of_range_fails_without_side_effects() {
    let t = table(&[1, 2], 1);
    let node = IPCExec::try_new(&t, None, 1024, None, 2).unwrap();
    let mut run = node.start_run();
    let r = node.execute(&mut run, 2);
    assert_eq!(r, Err(ScanError::IndexOutOfRange { index: 2, count: 2 }));
    assert_eq!(run.state(0), PartitionState::Unstarted);
    assert_eq!(run.state(1), PartitionState::Unstarted);
    assert_eq!(run.slots_in_use(), 0);
    assert!(node.execute(&mut run, 7).is_err());
}

#[test]
fn execute_returns_partition_files() {
    let t = table(&[10, 10, 4], 2);
    let node = IPCExec::try_new(&t, None, 1024, None, 2).unwrap();
    let mut run = node.start_run();
    assert_eq!(node.execute(&mut run, 1).unwrap(), vec![0, 2]);
    assert_eq!(run.state(1), PartitionState::Opening);
}

#[test]
fn scan_is_a_leaf() {
    let t = table(&[3], 1);
    let node = IPCExec::try_new(&t, None, 1024, None, 1).unwrap();
    assert!(node.children().is_empty());
    let node = node.with_new_children(vec![]).unwrap();
    let other = IPCExec::try_new(&t, None, 1024, None, 1).unwrap();
    assert!(matches!(node.with_new_children(vec![other]), Err(ScanError::InvalidPlan)));
}

#[test]
fn open_without_files_is_path_not_found() {
    let r = IPCTable::try_new("/missing", 1, &vec![]);
    assert!(matches!(r, Err(ScanError::PathNotFound)));
}

#[test]
fn open_names_first_mismatching_file() {
    let odd = FileInfo {
        schema: Schema::new(vec![Field::new("id", DataType::Int32, false)]),
        num_rows: Some(1),
        byte_size: None,
    };
    let odd2 = FileInfo { schema: Schema::new(vec![]), num_rows: Some(1), byte_size: None };
    let files = vec![file(1), file(2), odd, odd2];
    let r = IPCTable::try_new("/data/t", 1, &files);
    assert!(matches!(r, Err(ScanError::SchemaMismatch { file: 2 })));
}

#[test]
fn open_keeps_schema_and_sums_statistics() {
    let t = table(&[3, 4], 2);
    assert!(t.schema().same_as(&base_schema()));
    assert_eq!(t.statistics(), Statistics { num_rows: Some(7), total_byte_size: Some(56) });
    assert_eq!(t.max_concurrency(), 2);
    assert_eq!(t.path(), "/data/t");
    assert_eq!(t.file_rows(), &vec![Some(3), Some(4)]);
}

#[test]
fn unknown_statistics_stay_unknown() {
    let mut f = file(3);
    f.num_rows = None;
    let t = IPCTable::try_new("/data/t", 1, &vec![f, file(2)]).unwrap();
    assert_eq!(t.statistics().num_rows, None);
    assert_eq!(t.statistics().total_byte_size, Some(40));
}

#[test]
fn sum_known_handles_unknown_and_overflow() {
    assert_eq!(sum_known(&vec![]), Some(0));
    assert_eq!(sum_known(&vec![Some(2), Some(5)]), Some(7));
    assert_eq!(sum_known(&vec![Some(2), None, Some(5)]), None);
    assert_eq!(sum_known(&vec![Some(usize::MAX), Some(1)]), None);
    assert_eq!(sum_known(&vec![Some(usize::MAX), Some(1), None]), None);
}

#[test]
fn schema_equality_compares_fields() {
    let a = base_schema();
    let mut b = base_schema();
    assert!(a.same_as(&b));
    b.fields[1].nullable = false;
    assert!(!a.same_as(&b));
    assert!(!a.same_as(&Schema::new(vec![])));
}
