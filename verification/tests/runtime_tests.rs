//! Tests for the task graph: registration, de-duplication, futures, the
//! planner, the per-thread driver, and the final merge plan.

use composer::annotation::{Annotation, CDecl, SplitType, SplitTypeParameter, SplitTypeRuntimeInfo};
use composer::memory::MemoryManager;
use composer::tasks::{
    advance_batch, batch_should_run, le_bytes, sort_pieces_by_tid, ParallelPiece, SplitterStatus,
    TaskManager, COMPOSER_INFINITE_ITEMS, FUTURE_BASE_PTR,
};

fn runtime_info(data_size: usize) -> Option<SplitTypeRuntimeInfo> {
    Some(SplitTypeRuntimeInfo { initializer: 7, next: 8, data_size })
}

fn broadcast_param(data_size: usize) -> SplitTypeParameter {
    SplitTypeParameter {
        ty: SplitType::Broadcast { runtime: runtime_info(data_size) },
        arguments: vec![],
    }
}

fn named_param(name: &str, data_size: usize, arguments: Vec<usize>) -> SplitTypeParameter {
    SplitTypeParameter {
        ty: SplitType::Named {
            name: name.to_string(),
            arguments: arguments.len(),
            runtime: runtime_info(data_size),
        },
        arguments,
    }
}

fn annotation_with(params: Vec<SplitTypeParameter>, returns: bool) -> Annotation {
    let arg_decls: Vec<(&str, Option<&str>)> = params.iter().map(|_| ("long", None)).collect();
    Annotation {
        function: CDecl::new(if returns { "long" } else { "void" }, "work", arg_decls),
        params,
        return_param: if returns {
            Some(broadcast_param(8))
        } else {
            None
        },
        defaults: vec![],
    }
}

#[test]
fn byte_equal_arguments_share_one_id() {
    let mut tm = TaskManager::new();
    let ann = annotation_with(vec![broadcast_param(8), broadcast_param(8)], false);
    let shared: Vec<u8> = vec![9, 9, 9, 9, 9, 9, 9, 9];

    let mut packed1: Vec<u8> = vec![1, 0, 0, 0, 0, 0, 0, 0];
    packed1.extend(shared.iter());
    let mut packed2: Vec<u8> = vec![2, 0, 0, 0, 0, 0, 0, 0];
    packed2.extend(shared.iter());
    let mut packed3: Vec<u8> = vec![3, 0, 0, 0, 0, 0, 0, 0];
    packed3.extend(shared.iter());

    assert!(tm.register_task(&ann, 100, &packed1, false).is_none());
    assert!(tm.register_task(&ann, 100, &packed2, false).is_none());
    assert!(tm.register_task(&ann, 100, &packed3, false).is_none());

    let tasks = tm.tasks();
    assert_eq!(tasks.len(), 3);
    let shared_id = tasks[0].arguments[1];
    assert_eq!(tasks[1].arguments[1], shared_id);
    assert_eq!(tasks[2].arguments[1], shared_id);

    // the argument table holds exactly one entry for the shared buffer
    let occurrences = tm
        .arguments()
        .iter()
        .filter(|(_, bytes)| bytes == &shared)
        .count();
    assert_eq!(occurrences, 1);
}

#[test]
fn future_of_one_task_links_a_later_task() {
    let mut tm = TaskManager::new();
    let producer = annotation_with(vec![named_param("RangeSplit", 8, vec![])], true);
    let consumer = annotation_with(vec![broadcast_param(8), broadcast_param(8)], false);

    let packed1: Vec<u8> = vec![5, 0, 0, 0, 0, 0, 0, 0];
    let future = tm.register_task(&producer, 101, &packed1, true).unwrap();
    assert_eq!(future.0, FUTURE_BASE_PTR);

    // hand the future token to the second task as its first argument
    let mut packed2 = le_bytes(future.0 as u64);
    packed2.extend(vec![6, 0, 0, 0, 0, 0, 0, 0]);
    assert!(tm.register_task(&consumer, 102, &packed2, false).is_none());

    let tasks = tm.tasks();
    let future_id = tasks[0].future_id.unwrap();
    assert_eq!(tasks[1].arguments[0], future_id);
    assert!(tm.futures().contains(&future_id));
}

#[test]
fn register_output_deduplicates_and_replaces() {
    let mut tm = TaskManager::new();
    let cell: Vec<u8> = vec![1, 2, 3, 4, 5, 6, 7, 8];
    tm.register_output(cell.clone(), 4096, 11);
    tm.register_output(cell.clone(), 4096, 12);
    let outputs = tm.outputs();
    assert_eq!(outputs.len(), 1);
    assert_eq!(outputs[0].1, 4096);
    assert_eq!(outputs[0].2, 12);
    // the output's id refers to the stored buffer
    let id = outputs[0].0;
    let stored = tm.arguments().iter().find(|(a, _)| *a == id).unwrap();
    assert_eq!(stored.1, cell);
}

#[test]
fn reset_clears_the_graph_and_leaves_evaluation_mode() {
    let mut tm = TaskManager::new();
    tm.evaluate = false;
    let ann = annotation_with(vec![broadcast_param(8)], true);
    let packed: Vec<u8> = vec![7, 0, 0, 0, 0, 0, 0, 0];
    tm.register_task(&ann, 103, &packed, true);
    tm.register_output(vec![1, 2, 3, 4, 5, 6, 7, 8], 64, 9);
    assert!(!tm.tasks().is_empty());

    tm.evaluate = true;
    tm.reset();

    assert!(tm.tasks().is_empty());
    assert!(tm.futures().is_empty());
    assert!(tm.outputs().is_empty());
    assert!(tm.arguments().is_empty());
    assert!(!tm.evaluate);

    // fresh ids continue from the next integer rather than starting over
    let packed2: Vec<u8> = vec![8, 0, 0, 0, 0, 0, 0, 0];
    tm.register_task(&ann, 103, &packed2, false);
    assert!(tm.arguments()[0].0 .0 > 3);
}

#[test]
fn thread_ranges_partition_a_thousand_items() {
    let mut tm = TaskManager::new();
    tm.threads = 4;
    assert_eq!(tm.thread_range(1000, 0), Some((0, 250)));
    assert_eq!(tm.thread_range(1000, 1), Some((250, 500)));
    assert_eq!(tm.thread_range(1000, 2), Some((500, 750)));
    assert_eq!(tm.thread_range(1000, 3), Some((750, 1000)));
}

#[test]
fn extra_threads_exit_without_work() {
    let mut tm = TaskManager::new();
    tm.threads = 5;
    assert_eq!(tm.thread_range(1, 0), Some((0, 1)));
    for tid in 1..5 {
        assert_eq!(tm.thread_range(1, tid), None);
    }
}

#[test]
fn zero_items_run_no_batches() {
    let mut tm = TaskManager::new();
    tm.threads = 2;
    assert_eq!(tm.thread_range(0, 0), Some((0, 0)));
    assert_eq!(tm.thread_range(0, 1), None);
    // an empty range has no first batch, so the piece count stays zero
    assert_eq!(tm.first_batch(0, 0), None);
    // with no batches anywhere, no thread contributes a piece, and the final
    // merger for each output is invoked with zero pieces
    tm.register_output(vec![0, 0, 0, 0, 0, 0, 0, 1], 0x5000, 0x6000);
    let plan = tm.merge_plan(&vec![]);
    assert_eq!(plan.len(), 1);
    assert!(plan[0].pieces.is_empty());
}

#[test]
fn item_counts_must_agree() {
    assert_eq!(
        TaskManager::agree_num_items(&vec![COMPOSER_INFINITE_ITEMS, 4, COMPOSER_INFINITE_ITEMS, 4]),
        Some(4)
    );
    assert_eq!(TaskManager::agree_num_items(&vec![4, 5]), None);
    assert_eq!(
        TaskManager::agree_num_items(&vec![COMPOSER_INFINITE_ITEMS, COMPOSER_INFINITE_ITEMS]),
        None
    );
    assert_eq!(TaskManager::agree_num_items(&vec![]), None);
}

#[test]
fn finished_splitter_stops_the_batch() {
    assert!(batch_should_run(&vec![
        SplitterStatus::SplitterContinue,
        SplitterStatus::SplitterContinue
    ]));
    assert!(!batch_should_run(&vec![
        SplitterStatus::SplitterContinue,
        SplitterStatus::SplitterFinished
    ]));
    assert!(batch_should_run(&vec![]));
}

#[test]
fn single_task_single_thread_runs_once() {
    let mut tm = TaskManager::new();
    tm.evaluate = false;
    tm.threads = 1;
    let ann = annotation_with(vec![broadcast_param(8)], false);
    let packed: Vec<u8> = vec![42, 0, 0, 0, 0, 0, 0, 0];
    tm.register_task(&ann, 200, &packed, false);

    let inputs = tm.inputs();
    assert_eq!(inputs.len(), 1);
    let inits = tm.splitter_inits(&inputs);
    assert!(!inits[0].needs_splitter);

    let num_items: i64 = 1;
    let (start, end) = tm.thread_range(num_items, 0).unwrap();
    let batch = tm.batch_size(start, end);
    let mut calls = 0;
    let mut range = tm.first_batch(start, end);
    let mut buffers = tm.buffers(&inputs);
    while let Some((s, _e)) = range {
        tm.fill_broadcast(&mut buffers, inputs[0].id);
        let args = tm.pack_task_args(&buffers, 0);
        assert_eq!(args, packed);
        calls += 1;
        range = advance_batch(s, batch, end);
    }
    assert_eq!(calls, 1);
}

#[test]
fn pipeline_passes_each_future_to_the_next_task() {
    let mut tm = TaskManager::new();
    tm.evaluate = false;
    tm.threads = 1;
    tm.init_task_size = 1;

    let producer = annotation_with(vec![named_param("RangeSplit", 8, vec![])], true);
    let consumer = annotation_with(vec![broadcast_param(8), broadcast_param(8)], false);

    let x_bytes: Vec<u8> = vec![0xAA, 0, 0, 0, 0, 0, 0, 0];
    let future = tm.register_task(&producer, 300, &x_bytes, true).unwrap();
    let mut consumer_args = le_bytes(future.0 as u64);
    let y_bytes: Vec<u8> = vec![0xBB, 0, 0, 0, 0, 0, 0, 0];
    consumer_args.extend(y_bytes.iter());
    tm.register_task(&consumer, 301, &consumer_args, false);

    let inputs = tm.inputs();
    let inits = tm.splitter_inits(&inputs);
    // only the splittable input needs a splitter: not the future, not y
    let needing: Vec<bool> = inits.iter().map(|i| i.needs_splitter).collect();
    assert_eq!(needing.iter().filter(|b| **b).count(), 1);
    let splitter_id = inits.iter().find(|i| i.needs_splitter).unwrap().id;

    let num_items: i64 = 4;
    let (start, end) = tm.thread_range(num_items, 0).unwrap();
    assert_eq!((start, end), (0, 4));
    let batch = tm.batch_size(start, end);
    assert_eq!(batch, 1);

    let mut buffers = tm.buffers(&inputs);
    let mut producer_calls = 0;
    let mut consumer_calls = 0;
    let mut range = tm.first_batch(start, end);
    while let Some((s, _e)) = range {
        // broadcast values and already-produced futures come from the table
        for entry in inputs.iter() {
            if entry.id != splitter_id {
                tm.fill_broadcast(&mut buffers, entry.id);
            }
        }
        // the splitter writes this batch's piece
        for slot in buffers.iter_mut() {
            if slot.0 == splitter_id {
                slot.1 = vec![s as u8, 0, 0, 0, 0, 0, 0, 0];
            }
        }
        // producer runs, returns a fresh future value for this batch
        let _args1 = tm.pack_task_args(&buffers, 0);
        producer_calls += 1;
        let produced = 1000 + s as u64;
        tm.record_task_future(&mut buffers, 0, produced);
        // the consumer sees that very value as its first argument
        let args2 = tm.pack_task_args(&buffers, 1);
        consumer_calls += 1;
        assert_eq!(&args2[0..8], &le_bytes(produced)[..]);
        assert_eq!(&args2[8..16], &y_bytes[..]);
        range = advance_batch(s, batch, end);
    }
    assert_eq!(producer_calls, 4);
    assert_eq!(consumer_calls, 4);
}

#[test]
fn parallel_sum_produces_four_pieces_in_thread_order() {
    let mut tm = TaskManager::new();
    tm.evaluate = false;
    tm.threads = 4;
    tm.init_task_size = 256;

    let ann = annotation_with(vec![named_param("RangeSplit", 16, vec![])], false);
    let packed: Vec<u8> = vec![0; 16];
    tm.register_task(&ann, 400, &packed, false);
    let dest: Vec<u8> = vec![1, 0, 0, 0, 0, 0, 0, 2];
    tm.register_output(dest, 0x7000, 0x9000);

    let inputs = tm.inputs();
    let num_items: i64 = 1000;
    let mut pieces = Vec::new();
    for tid in (0..4).rev() {
        let (start, end) = tm.thread_range(num_items, tid).unwrap();
        assert_eq!(end - start, 250);
        let batch = tm.batch_size(start, end);
        assert_eq!(batch, 250);
        let buffers = tm.buffers(&inputs);
        let mut lists = tm.new_output_lists();
        let mut num_pieces: i64 = 0;
        let mut range = tm.first_batch(start, end);
        while let Some((s, _e)) = range {
            tm.collect_outputs(&buffers, &mut lists, &mut num_pieces);
            range = advance_batch(s, batch, end);
        }
        // each thread's range fits one batch
        assert_eq!(num_pieces, 1);
        // the thread-local merge result stands in for a pointer token
        let values: Vec<_> = lists.iter().map(|l| (l.0, 0x100 + tid as usize)).collect();
        pieces.push(ParallelPiece::new(tid, values));
    }

    // pieces arrived in reverse; the merge plan sees them sorted by tid
    let sorted = sort_pieces_by_tid(pieces);
    let plan = tm.merge_plan(&sorted);
    assert_eq!(plan.len(), 1);
    assert_eq!(plan[0].destination, 0x7000);
    assert_eq!(plan[0].merger, 0x9000);
    assert_eq!(plan[0].pieces, vec![0x100, 0x101, 0x102, 0x103]);
}

#[test]
fn le_bytes_encodes_little_endian() {
    assert_eq!(le_bytes(0x0102030405060708), vec![8, 7, 6, 5, 4, 3, 2, 1]);
    assert_eq!(le_bytes(0), vec![0; 8]);
    assert_eq!(le_bytes(FUTURE_BASE_PTR as u64), vec![0xEF, 0xBE, 0xAD, 0xDE, 0, 0, 0, 0]);
}

#[test]
fn fault_triggered_execution_clears_the_graph() {
    // deferred phase: the output cell lives in a lazily protected segment
    let mut mm = MemoryManager::new();
    mm.allocate(0x20000, 4096, true);
    assert!(mm.segments()[0].protected);

    let mut tm = TaskManager::new();
    tm.evaluate = false;
    let ann = annotation_with(vec![broadcast_param(8)], false);
    let packed: Vec<u8> = vec![3, 1, 4, 1, 5, 9, 2, 6];
    tm.register_task(&ann, 500, &packed, false);
    tm.register_output(le_bytes(0x20000), 0x20000, 0x9999);

    // a read faults: the handler unprotects the arena wholesale and forces
    // execution, which ends by clearing the graph
    let released = mm.unprotect_all();
    assert_eq!(released, vec![(0x20000, 4096)]);
    tm.evaluate = true;
    let inputs = tm.inputs();
    let buffers = tm.buffers(&inputs);
    let mut lists = tm.new_output_lists();
    let mut pieces: i64 = 0;
    tm.collect_outputs(&buffers, &mut lists, &mut pieces);
    assert_eq!(pieces, 1);
    tm.reset();

    // afterwards the graph is empty and wrappers defer again
    assert!(tm.tasks().is_empty());
    assert!(tm.futures().is_empty());
    assert!(tm.outputs().is_empty());
    assert!(!tm.evaluate);
    assert!(!mm.segments()[0].protected);
}
