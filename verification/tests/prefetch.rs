use agentenv::startup_pack::execution::{
    BlockRead, ExecutionAction, ExecutionEvent, ExecutionResult, PlannedBlock, PlannedObject,
    PrefetchExecution, PrefetchPlan, LOCAL_PREFETCH_MAX_READS,
};
use agentenv::startup_pack::reads::{deadline_passed, read_is_wanted, DrainState};
use agentenv::startup_pack::registry::{LocalPrefetchLease, PrefetchRegistry};
use agentenv::startup_pack::subscription::{SubscriberAction, SubscriberEvent, SubscriberPhase};

fn lease(identity: &str, shared: u64) -> LocalPrefetchLease {
    LocalPrefetchLease {
        identity: identity.to_string(),
        shared,
        released: false,
    }
}

#[test]
fn local_prefetch_dedup_keeps_remaining_subscriber_running() {
    let mut registry = PrefetchRegistry::new();
    let key = "dedup-test".to_string();
    let (first, first_leader) = registry.acquire_local_prefetch(key.clone());
    let (second, second_leader) = registry.acquire_local_prefetch(key.clone());
    assert!(first_leader);
    assert!(!second_leader);
    let mut first_lease = lease(&key, first);
    let mut second_lease = lease(&key, second);
    first_lease.release(&mut registry);
    assert!(
        !registry.run(first).unwrap().cancel,
        "one sandbox leaving must not cancel another subscriber"
    );
    second_lease.release(&mut registry);
    assert!(registry.run(first).unwrap().cancel);
}

#[test]
fn acquire_after_final_release_never_reuses_cancelled_worker() {
    let mut registry = PrefetchRegistry::new();
    let key = "replacement-test".to_string();
    let (draining, leader) = registry.acquire_local_prefetch(key.clone());
    assert!(leader);
    let mut draining_lease = lease(&key, draining);
    assert!(draining_lease.release(&mut registry));
    assert!(registry.run(draining).unwrap().cancel);

    let (replacement, replacement_leader) = registry.acquire_local_prefetch(key.clone());
    assert!(replacement_leader);
    assert_ne!(draining, replacement);
    assert!(!registry.run(replacement).unwrap().cancel);
    assert!(lease(&key, replacement).release(&mut registry));
}

#[test]
fn release_is_counted_once() {
    let mut registry = PrefetchRegistry::new();
    let (run, _) = registry.acquire_local_prefetch("a".to_string());
    registry.acquire_local_prefetch("a".to_string());
    assert_eq!(registry.run(run).unwrap().subscribers, 2);
    let mut one = lease("a", run);
    assert!(!one.release(&mut registry));
    assert!(!one.release(&mut registry));
    assert_eq!(registry.run(run).unwrap().subscribers, 1);
    assert!(lease("a", run).release(&mut registry));
    assert_eq!(registry.serving(&"a".to_string()), None);
}

#[test]
fn identities_do_not_share_runs() {
    let mut registry = PrefetchRegistry::new();
    let (a, a_leads) = registry.acquire_local_prefetch("a".to_string());
    let (b, b_leads) = registry.acquire_local_prefetch("b".to_string());
    assert!(a_leads && b_leads);
    assert_ne!(a, b);
    assert_eq!(registry.serving(&"a".to_string()), Some(a));
    assert_eq!(registry.serving(&"b".to_string()), Some(b));
}

#[test]
fn cancelled_and_finished_runs_are_replaced() {
    let mut registry = PrefetchRegistry::new();
    let (first, _) = registry.acquire_local_prefetch("a".to_string());
    registry.finish_run(first);
    let (second, leads) = registry.acquire_local_prefetch("a".to_string());
    assert!(leads);
    registry.cancel_run(second);
    let (third, leads) = registry.acquire_local_prefetch("a".to_string());
    assert!(leads);
    assert!(first != second && second != third);
    assert!(
        lease("a", first).release(&mut registry),
        "the sole subscriber of a replaced run is its last"
    );
    assert_eq!(
        registry.serving(&"a".to_string()),
        Some(third),
        "releasing a replaced run spares the replacement"
    );
}

#[test]
fn runs_are_known_while_they_are_held() {
    let mut registry = PrefetchRegistry::new();
    let a_name = "a".to_string();
    assert!(registry.has_room(&a_name));
    let (a, _) = registry.acquire_local_prefetch(a_name.clone());
    let (b, _) = registry.acquire_local_prefetch("b".to_string());
    assert_eq!(registry.hold_count(a), 1);
    registry.hold(a);
    registry.acquire_local_prefetch(a_name.clone());
    assert_eq!(registry.hold_count(a), 3);
    assert!(registry.has_room(&a_name));

    assert!(!lease("a", a).release(&mut registry));
    assert!(lease("a", a).release(&mut registry));
    assert!(!registry.drop_hold(a));
    assert!(!registry.drop_hold(a));
    assert!(registry.run(a).unwrap().cancel, "a draining run is known");
    assert_eq!(registry.hold_count(a), 1);
    assert!(registry.drop_hold(a));
    assert_eq!(registry.run(a), None);
    assert_eq!(registry.hold_count(a), 0);
    assert_eq!(registry.serving(&a_name), None);
    assert_eq!(registry.serving(&"b".to_string()), Some(b));
    let (next, leads) = registry.acquire_local_prefetch(a_name);
    assert!(leads && next != a && next != b);
}

#[test]
fn forgotten_run_leaves_service() {
    let mut registry = PrefetchRegistry::new();
    let (run, _) = registry.acquire_local_prefetch("a".to_string());
    registry.finish_run(run);
    assert!(registry.drop_hold(run));
    assert_eq!(registry.serving(&"a".to_string()), None);
}

#[test]
fn expired_queued_read_does_not_open_a_file() {
    assert!(!read_is_wanted(false, deadline_passed(1_000_000, 0)));
    assert!(!read_is_wanted(true, false));
    assert!(read_is_wanted(
        false,
        deadline_passed(2_999_999_999, 3)
    ));
    assert!(deadline_passed(3_000_000_000, 3));
}

#[test]
fn batch_drains_every_read_and_reports_the_first_failure() {
    let state: DrainState<&str> = DrainState::begin();
    let state = state.absorb(Ok(()));
    assert!(!state.cancel);
    let state = state.absorb(Err("controlled prefetch read failure"));
    assert!(state.cancel);
    let state = state.absorb(Ok(())).absorb(Err("later failure"));
    assert!(state.cancel);
    assert_eq!(state.finish(), Err("controlled prefetch read failure"));
    assert_eq!(DrainState::<&str>::begin().finish(), Ok(()));
}

fn plan() -> PrefetchPlan {
    PrefetchPlan {
        objects: vec![
            PlannedObject {
                layer: 1,
                size: 2500,
            },
            PlannedObject { layer: 0, size: 10 },
        ],
        blocks: vec![
            PlannedBlock {
                object: 0,
                block_id: 0,
            },
            PlannedBlock {
                object: 0,
                block_id: 2,
            },
            PlannedBlock {
                object: 1,
                block_id: 0,
            },
        ],
        block_bytes: 1000,
    }
}

#[test]
fn blocks_are_read_where_they_lie() {
    let plan = plan();
    assert!(plan.is_within(2));
    assert_eq!(
        plan.block_read(0, 2),
        BlockRead {
            layer: 1,
            offset: 0,
            len: 1000
        }
    );
    assert_eq!(
        plan.block_read(1, 2),
        BlockRead {
            layer: 1,
            offset: 2000,
            len: 500
        }
    );
    assert_eq!(
        plan.block_read(2, 2),
        BlockRead {
            layer: 0,
            offset: 0,
            len: 10
        }
    );
}

#[test]
fn plans_that_leave_their_layers_are_told() {
    assert!(!plan().is_within(1));
    let mut beyond = plan();
    beyond.blocks[1].block_id = 3;
    assert!(!beyond.is_within(2));
    let mut unknown = plan();
    unknown.blocks[0].object = 2;
    assert!(!unknown.is_within(2));
    let mut huge = plan();
    huge.block_bytes = u64::MAX;
    assert!(!huge.is_within(2));
}

/// Runs an execution of so many blocks that nothing stops, up to its end.
fn run(blocks: usize) -> (Vec<ExecutionAction>, PrefetchExecution) {
    let mut state = PrefetchExecution::begin();
    let mut actions = Vec::new();
    loop {
        let action = state.action();
        actions.push(action);
        state.advance(match action {
            ExecutionAction::Plan => ExecutionEvent::Planned {
                blocks,
                expired: false,
            },
            ExecutionAction::ReadClock => ExecutionEvent::Clock {
                cancelled: false,
                expired: false,
            },
            ExecutionAction::AcquirePermit { .. } => ExecutionEvent::PermitGranted,
            ExecutionAction::Drain => ExecutionEvent::Drained { failed: false },
            ExecutionAction::Report { .. } => return (actions, state),
        });
    }
}

#[test]
fn blocks_are_handed_out_in_order_in_batches() {
    let (actions, state) = run(6);
    let mut expected = vec![ExecutionAction::Plan, ExecutionAction::ReadClock];
    for block in 0..4 {
        expected.push(ExecutionAction::ReadClock);
        expected.push(ExecutionAction::AcquirePermit { block });
    }
    expected.push(ExecutionAction::Drain);
    expected.push(ExecutionAction::ReadClock);
    for block in 4..6 {
        expected.push(ExecutionAction::ReadClock);
        expected.push(ExecutionAction::AcquirePermit { block });
    }
    expected.push(ExecutionAction::Drain);
    expected.push(ExecutionAction::Report {
        result: ExecutionResult::Ended,
    });
    assert_eq!(actions, expected);
    assert_eq!(LOCAL_PREFETCH_MAX_READS, 4);
    assert_eq!((state.next, state.in_flight, state.cancel), (6, 0, false));
    assert_eq!(
        run(0).0,
        vec![
            ExecutionAction::Plan,
            ExecutionAction::Report {
                result: ExecutionResult::Ended
            }
        ]
    );
}

fn after(events: &[ExecutionEvent]) -> PrefetchExecution {
    let mut state = PrefetchExecution::begin();
    for event in events {
        state.advance(*event);
    }
    state
}

const GO: ExecutionEvent = ExecutionEvent::Clock {
    cancelled: false,
    expired: false,
};

const PLANNED: ExecutionEvent = ExecutionEvent::Planned {
    blocks: 9,
    expired: false,
};

#[test]
fn late_plan_dispatches_no_read() {
    let state = after(&[ExecutionEvent::Planned {
        blocks: 9,
        expired: true,
    }]);
    assert!(state.cancel);
    assert_eq!(
        state.action(),
        ExecutionAction::Report {
            result: ExecutionResult::Ended
        }
    );
    let failed = after(&[ExecutionEvent::PlanningFailed]);
    assert!(!failed.cancel);
    assert_eq!(
        failed.action(),
        ExecutionAction::Report {
            result: ExecutionResult::PlanningFailed
        }
    );
}

#[test]
fn reads_that_are_out_are_drained_after_the_deadline() {
    let mut state = after(&[PLANNED, GO, GO, ExecutionEvent::PermitGranted, GO]);
    assert_eq!(state.action(), ExecutionAction::AcquirePermit { block: 1 });
    state.advance(ExecutionEvent::DeadlineReached);
    assert_eq!(state.action(), ExecutionAction::Drain);
    assert_eq!((state.in_flight, state.cancel), (1, true));
    state.advance(ExecutionEvent::DeadlineReached);
    assert_eq!(state.action(), ExecutionAction::Drain);
    state.advance(ExecutionEvent::Drained { failed: false });
    assert_eq!(state.in_flight, 0);
    assert_eq!(state.action(), ExecutionAction::ReadClock);
    state.advance(GO);
    assert_eq!(
        state.action(),
        ExecutionAction::Report {
            result: ExecutionResult::Ended
        }
    );
    assert!(state.cancel);
}

#[test]
fn cancelled_run_hands_out_no_read() {
    let stop = ExecutionEvent::Clock {
        cancelled: true,
        expired: false,
    };
    let state = after(&[PLANNED, stop]);
    assert_eq!(
        state.action(),
        ExecutionAction::Report {
            result: ExecutionResult::Ended
        }
    );
    let state = after(&[PLANNED, GO, stop]);
    assert_eq!(state.action(), ExecutionAction::Drain);
    assert_eq!((state.next, state.cancel), (0, true));
}

#[test]
fn failures_are_reported_after_the_drain() {
    let state = after(&[
        PLANNED,
        GO,
        GO,
        ExecutionEvent::PermitsClosed,
        ExecutionEvent::Drained { failed: false },
    ]);
    assert_eq!(
        state.action(),
        ExecutionAction::Report {
            result: ExecutionResult::PermitsClosed
        }
    );
    let state = after(&[
        PLANNED,
        GO,
        GO,
        ExecutionEvent::PermitsClosed,
        ExecutionEvent::Drained { failed: true },
    ]);
    assert_eq!(
        state.action(),
        ExecutionAction::Report {
            result: ExecutionResult::ReadFailed
        }
    );
    assert!(state.cancel);
}

#[test]
fn last_subscriber_waits_for_the_run_to_finish() {
    let phase = SubscriberPhase::Watching;
    assert_eq!(phase.action(), SubscriberAction::ReadFlags);
    let running = SubscriberEvent::Flags {
        finished: false,
        cancelled: false,
    };
    let phase = phase.advance(running);
    assert_eq!(phase.action(), SubscriberAction::Sleep { millis: 10 });
    let phase = phase.advance(SubscriberEvent::Slept);
    let phase = phase.advance(SubscriberEvent::Flags {
        finished: false,
        cancelled: true,
    });
    assert_eq!(phase.action(), SubscriberAction::Release);
    assert_eq!(
        phase
            .advance(SubscriberEvent::Released { last: false })
            .action(),
        SubscriberAction::Return
    );
    let phase = phase.advance(SubscriberEvent::Released { last: true });
    assert_eq!(phase.action(), SubscriberAction::ReadFlags);
    let phase = phase.advance(SubscriberEvent::Flags {
        finished: false,
        cancelled: true,
    });
    assert_eq!(phase.action(), SubscriberAction::Sleep { millis: 10 });
    let phase = phase.advance(SubscriberEvent::Slept);
    let phase = phase.advance(SubscriberEvent::Flags {
        finished: true,
        cancelled: true,
    });
    assert_eq!(phase.action(), SubscriberAction::Return);
}

#[test]
fn finished_run_lets_its_subscribers_go() {
    assert_eq!(
        SubscriberPhase::Watching
            .advance(SubscriberEvent::Flags {
                finished: true,
                cancelled: true
            })
            .action(),
        SubscriberAction::Return
    );
}

#[test]
fn newcomer_is_spared_by_a_release_in_either_order() {
    let mut registry = PrefetchRegistry::new();
    let (run, _) = registry.acquire_local_prefetch("a".to_string());
    let (joined, leads) = registry.acquire_local_prefetch("a".to_string());
    assert!(!leads && joined == run);
    assert!(!lease("a", run).release(&mut registry));
    assert!(!registry.run(joined).unwrap().cancel);

    let mut registry = PrefetchRegistry::new();
    let (run, _) = registry.acquire_local_prefetch("a".to_string());
    assert!(lease("a", run).release(&mut registry));
    let (fresh, leads) = registry.acquire_local_prefetch("a".to_string());
    assert!(leads && fresh != run);
    assert!(!registry.run(fresh).unwrap().cancel);
    assert!(registry.run(run).unwrap().cancel);
    assert_eq!(registry.run(run).unwrap().subscribers, 0);
}
