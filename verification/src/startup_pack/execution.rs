//! Warming the page cache from a prefetch plan.
//!
//! The blocks of a plan are read in batches. A batch is read concurrently and
//! drained before the next one begins: a read that was handed out cannot be
//! called back, so it is always waited for. Cancelling, or reaching the
//! deadline, only keeps further reads from being handed out.

use vstd::prelude::*;

verus! {

/// How many blocks are read at the same time.
pub const LOCAL_PREFETCH_MAX_READS: usize = 4;

/// A stored object that holds a part of a layer.
#[derive(Clone, Copy, Debug, PartialEq, Eq)]
pub struct PlannedObject {
    /// Index of the layer that the object is.
    pub layer: usize,
    /// Size of the object in bytes.
    pub size: u64,
}

/// A block of an object.
#[derive(Clone, Copy, Debug, PartialEq, Eq)]
pub struct PlannedBlock {
    /// Index of the object.
    pub object: u32,
    /// Number of the block within the object.
    pub block_id: u32,
}

/// Which blocks to read, in which order.
#[derive(Clone, Debug, PartialEq, Eq)]
pub struct PrefetchPlan {
    pub objects: Vec<PlannedObject>,
    pub blocks: Vec<PlannedBlock>,
    /// Size of a block in bytes; the last block of an object may be shorter.
    pub block_bytes: u64,
}

/// The bytes of a layer that a block stands for.
#[derive(Clone, Copy, Debug, PartialEq, Eq)]
pub struct BlockRead {
    pub layer: usize,
    pub offset: u64,
    pub len: u64,
}

impl PrefetchPlan {
    /// Whether a block lies within an object of one of `layers` layers.
    pub open spec fn block_fits(self, block: PlannedBlock, layers: nat) -> bool {
        &&& block.object < self.objects@.len()
        &&& self.objects@[block.object as int].layer < layers
        &&& block.block_id * self.block_bytes <= self.objects@[block.object as int].size
    }

    /// Whether every block of the plan lies within an object of a layer.
    pub open spec fn fits(self, layers: nat) -> bool {
        forall|i: int| 0 <= i < self.blocks@.len() ==> self.block_fits(#[trigger] self.blocks@[i], layers)
    }

    /// Where the block at `index` is read.
    pub open spec fn read_of(self, index: int) -> BlockRead {
        let block = self.blocks@[index];
        let object = self.objects@[block.object as int];
        let offset = block.block_id * self.block_bytes;
        BlockRead {
            layer: object.layer,
            offset: offset as u64,
            len: (if object.size - offset < self.block_bytes {
                object.size - offset
            } else {
                self.block_bytes as int
            }) as u64,
        }
    }

    /// Tells whether every block of the plan lies within an object of one of
    /// `layers` layers.
    pub fn is_within(&self, layers: usize) -> (res: bool)
        ensures
            res == self.fits(layers as nat),
    {
        let mut i: usize = 0;
        while i < self.blocks.len()
            invariant
                i <= self.blocks@.len(),
                forall|j: int| 0 <= j < i ==> self.block_fits(#[trigger] self.blocks@[j], layers as nat),
            decreases self.blocks@.len() - i,
        {
            let block = self.blocks[i];
            let within = {
                let object: usize = block.object as usize;
                if object >= self.objects.len() {
                    false
                } else {
                    let offset: u128 = mul_u64(block.block_id as u64, self.block_bytes);
                    self.objects[object].layer < layers && offset <= self.objects[object].size
                        as u128
                }
            };
            if !within {
                assert(!self.block_fits(self.blocks@[i as int], layers as nat));
                return false;
            }
            i += 1;
        }
        true
    }

    /// Where the block at `index` is read: a full block, or what is left of
    /// the object.
    pub fn block_read(&self, index: usize, layers: usize) -> (read: BlockRead)
        requires
            index < self.blocks@.len(),
            self.fits(layers as nat),
        ensures
            read == self.read_of(index as int),
            read.layer < layers,
            read.offset + read.len <= self.objects@[self.blocks@[index as int].object as int].size,
    {
        let block = self.blocks[index];
        assert(self.block_fits(self.blocks@[index as int], layers as nat));
        let object = self.objects[block.object as usize];
        let offset: u64 = block.block_id as u64 * self.block_bytes;
        let rest: u64 = object.size - offset;
        let len: u64 = if rest < self.block_bytes {
            rest
        } else {
            self.block_bytes
        };
        BlockRead { layer: object.layer, offset, len }
    }
}

/// The exact product of two words.
fn mul_u64(a: u64, b: u64) -> (product: u128)
    ensures
        product == a * b,
{
    assert(a * b <= 0xffff_ffff_ffff_ffff * 0xffff_ffff_ffff_ffff) by (nonlinear_arith)
        requires
            a <= 0xffff_ffff_ffff_ffffu64,
            b <= 0xffff_ffff_ffff_ffffu64,
    ;
    a as u128 * b as u128
}

/// Different blocks of one object never read the same byte.
pub proof fn law_blocks_of_an_object_are_disjoint(plan: PrefetchPlan, layers: nat, a: int, b: int)
    requires
        plan.fits(layers),
        0 <= a < plan.blocks@.len(),
        0 <= b < plan.blocks@.len(),
        plan.blocks@[a].object == plan.blocks@[b].object,
        plan.blocks@[a].block_id < plan.blocks@[b].block_id,
    ensures
        plan.read_of(a).offset + plan.read_of(a).len <= plan.read_of(b).offset,
{
    assert(plan.block_fits(plan.blocks@[a], layers));
    assert(plan.block_fits(plan.blocks@[b], layers));
    let x = plan.blocks@[a].block_id as int;
    let y = plan.blocks@[b].block_id as int;
    let size = plan.block_bytes as int;
    assert(x * size + size <= y * size) by (nonlinear_arith)
        requires
            x < y,
            size >= 0,
    ;
    assert(0 <= x * size && 0 <= y * size) by (nonlinear_arith)
        requires
            0 <= x,
            0 <= y,
            size >= 0,
    ;
}

/// How an execution ended.
#[derive(Clone, Copy, Debug, PartialEq, Eq)]
pub enum ExecutionResult {
    /// Every block was read, or the execution was told to stop.
    Ended,
    /// There was no plan to execute.
    PlanningFailed,
    /// A read failed; the reads of its batch were still waited for.
    ReadFailed,
    /// No further read was admitted.
    PermitsClosed,
}

/// What the execution is waiting for.
#[derive(Clone, Copy, Debug, PartialEq, Eq)]
pub enum ExecutionPhase {
    /// The plan.
    Planning,
    /// A look at the clock before a batch.
    BatchStart,
    /// A look at the clock before a block.
    BlockStart,
    /// Leave to read the next block.
    AwaitingPermit,
    /// The reads of the batch.
    Draining { permits_closed: bool },
    Finished { result: ExecutionResult },
}

/// What came to pass in a phase.
#[derive(Clone, Copy, Debug, PartialEq, Eq)]
pub enum ExecutionEvent {
    /// A plan of so many blocks; `expired` where it came after the deadline.
    Planned { blocks: usize, expired: bool },
    PlanningFailed,
    /// Whether the run was cancelled, and whether the deadline has passed.
    Clock { cancelled: bool, expired: bool },
    /// The next block may be read, and its read was handed out.
    PermitGranted,
    PermitsClosed,
    /// The deadline passed during the wait.
    DeadlineReached,
    /// Every read of the batch came back; `failed` where one of them failed.
    Drained { failed: bool },
}

/// The state of an execution.
#[derive(Clone, Copy, Debug, PartialEq, Eq)]
pub struct PrefetchExecution {
    pub phase: ExecutionPhase,
    /// Number of blocks in the plan.
    pub blocks: usize,
    /// Number of blocks whose read was handed out; also the next block.
    pub next: usize,
    /// First block after the current batch.
    pub batch_end: usize,
    /// Number of reads that were handed out and not waited for.
    pub in_flight: usize,
    /// Whether the run is to be marked as cancelled.
    pub cancel: bool,
}

impl PrefetchExecution {
    /// What holds of every execution.
    ///
    /// No more reads are out than a batch has; none is out once the execution
    /// is finished; none is handed out once it is cancelled; and one that ends
    /// without being cancelled has handed out every block.
    pub open spec fn wf(self) -> bool {
        &&& self.next <= self.batch_end <= self.blocks
        &&& self.in_flight <= LOCAL_PREFETCH_MAX_READS
        &&& self.in_flight <= self.next
        &&& !self.cancel ==> self.batch_end - (self.next - self.in_flight) <= LOCAL_PREFETCH_MAX_READS
        &&& match self.phase {
            ExecutionPhase::Planning => self.blocks == 0 && !self.cancel && self.in_flight == 0,
            ExecutionPhase::BatchStart => {
                &&& self.in_flight == 0
                &&& self.next < self.blocks
                &&& !self.cancel ==> self.next < self.batch_end
            },
            ExecutionPhase::BlockStart | ExecutionPhase::AwaitingPermit => {
                &&& !self.cancel
                &&& self.next < self.batch_end
            },
            ExecutionPhase::Draining { permits_closed } => {
                &&& !self.cancel ==> self.next == self.batch_end
                &&& permits_closed ==> self.cancel
            },
            ExecutionPhase::Finished { result } => {
                &&& self.in_flight == 0
                &&& result is Ended && !self.cancel ==> self.next == self.blocks
                &&& result is ReadFailed || result is PermitsClosed ==> self.cancel
            },
        }
    }

    /// Whether the event can occur in the current phase.
    pub open spec fn accepts(self, event: ExecutionEvent) -> bool {
        match self.phase {
            ExecutionPhase::Planning => event is Planned || event is PlanningFailed,
            ExecutionPhase::BatchStart => event is Clock,
            ExecutionPhase::BlockStart => event is Clock,
            ExecutionPhase::AwaitingPermit => event is PermitGranted || event is PermitsClosed
                || event is DeadlineReached,
            ExecutionPhase::Draining { .. } => event is Drained || event is DeadlineReached,
            ExecutionPhase::Finished { .. } => false,
        }
    }

    /// The state in which the blocks from `start` on are still to be read.
    pub open spec fn at_batch(self, start: usize) -> PrefetchExecution {
        if start >= self.blocks {
            PrefetchExecution {
                phase: ExecutionPhase::Finished { result: ExecutionResult::Ended },
                in_flight: 0,
                ..self
            }
        } else {
            PrefetchExecution {
                phase: ExecutionPhase::BatchStart,
                batch_end: (if self.blocks - start > LOCAL_PREFETCH_MAX_READS {
                    start + LOCAL_PREFETCH_MAX_READS
                } else {
                    self.blocks as int
                }) as usize,
                in_flight: 0,
                ..self
            }
        }
    }

    /// The state after an accepted event.
    pub open spec fn after(self, event: ExecutionEvent) -> PrefetchExecution {
        match self.phase {
            ExecutionPhase::Planning => match event {
                ExecutionEvent::Planned { blocks, expired } => if expired {
                    PrefetchExecution {
                        phase: ExecutionPhase::Finished { result: ExecutionResult::Ended },
                        cancel: true,
                        ..self
                    }
                } else {
                    (PrefetchExecution { blocks, ..self }).at_batch(0)
                },
                _ => PrefetchExecution {
                    phase: ExecutionPhase::Finished { result: ExecutionResult::PlanningFailed },
                    ..self
                },
            },
            ExecutionPhase::BatchStart => if self.cancel || must_stop(event) {
                PrefetchExecution {
                    phase: ExecutionPhase::Finished { result: ExecutionResult::Ended },
                    cancel: true,
                    ..self
                }
            } else {
                PrefetchExecution { phase: ExecutionPhase::BlockStart, ..self }
            },
            ExecutionPhase::BlockStart => if must_stop(event) {
                PrefetchExecution {
                    phase: ExecutionPhase::Draining { permits_closed: false },
                    cancel: true,
                    ..self
                }
            } else {
                PrefetchExecution { phase: ExecutionPhase::AwaitingPermit, ..self }
            },
            ExecutionPhase::AwaitingPermit => if event is PermitGranted {
                PrefetchExecution {
                    phase: if self.next + 1 == self.batch_end {
                        ExecutionPhase::Draining { permits_closed: false }
                    } else {
                        ExecutionPhase::BlockStart
                    },
                    next: (self.next + 1) as usize,
                    in_flight: (self.in_flight + 1) as usize,
                    ..self
                }
            } else {
                PrefetchExecution {
                    phase: ExecutionPhase::Draining { permits_closed: event is PermitsClosed },
                    cancel: true,
                    ..self
                }
            },
            ExecutionPhase::Draining { permits_closed } => match event {
                ExecutionEvent::Drained { failed: true } => PrefetchExecution {
                    phase: ExecutionPhase::Finished { result: ExecutionResult::ReadFailed },
                    in_flight: 0,
                    cancel: true,
                    ..self
                },
                ExecutionEvent::Drained { failed: false } => if permits_closed {
                    PrefetchExecution {
                        phase: ExecutionPhase::Finished { result: ExecutionResult::PermitsClosed },
                        in_flight: 0,
                        ..self
                    }
                } else {
                    self.at_batch(self.batch_end)
                },
                _ => PrefetchExecution { cancel: true, ..self },
            },
            ExecutionPhase::Finished { .. } => self,
        }
    }
}

/// Whether a look at the clock shows that no further read may be handed out.
pub open spec fn must_stop(event: ExecutionEvent) -> bool {
    event->cancelled || event->Clock_expired
}

/// What the current phase asks to be done.
#[derive(Clone, Copy, Debug, PartialEq, Eq)]
pub enum ExecutionAction {
    /// Work out the plan, however long it takes: the planner owns reads of
    /// its own, which must not be left behind.
    Plan,
    /// Look whether the run was cancelled and whether the deadline has passed.
    ReadClock,
    /// Wait, until the deadline, for leave to read, then hand out the read of
    /// this block.
    AcquirePermit { block: usize },
    /// Wait for every read of the batch, past the deadline too.
    Drain,
    /// Report how it ended.
    Report { result: ExecutionResult },
}

impl PrefetchExecution {
    /// An execution that has no plan yet.
    pub fn begin() -> (state: PrefetchExecution)
        ensures
            state == Self::initial(),
            state.wf(),
    {
        PrefetchExecution {
            phase: ExecutionPhase::Planning,
            blocks: 0,
            next: 0,
            batch_end: 0,
            in_flight: 0,
            cancel: false,
        }
    }

    /// The state in which every execution begins.
    pub open spec fn initial() -> PrefetchExecution {
        PrefetchExecution {
            phase: ExecutionPhase::Planning,
            blocks: 0,
            next: 0,
            batch_end: 0,
            in_flight: 0,
            cancel: false,
        }
    }

    /// What the current phase asks to be done.
    pub fn action(&self) -> (action: ExecutionAction)
        ensures
            action == (match self.phase {
                ExecutionPhase::Planning => ExecutionAction::Plan,
                ExecutionPhase::BatchStart => ExecutionAction::ReadClock,
                ExecutionPhase::BlockStart => ExecutionAction::ReadClock,
                ExecutionPhase::AwaitingPermit => ExecutionAction::AcquirePermit {
                    block: self.next,
                },
                ExecutionPhase::Draining { .. } => ExecutionAction::Drain,
                ExecutionPhase::Finished { result } => ExecutionAction::Report { result },
            }),
    {
        match self.phase {
            ExecutionPhase::Planning => ExecutionAction::Plan,
            ExecutionPhase::BatchStart => ExecutionAction::ReadClock,
            ExecutionPhase::BlockStart => ExecutionAction::ReadClock,
            ExecutionPhase::AwaitingPermit => ExecutionAction::AcquirePermit { block: self.next },
            ExecutionPhase::Draining { .. } => ExecutionAction::Drain,
            ExecutionPhase::Finished { result } => ExecutionAction::Report { result },
        }
    }

    /// Goes on to the blocks from `start` on, or ends where there are none.
    fn enter_batch(&mut self, start: usize)
        ensures
            *final(self) == old(self).at_batch(start),
    {
        self.in_flight = 0;
        if start >= self.blocks {
            self.phase = ExecutionPhase::Finished { result: ExecutionResult::Ended };
        } else {
            self.phase = ExecutionPhase::BatchStart;
            self.batch_end = if self.blocks - start > LOCAL_PREFETCH_MAX_READS {
                start + LOCAL_PREFETCH_MAX_READS
            } else {
                self.blocks
            };
        }
    }

    /// Moves on after an event that the current phase accepts.
    pub fn advance(&mut self, event: ExecutionEvent)
        requires
            old(self).wf(),
            old(self).accepts(event),
        ensures
            *final(self) == old(self).after(event),
            final(self).wf(),
    {
        match self.phase {
            ExecutionPhase::Planning => {
                match event {
                    ExecutionEvent::Planned { blocks, expired: false } => {
                        self.blocks = blocks;
                        self.enter_batch(0);
                    },
                    ExecutionEvent::Planned { .. } => {
                        self.cancel = true;
                        self.phase = ExecutionPhase::Finished { result: ExecutionResult::Ended };
                    },
                    _ => {
                        self.phase = ExecutionPhase::Finished {
                            result: ExecutionResult::PlanningFailed,
                        };
                    },
                }
            },
            ExecutionPhase::BatchStart => {
                if let ExecutionEvent::Clock { cancelled, expired } = event {
                    if self.cancel || cancelled || expired {
                        self.cancel = true;
                        self.phase = ExecutionPhase::Finished { result: ExecutionResult::Ended };
                    } else {
                        self.phase = ExecutionPhase::BlockStart;
                    }
                }
            },
            ExecutionPhase::BlockStart => {
                if let ExecutionEvent::Clock { cancelled, expired } = event {
                    if cancelled || expired {
                        self.cancel = true;
                        self.phase = ExecutionPhase::Draining { permits_closed: false };
                    } else {
                        self.phase = ExecutionPhase::AwaitingPermit;
                    }
                }
            },
            ExecutionPhase::AwaitingPermit => {
                match event {
                    ExecutionEvent::PermitGranted => {
                        self.next += 1;
                        self.in_flight += 1;
                        self.phase = if self.next == self.batch_end {
                            ExecutionPhase::Draining { permits_closed: false }
                        } else {
                            ExecutionPhase::BlockStart
                        };
                    },
                    ExecutionEvent::PermitsClosed => {
                        self.cancel = true;
                        self.phase = ExecutionPhase::Draining { permits_closed: true };
                    },
                    _ => {
                        self.cancel = true;
                        self.phase = ExecutionPhase::Draining { permits_closed: false };
                    },
                }
            },
            ExecutionPhase::Draining { permits_closed } => {
                match event {
                    ExecutionEvent::Drained { failed: true } => {
                        self.in_flight = 0;
                        self.cancel = true;
                        self.phase = ExecutionPhase::Finished {
                            result: ExecutionResult::ReadFailed,
                        };
                    },
                    ExecutionEvent::Drained { failed: false } => {
                        if permits_closed {
                            self.in_flight = 0;
                            self.phase = ExecutionPhase::Finished {
                                result: ExecutionResult::PermitsClosed,
                            };
                        } else {
                            let start: usize = self.batch_end;
                            self.enter_batch(start);
                        }
                    },
                    _ => {
                        self.cancel = true;
                    },
                }
            },
            ExecutionPhase::Finished { .. } => {},
        }
    }
}

/// Whether `states` is the history of an execution that saw exactly `events`.
pub open spec fn is_run(states: Seq<PrefetchExecution>, events: Seq<ExecutionEvent>) -> bool {
    &&& states.len() == events.len() + 1
    &&& states[0] == PrefetchExecution::initial()
    &&& forall|i: int|
        0 <= i < events.len() ==> states[i].accepts(#[trigger] events[i]) && states[i + 1]
            == states[i].after(events[i])
}

/// Number of reads handed out by the first `n` events.
pub open spec fn reads_handed_out(events: Seq<ExecutionEvent>, n: int) -> int
    decreases n,
{
    if n <= 0 {
        0
    } else {
        reads_handed_out(events, n - 1) + (if events[n - 1] is PermitGranted {
            1int
        } else {
            0int
        })
    }
}

proof fn lemma_step_keeps_wf(state: PrefetchExecution, event: ExecutionEvent)
    requires
        state.wf(),
        state.accepts(event),
    ensures
        state.after(event).wf(),
        state.cancel ==> state.after(event).cancel,
        state.after(event).next == state.next + (if event is PermitGranted {
            1int
        } else {
            0int
        }),
{
}

/// Every state of an execution is well formed: never more than a batch of
/// reads is out, a finished execution has none out, and one that ended
/// without being cancelled has handed out every block.
pub proof fn law_every_state_is_well_formed(
    states: Seq<PrefetchExecution>,
    events: Seq<ExecutionEvent>,
    n: int,
)
    requires
        is_run(states, events),
        0 <= n < states.len(),
    ensures
        states[n].wf(),
    decreases n,
{
    if n > 0 {
        law_every_state_is_well_formed(states, events, n - 1);
        assert(states[n - 1].accepts(events[n - 1]));
        assert(states[n - 1 + 1] == states[n - 1].after(events[n - 1]));
        lemma_step_keeps_wf(states[n - 1], events[n - 1]);
    }
}

/// The blocks are handed out in the order of the plan, each once: the block
/// whose turn it is is the one whose number is the count of reads so far.
pub proof fn law_blocks_are_read_in_order_and_once(
    states: Seq<PrefetchExecution>,
    events: Seq<ExecutionEvent>,
    n: int,
)
    requires
        is_run(states, events),
        0 <= n < states.len(),
    ensures
        states[n].next == reads_handed_out(events, n),
    decreases n,
{
    if n > 0 {
        law_blocks_are_read_in_order_and_once(states, events, n - 1);
        law_every_state_is_well_formed(states, events, n - 1);
        assert(states[n - 1].accepts(events[n - 1]));
        assert(states[n - 1 + 1] == states[n - 1].after(events[n - 1]));
        lemma_step_keeps_wf(states[n - 1], events[n - 1]);
    }
}

/// Once an execution is cancelled it hands out no further read.
pub proof fn law_cancelled_execution_hands_out_no_read(
    states: Seq<PrefetchExecution>,
    events: Seq<ExecutionEvent>,
    cancelled: int,
    n: int,
)
    requires
        is_run(states, events),
        0 <= cancelled <= n < events.len(),
        states[cancelled].cancel,
    ensures
        states[n].cancel,
        !(events[n] is PermitGranted),
    decreases n,
{
    if cancelled < n {
        law_cancelled_execution_hands_out_no_read(states, events, cancelled, n - 1);
        law_every_state_is_well_formed(states, events, n - 1);
        assert(states[n - 1].accepts(events[n - 1]));
        assert(states[n - 1 + 1] == states[n - 1].after(events[n - 1]));
        lemma_step_keeps_wf(states[n - 1], events[n - 1]);
    }
    law_every_state_is_well_formed(states, events, n);
    assert(states[n].accepts(events[n]));
}

/// A look at the clock that shows a cancellation or a passed deadline cancels
/// the execution, and so do a plan that comes too late, permits that are closed
/// and a read that fails.
pub proof fn law_stop_is_honoured(
    states: Seq<PrefetchExecution>,
    events: Seq<ExecutionEvent>,
    n: int,
)
    requires
        is_run(states, events),
        0 <= n < events.len(),
        events[n] is DeadlineReached || events[n] is PermitsClosed || events[n] == (
        ExecutionEvent::Drained { failed: true }) || (events[n] matches ExecutionEvent::Clock {
            cancelled,
            expired,
        } && (cancelled || expired)) || (events[n] matches ExecutionEvent::Planned {
            expired,
            ..
        } && expired),
    ensures
        states[n + 1].cancel,
{
    assert(states[n].accepts(events[n]));
    assert(states[n + 1] == states[n].after(events[n]));
}

proof fn lemma_plan_stays(
    states: Seq<PrefetchExecution>,
    events: Seq<ExecutionEvent>,
    planned: int,
    n: int,
)
    requires
        is_run(states, events),
        0 <= planned < n < states.len(),
        events[planned] matches ExecutionEvent::Planned { expired, .. } && !expired,
    ensures
        states[n].blocks == events[planned]->blocks,
        !(states[n].phase is Planning),
    decreases n,
{
    assert(states[n - 1].accepts(events[n - 1]));
    assert(states[n - 1 + 1] == states[n - 1].after(events[n - 1]));
    if planned < n - 1 {
        lemma_plan_stays(states, events, planned, n - 1);
    }
}

/// The number of blocks of an execution is that of its plan, from when the plan
/// is there to the end.
pub proof fn law_blocks_are_those_of_the_plan(
    states: Seq<PrefetchExecution>,
    events: Seq<ExecutionEvent>,
    planned: int,
    n: int,
)
    requires
        is_run(states, events),
        0 <= planned < n < states.len(),
        events[planned] matches ExecutionEvent::Planned { expired, .. } && !expired,
    ensures
        states[n].blocks == events[planned]->blocks,
{
    lemma_plan_stays(states, events, planned, n);
}

/// An execution that ends without being cancelled has handed out the read of
/// every block of its plan, once each.
pub proof fn law_execution_reads_the_whole_plan(
    states: Seq<PrefetchExecution>,
    events: Seq<ExecutionEvent>,
    planned: int,
)
    requires
        is_run(states, events),
        0 <= planned < events.len(),
        events[planned] matches ExecutionEvent::Planned { expired, .. } && !expired,
        states.last().phase == (ExecutionPhase::Finished { result: ExecutionResult::Ended }),
        !states.last().cancel,
    ensures
        reads_handed_out(events, events.len() as int) == events[planned]->blocks,
        states.last().next == events[planned]->blocks,
{
    let n = states.len() - 1;
    lemma_plan_stays(states, events, planned, n);
    law_every_state_is_well_formed(states, events, n);
    law_blocks_are_read_in_order_and_once(states, events, n);
}

/// Whether the event gives a reason to stop.
spec fn is_reason_to_stop(event: ExecutionEvent) -> bool {
    event is DeadlineReached || event is PermitsClosed || event == (ExecutionEvent::Drained {
        failed: true,
    }) || (event matches ExecutionEvent::Clock { cancelled, expired } && (cancelled || expired)) || (
    event matches ExecutionEvent::Planned { expired, .. } && expired)
}

proof fn lemma_cancelled_for_a_reason(
    states: Seq<PrefetchExecution>,
    events: Seq<ExecutionEvent>,
    n: int,
)
    requires
        is_run(states, events),
        0 <= n < states.len(),
        states[n].cancel,
    ensures
        exists|i: int| 0 <= i < n && #[trigger] is_reason_to_stop(events[i]),
    decreases n,
{
    assert(n > 0);
    assert(states[n - 1].accepts(events[n - 1]));
    assert(states[n - 1 + 1] == states[n - 1].after(events[n - 1]));
    if states[n - 1].cancel {
        lemma_cancelled_for_a_reason(states, events, n - 1);
    } else {
        assert(is_reason_to_stop(events[n - 1]));
    }
}

/// An execution is cancelled for a reason only: a cancellation, the deadline, a
/// read that failed, or permits that were closed.
pub proof fn law_execution_stops_for_a_reason(
    states: Seq<PrefetchExecution>,
    events: Seq<ExecutionEvent>,
    n: int,
)
    requires
        is_run(states, events),
        0 <= n < states.len(),
        forall|i: int|
            0 <= i < n ==> {
                &&& !((#[trigger] events[i]) is DeadlineReached)
                &&& !(events[i] is PermitsClosed)
                &&& events[i] != (ExecutionEvent::Drained { failed: true })
                &&& (events[i] matches ExecutionEvent::Clock { cancelled, expired } ==> !cancelled
                    && !expired)
                &&& (events[i] matches ExecutionEvent::Planned { expired, .. } ==> !expired)
            },
    ensures
        !states[n].cancel,
{
    if states[n].cancel {
        lemma_cancelled_for_a_reason(states, events, n);
        let i = choose|i: int| 0 <= i < n && #[trigger] is_reason_to_stop(events[i]);
        assert(0 <= i < n);
        assert(!(events[i] is DeadlineReached));
    }
}

/// An execution that is given a plan, and that nothing stops, reads the whole of
/// it before it ends.
pub proof fn law_unstopped_execution_reads_every_block(
    states: Seq<PrefetchExecution>,
    events: Seq<ExecutionEvent>,
)
    requires
        is_run(states, events),
        events.len() > 0,
        events[0] is Planned,
        states.last().phase is Finished,
        forall|i: int|
            0 <= i < events.len() ==> {
                &&& !((#[trigger] events[i]) is DeadlineReached)
                &&& !(events[i] is PermitsClosed)
                &&& events[i] != (ExecutionEvent::Drained { failed: true })
                &&& (events[i] matches ExecutionEvent::Clock { cancelled, expired } ==> !cancelled
                    && !expired)
                &&& (events[i] matches ExecutionEvent::Planned { expired, .. } ==> !expired)
            },
    ensures
        states.last().phase == (ExecutionPhase::Finished { result: ExecutionResult::Ended }),
        reads_handed_out(events, events.len() as int) == events[0]->blocks,
{
    let n = events.len() as int;
    law_execution_stops_for_a_reason(states, events, n);
    law_result_is_true(states, events, n);
    law_every_state_is_well_formed(states, events, n);
    assert(states[0].accepts(events[0]));
    if states.last().phase == (ExecutionPhase::Finished {
        result: ExecutionResult::PlanningFailed,
    }) {
        assert(n - 1 > 0);
        lemma_plan_stays(states, events, 0, n - 1);
        assert(states[n - 1].accepts(events[n - 1]));
    }
    law_execution_reads_the_whole_plan(states, events, 0);
}

/// How an execution ended is so: planning failed where the planner did, a read
/// failed where one of the batch that was drained last did, and permits were
/// closed where they were.
pub proof fn law_result_is_true(
    states: Seq<PrefetchExecution>,
    events: Seq<ExecutionEvent>,
    n: int,
)
    requires
        is_run(states, events),
        0 <= n < states.len(),
        states[n].phase is Finished,
    ensures
        n > 0,
        n == states.len() - 1,
        ({
            let result = states[n].phase->result;
            &&& result is PlanningFailed <==> events[n - 1] is PlanningFailed
            &&& result is ReadFailed <==> events[n - 1] == (ExecutionEvent::Drained {
                failed: true,
            })
            &&& result is PermitsClosed ==> exists|i: int|
                0 <= i < n && #[trigger] events[i] is PermitsClosed
            &&& result is Ended ==> forall|i: int|
                0 <= i < n ==> !((#[trigger] events[i]) is PermitsClosed)
        }),
{
    assert(n > 0);
    assert(states[n - 1].accepts(events[n - 1]));
    assert(states[n - 1 + 1] == states[n - 1].after(events[n - 1]));
    lemma_closed_permits_are_remembered(states, events, n - 1);
    if n < events.len() {
        assert(states[n].accepts(events[n]));
    }
    assert(events[n - 1] is PermitsClosed ==> !(states[n].phase is Finished));
    if states[n].phase->result is PermitsClosed {
        assert(states[n - 1].phase == (ExecutionPhase::Draining { permits_closed: true }));
        let i = choose|i: int| 0 <= i < n - 1 && #[trigger] events[i] is PermitsClosed;
        assert(events[i] is PermitsClosed);
    }
}

proof fn lemma_closed_permits_are_remembered(
    states: Seq<PrefetchExecution>,
    events: Seq<ExecutionEvent>,
    n: int,
)
    requires
        is_run(states, events),
        0 <= n < states.len(),
    ensures
        states[n].phase == (ExecutionPhase::Draining { permits_closed: true }) ==> exists|i: int|
            0 <= i < n && #[trigger] events[i] is PermitsClosed,
        !(states[n].phase is Finished) && (exists|i: int|
            0 <= i < n && #[trigger] events[i] is PermitsClosed) ==> states[n].phase == (
        ExecutionPhase::Draining { permits_closed: true }),
    decreases n,
{
    if n > 0 {
        lemma_closed_permits_are_remembered(states, events, n - 1);
        assert(states[n - 1].accepts(events[n - 1]));
        assert(states[n - 1 + 1] == states[n - 1].after(events[n - 1]));
        if states[n].phase == (ExecutionPhase::Draining { permits_closed: true }) {
            if states[n - 1].phase != (ExecutionPhase::Draining { permits_closed: true }) {
                assert(events[n - 1] is PermitsClosed);
            } else {
                let i = choose|i: int| 0 <= i < n - 1 && #[trigger] events[i] is PermitsClosed;
                assert(events[i] is PermitsClosed);
            }
        }
        if !(states[n].phase is Finished) && exists|i: int|
            0 <= i < n && #[trigger] events[i] is PermitsClosed {
            let i = choose|i: int| 0 <= i < n && #[trigger] events[i] is PermitsClosed;
            if i < n - 1 {
                assert(0 <= i < n - 1 && events[i] is PermitsClosed);
            }
        }
    }
}

/// Number of reads that the first `n` events handed out and that no drain among
/// them waited for.
pub open spec fn reads_out(events: Seq<ExecutionEvent>, n: int) -> int
    decreases n,
{
    if n <= 0 || events[n - 1] is Drained {
        0
    } else {
        reads_out(events, n - 1) + (if events[n - 1] is PermitGranted {
            1int
        } else {
            0int
        })
    }
}

/// Never more than four reads are out, and an execution is finished only once
/// every read that it handed out was waited for.
pub proof fn law_reads_are_few_and_waited_for(
    states: Seq<PrefetchExecution>,
    events: Seq<ExecutionEvent>,
    n: int,
)
    requires
        is_run(states, events),
        0 <= n < states.len(),
    ensures
        0 <= reads_out(events, n) <= 4,
        states[n].phase is Finished ==> reads_out(events, n) == 0,
{
    lemma_in_flight_counts(states, events, n);
    law_every_state_is_well_formed(states, events, n);
}

proof fn lemma_in_flight_counts(
    states: Seq<PrefetchExecution>,
    events: Seq<ExecutionEvent>,
    n: int,
)
    requires
        is_run(states, events),
        0 <= n < states.len(),
    ensures
        states[n].in_flight == reads_out(events, n),
    decreases n,
{
    if n > 0 {
        lemma_in_flight_counts(states, events, n - 1);
        law_every_state_is_well_formed(states, events, n - 1);
        assert(states[n - 1].accepts(events[n - 1]));
        assert(states[n - 1 + 1] == states[n - 1].after(events[n - 1]));
    }
}

/// An execution goes on as long as nothing stops it: a look at the clock that
/// shows no reason to stop leads on to the next block, and a drained batch to the
/// next one while blocks are left.
pub proof fn law_unstopped_execution_goes_on(
    states: Seq<PrefetchExecution>,
    events: Seq<ExecutionEvent>,
    i: int,
)
    requires
        is_run(states, events),
        0 <= i < events.len(),
        !states[i].cancel,
    ensures
        events[i] == (ExecutionEvent::Clock { cancelled: false, expired: false }) ==> {
            &&& states[i].phase is BatchStart ==> states[i + 1].phase is BlockStart
            &&& states[i].phase is BlockStart ==> states[i + 1].phase is AwaitingPermit
        },
        events[i] is PermitGranted ==> states[i + 1].phase is BlockStart || states[i + 1].phase == (
        ExecutionPhase::Draining { permits_closed: false }),
        events[i] == (ExecutionEvent::Drained { failed: false }) ==> states[i + 1].phase == (
        if states[i].next < states[i].blocks {
            ExecutionPhase::BatchStart
        } else {
            ExecutionPhase::Finished { result: ExecutionResult::Ended }
        }),
        events[i] matches ExecutionEvent::Planned { blocks, expired } ==> states[i + 1].phase == (
        if blocks > 0 && !expired {
            ExecutionPhase::BatchStart
        } else {
            ExecutionPhase::Finished { result: ExecutionResult::Ended }
        }),
{
    law_every_state_is_well_formed(states, events, i);
    assert(states[i].accepts(events[i]));
    assert(states[i + 1] == states[i].after(events[i]));
}

/// Whatever comes of what a phase asks for is an event that it accepts.
pub proof fn law_every_outcome_is_accepted(state: PrefetchExecution, event: ExecutionEvent)
    ensures
        state.phase is Planning && (event is Planned || event is PlanningFailed)
            ==> state.accepts(event),
        (state.phase is BatchStart || state.phase is BlockStart) && event is Clock
            ==> state.accepts(event),
        state.phase is AwaitingPermit && (event is PermitGranted || event is PermitsClosed
            || event is DeadlineReached) ==> state.accepts(event),
        state.phase is Draining && (event is Drained || event is DeadlineReached)
            ==> state.accepts(event),
        state.phase is Finished ==> !state.accepts(event),
{
}

/// A plan fits its layers exactly when each of its blocks is of an object that
/// there is, of a layer that there is, and does not begin past the object's end.
pub proof fn law_plan_fits_when_its_blocks_do(plan: PrefetchPlan, layers: nat)
    ensures
        plan.fits(layers) <==> forall|i: int|
            0 <= i < plan.blocks@.len() ==> {
                let block = #[trigger] plan.blocks@[i];
                &&& block.object < plan.objects@.len()
                &&& plan.objects@[block.object as int].layer < layers
                &&& block.block_id * plan.block_bytes <= plan.objects@[block.object as int].size
            },
{
    if forall|i: int|
        0 <= i < plan.blocks@.len() ==> {
            let block = #[trigger] plan.blocks@[i];
            &&& block.object < plan.objects@.len()
            &&& plan.objects@[block.object as int].layer < layers
            &&& block.block_id * plan.block_bytes <= plan.objects@[block.object as int].size
        } {
        assert forall|i: int| 0 <= i < plan.blocks@.len() implies plan.block_fits(
            #[trigger] plan.blocks@[i],
            layers,
        ) by {}
    }
    if plan.fits(layers) {
        assert forall|i: int| 0 <= i < plan.blocks@.len() implies {
            let block = #[trigger] plan.blocks@[i];
            &&& block.object < plan.objects@.len()
            &&& plan.objects@[block.object as int].layer < layers
            &&& block.block_id * plan.block_bytes <= plan.objects@[block.object as int].size
        } by {
            assert(plan.block_fits(plan.blocks@[i], layers));
        }
    }
}

/// The read of a block takes in exactly the bytes of the object that are in the
/// block, from the layer that the object is.
pub proof fn law_read_takes_in_its_block(plan: PrefetchPlan, layers: nat, index: int, byte: int)
    requires
        plan.fits(layers),
        0 <= index < plan.blocks@.len(),
        plan.block_bytes > 0,
        0 <= byte,
    ensures
        ({
            let block = plan.blocks@[index];
            let object = plan.objects@[block.object as int];
            let read = plan.read_of(index);
            &&& read.layer == object.layer
            &&& read.offset <= byte < read.offset + read.len <==> byte < object.size && byte
                / plan.block_bytes as int == block.block_id
        }),
{
    assert(plan.block_fits(plan.blocks@[index], layers));
    let id = plan.blocks@[index].block_id as int;
    let size = plan.block_bytes as int;
    assert(0 <= id * size) by (nonlinear_arith)
        requires
            0 <= id,
            size > 0,
    ;
    assert(byte / size == id <==> id * size <= byte < id * size + size) by (nonlinear_arith)
        requires
            size > 0,
            0 <= byte,
            0 <= id,
    ;
}

} // verus!
