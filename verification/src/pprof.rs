//! Heap profiling via statistical sampling.
//!
//! Sampling uses the Poisson per-byte model: a geometric countdown is
//! decremented by each allocation's size. When it crosses zero, a stack trace
//! is captured and associated with the allocated address in a side table. On
//! dealloc, sampled addresses are looked up and live counters decremented.
//!
//! Countdowns and weights are drawn and computed by whoever drives the
//! profiler; here they are plain numbers.

use std::collections::HashMap;

use vstd::prelude::*;

use crate::metrics::cast_signed;
use crate::metrics::signed;

verus! {

broadcast use vstd::std_specs::hash::group_hash_axioms;

/// Default sample interval in bytes (512 KiB).
pub const DEFAULT_SAMPLE_INTERVAL: u64 = 524288;

/// Default limit on the frames of a stack trace.
pub const DEFAULT_BACKTRACE_DEPTH: usize = 64;

/// Most stacks that the stack table has ids for.
pub const MAX_STACKS: usize = 0xffff_ffff;

/// Profiling configuration. Pass `Some(PprofConfig)` to activate profiling,
/// `None` to deactivate.
#[derive(Clone, Copy, Debug)]
pub struct PprofConfig {
    /// Mean bytes between samples (Poisson per-byte model).
    /// Must be > 0. Defaults to 512 KiB.
    pub sample_interval: u64,
}

impl Default for PprofConfig {
    fn default() -> (r: PprofConfig)
        ensures
            r.sample_interval == DEFAULT_SAMPLE_INTERVAL,
    {
        PprofConfig { sample_interval: DEFAULT_SAMPLE_INTERVAL }
    }
}

/// Whether profiling is active, and how it samples.
pub struct PprofControl {
    pub active: bool,
    pub sample_interval: u64,
    pub backtrace_depth: usize,
}

impl PprofControl {
    /// The sample interval is not zero.
    pub open spec fn wf(&self) -> bool {
        self.sample_interval > 0
    }

    /// Profiling is inactive at first.
    pub fn new() -> (r: PprofControl)
        ensures
            r.wf(),
            !r.active,
            r.sample_interval == DEFAULT_SAMPLE_INTERVAL,
            r.backtrace_depth == DEFAULT_BACKTRACE_DEPTH,
    {
        PprofControl {
            active: false,
            sample_interval: DEFAULT_SAMPLE_INTERVAL,
            backtrace_depth: DEFAULT_BACKTRACE_DEPTH,
        }
    }

    /// Limits stack traces to `depth` frames.
    pub fn set_backtrace_depth(&mut self, depth: usize)
        ensures
            final(self).backtrace_depth == depth,
            final(self).active == old(self).active,
            final(self).sample_interval == old(self).sample_interval,
    {
        self.backtrace_depth = depth;
    }
}

/// Activate (`Some`) or deactivate (`None`) heap profiling.
pub fn set_pprof_config(control: &mut PprofControl, config: Option<PprofConfig>)
    requires
        old(control).wf(),
        config matches Some(c) ==> c.sample_interval > 0,
    ensures
        final(control).wf(),
        final(control).active == (config is Some),
        final(control).sample_interval == (match config {
            Some(c) => c.sample_interval,
            None => old(control).sample_interval,
        }),
        final(control).backtrace_depth == old(control).backtrace_depth,
{
    match config {
        Some(c) => {
            control.sample_interval = c.sample_interval;
            control.active = true;
        },
        None => {
            control.active = false;
        },
    }
}

/// Returns the current profiling configuration, or `None` if inactive.
pub fn pprof_config(control: &PprofControl) -> (r: Option<PprofConfig>)
    ensures
        r is Some <==> control.active,
        r matches Some(c) ==> c.sample_interval == control.sample_interval,
{
    if control.active {
        Some(PprofConfig { sample_interval: control.sample_interval })
    } else {
        None
    }
}

/// Returns false quickly when profiling is off, avoiding any overhead.
pub fn should_sample(control: &PprofControl) -> (r: bool)
    ensures
        r == control.active,
{
    control.active
}

/// Per-heap countdown to the next sample.
pub struct Sampler {
    pub countdown: i64,
    pub interval: u64,
}

impl Sampler {
    /// A sampler whose first countdown is `draw`, drawn for the given interval.
    pub fn new(interval: u64, draw: u64) -> (r: Sampler)
        ensures
            r.interval == interval,
            r.countdown == signed(draw as int),
    {
        Sampler { countdown: cast_signed(draw), interval }
    }

    /// Subtract `size` from the countdown. Returns `true` if a sample should
    /// be taken (countdown crossed zero); the countdown is to be reset then.
    pub fn check(&mut self, size: usize) -> (r: bool)
        requires
            size <= i64::MAX,
            old(self).countdown - size >= i64::MIN,
        ensures
            final(self).countdown == old(self).countdown - size,
            final(self).interval == old(self).interval,
            r == (final(self).countdown <= 0),
    {
        self.countdown = self.countdown - size as i64;
        self.countdown <= 0
    }

    /// Starts the next countdown.
    pub fn reset(&mut self, draw: u64)
        ensures
            final(self).countdown == signed(draw as int),
            final(self).interval == old(self).interval,
    {
        self.countdown = cast_signed(draw);
    }
}

/// Number of a deduplicated stack trace.
pub type StackId = u32;

/// What has been sampled at one stack trace.
#[derive(Clone, Copy, Debug, PartialEq, Eq, Structural)]
pub struct StackCounters {
    pub alloc_count: u64,
    pub alloc_bytes: u64,
    pub live_count: i64,
    pub live_bytes: i64,
}

impl StackCounters {
    /// Nothing sampled.
    pub open spec fn zero() -> StackCounters {
        StackCounters { alloc_count: 0, alloc_bytes: 0, live_count: 0, live_bytes: 0 }
    }

    /// A sample of a block of `size` bytes that stands for `weight` blocks can be added.
    pub open spec fn has_room(self, size: int, weight: int) -> bool {
        &&& self.alloc_count + weight <= u64::MAX
        &&& weight * size <= u64::MAX
        &&& self.alloc_bytes + weight * size <= u64::MAX
        &&& i64::MIN <= self.live_count + signed(weight) <= i64::MAX
        &&& i64::MIN <= self.live_bytes + signed(weight * size) <= i64::MAX
    }

    /// With such a sample added.
    pub open spec fn sampled(self, size: int, weight: int) -> StackCounters {
        StackCounters {
            alloc_count: (self.alloc_count + weight) as u64,
            alloc_bytes: (self.alloc_bytes + weight * size) as u64,
            live_count: (self.live_count + signed(weight)) as i64,
            live_bytes: (self.live_bytes + signed(weight * size)) as i64,
        }
    }

    /// Such a sample can be taken off the live counters.
    pub open spec fn can_free(self, size: int, weight: int) -> bool {
        &&& weight * size <= u64::MAX
        &&& i64::MIN <= self.live_count - signed(weight) <= i64::MAX
        &&& i64::MIN <= self.live_bytes - signed(weight * size) <= i64::MAX
    }

    /// With such a sample off the live counters.
    pub open spec fn freed(self, size: int, weight: int) -> StackCounters {
        StackCounters {
            live_count: (self.live_count - signed(weight)) as i64,
            live_bytes: (self.live_bytes - signed(weight * size)) as i64,
            ..self
        }
    }
}

impl StackCounters {
    /// Whether a sample can be added.
    fn can_add(&self, size: usize, weight: u64) -> (r: bool)
        ensures
            r == self.has_room(size as int, weight as int),
    {
        match weight.checked_mul(size as u64) {
            None => false,
            Some(bytes) => {
                self.alloc_count.checked_add(weight).is_some() && self.alloc_bytes.checked_add(
                    bytes,
                ).is_some() && self.live_count.checked_add(cast_signed(weight)).is_some()
                    && self.live_bytes.checked_add(cast_signed(bytes)).is_some()
            },
        }
    }

    /// Whether a sample can be taken off the live counters.
    fn can_take_off(&self, size: usize, weight: u64) -> (r: bool)
        ensures
            r == self.can_free(size as int, weight as int),
    {
        match weight.checked_mul(size as u64) {
            None => false,
            Some(bytes) => {
                self.live_count.checked_sub(cast_signed(weight)).is_some()
                    && self.live_bytes.checked_sub(cast_signed(bytes)).is_some()
            },
        }
    }
}

/// A sampled block.
#[derive(Clone, Copy, Debug, PartialEq, Eq, Structural)]
pub struct SampleRecord {
    pub stack_id: StackId,
    pub size: usize,
    pub class_idx: u8,
    /// The sample interval when the sample was taken.
    pub interval: u64,
    /// The number of blocks that the sample stands for.
    pub weight: u64,
}

/// Deduplicated stack traces and what has been sampled at each.
pub struct StackTable {
    pub frames: Vec<Vec<usize>>,
    pub counters: Vec<StackCounters>,
    /// The size classes that have been sampled at each trace, in the order they first came.
    pub classes: Vec<Vec<u8>>,
}

/// Two stack traces are the same.
fn same_frames(a: &Vec<usize>, b: &Vec<usize>) -> (r: bool)
    ensures
        r == (a@ == b@),
{
    if a.len() != b.len() {
        return false;
    }
    let mut i: usize = 0;
    while i < a.len()
        invariant
            i <= a.len(),
            a.len() == b.len(),
            forall|j: int| 0 <= j < i ==> a@[j] == b@[j],
        decreases a.len() - i,
    {
        if a[i] != b[i] {
            assert(a@[i as int] != b@[i as int]);
            return false;
        }
        i = i + 1;
    }
    assert(a@ =~= b@);
    true
}

/// The stack traces with `frames` among them.
pub open spec fn with_stack(stacks: Seq<Seq<usize>>, frames: Seq<usize>) -> Seq<Seq<usize>> {
    if stacks.contains(frames) {
        stacks
    } else {
        stacks.push(frames)
    }
}

/// The counters after `frames` has got a place among the stack traces.
pub open spec fn with_counters(
    stacks: Seq<Seq<usize>>,
    counters: Seq<StackCounters>,
    frames: Seq<usize>,
) -> Seq<StackCounters> {
    if stacks.contains(frames) {
        counters
    } else {
        counters.push(StackCounters::zero())
    }
}

/// The size classes of each trace after `frames` has got a place among the stack traces.
pub open spec fn with_classes(
    stacks: Seq<Seq<usize>>,
    classes: Seq<Seq<u8>>,
    frames: Seq<usize>,
) -> Seq<Seq<u8>> {
    if stacks.contains(frames) {
        classes
    } else {
        classes.push(Seq::empty())
    }
}

/// The size classes with `class` among them.
pub open spec fn with_class(classes: Seq<u8>, class: u8) -> Seq<u8> {
    if classes.contains(class) {
        classes
    } else {
        classes.push(class)
    }
}

/// Adds a size class to those of a trace.
fn add_class(classes: &mut Vec<u8>, class: u8)
    ensures
        final(classes)@ == with_class(old(classes)@, class),
{
    let mut i: usize = 0;
    while i < classes.len()
        invariant
            i <= classes.len(),
            classes@ == old(classes)@,
            forall|j: int| 0 <= j < i ==> #[trigger] classes@[j] != class,
        decreases classes.len() - i,
    {
        if classes[i] == class {
            assert(classes@[i as int] == class);
            return;
        }
        i = i + 1;
    }
    classes.push(class);
}

impl StackTable {
    /// The size classes sampled at each trace, by id.
    pub open spec fn class_lists(&self) -> Seq<Seq<u8>> {
        Seq::new(self.classes@.len(), |i: int| self.classes@[i]@)
    }

    /// The stack traces, by id.
    pub open spec fn view(&self) -> Seq<Seq<usize>> {
        Seq::new(self.frames@.len(), |i: int| self.frames@[i]@)
    }

    /// No trace occurs twice, each has counters, and there are ids for all.
    pub open spec fn wf(&self) -> bool {
        &&& self@.no_duplicates()
        &&& self.counters.len() == self.frames.len()
        &&& self.classes.len() == self.frames.len()
        &&& self.frames.len() <= MAX_STACKS
    }

    /// A table without traces.
    pub fn new() -> (r: StackTable)
        ensures
            r.wf(),
            r@ == Seq::<Seq<usize>>::empty(),
            r.counters@ == Seq::<StackCounters>::empty(),
            r.class_lists() == Seq::<Seq<u8>>::empty(),
    {
        let r = StackTable { frames: Vec::new(), counters: Vec::new(), classes: Vec::new() };
        assert(r@ =~= Seq::empty());
        assert(r.class_lists() =~= Seq::empty());
        r
    }

    /// The id of a stack trace, which gets one if it has none yet.
    pub fn intern(&mut self, frames: Vec<usize>) -> (r: StackId)
        requires
            old(self).wf(),
            old(self)@.contains(frames@) || old(self)@.len() < MAX_STACKS,
        ensures
            final(self).wf(),
            final(self)@ == with_stack(old(self)@, frames@),
            final(self).counters@ == with_counters(old(self)@, old(self).counters@, frames@),
            final(self).class_lists() == with_classes(
                old(self)@,
                old(self).class_lists(),
                frames@,
            ),
            r < final(self)@.len(),
            final(self)@[r as int] == frames@,
            r == final(self)@.index_of(frames@),
    {
        let mut i: usize = 0;
        while i < self.frames.len()
            invariant
                i <= self.frames.len(),
                self.wf(),
                *self == *old(self),
                forall|j: int| 0 <= j < i ==> #[trigger] self@[j] != frames@,
            decreases self.frames.len() - i,
        {
            if same_frames(&self.frames[i], &frames) {
                proof {
                    assert(self@[i as int] == frames@);
                    assert(self@.contains(frames@));
                    assert(self@[self@.index_of(frames@)] == frames@);
                }
                return i as u32;
            }
            i = i + 1;
        }
        let ghost was = self@;
        let ghost lists = self.class_lists();
        assert(!was.contains(frames@));
        self.frames.push(frames);
        self.counters.push(
            StackCounters { alloc_count: 0, alloc_bytes: 0, live_count: 0, live_bytes: 0 },
        );
        self.classes.push(Vec::new());
        proof {
            assert(self.class_lists() =~= lists.push(Seq::empty()));
            assert(self@ =~= was.push(frames@));
            assert(self@[i as int] == frames@);
            assert(self@.contains(frames@));
            assert(self@[self@.index_of(frames@)] == frames@);
        }
        i as u32
    }
}

/// Sampled blocks that are still in use, by address.
pub struct SideTable {
    pub map: HashMap<usize, SampleRecord>,
}

impl SideTable {
    /// A table without records.
    pub fn new() -> (r: SideTable)
        ensures
            r.map@ == Map::<usize, SampleRecord>::empty(),
    {
        SideTable { map: HashMap::new() }
    }
}

/// State of the profiler.
pub struct PprofState {
    pub stacks: StackTable,
    pub side: SideTable,
}

/// State of the profiler as sequences and maps.
#[verifier::ext_equal]
pub struct ProfView {
    pub stacks: Seq<Seq<usize>>,
    pub counters: Seq<StackCounters>,
    pub classes: Seq<Seq<u8>>,
    pub side: Map<usize, SampleRecord>,
}

impl ProfView {
    /// Traces are distinct, each has counters and size classes, and every record is of one of them.
    pub open spec fn wf(self) -> bool {
        &&& self.stacks.no_duplicates()
        &&& self.counters.len() == self.stacks.len()
        &&& self.classes.len() == self.stacks.len()
        &&& self.stacks.len() <= MAX_STACKS
        &&& forall|p: usize| #[trigger]
            self.side.contains_key(p) ==> self.side[p].stack_id < self.stacks.len()
    }

    /// Another sample with the given trace can be recorded: its counters have room, and a new
    /// trace gets an id.
    pub open spec fn has_room_for(self, frames: Seq<usize>, size: int, weight: int) -> bool {
        if self.stacks.contains(frames) {
            self.counters[self.stacks.index_of(frames)].has_room(size, weight)
        } else {
            self.stacks.len() < MAX_STACKS && StackCounters::zero().has_room(size, weight)
        }
    }

    /// Another sample can be recorded, whatever its trace.
    pub open spec fn has_room(self, size: int, weight: int) -> bool {
        &&& self.stacks.len() < MAX_STACKS
        &&& StackCounters::zero().has_room(size, weight)
        &&& forall|i: int|
            0 <= i < self.counters.len() ==> (#[trigger] self.counters[i]).has_room(size, weight)
    }

    /// After a sample has been recorded.
    pub open spec fn recorded(
        self,
        frames: Seq<usize>,
        ptr: usize,
        size: usize,
        class_idx: u8,
        interval: u64,
        weight: u64,
    ) -> ProfView {
        let stacks = with_stack(self.stacks, frames);
        let counters = with_counters(self.stacks, self.counters, frames);
        let classes = with_classes(self.stacks, self.classes, frames);
        let id = stacks.index_of(frames);
        ProfView {
            stacks,
            classes: classes.update(id, with_class(classes[id], class_idx)),
            counters: counters.update(id, counters[id].sampled(size as int, weight as int)),
            side: self.side.insert(
                ptr,
                SampleRecord { stack_id: id as u32, size, class_idx, interval, weight },
            ),
        }
    }

    /// The record at `ptr`, if there is one, can be taken off the live counters.
    pub open spec fn can_remove(self, ptr: usize) -> bool {
        self.side.contains_key(ptr) ==> self.counters[self.side[ptr].stack_id as int].can_free(
            self.side[ptr].size as int,
            self.side[ptr].weight as int,
        )
    }

    /// After the block at `ptr` has been freed.
    pub open spec fn removed(self, ptr: usize) -> ProfView {
        if self.side.contains_key(ptr) {
            let r = self.side[ptr];
            ProfView {
                counters: self.counters.update(
                    r.stack_id as int,
                    self.counters[r.stack_id as int].freed(r.size as int, r.weight as int),
                ),
                side: self.side.remove(ptr),
                ..self
            }
        } else {
            self
        }
    }
}

impl PprofState {
    /// Traces, counters and records.
    pub open spec fn view(&self) -> ProfView {
        ProfView {
            stacks: self.stacks@,
            counters: self.stacks.counters@,
            classes: self.stacks.class_lists(),
            side: self.side.map@,
        }
    }

    /// What holds of the profiler between any two calls.
    pub open spec fn wf(&self) -> bool {
        self@.wf()
    }

    /// A profiler that has sampled nothing.
    pub fn new() -> (r: PprofState)
        ensures
            r.wf(),
            r@.stacks == Seq::<Seq<usize>>::empty(),
            r@.counters == Seq::<StackCounters>::empty(),
            r@.classes == Seq::<Seq<u8>>::empty(),
            r@.side == Map::<usize, SampleRecord>::empty(),
    {
        PprofState { stacks: StackTable::new(), side: SideTable::new() }
    }

    /// Records a sample of a block, with the stack trace that was captured for it.
    pub fn record_frames(
        &mut self,
        frames: Vec<usize>,
        ptr: usize,
        size: usize,
        class_idx: u8,
        interval: u64,
        weight: u64,
    )
        requires
            old(self).wf(),
            old(self)@.has_room_for(frames@, size as int, weight as int),
        ensures
            final(self).wf(),
            final(self)@ == old(self)@.recorded(frames@, ptr, size, class_idx, interval, weight),
    {
        let ghost v = self@;
        let ghost f = frames@;
        let id: StackId = self.stacks.intern(frames);
        proof {
            assert(self.stacks.counters@[id as int].has_room(size as int, weight as int)) by {
                if !v.stacks.contains(f) && id < v.counters.len() {
                    assert(v.stacks[id as int] == f);
                    assert(false);
                }
            }
        }
        let c = self.stacks.counters[id as usize];
        assert(0 <= weight * size) by (nonlinear_arith)
            requires
                weight >= 0,
                size >= 0,
        ;
        let bytes: u64 = weight * size as u64;
        let next = StackCounters {
            alloc_count: c.alloc_count + weight,
            alloc_bytes: c.alloc_bytes + bytes,
            live_count: c.live_count + cast_signed(weight),
            live_bytes: c.live_bytes + cast_signed(bytes),
        };
        self.stacks.counters.set(id as usize, next);
        let ghost lists = self.stacks.class_lists();
        add_class(&mut self.stacks.classes[id as usize], class_idx);
        assert(self.stacks.class_lists() =~= lists.update(
            id as int,
            with_class(lists[id as int], class_idx),
        ));
        self.side.map.insert(
            ptr,
            SampleRecord { stack_id: id, size, class_idx, interval, weight },
        );
        proof {
            assert forall|p: usize| #[trigger] self@.side.contains_key(
                p,
            ) implies self@.side[p].stack_id < self@.stacks.len() by {
                if p != ptr {
                    assert(v.side.contains_key(p));
                }
            }
        }
    }

    /// Whether another sample can be recorded, whatever its stack trace.
    pub fn can_record(&self, size: usize, weight: u64) -> (r: bool)
        requires
            self.wf(),
        ensures
            r == self@.has_room(size as int, weight as int),
    {
        let zero = StackCounters { alloc_count: 0, alloc_bytes: 0, live_count: 0, live_bytes: 0 };
        if self.stacks.frames.len() >= MAX_STACKS || !zero.can_add(size, weight) {
            return false;
        }
        let mut i: usize = 0;
        while i < self.stacks.counters.len()
            invariant
                i <= self.stacks.counters.len(),
                forall|k: int|
                    0 <= k < i ==> (#[trigger] self@.counters[k]).has_room(
                        size as int,
                        weight as int,
                    ),
            decreases self.stacks.counters.len() - i,
        {
            if !self.stacks.counters[i].can_add(size, weight) {
                assert(!self@.counters[i as int].has_room(size as int, weight as int));
                return false;
            }
            i = i + 1;
        }
        true
    }

    /// Whether the record at `ptr`, if there is one, can be taken off the live counters.
    pub fn can_remove_sample(&self, ptr: usize) -> (r: bool)
        requires
            self.wf(),
        ensures
            r == self@.can_remove(ptr),
    {
        match self.side.map.get(&ptr) {
            None => true,
            Some(r) => {
                assert(self@.side.contains_key(ptr));
                self.stacks.counters[r.stack_id as usize].can_take_off(r.size, r.weight)
            },
        }
    }

    /// Takes the block at `ptr`, if it was sampled, out of the side table and off the live
    /// counters of its stack trace.
    pub fn remove(&mut self, ptr: usize)
        requires
            old(self).wf(),
            old(self)@.can_remove(ptr),
        ensures
            final(self).wf(),
            final(self)@ == old(self)@.removed(ptr),
    {
        let ghost v = self@;
        let gone = self.side.map.remove(&ptr);
        match gone {
            None => {
                assert(self@.side =~= v.side);
            },
            Some(r) => {
                let c = self.stacks.counters[r.stack_id as usize];
                assert(0 <= r.weight * r.size) by (nonlinear_arith)
                    requires
                        r.weight >= 0,
                        r.size >= 0,
                ;
                let bytes: u64 = r.weight * r.size as u64;
                let next = StackCounters {
                    live_count: c.live_count - cast_signed(r.weight),
                    live_bytes: c.live_bytes - cast_signed(bytes),
                    ..c
                };
                self.stacks.counters.set(r.stack_id as usize, next);
                proof {
                    assert forall|p: usize| #[trigger] self@.side.contains_key(
                        p,
                    ) implies self@.side[p].stack_id < self@.stacks.len() by {
                        assert(v.side.contains_key(p));
                    }
                }
            },
        }
    }
}

/// Marks that a thread is inside the profiler, so that the profiler's own allocations are not
/// sampled.
pub struct ReentrancyGuard {
    pub held: bool,
}

impl ReentrancyGuard {
    /// Nobody holds the guard.
    pub open spec fn admits(self) -> bool {
        !self.held
    }

    /// After the guard has been asked for: it is held, by the one who asked or by another.
    pub open spec fn entered(self) -> ReentrancyGuard {
        ReentrancyGuard { held: true }
    }

    /// After the one who holds the guard has given it back.
    pub open spec fn left(self) -> ReentrancyGuard {
        ReentrancyGuard { held: false }
    }

    /// The profiler after a call that takes it from `before` to `after`, unless it is not admitted.
    pub open spec fn guards(self, before: ProfView, after: ProfView) -> ProfView {
        if self.admits() {
            after
        } else {
            before
        }
    }

    /// A guard that is not held.
    pub fn new() -> (r: ReentrancyGuard)
        ensures
            r.admits(),
    {
        ReentrancyGuard { held: false }
    }

    /// Takes the guard. Returns false if it is held already.
    pub fn acquire(&mut self) -> (r: bool)
        ensures
            *final(self) == old(self).entered(),
            r == old(self).admits(),
    {
        let free: bool = !self.held;
        self.held = true;
        free
    }

    /// Gives the guard back.
    pub fn release(&mut self)
        ensures
            *final(self) == old(self).left(),
    {
        self.held = false;
    }
}

/// Adds a frame to a stack trace. Returns whether there is room for another within the limit.
pub fn push_frame(frames: &mut Vec<usize>, ip: usize, limit: usize) -> (r: bool)
    ensures
        final(frames)@ == old(frames)@.push(ip),
        r == (final(frames)@.len() < limit),
{
    frames.push(ip);
    frames.len() < limit
}

/// Stack of the calling thread, from `backtrace::trace`: the instruction addresses of the frames
/// that it visits, up to the limit, for which [`push_frame`] is asked after each frame. At least
/// one frame is taken, even where the limit is zero.
///
/// Which frames there are depends on the caller; nothing is said of them.
#[verifier::external_body]
fn capture(limit: usize) -> (frames: Vec<usize>)
    ensures
        frames.len() <= limit || frames.len() <= 1,
{
    let mut frames: Vec<usize> = Vec::new();
    backtrace::trace(|frame| push_frame(&mut frames, frame.ip() as usize, limit));
    frames
}

/// `frames` is what capturing a stack of at most `limit` frames can give.
pub closed spec fn captured(limit: usize, frames: Vec<usize>) -> bool {
    call_ensures(capture, (limit,), frames)
}

/// Records a sample of a block with the stack trace of the caller, unless the thread is inside
/// the profiler already.
pub fn record_sample(
    guard: &mut ReentrancyGuard,
    state: &mut PprofState,
    control: &PprofControl,
    ptr: usize,
    size: usize,
    class_idx: u8,
    weight: u64,
)
    requires
        old(state).wf(),
        old(guard).admits() ==> old(state)@.has_room(size as int, weight as int),
    ensures
        final(state).wf(),
        *final(guard) == *old(guard),
        !old(guard).admits() ==> final(state)@ == old(state)@,
        old(guard).admits() ==> exists|frames: Vec<usize>| #[trigger]
            captured(control.backtrace_depth, frames) && (frames@.len() <= control.backtrace_depth
                || frames@.len() <= 1) && final(state)@ == old(state)@.recorded(
                frames@,
                ptr,
                size,
                class_idx,
                control.sample_interval,
                weight,
            ),
{
    if !guard.acquire() {
        return;
    }
    let frames = capture(control.backtrace_depth);
    proof {
        let v = state@;
        if v.stacks.contains(frames@) {
            assert(v.stacks[v.stacks.index_of(frames@)] == frames@);
        }
    }
    assert(captured(control.backtrace_depth, frames));
    state.record_frames(frames, ptr, size, class_idx, control.sample_interval, weight);
    guard.release();
}

/// Takes the block at `ptr`, if it was sampled, off the live counters, unless the thread is
/// inside the profiler.
pub fn maybe_remove_sample(guard: &mut ReentrancyGuard, state: &mut PprofState, ptr: usize)
    requires
        old(state).wf(),
        old(guard).admits() ==> old(state)@.can_remove(ptr),
    ensures
        final(state).wf(),
        *final(guard) == *old(guard),
        final(state)@ == old(guard).guards(old(state)@, old(state)@.removed(ptr)),
{
    if !guard.acquire() {
        return;
    }
    state.remove(ptr);
    guard.release();
}

/// A sampled block that has been freed leaves the live counters of its stack trace and the side
/// table as they were, whatever the sample interval is by then, and what has been counted as
/// allocated stands. Nothing else changes, and freeing once more changes nothing.
pub proof fn law_freed_sample_restores_live(
    v: ProfView,
    frames: Seq<usize>,
    ptr: usize,
    size: usize,
    class_idx: u8,
    interval: u64,
    weight: u64,
)
    requires
        v.wf(),
        v.has_room_for(frames, size as int, weight as int),
        !v.side.contains_key(ptr),
    ensures
        ({
            let n = v.recorded(frames, ptr, size, class_idx, interval, weight);
            let m = n.removed(ptr);
            let id = n.stacks.index_of(frames);
            &&& n.can_remove(ptr)
            &&& m.side == v.side
            &&& m.stacks == n.stacks
            &&& m.counters.len() == n.counters.len()
            &&& forall|i: int|
                0 <= i < v.counters.len() ==> (#[trigger] m.counters[i]).live_count
                    == v.counters[i].live_count && m.counters[i].live_bytes
                    == v.counters[i].live_bytes
            &&& m.counters[id].alloc_count == n.counters[id].alloc_count
            &&& m.counters[id].alloc_bytes == n.counters[id].alloc_bytes
            &&& m.classes == n.classes
            &&& forall|i: int|
                0 <= i < v.counters.len() && i != id ==> #[trigger] m.counters[i] == v.counters[i]
            &&& m.removed(ptr) == m
            &&& id >= v.counters.len() ==> m.counters[id].live_count == 0
                && m.counters[id].live_bytes == 0
        }),
{
    let n = v.recorded(frames, ptr, size, class_idx, interval, weight);
    let id = n.stacks.index_of(frames);
    assert(n.stacks.contains(frames)) by {
        if !v.stacks.contains(frames) {
            assert(n.stacks[v.stacks.len() as int] == frames);
        }
    }
    assert(n.stacks[id] == frames);
    let old = with_counters(v.stacks, v.counters, frames)[id];
    assert(old.has_room(size as int, weight as int)) by {
        if v.stacks.contains(frames) {
            assert(v.stacks[v.stacks.index_of(frames)] == frames);
        }
    }
    assert(n.side.remove(ptr) =~= v.side);
}

/// Samples with the same stack trace share an id, and samples with different ones do not.
pub proof fn law_stacks_share_ids(
    v: ProfView,
    f: Seq<usize>,
    g: Seq<usize>,
    p: usize,
    q: usize,
    size: usize,
    class_idx: u8,
    interval: u64,
    weight: u64,
)
    requires
        v.wf(),
        with_stack(with_stack(v.stacks, f), g).len() <= MAX_STACKS,
        p != q,
    ensures
        ({
            let n = v.recorded(f, p, size, class_idx, interval, weight);
            let m = n.recorded(g, q, size, class_idx, interval, weight);
            (m.side[p].stack_id == m.side[q].stack_id) <==> f == g
        }),
{
    let n = v.recorded(f, p, size, class_idx, interval, weight);
    let m = n.recorded(g, q, size, class_idx, interval, weight);
    assert(n.stacks.contains(f)) by {
        if !v.stacks.contains(f) {
            assert(n.stacks[v.stacks.len() as int] == f);
        }
    }
    let i = n.stacks.index_of(f);
    assert(n.stacks[i] == f);
    assert(m.stacks.contains(g)) by {
        if !n.stacks.contains(g) {
            assert(m.stacks[n.stacks.len() as int] == g);
        }
    }
    let j = m.stacks.index_of(g);
    assert(m.stacks[j] == g);
    assert(m.stacks[i] == f);
    assert(n.stacks.no_duplicates());
    assert(m.stacks.no_duplicates());
}

/// Recording and freeing keep the profiler well formed.
pub proof fn law_profile_stays_well_formed(
    v: ProfView,
    frames: Seq<usize>,
    ptr: usize,
    size: usize,
    class_idx: u8,
    interval: u64,
    weight: u64,
)
    requires
        v.wf(),
        v.stacks.contains(frames) || v.stacks.len() < MAX_STACKS,
    ensures
        v.recorded(frames, ptr, size, class_idx, interval, weight).wf(),
        v.removed(ptr).wf(),
{
    let n = v.recorded(frames, ptr, size, class_idx, interval, weight);
    assert(n.stacks.contains(frames)) by {
        if !v.stacks.contains(frames) {
            assert(n.stacks[v.stacks.len() as int] == frames);
        }
    }
    assert(n.stacks[n.stacks.index_of(frames)] == frames);
    assert forall|p: usize| #[trigger] n.side.contains_key(p) implies n.side[p].stack_id
        < n.stacks.len() by {
        if p != ptr {
            assert(v.side.contains_key(p));
        }
    }
}

/// A size class that has been sampled at a stack trace stays with that trace, whatever is recorded
/// or freed later.
pub proof fn law_sampled_class_is_remembered(
    v: ProfView,
    frames: Seq<usize>,
    ptr: usize,
    size: usize,
    class_idx: u8,
    interval: u64,
    weight: u64,
    freed: usize,
)
    requires
        v.wf(),
        v.stacks.contains(frames) || v.stacks.len() < MAX_STACKS,
    ensures
        ({
            let n = v.recorded(frames, ptr, size, class_idx, interval, weight);
            &&& n.classes[n.stacks.index_of(frames)].contains(class_idx)
            &&& n.removed(freed).classes == n.classes
            &&& forall|i: int, k: u8|
                #![trigger v.classes[i].contains(k)]
                0 <= i < v.classes.len() && v.classes[i].contains(k) ==> n.classes[i].contains(k)
                    && n.stacks[i] == v.stacks[i]
        }),
{
    let n = v.recorded(frames, ptr, size, class_idx, interval, weight);
    assert(n.stacks.contains(frames)) by {
        if !v.stacks.contains(frames) {
            assert(n.stacks[v.stacks.len() as int] == frames);
        }
    }
    let id = n.stacks.index_of(frames);
    assert(n.stacks[id] == frames);
    let was = with_classes(v.stacks, v.classes, frames)[id];
    assert(was.push(class_idx)[was.len() as int] == class_idx);
    assert forall|i: int, k: u8|
        #![trigger v.classes[i].contains(k)]
        0 <= i < v.classes.len() && v.classes[i].contains(k) implies n.classes[i].contains(k)
        && n.stacks[i] == v.stacks[i] by {
        if i == id && !was.contains(class_idx) {
            let j = choose|j: int| 0 <= j < was.len() && was[j] == k;
            assert(was.push(class_idx)[j] == k);
        }
    }
}

/// While the guard is held nobody else gets it, and the profiler stays as it is; once it has been
/// given back, the next one who asks gets it.
pub proof fn law_guard_keeps_others_out(g: ReentrancyGuard, before: ProfView, after: ProfView)
    ensures
        !g.entered().admits(),
        g.entered().entered() == g.entered(),
        g.entered().guards(before, after) == before,
        g.entered().left().admits(),
        g.admits() ==> g.entered().left() == g,
{
}

/// A sample of a block of `size` bytes that stands for `weight` blocks raises the blocks and the
/// bytes that have been allocated at its stack trace by exactly that much, whatever they were, and
/// the live ones too; what has been counted at every other trace stays.
pub proof fn law_sample_adds_to_its_trace(
    v: ProfView,
    frames: Seq<usize>,
    ptr: usize,
    size: usize,
    class_idx: u8,
    interval: u64,
    weight: u64,
)
    requires
        v.wf(),
        v.has_room_for(frames, size as int, weight as int),
    ensures
        ({
            let n = v.recorded(frames, ptr, size, class_idx, interval, weight);
            &&& n.counters.len() == n.stacks.len()
            &&& forall|i: int|
                0 <= i < v.stacks.len() && v.stacks[i] == frames ==> {
                    &&& (#[trigger] n.counters[i]).alloc_count == v.counters[i].alloc_count + weight
                    &&& n.counters[i].alloc_bytes == v.counters[i].alloc_bytes + weight * size
                    &&& weight <= i64::MAX ==> n.counters[i].live_count == v.counters[i].live_count
                        + weight
                    &&& weight > i64::MAX ==> n.counters[i].live_count == v.counters[i].live_count
                        + weight - 0x1_0000_0000_0000_0000
                    &&& weight * size <= i64::MAX ==> n.counters[i].live_bytes
                        == v.counters[i].live_bytes + weight * size
                    &&& weight * size > i64::MAX ==> n.counters[i].live_bytes
                        == v.counters[i].live_bytes + weight * size - 0x1_0000_0000_0000_0000
                }
            &&& forall|i: int|
                0 <= i < v.stacks.len() && v.stacks[i] != frames ==> #[trigger] n.counters[i]
                    == v.counters[i]
            &&& !v.stacks.contains(frames) ==> {
                let c = n.counters[v.stacks.len() as int];
                &&& c.alloc_count == weight
                &&& c.alloc_bytes == weight * size
                &&& weight <= i64::MAX ==> c.live_count == weight
                &&& weight > i64::MAX ==> c.live_count == weight - 0x1_0000_0000_0000_0000
                &&& weight * size <= i64::MAX ==> c.live_bytes == weight * size
                &&& weight * size > i64::MAX ==> c.live_bytes == weight * size
                    - 0x1_0000_0000_0000_0000
            }
        }),
{
    lemma_trace_place(v, frames, ptr, size, class_idx, interval, weight);
    assert(0 <= weight * size) by (nonlinear_arith)
        requires
            weight >= 0,
            size >= 0,
    ;
}

/// The stack trace of a sample is among the traces afterwards, once. The traces that were there
/// keep their places; a new one comes after them.
pub proof fn law_trace_gets_a_place(
    v: ProfView,
    frames: Seq<usize>,
    ptr: usize,
    size: usize,
    class_idx: u8,
    interval: u64,
    weight: u64,
)
    requires
        v.wf(),
    ensures
        ({
            let n = v.recorded(frames, ptr, size, class_idx, interval, weight);
            &&& v.stacks.contains(frames) ==> n.stacks == v.stacks
            &&& !v.stacks.contains(frames) ==> n.stacks == v.stacks.push(frames)
            &&& n.stacks.no_duplicates()
            &&& n.stacks.contains(frames)
        }),
{
    lemma_trace_place(v, frames, ptr, size, class_idx, interval, weight);
}

/// A sample is found again by the address of its block, with its trace, size, size class, interval
/// and weight. The records of other blocks stay.
pub proof fn law_sample_is_found_by_address(
    v: ProfView,
    frames: Seq<usize>,
    ptr: usize,
    size: usize,
    class_idx: u8,
    interval: u64,
    weight: u64,
)
    requires
        v.wf(),
        v.stacks.contains(frames) || v.stacks.len() < 0xffff_ffff,
    ensures
        ({
            let n = v.recorded(frames, ptr, size, class_idx, interval, weight);
            &&& n.side.contains_key(ptr)
            &&& n.side[ptr].stack_id < n.stacks.len()
            &&& n.stacks[n.side[ptr].stack_id as int] == frames
            &&& n.side[ptr].size == size
            &&& n.side[ptr].class_idx == class_idx
            &&& n.side[ptr].interval == interval
            &&& n.side[ptr].weight == weight
            &&& forall|q: usize|
                q != ptr ==> (#[trigger] n.side.contains_key(q) <==> v.side.contains_key(q))
            &&& forall|q: usize|
                q != ptr && v.side.contains_key(q) ==> #[trigger] n.side[q] == v.side[q]
        }),
{
    lemma_trace_place(v, frames, ptr, size, class_idx, interval, weight);
}

/// A sample adds its size class to those of its trace, after those that were there and only if it
/// is not among them. The classes of other traces stay.
pub proof fn law_sample_adds_its_class(
    v: ProfView,
    frames: Seq<usize>,
    ptr: usize,
    size: usize,
    class_idx: u8,
    interval: u64,
    weight: u64,
)
    requires
        v.wf(),
    ensures
        ({
            let n = v.recorded(frames, ptr, size, class_idx, interval, weight);
            &&& n.classes.len() == n.stacks.len()
            &&& forall|i: int|
                0 <= i < v.stacks.len() && (v.stacks[i] != frames || v.classes[i].contains(
                    class_idx,
                )) ==> #[trigger] n.classes[i] == v.classes[i]
            &&& forall|i: int|
                0 <= i < v.stacks.len() && v.stacks[i] == frames && !v.classes[i].contains(
                    class_idx,
                ) ==> #[trigger] n.classes[i] == v.classes[i].push(class_idx)
            &&& !v.stacks.contains(frames) ==> n.classes[v.stacks.len() as int] == seq![class_idx]
        }),
{
    lemma_trace_place(v, frames, ptr, size, class_idx, interval, weight);
}

/// Where the trace of a sample is found.
proof fn lemma_trace_place(
    v: ProfView,
    frames: Seq<usize>,
    ptr: usize,
    size: usize,
    class_idx: u8,
    interval: u64,
    weight: u64,
)
    requires
        v.wf(),
    ensures
        ({
            let n = v.recorded(frames, ptr, size, class_idx, interval, weight);
            let id = n.stacks.index_of(frames);
            &&& n.stacks.contains(frames)
            &&& 0 <= id < n.stacks.len()
            &&& n.stacks[id] == frames
            &&& n.stacks.no_duplicates()
            &&& !v.stacks.contains(frames) ==> id == v.stacks.len()
            &&& v.stacks.contains(frames) ==> id < v.stacks.len() && v.stacks[id] == frames
        }),
{
    let n = v.recorded(frames, ptr, size, class_idx, interval, weight);
    assert(n.stacks.contains(frames)) by {
        if !v.stacks.contains(frames) {
            assert(n.stacks[v.stacks.len() as int] == frames);
        }
    }
    let id = n.stacks.index_of(frames);
    assert(n.stacks[id] == frames);
    if !v.stacks.contains(frames) && id < v.stacks.len() {
        assert(v.stacks[id] == frames);
    }
}

/// A freed block takes what its sample stands for off the live counters of its trace, and its
/// record away. What has been allocated stays, and so does everything about other traces and
/// blocks; a block that was not sampled changes nothing.
pub proof fn law_free_takes_off_its_trace(v: ProfView, ptr: usize)
    requires
        v.wf(),
        v.can_remove(ptr),
    ensures
        !v.side.contains_key(ptr) ==> v.removed(ptr) == v,
        v.side.contains_key(ptr) ==> {
            let n = v.removed(ptr);
            let r = v.side[ptr];
            let id = r.stack_id as int;
            &&& n.stacks == v.stacks
            &&& n.classes == v.classes
            &&& n.side == v.side.remove(ptr)
            &&& n.counters.len() == v.counters.len()
            &&& n.counters[id].alloc_count == v.counters[id].alloc_count
            &&& n.counters[id].alloc_bytes == v.counters[id].alloc_bytes
            &&& r.weight <= i64::MAX ==> n.counters[id].live_count == v.counters[id].live_count
                - r.weight
            &&& r.weight > i64::MAX ==> n.counters[id].live_count == v.counters[id].live_count
                - r.weight + 0x1_0000_0000_0000_0000
            &&& r.weight * r.size <= i64::MAX ==> n.counters[id].live_bytes
                == v.counters[id].live_bytes - r.weight * r.size
            &&& r.weight * r.size > i64::MAX ==> n.counters[id].live_bytes
                == v.counters[id].live_bytes - r.weight * r.size + 0x1_0000_0000_0000_0000
            &&& forall|i: int|
                0 <= i < v.counters.len() && i != id ==> #[trigger] n.counters[i] == v.counters[i]
        },
{
    if v.side.contains_key(ptr) {
        let r = v.side[ptr];
        assert(0 <= r.weight * r.size) by (nonlinear_arith)
            requires
                r.weight >= 0,
                r.size >= 0,
        ;
    }
}

/// There is room for a sample wherever its sums fit in the counters and its trace has or can get
/// an id.
pub proof fn law_room_is_what_fits(v: ProfView, frames: Seq<usize>, size: usize, weight: u64)
    requires
        v.wf(),
        weight <= i64::MAX,
        weight * size <= i64::MAX,
    ensures
        v.has_room_for(frames, size as int, weight as int) <==> {
            &&& v.stacks.contains(frames) || v.stacks.len() < 0xffff_ffff
            &&& forall|i: int|
                #![trigger v.counters[i]]
                0 <= i < v.stacks.len() && v.stacks[i] == frames ==> {
                    &&& v.counters[i].alloc_count + weight <= u64::MAX
                    &&& v.counters[i].alloc_bytes + weight * size <= u64::MAX
                    &&& v.counters[i].live_count + weight <= i64::MAX
                    &&& v.counters[i].live_bytes + weight * size <= i64::MAX
                }
        },
        v.has_room(size as int, weight as int) <==> {
            &&& v.stacks.len() < 0xffff_ffff
            &&& forall|i: int|
                #![trigger v.counters[i]]
                0 <= i < v.stacks.len() ==> {
                    &&& v.counters[i].alloc_count + weight <= u64::MAX
                    &&& v.counters[i].alloc_bytes + weight * size <= u64::MAX
                    &&& v.counters[i].live_count + weight <= i64::MAX
                    &&& v.counters[i].live_bytes + weight * size <= i64::MAX
                }
        },
{
    assert(0 <= weight * size) by (nonlinear_arith)
        requires
            weight >= 0,
            size >= 0,
    ;
    if v.stacks.contains(frames) {
        let id = v.stacks.index_of(frames);
        assert(v.stacks[id] == frames);
        assert(forall|i: int| 0 <= i < v.stacks.len() && v.stacks[i] == frames ==> i == id);
        assert(v.counters[id] == v.counters[id]);
    }
    assert(StackCounters::zero().has_room(size as int, weight as int));
    if v.has_room(size as int, weight as int) {
        assert forall|i: int| #![trigger v.counters[i]] 0 <= i < v.stacks.len() implies {
            &&& v.counters[i].alloc_count + weight <= u64::MAX
            &&& v.counters[i].alloc_bytes + weight * size <= u64::MAX
            &&& v.counters[i].live_count + weight <= i64::MAX
            &&& v.counters[i].live_bytes + weight * size <= i64::MAX
        } by {
            assert(v.counters[i].has_room(size as int, weight as int));
        }
    }
}

/// What is said of the profiler is said of its tables.
pub proof fn law_profiler_is_shown(s: PprofState)
    ensures
        s@.stacks.len() == s.stacks.frames@.len(),
        forall|i: int|
            0 <= i < s.stacks.frames@.len() ==> #[trigger] s@.stacks[i] == s.stacks.frames@[i]@,
        s@.counters == s.stacks.counters@,
        s@.classes.len() == s.stacks.classes@.len(),
        forall|i: int|
            0 <= i < s.stacks.classes@.len() ==> #[trigger] s@.classes[i] == s.stacks.classes@[i]@,
        s@.side == s.side.map@,
{
}

/// The guard admits a caller exactly where it is not held; asking for it leaves it held, and giving
/// it back leaves it free.
pub proof fn law_guard_admits_when_free(g: ReentrancyGuard, before: ProfView, after: ProfView)
    ensures
        g.admits() <==> !g.held,
        g.entered().held,
        !g.left().held,
        !g.held ==> g.guards(before, after) == after,
        g.held ==> g.guards(before, after) == before,
{
}

} // verus!
