//! Hooks for garbage collectors, metrics and debugging.
use vstd::prelude::*;

use crate::types::ArenaIdx;

verus! {

/// Hook called when buffers are pinned.
///
/// Implement this to track buffer lifecycle events for garbage collection,
/// metrics, or debugging.
pub trait BufferPinHook {
    fn on_pin(&self, epoch: u64, buf_id: u32);
}

/// Observer notified on epoch transitions.
///
/// Implement this to react to epoch rotation and arena collection events.
pub trait EpochObserver {
    /// Called when the pool rotates. `retired` is the epoch that just became
    /// read-only; `active` is the new writable epoch.
    fn on_rotate(&self, retired: u64, active: u64);

    /// Called when a retired epoch's arena is reclaimed.
    fn on_collect(&self, epoch: u64);

    /// Called when a new arena is mapped.
    fn on_arena_alloc(&self, _arena_idx: ArenaIdx) {
    }

    /// Called when an arena is unmapped.
    fn on_arena_free(&self, _arena_idx: ArenaIdx) {
    }

    /// Called after a collect sweep with the number of arenas collected.
    fn on_collect_sweep(&self, _collected: usize) {
    }
}

/// No-op implementations of all hooks, for standalone use.
#[derive(Debug, Clone, Copy, Default)]
pub struct NoopHooks;

impl BufferPinHook for NoopHooks {
    fn on_pin(&self, _epoch: u64, _buf_id: u32) {
    }
}

impl EpochObserver for NoopHooks {
    fn on_rotate(&self, _retired: u64, _active: u64) {
    }

    fn on_collect(&self, _epoch: u64) {
    }

    fn on_collect_sweep(&self, _collected: usize) {
    }
}

/// One call of a hook, with what it was told.
pub enum HookCall {
    Pin { epoch: u64, buf_id: u32 },
    Rotate { retired: u64, active: u64 },
    Collect { epoch: u64 },
    ArenaAlloc { arena: int },
    ArenaFree { arena: int },
    Sweep { collected: int },
}

/// `hooks` was called as `call` says, and has returned.
pub open spec fn was_told<H: BufferPinHook + EpochObserver>(hooks: H, call: HookCall) -> bool {
    match call {
        HookCall::Pin { epoch, buf_id } => call_ensures(H::on_pin, (&hooks, epoch, buf_id), ()),
        HookCall::Rotate { retired, active } => call_ensures(
            H::on_rotate,
            (&hooks, retired, active),
            (),
        ),
        HookCall::Collect { epoch } => call_ensures(H::on_collect, (&hooks, epoch), ()),
        HookCall::ArenaAlloc { arena } => exists|idx: ArenaIdx|
            idx@ == arena && #[trigger] call_ensures(H::on_arena_alloc, (&hooks, idx), ()),
        HookCall::ArenaFree { arena } => exists|idx: ArenaIdx|
            idx@ == arena && #[trigger] call_ensures(H::on_arena_free, (&hooks, idx), ()),
        HookCall::Sweep { collected } => exists|n: usize|
            n == collected && #[trigger] call_ensures(H::on_collect_sweep, (&hooks, n), ()),
    }
}

/// The hooks together with the history of their calls.
///
/// Every entry of the history is the call of a hook that was made. That there
/// were no others is not expressed: the type keeps the hooks to itself, and each
/// of its functions calls one of them once.
pub struct Notifier<H> {
    hooks: H,
    calls: Ghost<Seq<HookCall>>,
}

impl<H> View for Notifier<H> {
    type V = Seq<HookCall>;

    closed spec fn view(&self) -> Seq<HookCall> {
        self.calls@
    }
}

impl<H: BufferPinHook + EpochObserver> Notifier<H> {
    /// Who is called.
    pub closed spec fn hooks(&self) -> H {
        self.hooks
    }

    /// Every call in the history was made.
    pub open spec fn wf(&self) -> bool {
        forall|k: int| 0 <= k < self@.len() ==> was_told(self.hooks(), #[trigger] self@[k])
    }

    /// Hooks that have not been called yet.
    pub fn new(hooks: H) -> (r: Self)
        ensures
            r.wf(),
            r.hooks() == hooks,
            r@ == Seq::<HookCall>::empty(),
    {
        Self { hooks, calls: Ghost(Seq::empty()) }
    }

    /// Adds a call that was made to the history.
    fn record(&mut self, Ghost(call): Ghost<HookCall>)
        requires
            old(self).wf(),
            was_told(old(self).hooks(), call),
        ensures
            final(self).wf(),
            final(self).hooks() == old(self).hooks(),
            final(self)@ == old(self)@.push(call),
    {
        let ghost before = self@;
        self.calls = Ghost(self.calls@.push(call));
        assert forall|k: int| 0 <= k < self@.len() implies was_told(
            self.hooks(),
            #[trigger] self@[k],
        ) by {
            if k < before.len() {
                assert(self@[k] == before[k]);
            }
        }
    }

    /// Reports a new lease.
    pub fn pin(&mut self, epoch: u64, buf_id: u32)
        requires
            old(self).wf(),
        ensures
            final(self).wf(),
            final(self).hooks() == old(self).hooks(),
            call_ensures(H::on_pin, (&old(self).hooks(), epoch, buf_id), ()),
            final(self)@ == old(self)@.push(HookCall::Pin { epoch, buf_id }),
    {
        self.hooks.on_pin(epoch, buf_id);
        self.record(Ghost(HookCall::Pin { epoch, buf_id }));
    }

    /// Reports a rotation.
    pub fn rotate(&mut self, retired: u64, active: u64)
        requires
            old(self).wf(),
        ensures
            final(self).wf(),
            final(self).hooks() == old(self).hooks(),
            call_ensures(H::on_rotate, (&old(self).hooks(), retired, active), ()),
            final(self)@ == old(self)@.push(HookCall::Rotate { retired, active }),
    {
        self.hooks.on_rotate(retired, active);
        self.record(Ghost(HookCall::Rotate { retired, active }));
    }

    /// Reports that an epoch was reclaimed.
    pub fn collect(&mut self, epoch: u64)
        requires
            old(self).wf(),
        ensures
            final(self).wf(),
            final(self).hooks() == old(self).hooks(),
            call_ensures(H::on_collect, (&old(self).hooks(), epoch), ()),
            final(self)@ == old(self)@.push(HookCall::Collect { epoch }),
    {
        self.hooks.on_collect(epoch);
        self.record(Ghost(HookCall::Collect { epoch }));
    }

    /// Reports a newly mapped arena.
    pub fn arena_alloc(&mut self, idx: ArenaIdx)
        requires
            old(self).wf(),
        ensures
            final(self).wf(),
            final(self).hooks() == old(self).hooks(),
            call_ensures(H::on_arena_alloc, (&old(self).hooks(), idx), ()),
            final(self)@ == old(self)@.push(HookCall::ArenaAlloc { arena: idx@ }),
    {
        self.hooks.on_arena_alloc(idx);
        self.record(Ghost(HookCall::ArenaAlloc { arena: idx@ }));
    }

    /// Reports an arena that goes away.
    pub fn arena_free(&mut self, idx: ArenaIdx)
        requires
            old(self).wf(),
        ensures
            final(self).wf(),
            final(self).hooks() == old(self).hooks(),
            call_ensures(H::on_arena_free, (&old(self).hooks(), idx), ()),
            final(self)@ == old(self)@.push(HookCall::ArenaFree { arena: idx@ }),
    {
        self.hooks.on_arena_free(idx);
        self.record(Ghost(HookCall::ArenaFree { arena: idx@ }));
    }

    /// Reports a sweep of the drain queue.
    pub fn sweep(&mut self, collected: usize)
        requires
            old(self).wf(),
        ensures
            final(self).wf(),
            final(self).hooks() == old(self).hooks(),
            call_ensures(H::on_collect_sweep, (&old(self).hooks(), collected), ()),
            final(self)@ == old(self)@.push(HookCall::Sweep { collected: collected as int }),
    {
        self.hooks.on_collect_sweep(collected);
        self.record(Ghost(HookCall::Sweep { collected: collected as int }));
    }
}

/// A hook that was told of something was called with just that.
pub proof fn hooks_hear_what_is_recorded<H: BufferPinHook + EpochObserver>(
    hooks: H,
    call: HookCall,
)
    requires
        was_told(hooks, call),
    ensures
        call matches HookCall::Pin { epoch, buf_id } ==> call_ensures(
            H::on_pin,
            (&hooks, epoch, buf_id),
            (),
        ),
        call matches HookCall::Rotate { retired, active } ==> call_ensures(
            H::on_rotate,
            (&hooks, retired, active),
            (),
        ),
        call matches HookCall::Collect { epoch } ==> call_ensures(
            H::on_collect,
            (&hooks, epoch),
            (),
        ),
        call matches HookCall::ArenaAlloc { arena } ==> exists|idx: ArenaIdx|
            idx@ == arena && #[trigger] call_ensures(H::on_arena_alloc, (&hooks, idx), ()),
        call matches HookCall::ArenaFree { arena } ==> exists|idx: ArenaIdx|
            idx@ == arena && #[trigger] call_ensures(H::on_arena_free, (&hooks, idx), ()),
        call matches HookCall::Sweep { collected } ==> exists|n: usize|
            n == collected && #[trigger] call_ensures(H::on_collect_sweep, (&hooks, n), ()),
{
}

} // verus!
