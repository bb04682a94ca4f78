//! State channels: one per registered state type, carrying the storage
//! backend, the flush flag, the capability configuration and the hooks.

use vstd::prelude::*;

use crate::pattern::{side_admits, Pattern};
use crate::schedule::StateFlushSet;
use crate::storage::{
    cur_of, next_of, set_next_spec, StateStorage, StorageModel,
};

verus! {

/// How a channel's compute phase derives its pending value each tick from
/// another channel's already-resolved pending value. The referenced channel
/// must be registered first, so it is resolved earlier in the same tick.
#[derive(Clone, Copy, Debug, PartialEq, Eq, Structural)]
pub enum ComputeRule {
    /// No compute phase: the pending value is written from outside.
    Passive,
    /// A substate: enabled with `value` exactly while the dependency's
    /// pending value is `when`, disabled otherwise.
    EnableWhen { dep: usize, when: u64, value: u64 },
    /// A computed state: enabled exactly while the dependency is, with its
    /// pending value offset by a constant (wrapping around the tag domain).
    MapFrom { dep: usize, offset: u64 },
}

/// The dependency a compute rule reads, if any.
pub open spec fn dep_of(r: ComputeRule) -> Option<usize> {
    match r {
        ComputeRule::Passive => None,
        ComputeRule::EnableWhen { dep, when: _, value: _ } => Some(dep),
        ComputeRule::MapFrom { dep, offset: _ } => Some(dep),
    }
}

/// Addition wrapping around the tag domain.
pub open spec fn wrap_add_spec(a: u64, b: u64) -> u64 {
    if a + b <= u64::MAX {
        (a + b) as u64
    } else {
        (a + b - 0x1_0000_0000_0000_0000) as u64
    }
}

/// Addition wrapping around the tag domain.
pub fn wrap_add(a: u64, b: u64) -> (r: u64)
    ensures
        r == wrap_add_spec(a, b),
{
    if b <= u64::MAX - a {
        a + b
    } else {
        b - (u64::MAX - a) - 1
    }
}

/// A hook: a predicate-gated callback registration tied to a flush phase.
/// The engine never runs callbacks itself; a fired hook appears in the tick
/// trace under its identifier and the host invokes the callback.
#[derive(Clone, Copy, Debug, PartialEq, Eq, Structural)]
pub struct Hook {
    /// The flush phase the hook is tied to: `Exit`, `Transition` or `Enter`.
    /// Hooks tied to any other phase never fire.
    pub phase: StateFlushSet,
    /// Pattern over the exiting current value; gates `Exit` and `Transition`.
    pub before: Pattern,
    /// Pattern over the entering next value; gates `Enter` and `Transition`.
    pub after: Pattern,
    /// Identifier reported in the tick trace when the hook fires.
    pub id: u64,
}

impl Hook {
    /// A hook firing when a matching value exits.
    pub fn on_exit(before: Pattern, id: u64) -> (r: Hook)
        ensures
            r == (Hook { phase: StateFlushSet::Exit, before, after: Pattern::Any, id }),
    {
        Hook { phase: StateFlushSet::Exit, before, after: Pattern::Any, id }
    }

    /// A hook firing when a matching value enters.
    pub fn on_enter(after: Pattern, id: u64) -> (r: Hook)
        ensures
            r == (Hook { phase: StateFlushSet::Enter, before: Pattern::Any, after, id }),
    {
        Hook { phase: StateFlushSet::Enter, before: Pattern::Any, after, id }
    }

    /// A hook firing on a transition between two matching present values.
    pub fn on_trans(before: Pattern, after: Pattern, id: u64) -> (r: Hook)
        ensures
            r == (Hook { phase: StateFlushSet::Transition, before, after, id }),
    {
        Hook { phase: StateFlushSet::Transition, before, after, id }
    }

    /// Paired sugar: an exit hook and an enter hook for the same pattern.
    pub fn on_edge(pat: Pattern, exit_id: u64, enter_id: u64) -> (r: (Hook, Hook))
        ensures
            r.0 == (Hook { phase: StateFlushSet::Exit, before: pat, after: Pattern::Any, id: exit_id }),
            r.1 == (Hook { phase: StateFlushSet::Enter, before: Pattern::Any, after: pat, id: enter_id }),
    {
        (Hook::on_exit(pat, exit_id), Hook::on_enter(pat, enter_id))
    }
}

/// Whether a hook fires against the pre-commit current and pending next
/// value. An exit hook needs a present matching current value, an enter hook
/// a present matching next value, a transition hook both.
pub open spec fn hook_fires(h: Hook, cur: Option<u64>, nxt: Option<u64>) -> bool {
    match h.phase {
        StateFlushSet::Exit => side_admits(h.before, cur),
        StateFlushSet::Transition => side_admits(h.before, cur) && side_admits(h.after, nxt),
        StateFlushSet::Enter => side_admits(h.after, nxt),
        _ => false,
    }
}

impl Hook {
    /// Evaluate the hook's predicate against a transition.
    pub fn fires(&self, cur: Option<u64>, nxt: Option<u64>) -> (r: bool)
        ensures
            r == hook_fires(*self, cur, nxt),
    {
        match self.phase {
            StateFlushSet::Exit => self.before.admits_side(cur),
            StateFlushSet::Transition => self.before.admits_side(cur) && self.after.admits_side(
                nxt,
            ),
            StateFlushSet::Enter => self.after.admits_side(nxt),
            _ => false,
        }
    }
}

/// Mathematical model of a state channel.
#[verifier::ext_equal]
pub struct ChannelModel {
    /// Stable identifying tag of the state type.
    pub tag: u64,
    /// The storage backend's model.
    pub storage: StorageModel,
    /// True only from trigger through apply of one tick.
    pub flush: bool,
    /// Capability: trigger a flush whenever next differs from current.
    pub detect_change: bool,
    /// Capability: publish a flush event when the channel applies.
    pub send_event: bool,
    /// Capability: commit the pending value at the end of the tick.
    pub apply_flush: bool,
    /// Capability: mirror the channel into a host-owned parallel slot.
    pub bridge: bool,
    /// The host-owned parallel slot of a bridged channel; the outer option
    /// says whether a pending write is present.
    pub mirror: Option<Option<u64>>,
    /// How the compute phase derives the pending value.
    pub compute: ComputeRule,
    /// Indices of channels whose resolve phase must precede this one's.
    pub after: Seq<usize>,
    /// Indices of channels whose resolve phase must follow this one's.
    pub before: Seq<usize>,
    /// The registered hooks, in registration order.
    pub hooks: Seq<Hook>,
}

/// An exec state channel; its mathematical model is [`ChannelModel`].
pub struct StateChannel {
    pub tag: u64,
    pub storage: StateStorage,
    pub flush: bool,
    pub detect_change: bool,
    pub send_event: bool,
    pub apply_flush: bool,
    pub bridge: bool,
    pub mirror: Option<Option<u64>>,
    pub compute: ComputeRule,
    pub after: Vec<usize>,
    pub before: Vec<usize>,
    pub hooks: Vec<Hook>,
}

impl View for StateChannel {
    type V = ChannelModel;

    open spec fn view(&self) -> ChannelModel {
        ChannelModel {
            tag: self.tag,
            storage: self.storage@,
            flush: self.flush,
            detect_change: self.detect_change,
            send_event: self.send_event,
            apply_flush: self.apply_flush,
            bridge: self.bridge,
            mirror: self.mirror,
            compute: self.compute,
            after: self.after@,
            before: self.before@,
            hooks: self.hooks@,
        }
    }
}

/// Every channel index a channel refers to lies strictly below the bound;
/// registration only accepts references to already-registered channels.
pub open spec fn chan_refs_below(c: ChannelModel, bound: int) -> bool {
    &&& forall|k: int| 0 <= k < c.after.len() ==> (c.after[k] as int) < bound
    &&& forall|k: int| 0 <= k < c.before.len() ==> (c.before[k] as int) < bound
    &&& match dep_of(c.compute) {
        Some(d) => (d as int) < bound,
        None => true,
    }
}

/// The compute phase's result for channel `i`: `None` when the channel has
/// no compute phase, otherwise the derived pending value, read from the
/// dependency's already-resolved pending value.
pub open spec fn computed_next(ts: Seq<ChannelModel>, i: int) -> Option<Option<u64>> {
    match ts[i].compute {
        ComputeRule::Passive => None,
        ComputeRule::EnableWhen { dep, when, value } => Some(
            if next_of(ts[dep as int].storage) == Some(when) {
                Some(value)
            } else {
                None
            },
        ),
        ComputeRule::MapFrom { dep, offset } => Some(
            match next_of(ts[dep as int].storage) {
                Some(v) => Some(wrap_add_spec(v, offset)),
                None => None,
            },
        ),
    }
}

/// The bridge's inbound half, run first in the trigger phase: a pending
/// host write to the mirror of a bridged channel is authoritative, so it is
/// adopted as the pending value and forces a flush. The mirror itself is
/// host-owned and stays until the host consumes it.
pub open spec fn bridged(c: ChannelModel) -> ChannelModel {
    match c.mirror {
        Some(m) => if c.bridge {
            ChannelModel { storage: set_next_spec(c.storage, m), flush: true, ..c }
        } else {
            c
        },
        None => c,
    }
}

/// Change detection, run second in the trigger phase: a pending value that
/// differs from the current value under domain equality sets the flush flag.
pub open spec fn detected(c: ChannelModel) -> ChannelModel {
    if c.detect_change && next_of(c.storage) != cur_of(c.storage) {
        ChannelModel { flush: true, ..c }
    } else {
        c
    }
}

/// The whole trigger phase of one channel.
pub open spec fn trigger_step(c: ChannelModel) -> ChannelModel {
    detected(bridged(c))
}

/// The bridge's outbound half, run while flushing: when the host wrote
/// nothing this tick, the channel publishes its pending value into the
/// mirror; whichever side wrote first this tick wins.
pub open spec fn published(c: ChannelModel) -> ChannelModel {
    match c.mirror {
        Some(_) => c,
        None => if c.flush && c.bridge {
            ChannelModel { mirror: Some(next_of(c.storage)), ..c }
        } else {
            c
        },
    }
}

/// The full resolve phase of channel `i`: compute, then trigger, then the
/// bridge's outbound half. The flush phases themselves only report hooks and
/// leave the channel unchanged.
pub open spec fn resolve_step(ts: Seq<ChannelModel>, i: int) -> ChannelModel {
    let computed = match computed_next(ts, i) {
        None => ts[i],
        Some(v) => ChannelModel { storage: set_next_spec(ts[i].storage, v), ..ts[i] },
    };
    published(trigger_step(computed))
}

/// The apply phase of one channel: a flushing channel with the apply
/// capability commits its pending value and resets the flush flag; any other
/// channel is left unchanged.
pub open spec fn apply_step(c: ChannelModel) -> ChannelModel {
    if c.flush && c.apply_flush {
        ChannelModel { storage: crate::storage::commit_spec(c.storage), flush: false, ..c }
    } else {
        c
    }
}

/// Triggering a channel twice without an intervening apply yields the same
/// flush flag as triggering it once; when the first trigger does not flush,
/// the channel is left entirely unchanged, so the second cannot either.
pub proof fn lemma_trigger_idempotent(c: ChannelModel)
    ensures
        trigger_step(trigger_step(c)).flush == trigger_step(c).flush,
{
}

/// Round trip: writing a pending value, triggering, then applying commits
/// the value as current and clears the flush flag. This holds for every
/// channel with change detection and the apply capability whose mirror
/// holds no pending host write, whatever its storage backend.
pub proof fn lemma_round_trip(c: ChannelModel, v: u64)
    requires
        c.detect_change,
        c.apply_flush,
        match c.mirror {
            Some(_) => !c.bridge,
            None => true,
        },
    ensures
        ({
            let done = apply_step(
                trigger_step(ChannelModel { storage: set_next_spec(c.storage, Some(v)), ..c }),
            );
            cur_of(done.storage) == Some(v) && !done.flush
        }),
{
    let c1 = ChannelModel { storage: set_next_spec(c.storage, Some(v)), ..c };
    assert(next_of(c1.storage) == Some(v));
    let c2 = trigger_step(c1);
    let done = apply_step(c2);
    if c2.flush {
        assert(cur_of(done.storage) == Some(v));
    } else {
        assert(cur_of(c1.storage) == Some(v));
    }
}

} // verus!
