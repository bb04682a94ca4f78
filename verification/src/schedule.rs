//! The state-flush schedule: the engine that owns every channel and drives
//! the per-tick pipeline in dependency order.

pub mod resolve_state;

use vstd::prelude::*;

use crate::channel::{
    apply_step, chan_refs_below, computed_next, hook_fires, resolve_step, trigger_step,
    ChannelModel, ComputeRule, Hook, StateChannel,
};
use crate::pattern::Pattern;
use crate::schedule::resolve_state::{
    edge, lemma_all_placed_complete, lemma_completed_valid, lemma_empty_inv,
    lemma_no_progress_stuck, lemma_place_one, partial_order_inv, ready, resolvable, set_bool,
    valid_order, vec_contains_usize, ResolveStateSet,
};
use crate::storage::{cur_of, next_of, pop_spec, push_spec, set_next_spec, StateStorage};
use crate::app::{standard_model, ConfigModel, StateConfig};
use crate::storage::StorageModel;
use crate::{opt_eq, present, StateError};

verus! {

/// The coarse phases of one channel's handling within a tick, in their
/// static order: the resolve phase contains trigger and flush, and flush
/// contains exit, transition and enter.
#[derive(Clone, Copy, Debug, Hash, PartialEq, Eq, Structural)]
pub enum StateFlushSet {
    Resolve,
    Trigger,
    Flush,
    Exit,
    Transition,
    Enter,
}

/// A snapshot published when a channel applies: the value before the commit
/// and the value committed.
#[derive(Clone, Copy, Debug, PartialEq, Eq, Structural)]
pub struct StateFlushEvent {
    pub before: Option<u64>,
    pub after: Option<u64>,
}

/// One step of the tick trace: a phase beginning for a channel, a hook
/// firing for a channel, or a channel committing its pending value.
#[derive(Clone, Copy, Debug, PartialEq, Eq, Structural)]
pub enum TraceStep {
    /// The named phase of the channel with this index begins.
    Phase(usize, ResolveStateSet),
    /// The hook with this identifier fires for the channel with this index.
    Hook(usize, u64),
    /// The channel with this index commits its pending value.
    Apply(usize),
}

/// Mathematical model of the engine.
#[verifier::ext_equal]
pub struct FlushModel {
    /// The registered channels, in registration order.
    pub types: Seq<ChannelModel>,
    /// The resolve order computed by the dependency resolver.
    pub order: Seq<usize>,
    /// Whether the order is valid for the current set of channels.
    pub built: bool,
}

/// The engine: an arena of channels keyed by registration index, the
/// resolved schedule order, and the per-tick pipeline.
pub struct StateFlush {
    types: Vec<StateChannel>,
    order: Vec<usize>,
    built: bool,
}

impl View for StateFlush {
    type V = FlushModel;

    closed spec fn view(&self) -> FlushModel {
        FlushModel {
            types: self.types@.map_values(|c: StateChannel| c@),
            order: self.order@,
            built: self.built,
        }
    }
}

/// Well-formedness of the engine: every channel refers only to channels
/// registered before it, tags identify channels uniquely, and once built the
/// stored order is a valid resolve order.
pub open spec fn model_wf(m: FlushModel) -> bool {
    &&& forall|i: int| 0 <= i < m.types.len() ==> chan_refs_below(#[trigger] m.types[i], i)
    &&& forall|i: int, j: int|
        0 <= i < j < m.types.len() ==> #[trigger] m.types[i].tag != #[trigger] m.types[j].tag
    &&& (m.built ==> valid_order(m.types, m.order))
}

impl StateFlush {
    /// Well-formedness; established by the constructor and preserved by
    /// every method.
    pub open spec fn wf(&self) -> bool {
        model_wf(self@)
    }

    /// An empty engine with no channels.
    pub fn new() -> (r: StateFlush)
        ensures
            r.wf(),
            r@.types.len() == 0,
            !r@.built,
    {
        StateFlush { types: Vec::new(), order: Vec::new(), built: false }
    }

    /// Number of registered channels.
    pub fn len(&self) -> (r: usize)
        ensures
            r == self@.types.len(),
    {
        self.types.len()
    }

    /// Whether a valid resolve order has been built.
    pub fn is_built(&self) -> (r: bool)
        ensures
            r == self@.built,
    {
        self.built
    }

    /// The index of the channel registered under a tag.
    pub fn index_of(&self, tag: u64) -> (r: Option<usize>)
        ensures
            match r {
                Some(j) => j < self@.types.len() && self@.types[j as int].tag == tag,
                None => forall|j: int| 0 <= j < self@.types.len() ==> self@.types[j].tag != tag,
            },
    {
        let n = self.types.len();
        let mut j: usize = 0;
        while j < n
            invariant
                j <= n,
                n == self@.types.len(),
                forall|k: int| 0 <= k < j ==> self@.types[k].tag != tag,
            decreases n - j,
        {
            if self.types[j].tag == tag {
                return Some(j);
            }
            j = j + 1;
        }
        None
    }

    /// Read the committed current value of a channel.
    pub fn get_current(&self, i: usize) -> (r: Option<u64>)
        requires
            i < self@.types.len(),
        ensures
            r == cur_of(self@.types[i as int].storage),
    {
        self.types[i].storage.get_current()
    }

    /// Read the pending next value of a channel.
    pub fn get_next(&self, i: usize) -> (r: Option<u64>)
        requires
            i < self@.types.len(),
        ensures
            r == next_of(self@.types[i as int].storage),
    {
        self.types[i].storage.get_next()
    }

    /// Read the committed current value as a result; reading a disabled
    /// channel is a typed unavailable result, not a crash.
    pub fn current_value(&self, i: usize) -> (r: Result<u64, StateError>)
        requires
            i < self@.types.len(),
        ensures
            match r {
                Ok(v) => cur_of(self@.types[i as int].storage) == Some(v),
                Err(e) => e == StateError::MissingValue && cur_of(
                    self@.types[i as int].storage,
                ) is None,
            },
    {
        match self.types[i].storage.get_current() {
            Some(v) => Ok(v),
            None => Err(StateError::MissingValue),
        }
    }

    /// Read the pending next value as a result.
    pub fn next_value(&self, i: usize) -> (r: Result<u64, StateError>)
        requires
            i < self@.types.len(),
        ensures
            match r {
                Ok(v) => next_of(self@.types[i as int].storage) == Some(v),
                Err(e) => e == StateError::MissingValue && next_of(
                    self@.types[i as int].storage,
                ) is None,
            },
    {
        match self.types[i].storage.get_next() {
            Some(v) => Ok(v),
            None => Err(StateError::MissingValue),
        }
    }

    /// Whether the channel currently holds a value.
    pub fn is_enabled(&self, i: usize) -> (r: bool)
        requires
            i < self@.types.len(),
        ensures
            r == present(cur_of(self@.types[i as int].storage)),
    {
        self.types[i].storage.get_current().is_some()
    }

    /// Whether the channel will hold a value after the next apply.
    pub fn will_be_enabled(&self, i: usize) -> (r: bool)
        requires
            i < self@.types.len(),
        ensures
            r == present(next_of(self@.types[i as int].storage)),
    {
        self.types[i].storage.get_next().is_some()
    }

    /// Whether the channel's flush flag is set.
    pub fn is_triggered(&self, i: usize) -> (r: bool)
        requires
            i < self@.types.len(),
        ensures
            r == self@.types[i as int].flush,
    {
        self.types[i].flush
    }

    /// Whether every channel that channel `i` must follow is already placed.
    fn is_ready(&self, i: usize, placed: &Vec<bool>) -> (r: bool)
        requires
            self.wf(),
            i < self@.types.len(),
            placed@.len() == self@.types.len(),
        ensures
            r == ready(self@.types, placed@, i as int),
    {
        proof {
            reveal(edge);
        }
        let ghost ts = self@.types;
        let n = self.types.len();
        let after_len = self.types[i].after.len();
        let mut k: usize = 0;
        while k < after_len
            invariant
                self.wf(),
                i < self@.types.len(),
                placed@.len() == self@.types.len(),
                ts == self@.types,
                n == self@.types.len(),
                after_len == ts[i as int].after.len(),
                k <= after_len,
                forall|kk: int| 0 <= kk < k ==> placed@[#[trigger] ts[i as int].after[kk] as int],
            decreases after_len - k,
        {
            let a = self.types[i].after[k];
            assert((a as int) < i as int);
            if !placed[a] {
                assert(ts[i as int].after.contains(a));
                assert(edge(ts, a as int, i as int)) by {
                    reveal(edge);
                };
                return false;
            }
            k = k + 1;
        }
        match self.types[i].compute {
            crate::channel::ComputeRule::Passive => {},
            crate::channel::ComputeRule::EnableWhen { dep, when: _, value: _ } => {
                assert((dep as int) < i as int);
                if !placed[dep] {
                    assert(edge(ts, dep as int, i as int)) by {
                        reveal(edge);
                    };
                    return false;
                }
            },
            crate::channel::ComputeRule::MapFrom { dep, offset: _ } => {
                assert((dep as int) < i as int);
                if !placed[dep] {
                    assert(edge(ts, dep as int, i as int)) by {
                        reveal(edge);
                    };
                    return false;
                }
            },
        }
        let mut j: usize = 0;
        while j < n
            invariant
                self.wf(),
                i < self@.types.len(),
                placed@.len() == self@.types.len(),
                ts == self@.types,
                n == self@.types.len(),
                j <= n,
                forall|kk: int|
                    0 <= kk < ts[i as int].after.len() ==> placed@[#[trigger] ts[i as int].after[kk] as int],
                match crate::channel::dep_of(ts[i as int].compute) {
                    Some(d) => placed@[d as int],
                    None => true,
                },
                forall|jj: int|
                    0 <= jj < j && #[trigger] ts[jj].before.contains(i) ==> placed@[jj],
            decreases n - j,
        {
            if !placed[j] {
                if vec_contains_usize(&self.types[j].before, i) {
                    assert(edge(ts, j as int, i as int)) by {
                        reveal(edge);
                    };
                    return false;
                }
            }
            j = j + 1;
        }
        proof {
            assert forall|a: int| #[trigger] edge(ts, a, i as int) implies placed@[a] by {
                if ts[i as int].after.contains(a as usize) {
                    let kk = choose|kk: int|
                        0 <= kk < ts[i as int].after.len() && ts[i as int].after[kk] == a as usize;
                    assert(placed@[ts[i as int].after[kk] as int]);
                } else if ts[a].before.contains(i) {
                } else {
                    assert(dep_of_is(ts, i as int, a));
                }
            };
        }
        true
    }

    /// Compile the declared dependency edges into a resolve order. Succeeds
    /// exactly when the edges are satisfiable; a cyclic edge set is reported
    /// as a build-time error and leaves the engine unbuilt.
    pub fn build(&mut self) -> (r: Result<(), StateError>)
        requires
            old(self).wf(),
        ensures
            final(self).wf(),
            final(self)@.types == old(self)@.types,
            match r {
                Ok(()) => final(self)@.built && valid_order(final(self)@.types, final(self)@.order),
                Err(e) => e == StateError::CycleError && !final(self)@.built,
            },
            (r is Ok) <==> resolvable(old(self)@.types),
    {
        let ghost ts = self@.types;
        let n = self.types.len();
        self.built = false;
        let mut placed: Vec<bool> = Vec::new();
        while placed.len() < n
            invariant
                placed@.len() <= n,
                forall|p: int| 0 <= p < placed@.len() ==> !placed@[p],
            decreases n - placed@.len(),
        {
            placed.push(false);
        }
        let mut ord: Vec<usize> = Vec::new();
        proof {
            lemma_empty_inv(ts, placed@);
            assert(ord@ =~= Seq::<usize>::empty());
        }
        while ord.len() < n
            invariant
                self.wf(),
                !self@.built,
                self@.types == ts,
                ts == old(self)@.types,
                n == ts.len(),
                ord@.len() <= n,
                partial_order_inv(ts, ord@, placed@),
            decreases n - ord@.len(),
        {
            let before_len = ord.len();
            let ghost placed0 = placed@;
            let mut i: usize = 0;
            while i < n
                invariant
                    self.wf(),
                    !self@.built,
                    self@.types == ts,
                    ts == old(self)@.types,
                    n == ts.len(),
                    i <= n,
                    ord@.len() <= n,
                    ord@.len() >= before_len,
                    partial_order_inv(ts, ord@, placed@),
                    ord@.len() == before_len ==> placed@ == placed0,
                    ord@.len() == before_len ==> forall|jj: int|
                        0 <= jj < i && !placed@[jj] ==> !ready(ts, placed@, jj),
                decreases n - i,
            {
                let was_placed = placed[i];
                if !was_placed && self.is_ready(i, &placed) {
                    proof {
                        lemma_place_one(ts, ord@, placed@, i);
                    }
                    ord.push(i);
                    set_bool(&mut placed, i, true);
                }
                i = i + 1;
            }
            if ord.len() == before_len {
                match find_unplaced(&placed) {
                    None => {
                        proof {
                            lemma_all_placed_complete(ts, ord@, placed@);
                            assert(false);
                        }
                        return Err(StateError::CycleError);
                    },
                    Some(u) => {
                        proof {
                            lemma_no_progress_stuck(ts, placed@, u);
                        }
                        return Err(StateError::CycleError);
                    },
                }
            }
        }
        proof {
            lemma_completed_valid(ts, ord@, placed@);
        }
        self.order = ord;
        self.built = true;
        proof {
            assert(valid_order(self@.types, self@.order));
            assert(resolvable(ts)) by {
                reveal(resolvable);
            };
        }
        Ok(())
    }

    /// Run one channel's resolve phase: compute, trigger, and the flush
    /// phases, reporting the trace of phases and fired hooks.
    #[verifier::spinoff_prover]
    #[verifier::rlimit(100)]
    fn resolve_one(&mut self, i: usize) -> (seg: Vec<TraceStep>)
        requires
            i < old(self)@.types.len(),
            chan_refs_below(old(self)@.types[i as int], i as int),
        ensures
            final(self)@.types =~= old(self)@.types.update(
                i as int,
                resolve_step(old(self)@.types, i as int),
            ),
            final(self)@.order == old(self)@.order,
            final(self)@.built == old(self)@.built,
            seg@ == resolve_trace_step(old(self)@.types, i as int),
    {
        let ghost ts = self@.types;
        let mut seg: Vec<TraceStep> = Vec::new();
        seg.push(TraceStep::Phase(i, ResolveStateSet::Resolve));
        let rule = self.types[i].compute;
        let computed: Option<Option<u64>> = match rule {
            ComputeRule::Passive => None,
            ComputeRule::EnableWhen { dep, when, value } => {
                assert((dep as int) < i as int);
                let dn = self.types[dep].storage.get_next();
                Some(
                    if opt_eq(dn, Some(when)) {
                        Some(value)
                    } else {
                        None
                    },
                )
            },
            ComputeRule::MapFrom { dep, offset } => {
                assert((dep as int) < i as int);
                let dn = self.types[dep].storage.get_next();
                Some(
                    match dn {
                        Some(v) => Some(crate::channel::wrap_add(v, offset)),
                        None => None,
                    },
                )
            },
        };
        proof {
            assert(computed == computed_next(ts, i as int));
        }
        let mut ch = self.types.remove(i);
        if let Some(v) = computed {
            seg.push(TraceStep::Phase(i, ResolveStateSet::Compute));
            ch.storage.set_next(v);
        }
        proof {
            assert(ch@ =~= (match computed_next(ts, i as int) {
                None => ts[i as int],
                Some(v) => ChannelModel {
                    storage: set_next_spec(ts[i as int].storage, v),
                    ..ts[i as int]
                },
            }));
        }
        let ghost c1 = ch@;
        seg.push(TraceStep::Phase(i, ResolveStateSet::Trigger));
        if ch.bridge {
            if let Some(m) = ch.mirror {
                ch.storage.set_next(m);
                ch.flush = true;
            }
        }
        proof {
            assert(ch@ =~= crate::channel::bridged(c1));
        }
        let ghost c2 = ch@;
        let cur = ch.storage.get_current();
        let nxt = ch.storage.get_next();
        if ch.detect_change {
            if !opt_eq(nxt, cur) {
                ch.flush = true;
            }
        }
        proof {
            assert(ch@ =~= crate::channel::detected(c2));
            assert(ch@ =~= trigger_step(c1));
        }
        let ghost c3 = ch@;
        let mut fseg = run_flush(i, &ch);
        seg.append(&mut fseg);
        if ch.flush {
            if ch.bridge && ch.mirror.is_none() {
                ch.mirror = Some(nxt);
            }
        }
        proof {
            assert(ch@ =~= crate::channel::published(c3));
            assert(ch@ =~= resolve_step(ts, i as int));
            assert(flush_trace(i as int, c3) =~= flush_trace(i as int, resolve_step(ts, i as int)));
            assert(seg@ =~= resolve_trace_step(ts, i as int));
        }
        self.types.insert(i, ch);
        proof {
            assert(self@.types =~= ts.update(i as int, resolve_step(ts, i as int)));
        }
        seg
    }

    /// Run one scheduling tick: every channel's resolve phase in dependency
    /// order, then every channel's apply phase. Returns the trace of phases,
    /// fired hooks and commits, and the published flush events, each paired
    /// with the index of the channel it concerns.
    #[verifier::spinoff_prover]
    #[verifier::rlimit(100)]
    pub fn tick(&mut self) -> (r: (Vec<TraceStep>, Vec<(usize, StateFlushEvent)>))
        requires
            old(self).wf(),
            old(self)@.built,
        ensures
            final(self).wf(),
            final(self)@.built,
            final(self)@.order == old(self)@.order,
            final(self)@.types =~= ticked_types(old(self)@.types, old(self)@.order),
            r.0@ == tick_trace(old(self)@.types, old(self)@.order),
            r.1@ == tick_events(old(self)@.types, old(self)@.order),
    {
        let ghost ts = self@.types;
        let ghost ord = self@.order;
        let m = self.order.len();
        let mut trace: Vec<TraceStep> = Vec::new();
        let mut k: usize = 0;
        while k < m
            invariant
                k <= m,
                m == ord.len(),
                ts == old(self)@.types,
                ord == old(self)@.order,
                valid_order(ts, ord),
                forall|j: int| 0 <= j < ts.len() ==> chan_refs_below(#[trigger] ts[j], j),
                self@.order == ord,
                self@.built,
                self@.types =~= resolve_upto(ts, ord, k as int),
                trace@ == resolve_trace_upto(ts, ord, k as int),
            decreases m - k,
        {
            let i = self.order[k];
            proof {
                lemma_resolve_upto_config(ts, ord, k as int);
                assert(same_config(self@.types[i as int], ts[i as int]));
                assert(chan_refs_below(ts[i as int], i as int));
                assert(chan_refs_below(self@.types[i as int], i as int));
            }
            let mut seg = self.resolve_one(i);
            trace.append(&mut seg);
            proof {
                assert(self@.types =~= resolve_upto(ts, ord, k + 1));
                assert(trace@ =~= resolve_trace_upto(ts, ord, k + 1));
            }
            k = k + 1;
        }
        proof {
            assert(self@.types =~= resolved_types(ts, ord));
        }
        let ghost rts = resolved_types(ts, ord);
        let n = self.types.len();
        proof {
            lemma_resolve_upto_config(ts, ord, ord.len() as int);
            assert(n == ts.len());
        }
        let mut events: Vec<(usize, StateFlushEvent)> = Vec::new();
        let mut i: usize = 0;
        while i < n
            invariant
                i <= n,
                n == ts.len(),
                n == rts.len(),
                ts == old(self)@.types,
                ord == old(self)@.order,
                rts == resolved_types(ts, ord),
                self@.order == ord,
                self@.built,
                self@.types =~= apply_upto(rts, i as int),
                trace@ == resolve_trace_upto(ts, ord, ord.len() as int) + apply_trace_upto(
                    rts,
                    i as int,
                ),
                events@ == events_upto(rts, i as int),
            decreases n - i,
        {
            proof {
                lemma_apply_upto_config(rts, i as int);
                assert(self@.types[i as int] == rts[i as int]);
            }
            let do_apply = self.types[i].flush && self.types[i].apply_flush;
            if do_apply {
                let send = self.types[i].send_event;
                let mut ch = self.types.remove(i);
                let before = ch.storage.get_current();
                let after = ch.storage.get_next();
                ch.storage.commit();
                ch.flush = false;
                proof {
                    assert(ch@ =~= apply_step(rts[i as int]));
                }
                self.types.insert(i, ch);
                trace.push(TraceStep::Apply(i));
                if send {
                    events.push((i, StateFlushEvent { before, after }));
                }
            }
            proof {
                assert(self@.types =~= apply_upto(rts, i + 1));
                assert(trace@ =~= resolve_trace_upto(ts, ord, ord.len() as int)
                    + apply_trace_upto(rts, i + 1));
                assert(events@ =~= events_upto(rts, i + 1));
            }
            i = i + 1;
        }
        proof {
            assert(self@.types =~= ticked_types(ts, ord));
            lemma_apply_upto_config(rts, rts.len() as int);
            assert forall|j: int| 0 <= j < ts.len() implies same_config(
                #[trigger] self@.types[j],
                ts[j],
            ) by {
                assert(same_config(self@.types[j], rts[j]));
                assert(same_config(rts[j], ts[j]));
            };
            lemma_same_config_preserves(ts, self@.types, ord);
            assert(trace@ =~= tick_trace(ts, ord));
            assert(events@ =~= tick_events(ts, ord));
        }
        (trace, events)
    }

    /// Write a channel's pending next value.
    pub fn set_next(&mut self, i: usize, v: Option<u64>)
        requires
            old(self).wf(),
            i < old(self)@.types.len(),
        ensures
            final(self).wf(),
            final(self)@.types =~= old(self)@.types.update(
                i as int,
                ChannelModel {
                    storage: set_next_spec(old(self)@.types[i as int].storage, v),
                    ..old(self)@.types[i as int]
                },
            ),
            final(self)@.order == old(self)@.order,
            final(self)@.built == old(self)@.built,
    {
        let ghost m = self@;
        let mut ch = self.types.remove(i);
        ch.storage.set_next(v);
        self.types.insert(i, ch);
        proof {
            assert(self@.types =~= m.types.update(
                i as int,
                ChannelModel { storage: set_next_spec(m.types[i as int].storage, v), ..m.types[i as int] },
            ));
            lemma_update_keeps_wf(m, self@, i as int);
        }
    }

    /// Force or clear a channel's flush flag.
    pub fn set_flush(&mut self, i: usize, b: bool)
        requires
            old(self).wf(),
            i < old(self)@.types.len(),
        ensures
            final(self).wf(),
            final(self)@.types =~= old(self)@.types.update(
                i as int,
                ChannelModel { flush: b, ..old(self)@.types[i as int] },
            ),
            final(self)@.order == old(self)@.order,
            final(self)@.built == old(self)@.built,
    {
        let ghost m = self@;
        let mut ch = self.types.remove(i);
        ch.flush = b;
        self.types.insert(i, ch);
        proof {
            assert(self@.types =~= m.types.update(
                i as int,
                ChannelModel { flush: b, ..m.types[i as int] },
            ));
            lemma_update_keeps_wf(m, self@, i as int);
        }
    }

    /// Run one channel's trigger phase by itself: adopt a pending host write
    /// on a bridged channel, then run change detection.
    pub fn trigger(&mut self, i: usize)
        requires
            old(self).wf(),
            i < old(self)@.types.len(),
        ensures
            final(self).wf(),
            final(self)@.types =~= old(self)@.types.update(
                i as int,
                trigger_step(old(self)@.types[i as int]),
            ),
            final(self)@.order == old(self)@.order,
            final(self)@.built == old(self)@.built,
    {
        let ghost m = self@;
        let mut ch = self.types.remove(i);
        let ghost c0 = ch@;
        if ch.bridge {
            if let Some(mv) = ch.mirror {
                ch.storage.set_next(mv);
                ch.flush = true;
            }
        }
        proof {
            assert(ch@ =~= crate::channel::bridged(c0));
        }
        let cur = ch.storage.get_current();
        let nxt = ch.storage.get_next();
        if ch.detect_change {
            if !opt_eq(nxt, cur) {
                ch.flush = true;
            }
        }
        proof {
            assert(ch@ =~= trigger_step(c0));
        }
        self.types.insert(i, ch);
        proof {
            assert(self@.types =~= m.types.update(i as int, trigger_step(m.types[i as int])));
            lemma_update_keeps_wf(m, self@, i as int);
        }
    }

    /// Push a value onto a channel's storage; on a stack backend the value
    /// becomes the new pending top, on a slot it replaces the pending value.
    pub fn push(&mut self, i: usize, x: u64)
        requires
            old(self).wf(),
            i < old(self)@.types.len(),
        ensures
            final(self).wf(),
            final(self)@.types =~= old(self)@.types.update(
                i as int,
                ChannelModel {
                    storage: push_spec(old(self)@.types[i as int].storage, x),
                    ..old(self)@.types[i as int]
                },
            ),
            final(self)@.order == old(self)@.order,
            final(self)@.built == old(self)@.built,
    {
        let ghost m = self@;
        let mut ch = self.types.remove(i);
        ch.storage.push(x);
        self.types.insert(i, ch);
        proof {
            assert(self@.types =~= m.types.update(
                i as int,
                ChannelModel { storage: push_spec(m.types[i as int].storage, x), ..m.types[i as int] },
            ));
            lemma_update_keeps_wf(m, self@, i as int);
        }
    }

    /// Pop a channel's pending top; on a stack backend the pending value
    /// falls back to the value below, on a slot the pending value is cleared.
    pub fn pop(&mut self, i: usize)
        requires
            old(self).wf(),
            i < old(self)@.types.len(),
        ensures
            final(self).wf(),
            final(self)@.types =~= old(self)@.types.update(
                i as int,
                ChannelModel {
                    storage: pop_spec(old(self)@.types[i as int].storage),
                    ..old(self)@.types[i as int]
                },
            ),
            final(self)@.order == old(self)@.order,
            final(self)@.built == old(self)@.built,
    {
        let ghost m = self@;
        let mut ch = self.types.remove(i);
        ch.storage.pop();
        self.types.insert(i, ch);
        proof {
            assert(self@.types =~= m.types.update(
                i as int,
                ChannelModel { storage: pop_spec(m.types[i as int].storage), ..m.types[i as int] },
            ));
            lemma_update_keeps_wf(m, self@, i as int);
        }
    }

    /// Register a hook on a channel.
    pub fn add_hook(&mut self, i: usize, h: Hook)
        requires
            old(self).wf(),
            i < old(self)@.types.len(),
        ensures
            final(self).wf(),
            final(self)@.types =~= old(self)@.types.update(
                i as int,
                ChannelModel {
                    hooks: old(self)@.types[i as int].hooks.push(h),
                    ..old(self)@.types[i as int]
                },
            ),
            final(self)@.order == old(self)@.order,
            final(self)@.built == old(self)@.built,
    {
        let ghost m = self@;
        let mut ch = self.types.remove(i);
        ch.hooks.push(h);
        self.types.insert(i, ch);
        proof {
            assert(self@.types =~= m.types.update(
                i as int,
                ChannelModel { hooks: m.types[i as int].hooks.push(h), ..m.types[i as int] },
            ));
            lemma_update_keeps_wf(m, self@, i as int);
        }
    }

    /// Write the host side of a bridged channel's mirror.
    pub fn set_mirror(&mut self, i: usize, v: Option<u64>)
        requires
            old(self).wf(),
            i < old(self)@.types.len(),
        ensures
            final(self).wf(),
            final(self)@.types =~= old(self)@.types.update(
                i as int,
                ChannelModel { mirror: Some(v), ..old(self)@.types[i as int] },
            ),
            final(self)@.order == old(self)@.order,
            final(self)@.built == old(self)@.built,
    {
        let ghost m = self@;
        let mut ch = self.types.remove(i);
        ch.mirror = Some(v);
        self.types.insert(i, ch);
        proof {
            assert(self@.types =~= m.types.update(
                i as int,
                ChannelModel { mirror: Some(v), ..m.types[i as int] },
            ));
            lemma_update_keeps_wf(m, self@, i as int);
        }
    }

    /// Consume the mirror of a bridged channel, as the host does once per
    /// tick; returns the pending write, if any.
    pub fn take_mirror(&mut self, i: usize) -> (r: Option<Option<u64>>)
        requires
            old(self).wf(),
            i < old(self)@.types.len(),
        ensures
            final(self).wf(),
            r == old(self)@.types[i as int].mirror,
            final(self)@.types =~= old(self)@.types.update(
                i as int,
                ChannelModel { mirror: None, ..old(self)@.types[i as int] },
            ),
            final(self)@.order == old(self)@.order,
            final(self)@.built == old(self)@.built,
    {
        let ghost m = self@;
        let mut ch = self.types.remove(i);
        let r = ch.mirror;
        ch.mirror = None;
        self.types.insert(i, ch);
        proof {
            assert(self@.types =~= m.types.update(
                i as int,
                ChannelModel { mirror: None, ..m.types[i as int] },
            ));
            lemma_update_keeps_wf(m, self@, i as int);
        }
        r
    }

    /// Register a state type under a full configuration. Re-registration
    /// under the same tag is a no-op when compatible and a conflict when
    /// not; a configuration referring to an unregistered channel is a
    /// conflict. A successful fresh registration appends a channel and
    /// leaves the engine to be rebuilt.
    pub fn insert_state_(&mut self, cfg: StateConfig) -> (r: Result<usize, StateError>)
        requires
            old(self).wf(),
        ensures
            final(self).wf(),
            register_post(old(self)@, final(self)@, cfg@, r),
    {
        let ghost m = self@;
        let n = self.types.len();
        match self.index_of(cfg.tag) {
            Some(j) => {
                let ch = &self.types[j];
                let compatible = storage_eq(&ch.storage, &cfg.storage) && ch.detect_change
                    == cfg.detect_change && ch.send_event == cfg.send_event && ch.apply_flush
                    == cfg.apply_flush && ch.bridge == cfg.bridge && ch.compute == cfg.compute
                    && vec_usize_eq(&ch.after, &cfg.after) && vec_usize_eq(&ch.before, &cfg.before);
                if compatible {
                    proof {
                        assert(config_compatible(m.types[j as int], cfg@));
                    }
                    Ok(j)
                } else {
                    proof {
                        assert(!config_compatible(m.types[j as int], cfg@));
                    }
                    Err(StateError::RegistrationConflict)
                }
            },
            None => {
                let mut refs_ok = match cfg.compute {
                    ComputeRule::Passive => true,
                    ComputeRule::EnableWhen { dep, when: _, value: _ } => dep < n,
                    ComputeRule::MapFrom { dep, offset: _ } => dep < n,
                };
                let mut k: usize = 0;
                let alen = cfg.after.len();
                while k < alen
                    invariant
                        k <= alen,
                        alen == cfg.after@.len(),
                        n == m.types.len(),
                        refs_ok == ((match crate::channel::dep_of(cfg@.compute) {
                            Some(d) => (d as int) < n,
                            None => true,
                        }) && forall|kk: int|
                            0 <= kk < k ==> ((#[trigger] cfg.after@[kk]) as int) < n),
                    decreases alen - k,
                {
                    if cfg.after[k] >= n {
                        refs_ok = false;
                        proof {
                            assert((cfg.after@[k as int] as int) >= n);
                        }
                    }
                    k = k + 1;
                }
                let mut kb: usize = 0;
                let blen = cfg.before.len();
                let ghost refs_ok_a = refs_ok;
                while kb < blen
                    invariant
                        kb <= blen,
                        blen == cfg.before@.len(),
                        n == m.types.len(),
                        refs_ok == (refs_ok_a && forall|kk: int|
                            0 <= kk < kb ==> ((#[trigger] cfg.before@[kk]) as int) < n),
                    decreases blen - kb,
                {
                    if cfg.before[kb] >= n {
                        refs_ok = false;
                        proof {
                            assert((cfg.before@[kb as int] as int) >= n);
                        }
                    }
                    kb = kb + 1;
                }
                proof {
                    assert(refs_ok == config_refs_ok(cfg@, n as int));
                }
                if !refs_ok {
                    return Err(StateError::RegistrationConflict);
                }
                let ch = StateChannel {
                    tag: cfg.tag,
                    storage: cfg.storage,
                    flush: false,
                    detect_change: cfg.detect_change,
                    send_event: cfg.send_event,
                    apply_flush: cfg.apply_flush,
                    bridge: cfg.bridge,
                    mirror: None,
                    compute: cfg.compute,
                    after: cfg.after,
                    before: cfg.before,
                    hooks: Vec::new(),
                };
                proof {
                    assert(ch@ =~= chan_of_config(cfg@));
                }
                self.types.push(ch);
                self.built = false;
                proof {
                    assert(self@.types =~= m.types.push(chan_of_config(cfg@)));
                    assert forall|i: int| 0 <= i < self@.types.len() implies chan_refs_below(
                        #[trigger] self@.types[i],
                        i,
                    ) by {
                        if i < m.types.len() {
                            assert(self@.types[i] == m.types[i]);
                            assert(chan_refs_below(m.types[i], i));
                        }
                    };
                }
                Ok(n)
            },
        }
    }

    /// Register a state type under the standard configuration, starting
    /// disabled with no pending value.
    pub fn add_state_(&mut self, tag: u64) -> (r: Result<usize, StateError>)
        requires
            old(self).wf(),
        ensures
            final(self).wf(),
            register_post(
                old(self)@,
                final(self)@,
                standard_model(tag, StorageModel::Slot { current: None, next: None }),
                r,
            ),
    {
        self.insert_state_(StateConfig::standard(tag, StateStorage::slot_empty()))
    }

    /// Register a state type under the standard configuration with a
    /// pending initial value; the first tick flushes the state type in.
    pub fn init_state_(&mut self, tag: u64, initial: u64) -> (r: Result<usize, StateError>)
        requires
            old(self).wf(),
        ensures
            final(self).wf(),
            register_post(
                old(self)@,
                final(self)@,
                standard_model(
                    tag,
                    StorageModel::Slot { current: None, next: Some(initial) },
                ),
                r,
            ),
    {
        self.insert_state_(StateConfig::standard(tag, StateStorage::slot_init(initial)))
    }
}

/// Two channels agreeing on everything but their storage, flush flag and
/// mirror: the resolve and apply phases never touch the configuration.
pub open spec fn same_config(a: ChannelModel, b: ChannelModel) -> bool {
    &&& a.tag == b.tag
    &&& a.detect_change == b.detect_change
    &&& a.send_event == b.send_event
    &&& a.apply_flush == b.apply_flush
    &&& a.bridge == b.bridge
    &&& a.compute == b.compute
    &&& a.after == b.after
    &&& a.before == b.before
}

/// One resolve phase leaves the channel's configuration unchanged.
#[verifier::spinoff_prover]
proof fn lemma_resolve_step_config(ts: Seq<ChannelModel>, i: int)
    requires
        0 <= i < ts.len(),
    ensures
        same_config(resolve_step(ts, i), ts[i]),
{
}

/// The first `k` resolve phases preserve every channel's configuration.
#[verifier::spinoff_prover]
proof fn lemma_resolve_upto_config(ts: Seq<ChannelModel>, order: Seq<usize>, k: int)
    requires
        0 <= k <= order.len(),
        forall|kk: int| 0 <= kk < order.len() ==> ((#[trigger] order[kk]) as int) < ts.len(),
    ensures
        resolve_upto(ts, order, k).len() == ts.len(),
        forall|j: int|
            0 <= j < ts.len() ==> same_config(#[trigger] resolve_upto(ts, order, k)[j], ts[j]),
    decreases k,
{
    if k > 0 {
        lemma_resolve_upto_config(ts, order, k - 1);
        let prev = resolve_upto(ts, order, k - 1);
        lemma_resolve_step_config(prev, order[k - 1] as int);
    }
}

/// The first `k` apply phases preserve every channel's configuration and do
/// not touch the channels at or beyond `k`.
#[verifier::spinoff_prover]
proof fn lemma_apply_upto_config(ts: Seq<ChannelModel>, k: int)
    requires
        0 <= k <= ts.len(),
    ensures
        apply_upto(ts, k).len() == ts.len(),
        forall|j: int| 0 <= j < ts.len() ==> same_config(#[trigger] apply_upto(ts, k)[j], ts[j]),
        forall|j: int| k <= j < ts.len() ==> #[trigger] apply_upto(ts, k)[j] == ts[j],
    decreases k,
{
    if k > 0 {
        lemma_apply_upto_config(ts, k - 1);
    }
}

/// Configuration-preserving updates keep the declared edges, and with them
/// the validity of a resolve order and the engine's well-formedness.
#[verifier::spinoff_prover]
proof fn lemma_same_config_preserves(
    ts: Seq<ChannelModel>,
    ts2: Seq<ChannelModel>,
    order: Seq<usize>,
)
    requires
        ts2.len() == ts.len(),
        forall|j: int| 0 <= j < ts.len() ==> same_config(#[trigger] ts2[j], ts[j]),
        valid_order(ts, order),
        forall|j: int| 0 <= j < ts.len() ==> chan_refs_below(#[trigger] ts[j], j),
        forall|i: int, j: int| 0 <= i < j < ts.len() ==> ts[i].tag != ts[j].tag,
    ensures
        valid_order(ts2, order),
        forall|j: int| 0 <= j < ts2.len() ==> chan_refs_below(#[trigger] ts2[j], j),
        forall|i: int, j: int| 0 <= i < j < ts2.len() ==> ts2[i].tag != ts2[j].tag,
{
    assert forall|a: int, b: int| edge(ts2, a, b) == edge(ts, a, b) by {
        reveal(edge);
        if 0 <= a < ts.len() && 0 <= b < ts.len() {
            assert(same_config(ts2[a], ts[a]));
            assert(same_config(ts2[b], ts[b]));
        }
    };
    assert forall|i: int, j: int| 0 <= i < j < ts2.len() implies ts2[i].tag != ts2[j].tag by {
        assert(same_config(ts2[i], ts[i]));
        assert(same_config(ts2[j], ts[j]));
    };
    assert forall|j: int| 0 <= j < ts2.len() implies chan_refs_below(#[trigger] ts2[j], j) by {
        assert(same_config(ts2[j], ts[j]));
        assert(chan_refs_below(ts[j], j));
    };
}

/// A configuration-preserving update of one channel keeps the engine well
/// formed.
#[verifier::spinoff_prover]
proof fn lemma_update_keeps_wf(m: FlushModel, m2: FlushModel, i: int)
    requires
        model_wf(m),
        m2.types.len() == m.types.len(),
        0 <= i < m.types.len(),
        same_config(m2.types[i], m.types[i]),
        forall|j: int| 0 <= j < m.types.len() && j != i ==> m2.types[j] == m.types[j],
        m2.order == m.order,
        m2.built == m.built,
    ensures
        model_wf(m2),
{
    assert forall|j: int| 0 <= j < m.types.len() implies same_config(
        #[trigger] m2.types[j],
        m.types[j],
    ) by {
        if j != i {
            assert(m2.types[j] == m.types[j]);
        }
    };
    assert forall|j: int| 0 <= j < m2.types.len() implies chan_refs_below(
        #[trigger] m2.types[j],
        j,
    ) by {
        assert(same_config(m2.types[j], m.types[j]));
        assert(chan_refs_below(m.types[j], j));
    };
    assert forall|ii: int, j: int| 0 <= ii < j < m2.types.len() implies m2.types[ii].tag
        != m2.types[j].tag by {
        assert(same_config(m2.types[ii], m.types[ii]));
        assert(same_config(m2.types[j], m.types[j]));
    };
    if m.built {
        lemma_same_config_preserves(m.types, m2.types, m.order);
    }
}

/// Whether an existing channel matches a configuration: everything but the
/// hooks, which are registered separately.
pub open spec fn config_compatible(c: ChannelModel, g: ConfigModel) -> bool {
    &&& c.tag == g.tag
    &&& c.storage == g.storage
    &&& c.detect_change == g.detect_change
    &&& c.send_event == g.send_event
    &&& c.apply_flush == g.apply_flush
    &&& c.bridge == g.bridge
    &&& c.compute == g.compute
    &&& c.after == g.after
    &&& c.before == g.before
}

/// The channel a configuration registers: flush clear, no host write
/// pending, no hooks yet.
pub open spec fn chan_of_config(g: ConfigModel) -> ChannelModel {
    ChannelModel {
        tag: g.tag,
        storage: g.storage,
        flush: false,
        detect_change: g.detect_change,
        send_event: g.send_event,
        apply_flush: g.apply_flush,
        bridge: g.bridge,
        mirror: None,
        compute: g.compute,
        after: g.after,
        before: g.before,
        hooks: Seq::empty(),
    }
}

/// Whether every channel a configuration refers to is already registered.
pub open spec fn config_refs_ok(g: ConfigModel, n: int) -> bool {
    &&& forall|k: int| 0 <= k < g.after.len() ==> ((#[trigger] g.after[k]) as int) < n
    &&& forall|k: int| 0 <= k < g.before.len() ==> ((#[trigger] g.before[k]) as int) < n
    &&& match crate::channel::dep_of(g.compute) {
        Some(d) => (d as int) < n,
        None => true,
    }
}

/// What registering a configuration does: a matching re-registration is a
/// no-op returning the existing index; an incompatible re-registration or a
/// reference to an unregistered channel is a conflict; otherwise a fresh
/// channel is appended and the engine must be rebuilt.
pub open spec fn register_post(
    m: FlushModel,
    m2: FlushModel,
    g: ConfigModel,
    r: Result<usize, StateError>,
) -> bool {
    match r {
        Ok(j) => if exists|jj: int| 0 <= jj < m.types.len() && (#[trigger] m.types[jj]).tag
            == g.tag {
            &&& m2 == m
            &&& (j as int) < m.types.len()
            &&& m.types[j as int].tag == g.tag
            &&& config_compatible(m.types[j as int], g)
        } else {
            &&& j == m.types.len()
            &&& config_refs_ok(g, m.types.len() as int)
            &&& m2.types == m.types.push(chan_of_config(g))
            &&& !m2.built
            &&& m2.order == m.order
        },
        Err(e) => {
            &&& e == StateError::RegistrationConflict
            &&& m2 == m
            &&& {
                ||| exists|jj: int|
                    0 <= jj < m.types.len() && (#[trigger] m.types[jj]).tag == g.tag
                        && !config_compatible(m.types[jj], g)
                ||| ((forall|jj: int|
                    0 <= jj < m.types.len() ==> (#[trigger] m.types[jj]).tag != g.tag)
                    && !config_refs_ok(g, m.types.len() as int))
            }
        },
    }
}

/// Whether two vectors of indices hold the same elements in order.
fn vec_usize_eq(a: &Vec<usize>, b: &Vec<usize>) -> (r: bool)
    ensures
        r == (a@ == b@),
{
    let n = a.len();
    if n != b.len() {
        proof {
            assert(a@.len() != b@.len());
        }
        return false;
    }
    let mut k: usize = 0;
    while k < n
        invariant
            k <= n,
            n == a@.len(),
            n == b@.len(),
            forall|kk: int| 0 <= kk < k ==> a@[kk] == b@[kk],
        decreases n - k,
    {
        if a[k] != b[k] {
            return false;
        }
        k = k + 1;
    }
    proof {
        assert(a@ =~= b@);
    }
    true
}

/// Whether two vectors of values hold the same elements in order.
fn vec_u64_eq(a: &Vec<u64>, b: &Vec<u64>) -> (r: bool)
    ensures
        r == (a@ == b@),
{
    let n = a.len();
    if n != b.len() {
        proof {
            assert(a@.len() != b@.len());
        }
        return false;
    }
    let mut k: usize = 0;
    while k < n
        invariant
            k <= n,
            n == a@.len(),
            n == b@.len(),
            forall|kk: int| 0 <= kk < k ==> a@[kk] == b@[kk],
        decreases n - k,
    {
        if a[k] != b[k] {
            return false;
        }
        k = k + 1;
    }
    proof {
        assert(a@ =~= b@);
    }
    true
}

/// Whether two storage backends hold the same model.
fn storage_eq(a: &StateStorage, b: &StateStorage) -> (r: bool)
    ensures
        r == (a@ == b@),
{
    match (a, b) {
        (
            StateStorage::Slot { current: ca, next: na },
            StateStorage::Slot { current: cb, next: nb },
        ) => {
            let r = opt_eq(*ca, *cb) && opt_eq(*na, *nb);
            proof {
                if r {
                    assert(a@ =~= b@);
                }
            }
            r
        },
        (
            StateStorage::Stack { current: ca, stack: sa },
            StateStorage::Stack { current: cb, stack: sb },
        ) => {
            let r = opt_eq(*ca, *cb) && vec_u64_eq(sa, sb);
            proof {
                if r {
                    assert(a@ =~= b@);
                }
            }
            r
        },
        _ => false,
    }
}

/// Whether channel `b`'s compute rule reads channel `a`.
spec fn dep_of_is(ts: Seq<ChannelModel>, b: int, a: int) -> bool {
    crate::channel::dep_of(ts[b].compute) == Some(a as usize)
}

/// The trace of hook firings for one flush phase of channel `i`: one step
/// per registered hook of that phase whose predicate admits the transition,
/// in registration order.
pub open spec fn hook_steps_model(
    i: int,
    hooks: Seq<Hook>,
    phase: StateFlushSet,
    cur: Option<u64>,
    nxt: Option<u64>,
) -> Seq<TraceStep>
    decreases hooks.len(),
{
    if hooks.len() == 0 {
        Seq::empty()
    } else {
        let rest = hook_steps_model(i, hooks.drop_last(), phase, cur, nxt);
        let h = hooks.last();
        if h.phase == phase && hook_fires(h, cur, nxt) {
            rest.push(TraceStep::Hook(i as usize, h.id))
        } else {
            rest
        }
    }
}

/// The trace of the flush phases of one resolved channel: nothing unless the
/// channel flushes; otherwise the exit, transition and enter phases in that
/// order, each present exactly when its side of the transition is, with its
/// fired hooks and its enablement-gated any-hook phase.
pub open spec fn flush_trace(i: int, c: ChannelModel) -> Seq<TraceStep> {
    if !c.flush {
        Seq::empty()
    } else {
        let cur = cur_of(c.storage);
        let nxt = next_of(c.storage);
        seq![
            TraceStep::Phase(i as usize, ResolveStateSet::Flush),
            TraceStep::Phase(i as usize, ResolveStateSet::AnyFlush),
        ] + (if present(cur) {
            seq![TraceStep::Phase(i as usize, ResolveStateSet::Exit)] + hook_steps_model(
                i,
                c.hooks,
                StateFlushSet::Exit,
                cur,
                nxt,
            ) + seq![TraceStep::Phase(i as usize, ResolveStateSet::AnyExit)]
        } else {
            Seq::empty()
        }) + (if present(cur) && present(nxt) {
            seq![TraceStep::Phase(i as usize, ResolveStateSet::Trans)] + hook_steps_model(
                i,
                c.hooks,
                StateFlushSet::Transition,
                cur,
                nxt,
            ) + seq![TraceStep::Phase(i as usize, ResolveStateSet::AnyTrans)]
        } else {
            Seq::empty()
        }) + (if present(nxt) {
            seq![TraceStep::Phase(i as usize, ResolveStateSet::Enter)] + hook_steps_model(
                i,
                c.hooks,
                StateFlushSet::Enter,
                cur,
                nxt,
            ) + seq![TraceStep::Phase(i as usize, ResolveStateSet::AnyEnter)]
        } else {
            Seq::empty()
        })
    }
}

/// The whole trace of one channel's resolve phase: the resolve marker, the
/// compute marker when the channel computes, the trigger marker, then the
/// flush phases of the resolved channel.
pub open spec fn resolve_trace_step(ts: Seq<ChannelModel>, i: int) -> Seq<TraceStep> {
    seq![TraceStep::Phase(i as usize, ResolveStateSet::Resolve)] + (match computed_next(ts, i) {
        None => Seq::<TraceStep>::empty(),
        Some(_) => seq![TraceStep::Phase(i as usize, ResolveStateSet::Compute)],
    }) + seq![TraceStep::Phase(i as usize, ResolveStateSet::Trigger)] + flush_trace(
        i,
        resolve_step(ts, i),
    )
}

/// The channels after the first `k` resolve phases of the tick, taken in
/// schedule order; each resolve phase reads the channels as left by the
/// phases before it.
pub open spec fn resolve_upto(ts: Seq<ChannelModel>, order: Seq<usize>, k: int) -> Seq<
    ChannelModel,
>
    decreases k,
{
    if k <= 0 {
        ts
    } else {
        let prev = resolve_upto(ts, order, k - 1);
        prev.update(order[k - 1] as int, resolve_step(prev, order[k - 1] as int))
    }
}

/// The trace of the first `k` resolve phases of the tick.
pub open spec fn resolve_trace_upto(ts: Seq<ChannelModel>, order: Seq<usize>, k: int) -> Seq<
    TraceStep,
>
    decreases k,
{
    if k <= 0 {
        Seq::empty()
    } else {
        resolve_trace_upto(ts, order, k - 1) + resolve_trace_step(
            resolve_upto(ts, order, k - 1),
            order[k - 1] as int,
        )
    }
}

/// The channels after resolving the whole schedule order.
pub open spec fn resolved_types(ts: Seq<ChannelModel>, order: Seq<usize>) -> Seq<ChannelModel> {
    resolve_upto(ts, order, order.len() as int)
}

/// The resolved channels after the apply phases of the first `k` channels,
/// taken in registration order.
pub open spec fn apply_upto(ts: Seq<ChannelModel>, k: int) -> Seq<ChannelModel>
    decreases k,
{
    if k <= 0 {
        ts
    } else {
        let prev = apply_upto(ts, k - 1);
        prev.update(k - 1, apply_step(prev[k - 1]))
    }
}

/// The trace of the apply phases of the first `k` resolved channels: one
/// apply step for each flushing channel with the apply capability.
pub open spec fn apply_trace_upto(ts: Seq<ChannelModel>, k: int) -> Seq<TraceStep>
    decreases k,
{
    if k <= 0 {
        Seq::empty()
    } else {
        apply_trace_upto(ts, k - 1) + (if ts[k - 1].flush && ts[k - 1].apply_flush {
            seq![TraceStep::Apply((k - 1) as usize)]
        } else {
            Seq::empty()
        })
    }
}

/// The flush events published by the apply phases of the first `k` resolved
/// channels: one per applying channel with the event capability, with the
/// pre-commit current value and the committed value.
pub open spec fn events_upto(ts: Seq<ChannelModel>, k: int) -> Seq<(usize, StateFlushEvent)>
    decreases k,
{
    if k <= 0 {
        Seq::empty()
    } else {
        events_upto(ts, k - 1) + (if ts[k - 1].flush && ts[k - 1].apply_flush && ts[k
            - 1].send_event {
            seq![
                (
                    (k - 1) as usize,
                    StateFlushEvent {
                        before: cur_of(ts[k - 1].storage),
                        after: next_of(ts[k - 1].storage),
                    },
                ),
            ]
        } else {
            Seq::empty()
        })
    }
}

/// The channels at the end of a tick: every resolve phase in schedule order,
/// then every apply phase.
pub open spec fn ticked_types(ts: Seq<ChannelModel>, order: Seq<usize>) -> Seq<ChannelModel> {
    apply_upto(resolved_types(ts, order), ts.len() as int)
}

/// The whole trace of a tick.
pub open spec fn tick_trace(ts: Seq<ChannelModel>, order: Seq<usize>) -> Seq<TraceStep> {
    resolve_trace_upto(ts, order, order.len() as int) + apply_trace_upto(
        resolved_types(ts, order),
        ts.len() as int,
    )
}

/// The flush events published during a tick.
pub open spec fn tick_events(ts: Seq<ChannelModel>, order: Seq<usize>) -> Seq<
    (usize, StateFlushEvent),
> {
    events_upto(resolved_types(ts, order), ts.len() as int)
}

/// Evaluate the hooks of one flush phase, reporting one trace step per hook
/// that fires.
fn run_hooks(
    i: usize,
    hooks: &Vec<Hook>,
    phase: StateFlushSet,
    cur: Option<u64>,
    nxt: Option<u64>,
) -> (r: Vec<TraceStep>)
    ensures
        r@ == hook_steps_model(i as int, hooks@, phase, cur, nxt),
{
    let n = hooks.len();
    let mut r: Vec<TraceStep> = Vec::new();
    let mut h: usize = 0;
    while h < n
        invariant
            h <= n,
            n == hooks@.len(),
            r@ == hook_steps_model(i as int, hooks@.take(h as int), phase, cur, nxt),
        decreases n - h,
    {
        let hk = hooks[h];
        proof {
            assert(hooks@.take(h + 1).drop_last() =~= hooks@.take(h as int));
            assert(hooks@.take(h + 1).last() == hooks@[h as int]);
        }
        if hk.phase == phase && hk.fires(cur, nxt) {
            r.push(TraceStep::Hook(i, hk.id));
        }
        h = h + 1;
    }
    proof {
        assert(hooks@.take(n as int) =~= hooks@);
    }
    r
}

/// Run the flush phases of one resolved channel, reporting the trace.
#[verifier::spinoff_prover]
fn run_flush(i: usize, ch: &StateChannel) -> (seg: Vec<TraceStep>)
    ensures
        seg@ == flush_trace(i as int, ch@),
{
    let mut seg: Vec<TraceStep> = Vec::new();
    if ch.flush {
        let cur = ch.storage.get_current();
        let nxt = ch.storage.get_next();
        seg.push(TraceStep::Phase(i, ResolveStateSet::Flush));
        seg.push(TraceStep::Phase(i, ResolveStateSet::AnyFlush));
        if cur.is_some() {
            seg.push(TraceStep::Phase(i, ResolveStateSet::Exit));
            let mut hs = run_hooks(i, &ch.hooks, StateFlushSet::Exit, cur, nxt);
            seg.append(&mut hs);
            seg.push(TraceStep::Phase(i, ResolveStateSet::AnyExit));
        }
        if cur.is_some() && nxt.is_some() {
            seg.push(TraceStep::Phase(i, ResolveStateSet::Trans));
            let mut hs = run_hooks(i, &ch.hooks, StateFlushSet::Transition, cur, nxt);
            seg.append(&mut hs);
            seg.push(TraceStep::Phase(i, ResolveStateSet::AnyTrans));
        }
        if nxt.is_some() {
            seg.push(TraceStep::Phase(i, ResolveStateSet::Enter));
            let mut hs = run_hooks(i, &ch.hooks, StateFlushSet::Enter, cur, nxt);
            seg.append(&mut hs);
            seg.push(TraceStep::Phase(i, ResolveStateSet::AnyEnter));
        }
    }
    proof {
        assert(seg@ =~= flush_trace(i as int, ch@));
    }
    seg
}

/// The first index whose flag is unset, if any.
fn find_unplaced(placed: &Vec<bool>) -> (r: Option<usize>)
    ensures
        match r {
            Some(u) => (u as int) < placed@.len() && !placed@[u as int],
            None => forall|j: int| 0 <= j < placed@.len() ==> placed@[j],
        },
{
    let n = placed.len();
    let mut u: usize = 0;
    while u < n
        invariant
            u <= n,
            n == placed@.len(),
            forall|jj: int| 0 <= jj < u ==> placed@[jj],
        decreases n - u,
    {
        if !placed[u] {
            return Some(u);
        }
        u = u + 1;
    }
    None
}

/// Whether a trace step is an apply step.
pub open spec fn step_is_apply(t: TraceStep) -> bool {
    match t {
        TraceStep::Apply(_) => true,
        _ => false,
    }
}

/// Whether a trace step is a hook firing of channel `i`.
pub open spec fn step_is_hook_of(t: TraceStep, i: int) -> bool {
    match t {
        TraceStep::Hook(ii, _) => ii as int == i,
        _ => false,
    }
}

/// Every step of a hook trace is a hook firing of the channel.
proof fn lemma_hook_steps_are_hooks(
    i: int,
    hooks: Seq<Hook>,
    phase: StateFlushSet,
    cur: Option<u64>,
    nxt: Option<u64>,
)
    requires
        0 <= i <= usize::MAX,
    ensures
        forall|j: int|
            0 <= j < hook_steps_model(i, hooks, phase, cur, nxt).len() ==> step_is_hook_of(
                #[trigger] hook_steps_model(i, hooks, phase, cur, nxt)[j],
                i,
            ),
    decreases hooks.len(),
{
    if hooks.len() > 0 {
        lemma_hook_steps_are_hooks(i, hooks.drop_last(), phase, cur, nxt);
        let whole = hook_steps_model(i, hooks, phase, cur, nxt);
        let rest = hook_steps_model(i, hooks.drop_last(), phase, cur, nxt);
        assert forall|j: int| 0 <= j < whole.len() implies step_is_hook_of(
            #[trigger] whole[j],
            i,
        ) by {
            if j < rest.len() {
                assert(whole[j] == rest[j]);
                assert(step_is_hook_of(rest[j], i));
            }
        };
    }
}

/// A disabling transition runs exactly the exit phases: a flushing channel
/// whose current value is present and whose pending value is absent reports
/// the flush, any-flush, exit and any-exit phases with the fired exit
/// hooks, and never an enter, transition, any-enter or any-trans phase.
pub proof fn lemma_disable_flush_trace(i: int, c: ChannelModel)
    requires
        0 <= i <= usize::MAX,
        c.flush,
        present(cur_of(c.storage)),
        !present(next_of(c.storage)),
    ensures
        flush_trace(i, c) =~= seq![
            TraceStep::Phase(i as usize, ResolveStateSet::Flush),
            TraceStep::Phase(i as usize, ResolveStateSet::AnyFlush),
            TraceStep::Phase(i as usize, ResolveStateSet::Exit),
        ] + hook_steps_model(i, c.hooks, StateFlushSet::Exit, cur_of(c.storage), next_of(c.storage))
            + seq![TraceStep::Phase(i as usize, ResolveStateSet::AnyExit)],
        forall|j: int|
            0 <= j < flush_trace(i, c).len() ==> #[trigger] flush_trace(i, c)[j] != TraceStep::Phase(
                i as usize,
                ResolveStateSet::Enter,
            ) && flush_trace(i, c)[j] != TraceStep::Phase(i as usize, ResolveStateSet::Trans)
                && flush_trace(i, c)[j] != TraceStep::Phase(i as usize, ResolveStateSet::AnyEnter)
                && flush_trace(i, c)[j] != TraceStep::Phase(i as usize, ResolveStateSet::AnyTrans),
{
    let cur = cur_of(c.storage);
    let nxt = next_of(c.storage);
    let eh = hook_steps_model(i, c.hooks, StateFlushSet::Exit, cur, nxt);
    lemma_hook_steps_are_hooks(i, c.hooks, StateFlushSet::Exit, cur, nxt);
    assert forall|j: int| 0 <= j < flush_trace(i, c).len() implies #[trigger] flush_trace(i, c)[j]
        != TraceStep::Phase(i as usize, ResolveStateSet::Enter) && flush_trace(i, c)[j]
        != TraceStep::Phase(i as usize, ResolveStateSet::Trans) && flush_trace(i, c)[j]
        != TraceStep::Phase(i as usize, ResolveStateSet::AnyEnter) && flush_trace(i, c)[j]
        != TraceStep::Phase(i as usize, ResolveStateSet::AnyTrans) by {
        if 3 <= j < 3 + eh.len() {
            assert(flush_trace(i, c)[j] == eh[j - 3]);
            assert(step_is_hook_of(eh[j - 3], i));
        }
    };
}

/// A full transition runs each flush phase exactly once and in order: a
/// flushing channel with both sides present reports the exit phase, then
/// the transition phase, then the enter phase, each with its fired hooks
/// and its any-hook phase, and each phase marker appears at exactly one
/// position, with exit before transition before enter.
pub proof fn lemma_transition_flush_trace(i: int, c: ChannelModel)
    requires
        0 <= i <= usize::MAX,
        c.flush,
        present(cur_of(c.storage)),
        present(next_of(c.storage)),
    ensures
        ({
            let cur = cur_of(c.storage);
            let nxt = next_of(c.storage);
            let eh = hook_steps_model(i, c.hooks, StateFlushSet::Exit, cur, nxt);
            let th = hook_steps_model(i, c.hooks, StateFlushSet::Transition, cur, nxt);
            let nh = hook_steps_model(i, c.hooks, StateFlushSet::Enter, cur, nxt);
            let ft = flush_trace(i, c);
            &&& ft =~= seq![
                TraceStep::Phase(i as usize, ResolveStateSet::Flush),
                TraceStep::Phase(i as usize, ResolveStateSet::AnyFlush),
                TraceStep::Phase(i as usize, ResolveStateSet::Exit),
            ] + eh + seq![
                TraceStep::Phase(i as usize, ResolveStateSet::AnyExit),
                TraceStep::Phase(i as usize, ResolveStateSet::Trans),
            ] + th + seq![
                TraceStep::Phase(i as usize, ResolveStateSet::AnyTrans),
                TraceStep::Phase(i as usize, ResolveStateSet::Enter),
            ] + nh + seq![TraceStep::Phase(i as usize, ResolveStateSet::AnyEnter)]
            &&& forall|j: int|
                0 <= j < ft.len() ==> ((#[trigger] ft[j] == TraceStep::Phase(
                    i as usize,
                    ResolveStateSet::Exit,
                )) <==> j == 2)
            &&& forall|j: int|
                0 <= j < ft.len() ==> ((#[trigger] ft[j] == TraceStep::Phase(
                    i as usize,
                    ResolveStateSet::Trans,
                )) <==> j == 4 + eh.len())
            &&& forall|j: int|
                0 <= j < ft.len() ==> ((#[trigger] ft[j] == TraceStep::Phase(
                    i as usize,
                    ResolveStateSet::Enter,
                )) <==> j == 6 + eh.len() + th.len())
        }),
{
    let cur = cur_of(c.storage);
    let nxt = next_of(c.storage);
    let eh = hook_steps_model(i, c.hooks, StateFlushSet::Exit, cur, nxt);
    let th = hook_steps_model(i, c.hooks, StateFlushSet::Transition, cur, nxt);
    let nh = hook_steps_model(i, c.hooks, StateFlushSet::Enter, cur, nxt);
    let ft = flush_trace(i, c);
    lemma_hook_steps_are_hooks(i, c.hooks, StateFlushSet::Exit, cur, nxt);
    lemma_hook_steps_are_hooks(i, c.hooks, StateFlushSet::Transition, cur, nxt);
    lemma_hook_steps_are_hooks(i, c.hooks, StateFlushSet::Enter, cur, nxt);
    assert(ft =~= seq![
        TraceStep::Phase(i as usize, ResolveStateSet::Flush),
        TraceStep::Phase(i as usize, ResolveStateSet::AnyFlush),
        TraceStep::Phase(i as usize, ResolveStateSet::Exit),
    ] + eh + seq![
        TraceStep::Phase(i as usize, ResolveStateSet::AnyExit),
        TraceStep::Phase(i as usize, ResolveStateSet::Trans),
    ] + th + seq![
        TraceStep::Phase(i as usize, ResolveStateSet::AnyTrans),
        TraceStep::Phase(i as usize, ResolveStateSet::Enter),
    ] + nh + seq![TraceStep::Phase(i as usize, ResolveStateSet::AnyEnter)]);
    assert forall|j: int| 0 <= j < ft.len() implies ((#[trigger] ft[j] == TraceStep::Phase(
        i as usize,
        ResolveStateSet::Exit,
    )) <==> j == 2) by {
        if 3 <= j < 3 + eh.len() {
            assert(step_is_hook_of(eh[j - 3], i));
        }
        if 5 + eh.len() <= j < 5 + eh.len() + th.len() {
            assert(step_is_hook_of(th[j - 5 - eh.len()], i));
        }
        if 7 + eh.len() + th.len() <= j < 7 + eh.len() + th.len() + nh.len() {
            assert(step_is_hook_of(nh[j - 7 - eh.len() - th.len()], i));
        }
    };
    assert forall|j: int| 0 <= j < ft.len() implies ((#[trigger] ft[j] == TraceStep::Phase(
        i as usize,
        ResolveStateSet::Trans,
    )) <==> j == 4 + eh.len()) by {
        if 3 <= j < 3 + eh.len() {
            assert(step_is_hook_of(eh[j - 3], i));
        }
        if 5 + eh.len() <= j < 5 + eh.len() + th.len() {
            assert(step_is_hook_of(th[j - 5 - eh.len()], i));
        }
        if 7 + eh.len() + th.len() <= j < 7 + eh.len() + th.len() + nh.len() {
            assert(step_is_hook_of(nh[j - 7 - eh.len() - th.len()], i));
        }
    };
    assert forall|j: int| 0 <= j < ft.len() implies ((#[trigger] ft[j] == TraceStep::Phase(
        i as usize,
        ResolveStateSet::Enter,
    )) <==> j == 6 + eh.len() + th.len()) by {
        if 3 <= j < 3 + eh.len() {
            assert(step_is_hook_of(eh[j - 3], i));
        }
        if 5 + eh.len() <= j < 5 + eh.len() + th.len() {
            assert(step_is_hook_of(th[j - 5 - eh.len()], i));
        }
        if 7 + eh.len() + th.len() <= j < 7 + eh.len() + th.len() + nh.len() {
            assert(step_is_hook_of(nh[j - 7 - eh.len() - th.len()], i));
        }
    };
}

/// No step of the resolve part of a tick is an apply step.
proof fn lemma_resolve_trace_no_apply(ts: Seq<ChannelModel>, order: Seq<usize>, k: int)
    ensures
        forall|j: int|
            0 <= j < resolve_trace_upto(ts, order, k).len() ==> !step_is_apply(
                #[trigger] resolve_trace_upto(ts, order, k)[j],
            ),
    decreases k,
{
    if k > 0 {
        lemma_resolve_trace_no_apply(ts, order, k - 1);
        let prev = resolve_upto(ts, order, k - 1);
        let i = order[k - 1] as int;
        lemma_resolve_trace_step_no_apply(prev, i);
        let whole = resolve_trace_upto(ts, order, k);
        let rest = resolve_trace_upto(ts, order, k - 1);
        let seg = resolve_trace_step(prev, i);
        assert forall|j: int| 0 <= j < whole.len() implies !step_is_apply(#[trigger] whole[j]) by {
            if j < rest.len() {
                assert(whole[j] == rest[j]);
            } else {
                assert(whole[j] == seg[j - rest.len()]);
            }
        };
    }
}

/// No step of one channel's resolve trace is an apply step.
proof fn lemma_resolve_trace_step_no_apply(ts: Seq<ChannelModel>, i: int)
    requires
        0 <= i <= usize::MAX,
    ensures
        forall|j: int|
            0 <= j < resolve_trace_step(ts, i).len() ==> !step_is_apply(
                #[trigger] resolve_trace_step(ts, i)[j],
            ),
{
    let c = resolve_step(ts, i);
    let cur = cur_of(c.storage);
    let nxt = next_of(c.storage);
    lemma_hook_steps_are_hooks(i, c.hooks, StateFlushSet::Exit, cur, nxt);
    lemma_hook_steps_are_hooks(i, c.hooks, StateFlushSet::Transition, cur, nxt);
    lemma_hook_steps_are_hooks(i, c.hooks, StateFlushSet::Enter, cur, nxt);
    let eh = hook_steps_model(i, c.hooks, StateFlushSet::Exit, cur, nxt);
    let th = hook_steps_model(i, c.hooks, StateFlushSet::Transition, cur, nxt);
    let nh = hook_steps_model(i, c.hooks, StateFlushSet::Enter, cur, nxt);
    let seg = resolve_trace_step(ts, i);
    let ftr = flush_trace(i, c);
    assert forall|j: int| 0 <= j < seg.len() implies !step_is_apply(#[trigger] seg[j]) by {
        let head = seg.len() - ftr.len();
        if j >= head {
            let jf = j - head;
            assert(seg[j] == ftr[jf]);
            if c.flush {
                let base_b: int = 2;
                let base_c: int = base_b + (if present(cur) {
                    2 + eh.len()
                } else {
                    0
                });
                let base_d: int = base_c + (if present(cur) && present(nxt) {
                    2 + th.len()
                } else {
                    0
                });
                if present(cur) && base_b + 1 <= jf < base_b + 1 + eh.len() {
                    assert(ftr[jf] == eh[jf - base_b - 1]);
                    assert(step_is_hook_of(ftr[jf], i));
                }
                if present(cur) && present(nxt) && base_c + 1 <= jf < base_c + 1 + th.len() {
                    assert(ftr[jf] == th[jf - base_c - 1]);
                    assert(step_is_hook_of(ftr[jf], i));
                }
                if present(nxt) && base_d + 1 <= jf < base_d + 1 + nh.len() {
                    assert(ftr[jf] == nh[jf - base_d - 1]);
                    assert(step_is_hook_of(ftr[jf], i));
                }
            }
        }
    };
}

/// Every step of the apply part of a tick is an apply step.
proof fn lemma_apply_trace_all_apply(ts: Seq<ChannelModel>, k: int)
    ensures
        forall|j: int|
            0 <= j < apply_trace_upto(ts, k).len() ==> step_is_apply(
                #[trigger] apply_trace_upto(ts, k)[j],
            ),
    decreases k,
{
    if k > 0 {
        lemma_apply_trace_all_apply(ts, k - 1);
        let whole = apply_trace_upto(ts, k);
        let rest = apply_trace_upto(ts, k - 1);
        assert forall|j: int| 0 <= j < whole.len() implies step_is_apply(#[trigger] whole[j]) by {
            if j < rest.len() {
                assert(whole[j] == rest[j]);
                assert(step_is_apply(rest[j]));
            } else {
                assert(whole[j] == TraceStep::Apply((k - 1) as usize));
            }
        };
    }
}

/// Every apply phase of a tick runs after every resolve phase of every
/// channel: an apply step never precedes any other kind of step in the tick
/// trace.
pub proof fn lemma_apply_follows_resolve(
    ts: Seq<ChannelModel>,
    order: Seq<usize>,
    j1: int,
    j2: int,
)
    requires
        0 <= j1 < tick_trace(ts, order).len(),
        0 <= j2 < tick_trace(ts, order).len(),
        !step_is_apply(tick_trace(ts, order)[j1]),
        step_is_apply(tick_trace(ts, order)[j2]),
    ensures
        j1 < j2,
{
    let rpart = resolve_trace_upto(ts, order, order.len() as int);
    let apart = apply_trace_upto(resolved_types(ts, order), ts.len() as int);
    lemma_resolve_trace_no_apply(ts, order, order.len() as int);
    lemma_apply_trace_all_apply(resolved_types(ts, order), ts.len() as int);
    assert(j1 < rpart.len());
    assert(j2 >= rpart.len());
}

/// A flushing channel with the apply capability commits during the tick:
/// its apply step stands in the tick trace.
pub proof fn lemma_apply_occurs(ts: Seq<ChannelModel>, order: Seq<usize>, i: int)
    requires
        0 <= i < ts.len(),
        resolved_types(ts, order)[i].flush,
        resolved_types(ts, order)[i].apply_flush,
    ensures
        tick_trace(ts, order).contains(TraceStep::Apply(i as usize)),
{
    let rts = resolved_types(ts, order);
    lemma_apply_trace_contains(rts, ts.len() as int, i);
    let j = choose|j: int|
        0 <= j < apply_trace_upto(rts, ts.len() as int).len() && #[trigger] apply_trace_upto(
            rts,
            ts.len() as int,
        )[j] == TraceStep::Apply(i as usize);
    let rlen = resolve_trace_upto(ts, order, order.len() as int).len() as int;
    assert(tick_trace(ts, order)[rlen + j] == TraceStep::Apply(i as usize));
}

/// The apply part of a tick contains the apply step of every flushing
/// channel with the apply capability below the bound.
proof fn lemma_apply_trace_contains(ts: Seq<ChannelModel>, k: int, i: int)
    requires
        0 <= i < k,
        ts[i].flush,
        ts[i].apply_flush,
    ensures
        exists|j: int|
            0 <= j < apply_trace_upto(ts, k).len() && apply_trace_upto(ts, k)[j]
                == TraceStep::Apply(i as usize),
    decreases k,
{
    if i == k - 1 {
        let prevlen = apply_trace_upto(ts, k - 1).len() as int;
        assert(apply_trace_upto(ts, k)[prevlen] == TraceStep::Apply(i as usize));
    } else {
        lemma_apply_trace_contains(ts, k - 1, i);
        let j = choose|j: int|
            0 <= j < apply_trace_upto(ts, k - 1).len() && #[trigger] apply_trace_upto(
                ts,
                k - 1,
            )[j] == TraceStep::Apply(i as usize);
        assert(apply_trace_upto(ts, k)[j] == TraceStep::Apply(i as usize));
    }
}

/// Whether a trace step concerns channel `i`.
pub open spec fn step_of(t: TraceStep, i: int) -> bool {
    match t {
        TraceStep::Phase(ii, _) => ii as int == i,
        TraceStep::Hook(ii, _) => ii as int == i,
        TraceStep::Apply(ii) => ii as int == i,
    }
}

/// Every step of one channel's resolve trace concerns that channel.
proof fn lemma_resolve_trace_step_owner(ts: Seq<ChannelModel>, i: int)
    requires
        0 <= i <= usize::MAX,
    ensures
        forall|j: int|
            0 <= j < resolve_trace_step(ts, i).len() ==> step_of(
                #[trigger] resolve_trace_step(ts, i)[j],
                i,
            ),
{
    let c = resolve_step(ts, i);
    let cur = cur_of(c.storage);
    let nxt = next_of(c.storage);
    lemma_hook_steps_are_hooks(i, c.hooks, StateFlushSet::Exit, cur, nxt);
    lemma_hook_steps_are_hooks(i, c.hooks, StateFlushSet::Transition, cur, nxt);
    lemma_hook_steps_are_hooks(i, c.hooks, StateFlushSet::Enter, cur, nxt);
    let eh = hook_steps_model(i, c.hooks, StateFlushSet::Exit, cur, nxt);
    let th = hook_steps_model(i, c.hooks, StateFlushSet::Transition, cur, nxt);
    let nh = hook_steps_model(i, c.hooks, StateFlushSet::Enter, cur, nxt);
    let seg = resolve_trace_step(ts, i);
    let ftr = flush_trace(i, c);
    assert forall|j: int| 0 <= j < seg.len() implies step_of(#[trigger] seg[j], i) by {
        let head = seg.len() - ftr.len();
        if j >= head {
            let jf = j - head;
            assert(seg[j] == ftr[jf]);
            if c.flush {
                let base_b: int = 2;
                let base_c: int = base_b + (if present(cur) {
                    2 + eh.len()
                } else {
                    0
                });
                let base_d: int = base_c + (if present(cur) && present(nxt) {
                    2 + th.len()
                } else {
                    0
                });
                if present(cur) && base_b + 1 <= jf < base_b + 1 + eh.len() {
                    assert(ftr[jf] == eh[jf - base_b - 1]);
                    assert(step_is_hook_of(ftr[jf], i));
                }
                if present(cur) && present(nxt) && base_c + 1 <= jf < base_c + 1 + th.len() {
                    assert(ftr[jf] == th[jf - base_c - 1]);
                    assert(step_is_hook_of(ftr[jf], i));
                }
                if present(nxt) && base_d + 1 <= jf < base_d + 1 + nh.len() {
                    assert(ftr[jf] == nh[jf - base_d - 1]);
                    assert(step_is_hook_of(ftr[jf], i));
                }
            }
        }
    };
}

/// The resolve part of the trace grows with the number of phases taken.
proof fn lemma_rtrace_len_mono(ts: Seq<ChannelModel>, order: Seq<usize>, k1: int, k2: int)
    requires
        k1 <= k2,
    ensures
        resolve_trace_upto(ts, order, k1).len() <= resolve_trace_upto(ts, order, k2).len(),
    decreases k2 - k1,
{
    if k1 < k2 {
        lemma_rtrace_len_mono(ts, order, k1, k2 - 1);
    }
}

/// Every step of the resolve part lies in the segment of the channel whose
/// resolve phase produced it, at the position that phase holds in the
/// schedule order.
proof fn lemma_resolve_trace_owners(ts: Seq<ChannelModel>, order: Seq<usize>, k: int)
    ensures
        forall|j: int|
            0 <= j < resolve_trace_upto(ts, order, k).len() ==> exists|m: int|
                0 <= m < k && step_of(
                    #[trigger] resolve_trace_upto(ts, order, k)[j],
                    order[m] as int,
                ) && resolve_trace_upto(ts, order, m).len() <= j < resolve_trace_upto(
                    ts,
                    order,
                    m + 1,
                ).len(),
    decreases k,
{
    if k > 0 {
        lemma_resolve_trace_owners(ts, order, k - 1);
        let prev = resolve_upto(ts, order, k - 1);
        let i = order[k - 1] as int;
        lemma_resolve_trace_step_owner(prev, i);
        let whole = resolve_trace_upto(ts, order, k);
        let rest = resolve_trace_upto(ts, order, k - 1);
        let seg = resolve_trace_step(prev, i);
        assert forall|j: int| 0 <= j < whole.len() implies exists|m: int|
            0 <= m < k && step_of(#[trigger] whole[j], order[m] as int) && resolve_trace_upto(
                ts,
                order,
                m,
            ).len() <= j < resolve_trace_upto(ts, order, m + 1).len() by {
            if j < rest.len() {
                assert(whole[j] == rest[j]);
                let m = choose|m: int|
                    0 <= m < k - 1 && step_of(#[trigger] rest[j], order[m] as int)
                        && resolve_trace_upto(ts, order, m).len() <= j < resolve_trace_upto(
                        ts,
                        order,
                        m + 1,
                    ).len();
                assert(0 <= m < k && step_of(whole[j], order[m] as int) && resolve_trace_upto(
                    ts,
                    order,
                    m,
                ).len() <= j < resolve_trace_upto(ts, order, m + 1).len());
            } else {
                assert(whole[j] == seg[j - rest.len()]);
                assert(step_of(whole[j], order[k - 1] as int));
                let m = k - 1;
                assert(0 <= m < k && step_of(whole[j], order[m] as int) && resolve_trace_upto(
                    ts,
                    order,
                    m,
                ).len() <= j < resolve_trace_upto(ts, order, m + 1).len());
            }
        };
    }
}

/// For a declared edge, every resolve step of the earlier channel precedes
/// every resolve step of the later one: in particular, the earlier channel's
/// whole resolve phase completes before the later one's compute phase
/// begins, so the later channel reads a fully resolved pending value.
pub proof fn lemma_before_edge_resolve_order(
    ts: Seq<ChannelModel>,
    order: Seq<usize>,
    a: int,
    b: int,
    j1: int,
    j2: int,
)
    requires
        ts.len() <= usize::MAX,
        valid_order(ts, order),
        edge(ts, a, b),
        0 <= j1 < resolve_trace_upto(ts, order, order.len() as int).len(),
        0 <= j2 < resolve_trace_upto(ts, order, order.len() as int).len(),
        step_of(resolve_trace_upto(ts, order, order.len() as int)[j1], a),
        step_of(resolve_trace_upto(ts, order, order.len() as int)[j2], b),
    ensures
        j1 < j2,
{
    let kk = order.len() as int;
    let tr = resolve_trace_upto(ts, order, kk);
    lemma_resolve_trace_owners(ts, order, kk);
    let m1 = choose|m: int|
        0 <= m < kk && step_of(#[trigger] tr[j1], order[m] as int) && resolve_trace_upto(
            ts,
            order,
            m,
        ).len() <= j1 < resolve_trace_upto(ts, order, m + 1).len();
    let m2 = choose|m: int|
        0 <= m < kk && step_of(#[trigger] tr[j2], order[m] as int) && resolve_trace_upto(
            ts,
            order,
            m,
        ).len() <= j2 < resolve_trace_upto(ts, order, m + 1).len();
    crate::schedule::resolve_state::lemma_edge_bounds(ts, a, b);
    assert(order[m1] as int == a);
    assert(order[m2] as int == b);
    assert(edge(ts, order[m1] as int, order[m2] as int));
    assert(m1 < m2);
    lemma_rtrace_len_mono(ts, order, m1 + 1, m2);
}

} // verus!
