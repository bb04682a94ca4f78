//! Registration: channel configurations assembled from composable
//! capability plugins, applied when a state type is added to the engine.

use vstd::prelude::*;

use crate::channel::ComputeRule;
use crate::schedule::StateFlush;
use crate::storage::{StateStorage, StorageModel};

verus! {

/// Mathematical model of a channel configuration.
#[verifier::ext_equal]
pub struct ConfigModel {
    pub tag: u64,
    pub storage: StorageModel,
    pub detect_change: bool,
    pub send_event: bool,
    pub apply_flush: bool,
    pub bridge: bool,
    pub compute: ComputeRule,
    pub after: Seq<usize>,
    pub before: Seq<usize>,
}

/// The configuration a state type is registered under: its stable tag, its
/// storage backend with any initial value, its optional capabilities, its
/// compute rule and its declared dependency edges, as indices of channels
/// registered earlier.
pub struct StateConfig {
    pub tag: u64,
    pub storage: StateStorage,
    pub detect_change: bool,
    pub send_event: bool,
    pub apply_flush: bool,
    pub bridge: bool,
    pub compute: ComputeRule,
    pub after: Vec<usize>,
    pub before: Vec<usize>,
}

impl View for StateConfig {
    type V = ConfigModel;

    open spec fn view(&self) -> ConfigModel {
        ConfigModel {
            tag: self.tag,
            storage: self.storage@,
            detect_change: self.detect_change,
            send_event: self.send_event,
            apply_flush: self.apply_flush,
            bridge: self.bridge,
            compute: self.compute,
            after: self.after@,
            before: self.before@,
        }
    }
}

/// The bare configuration: every capability off.
pub open spec fn bare_model(tag: u64, storage: StorageModel) -> ConfigModel {
    ConfigModel {
        tag,
        storage,
        detect_change: false,
        send_event: false,
        apply_flush: false,
        bridge: false,
        compute: ComputeRule::Passive,
        after: Seq::empty(),
        before: Seq::empty(),
    }
}

/// The standard configuration: change detection, flush events and apply.
pub open spec fn standard_model(tag: u64, storage: StorageModel) -> ConfigModel {
    ConfigModel {
        detect_change: true,
        send_event: true,
        apply_flush: true,
        ..bare_model(tag, storage)
    }
}

impl StateConfig {
    /// A bare configuration with every capability off.
    pub fn new(tag: u64, storage: StateStorage) -> (r: StateConfig)
        ensures
            r@ =~= bare_model(tag, storage@),
    {
        StateConfig {
            tag,
            storage,
            detect_change: false,
            send_event: false,
            apply_flush: false,
            bridge: false,
            compute: ComputeRule::Passive,
            after: Vec::new(),
            before: Vec::new(),
        }
    }

    /// The standard configuration: change detection, flush events and apply.
    pub fn standard(tag: u64, storage: StateStorage) -> (r: StateConfig)
        ensures
            r@ =~= standard_model(tag, storage@),
    {
        let mut cfg = StateConfig::new(tag, storage);
        cfg.detect_change = true;
        cfg.send_event = true;
        cfg.apply_flush = true;
        cfg
    }
}

/// The base plugin: sets up an empty state-flush schedule.
pub struct PyriStatePlugin;

impl PyriStatePlugin {
    /// Create the engine the state types are registered into.
    pub fn build(&self) -> (r: StateFlush)
        ensures
            r.wf(),
            r@.types.len() == 0,
            !r@.built,
    {
        StateFlush::new()
    }
}

/// Capability plugin: trigger a flush whenever the pending value differs
/// from the current value.
pub struct DetectChangePlugin;

impl DetectChangePlugin {
    /// Enable change detection on a configuration.
    pub fn build(&self, cfg: &mut StateConfig)
        ensures
            final(cfg)@ == (ConfigModel { detect_change: true, ..old(cfg)@ }),
    {
        cfg.detect_change = true;
    }
}

/// Capability plugin: publish a flush event whenever the channel applies.
pub struct FlushEventPlugin;

impl FlushEventPlugin {
    /// Enable flush events on a configuration.
    pub fn build(&self, cfg: &mut StateConfig)
        ensures
            final(cfg)@ == (ConfigModel { send_event: true, ..old(cfg)@ }),
    {
        cfg.send_event = true;
    }
}

/// Capability plugin: commit the pending value at the end of each tick.
pub struct ApplyFlushPlugin;

impl ApplyFlushPlugin {
    /// Enable the apply phase on a configuration.
    pub fn build(&self, cfg: &mut StateConfig)
        ensures
            final(cfg)@ == (ConfigModel { apply_flush: true, ..old(cfg)@ }),
    {
        cfg.apply_flush = true;
    }
}

/// Capability plugin: mirror the channel into a host-owned parallel slot,
/// adopting pending host writes first-write-wins.
pub struct BevyStatePlugin;

impl BevyStatePlugin {
    /// Enable the host mirror bridge on a configuration.
    pub fn build(&self, cfg: &mut StateConfig)
        ensures
            final(cfg)@ == (ConfigModel { bridge: true, ..old(cfg)@ }),
    {
        cfg.bridge = true;
    }
}

/// Dependency plugin: the declared after and before edges of a state type,
/// as indices of channels registered earlier.
pub struct ResolveStatePlugin {
    pub after: Vec<usize>,
    pub before: Vec<usize>,
}

impl ResolveStatePlugin {
    /// Create a dependency plugin from after and before edge lists.
    pub fn new(after: Vec<usize>, before: Vec<usize>) -> (r: ResolveStatePlugin)
        ensures
            r.after@ == after@,
            r.before@ == before@,
    {
        ResolveStatePlugin { after, before }
    }

    /// Declare that this state type resolves after another.
    pub fn after(self, dep: usize) -> (r: ResolveStatePlugin)
        ensures
            r.after@ == self.after@.push(dep),
            r.before@ == self.before@,
    {
        let mut p = self;
        p.after.push(dep);
        p
    }

    /// Declare that this state type resolves before another.
    pub fn before(self, dep: usize) -> (r: ResolveStatePlugin)
        ensures
            r.after@ == self.after@,
            r.before@ == self.before@.push(dep),
    {
        let mut p = self;
        p.before.push(dep);
        p
    }

    /// Write the declared edges into a configuration.
    pub fn build(self, cfg: &mut StateConfig)
        ensures
            final(cfg)@ == (ConfigModel { after: self.after@, before: self.before@, ..old(cfg)@ }),
    {
        cfg.after = self.after;
        cfg.before = self.before;
    }
}

} // verus!
