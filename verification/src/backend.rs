//! The invalidation controller: it owns the latest published snapshot and
//! the identity of the one live generation.
//!
//! Generations follow latest-wins cancellation, not a queue. Starting a new
//! generation stamps a fresh token and zeroes the progress counters; a
//! worker may only publish results together with its token, and a publish
//! under any other token is rejected without changing a single field. The
//! embedding shares this state between its UI and worker threads and calls
//! `is_current` at its cancellation checkpoints.

use vstd::prelude::*;

use crate::Status;
use crate::config::ViewerConfig;
use crate::node::VisualizerNode;

verus! {

/// Shared state between the UI and the background computations.
pub struct VisualizerBackend {
    /// Configuration of the live generation, if one was ever started.
    pub conf: Option<ViewerConfig>,
    /// Token of the one live generation; stamped afresh by `start_with`.
    pub current_token: u64,
    /// Most recently published tree snapshot.
    pub tree: VisualizerNode,
    /// Published progress: completed levels of the live generation.
    pub level_done: usize,
    /// Published progress: base-grid cells evaluated.
    pub base_done: usize,
    /// Published progress: refinement cells evaluated beyond the base grid.
    pub extra_done: usize,
}

impl VisualizerBackend {
    /// The published counters fit together in one `usize` readback.
    pub open spec fn wf(self) -> bool {
        self.base_done + self.extra_done <= usize::MAX
    }

    /// Stamp a new live generation: every previously handed-out token goes
    /// stale, both progress counters restart at zero, and the new token is
    /// returned for the worker that will compute this generation. The last
    /// published tree stays visible until the new generation publishes its
    /// first snapshot.
    pub fn start_with(&mut self, config: ViewerConfig) -> (token: u64)
        requires
            old(self).current_token < u64::MAX,
        ensures
            token == old(self).current_token + 1,
            token != old(self).current_token,
            final(self).wf(),
            final(self).current_token == token,
            final(self).conf == Some(config),
            final(self).level_done == 0,
            final(self).base_done == 0,
            final(self).extra_done == 0,
            final(self).tree == old(self).tree,
    {
        self.current_token = self.current_token + 1;
        self.conf = Some(config);
        self.level_done = 0;
        self.base_done = 0;
        self.extra_done = 0;
        self.current_token
    }

    /// Is this token still the live generation's?
    pub fn is_current(&self, token: u64) -> (r: bool)
        ensures
            r == (token == self.current_token),
    {
        token == self.current_token
    }

    /// A worker offers a snapshot of its tree and progress under its
    /// token. The offer is taken exactly when the token is still live;
    /// a stale worker's offer changes nothing at all, so a superseded
    /// generation can never corrupt the live generation's published state.
    pub fn publish(
        &mut self,
        token: u64,
        tree: VisualizerNode,
        level_done: usize,
        base_done: usize,
        extra_done: usize,
    ) -> (accepted: bool)
        requires
            old(self).wf(),
            base_done + extra_done <= usize::MAX,
        ensures
            final(self).wf(),
            accepted == (token == old(self).current_token),
            final(self).current_token == old(self).current_token,
            final(self).conf == old(self).conf,
            accepted ==> final(self).tree == tree && final(self).level_done == level_done
                && final(self).base_done == base_done && final(self).extra_done == extra_done,
            !accepted ==> *final(self) == *old(self),
    {
        if token == self.current_token {
            self.tree = tree;
            self.level_done = level_done;
            self.base_done = base_done;
            self.extra_done = extra_done;
            true
        } else {
            proof {
                assert(*self =~= *old(self));
            }
            false
        }
    }

    /// Momentary progress readback, safe at any time.
    pub fn get_status(&self) -> (s: Status)
        requires
            self.wf(),
        ensures
            s.current_level == self.level_done,
            s.quads_evaluated == self.base_done + self.extra_done,
    {
        Status {
            current_level: self.level_done,
            quads_evaluated: self.base_done + self.extra_done,
        }
    }
}

impl Default for VisualizerBackend {
    /// Fresh state: no configuration, token zero, a placeholder tree and
    /// zero progress.
    fn default() -> (r: Self)
        ensures
            r.wf(),
            r.conf is None,
            r.current_token == 0,
            r.level_done == 0 && r.base_done == 0 && r.extra_done == 0,
            r.tree.is_leaf(),
    {
        VisualizerBackend {
            conf: None,
            current_token: 0,
            tree: VisualizerNode::default(),
            level_done: 0,
            base_done: 0,
            extra_done: 0,
        }
    }
}

} // verus!
