use vstd::prelude::*;

use crate::graph::{Edge, Graph};

verus! {

/// The state of one analysis: never computed, computed, or failed with a reason.
pub enum AnalysisResult<T> {
    Empty,
    Success(T),
    Error(String),
}

/// The cached results of the five analyses of one graph snapshot.
/// `W` is the type of edge weights and centrality scores.
pub struct AlgoStore<W> {
    /// Articulation points, as node identifiers.
    pub aps: AnalysisResult<Vec<u32>>,
    /// The edges of a minimum cut.
    pub mincut: AnalysisResult<Vec<Edge<W>>>,
    /// Diffusion centrality score per node identifier.
    pub diff_cent: AnalysisResult<Vec<(u32, W)>>,
    /// The most similar historical topology.
    pub most_sim_t: AnalysisResult<Graph<W>>,
    /// The predicted future topology.
    pub pred_state: AnalysisResult<Graph<W>>,
}

impl<W> AlgoStore<W> {
    pub fn new() -> (r: Self)
        ensures
            r.aps is Empty,
            r.mincut is Empty,
            r.diff_cent is Empty,
            r.most_sim_t is Empty,
            r.pred_state is Empty,
    {
        AlgoStore {
            aps: AnalysisResult::Empty,
            mincut: AnalysisResult::Empty,
            diff_cent: AnalysisResult::Empty,
            most_sim_t: AnalysisResult::Empty,
            pred_state: AnalysisResult::Empty,
        }
    }

    pub fn get_aps(&self) -> (r: &AnalysisResult<Vec<u32>>)
        ensures
            *r == self.aps,
    {
        &self.aps
    }

    pub fn get_mincut(&self) -> (r: &AnalysisResult<Vec<Edge<W>>>)
        ensures
            *r == self.mincut,
    {
        &self.mincut
    }

    pub fn get_diff_cent(&self) -> (r: &AnalysisResult<Vec<(u32, W)>>)
        ensures
            *r == self.diff_cent,
    {
        &self.diff_cent
    }

    pub fn get_most_sim_t(&self) -> (r: &AnalysisResult<Graph<W>>)
        ensures
            *r == self.most_sim_t,
    {
        &self.most_sim_t
    }

    pub fn get_pred_state(&self) -> (r: &AnalysisResult<Graph<W>>)
        ensures
            *r == self.pred_state,
    {
        &self.pred_state
    }

    /// Replaces the articulation-point slot; the other slots are untouched.
    pub fn set_aps(&mut self, aps: AnalysisResult<Vec<u32>>)
        ensures
            final(self).aps == aps,
            final(self).mincut == old(self).mincut,
            final(self).diff_cent == old(self).diff_cent,
            final(self).most_sim_t == old(self).most_sim_t,
            final(self).pred_state == old(self).pred_state,
    {
        self.aps = aps;
    }

    /// Replaces the minimum-cut slot; the other slots are untouched.
    pub fn set_mincut(&mut self, mincut: AnalysisResult<Vec<Edge<W>>>)
        ensures
            final(self).mincut == mincut,
            final(self).aps == old(self).aps,
            final(self).diff_cent == old(self).diff_cent,
            final(self).most_sim_t == old(self).most_sim_t,
            final(self).pred_state == old(self).pred_state,
    {
        self.mincut = mincut;
    }

    /// Replaces the diffusion-centrality slot; the other slots are untouched.
    pub fn set_diff_cent(&mut self, diff_cent: AnalysisResult<Vec<(u32, W)>>)
        ensures
            final(self).diff_cent == diff_cent,
            final(self).aps == old(self).aps,
            final(self).mincut == old(self).mincut,
            final(self).most_sim_t == old(self).most_sim_t,
            final(self).pred_state == old(self).pred_state,
    {
        self.diff_cent = diff_cent;
    }

    /// Records `most_sim_t` as the successful most-similar-timeline result.
    pub fn set_most_sim_t(&mut self, most_sim_t: Graph<W>)
        ensures
            final(self).most_sim_t == AnalysisResult::Success(most_sim_t),
            final(self).aps == old(self).aps,
            final(self).mincut == old(self).mincut,
            final(self).diff_cent == old(self).diff_cent,
            final(self).pred_state == old(self).pred_state,
    {
        self.most_sim_t = AnalysisResult::Success(most_sim_t);
    }

    /// Records `pred_state` as the successful predicted-state result.
    pub fn set_pred_state(&mut self, pred_state: Graph<W>)
        ensures
            final(self).pred_state == AnalysisResult::Success(pred_state),
            final(self).aps == old(self).aps,
            final(self).mincut == old(self).mincut,
            final(self).diff_cent == old(self).diff_cent,
            final(self).most_sim_t == old(self).most_sim_t,
    {
        self.pred_state = AnalysisResult::Success(pred_state);
    }
}

} // verus!
