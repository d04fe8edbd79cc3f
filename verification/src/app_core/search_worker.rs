//! The decisions of the background search worker: which commands change
//! its state, the answer to a query, and when to stop. Running the worker on
//! its own thread and passing messages are left to the caller.

use super::freq_store::FrequencyTable;
use super::search::{rank_apps, ranked_apps};
use super::AppEntry;
use vstd::prelude::*;

verus! {

/// A request to the search worker.
#[derive(Debug)]
pub enum SearchCommand {
    /// Replace the applications searched.
    ReloadApps(Vec<AppEntry>),
    /// Replace the launch counts.
    UpdateFreq(FrequencyTable),
    /// Rank the applications for a query and send the result.
    Query(String),
    /// Stop the worker.
    Stop,
}

/// The worker's answer to a query.
#[derive(Debug, Clone)]
pub struct SearchResult {
    /// The query answered.
    pub query: String,
    /// The ranked applications.
    pub items: Vec<AppEntry>,
}

/// What the worker does after handling a command.
#[derive(Debug)]
pub enum WorkerStep {
    /// Wait for the next command.
    Continue,
    /// Send this answer, then wait for the next command.
    Answer(SearchResult),
    /// Stop.
    Stop,
}

/// What the search worker keeps between commands.
#[derive(Debug)]
pub struct SearchWorkerState {
    /// The applications searched.
    pub apps: Vec<AppEntry>,
    /// The launch counts.
    pub freq: FrequencyTable,
    /// The maximum number of results of an answer.
    pub limit: usize,
}

impl SearchWorkerState {
    /// The state of a worker that has received no command yet: no
    /// applications, no launch counts.
    pub fn new(limit: usize) -> (r: Self)
        ensures
            r.apps@ == Seq::<AppEntry>::empty(),
            r.freq@ == Map::<Seq<char>, u64>::empty(),
            r.limit == limit,
    {
        SearchWorkerState { apps: Vec::new(), freq: FrequencyTable::new(), limit }
    }

    /// Applies a command and tells what to do next.
    pub fn handle(&mut self, command: SearchCommand) -> (step: WorkerStep)
        ensures
            final(self).limit == old(self).limit,
            match command {
                SearchCommand::ReloadApps(apps) => {
                    &&& final(self).apps@ == apps@
                    &&& final(self).freq@ == old(self).freq@
                    &&& step is Continue
                },
                SearchCommand::UpdateFreq(freq) => {
                    &&& final(self).apps@ == old(self).apps@
                    &&& final(self).freq@ == freq@
                    &&& step is Continue
                },
                SearchCommand::Query(query) => {
                    &&& final(self).apps@ == old(self).apps@
                    &&& final(self).freq@ == old(self).freq@
                    &&& step matches WorkerStep::Answer(result)
                    &&& result.query == query
                    &&& result.items@ == ranked_apps(
                        old(self).apps@,
                        old(self).freq@,
                        query@,
                        old(self).limit as int,
                    )
                },
                SearchCommand::Stop => {
                    &&& final(self).apps@ == old(self).apps@
                    &&& final(self).freq@ == old(self).freq@
                    &&& step is Stop
                },
            },
    {
        match command {
            SearchCommand::ReloadApps(apps) => {
                self.apps = apps;
                WorkerStep::Continue
            },
            SearchCommand::UpdateFreq(freq) => {
                self.freq = freq;
                WorkerStep::Continue
            },
            SearchCommand::Query(query) => {
                let items = rank_apps(self.apps.as_slice(), &self.freq, query.as_str(), self.limit);
                WorkerStep::Answer(SearchResult { query, items })
            },
            SearchCommand::Stop => WorkerStep::Stop,
        }
    }
}

} // verus!
