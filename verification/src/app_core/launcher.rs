//! Stateful, UI-independent launcher operations.

use super::desktop::{self, exec_argv, exec_to_argv};
use super::freq_store::{launch_count, FrequencyTable};
use super::search::{rank_apps, ranked_apps};
use super::AppEntry;
use vstd::prelude::*;

verus! {

/// Errors that can occur while launching an application through [`Launcher`].
#[derive(Debug)]
pub enum LaunchError {
    /// No application is currently selected.
    NoSelection,
    /// The desktop entry's executable could not be started.
    Execution(desktop::LaunchError),
    /// The launch succeeded, but the updated frequency data could not be saved.
    Frequency(std::io::Error),
}

/// Whether a selection fits a result list of length `len`: there is a
/// selection exactly when there are results, and it points at one of them.
pub open spec fn selection_fits(selected: Option<usize>, len: int) -> bool {
    &&& selected is Some <==> len > 0
    &&& selected matches Some(i) ==> i < len
}

/// The selection after the results are recomputed: the first result, if any.
pub open spec fn first_selection(len: int) -> Option<usize> {
    if len > 0 {
        Some(0usize)
    } else {
        None
    }
}

/// Whether position `i` holds the first catalog entry with identifier `id`.
pub open spec fn is_first_with_id(catalog: Seq<AppEntry>, id: Seq<char>, i: int) -> bool {
    &&& 0 <= i < catalog.len()
    &&& catalog[i].id@ == id
    &&& forall|j: int| 0 <= j < i ==> catalog[j].id@ != id
}

/// Stateful launcher behavior that can be driven by any user interface.
///
/// The launcher owns query, result, selection, and frequency state. A UI can
/// read [`Self::results`] and [`Self::selected`] after handling each user
/// action, then render those values however it wants.
#[derive(Debug)]
pub struct Launcher {
    catalog: Vec<AppEntry>,
    frequencies: FrequencyTable,
    query: String,
    results: Vec<AppEntry>,
    selected: Option<usize>,
    result_limit: usize,
}

impl Launcher {
    /// The applications searched.
    pub closed spec fn catalog_view(&self) -> Seq<AppEntry> {
        self.catalog@
    }

    /// The launch counts by application id.
    pub closed spec fn counts_view(&self) -> Map<Seq<char>, u64> {
        self.frequencies@
    }

    /// The current search query.
    pub closed spec fn query_view(&self) -> Seq<char> {
        self.query@
    }

    /// The current results, best first.
    pub closed spec fn results_view(&self) -> Seq<AppEntry> {
        self.results@
    }

    /// The position of the selected result, if any.
    pub closed spec fn selection(&self) -> Option<usize> {
        self.selected
    }

    /// The maximum number of results.
    pub closed spec fn limit(&self) -> usize {
        self.result_limit
    }

    /// The launcher is well formed: its selection fits its results.
    pub open spec fn wf(&self) -> bool {
        selection_fits(self.selection(), self.results_view().len() as int)
    }

    /// The results are the ranking of the catalog for the current query and
    /// launch counts, and the first of them is selected.
    pub open spec fn is_fresh(&self) -> bool {
        &&& self.results_view() == ranked_apps(
            self.catalog_view(),
            self.counts_view(),
            self.query_view(),
            self.limit() as int,
        )
        &&& self.selection() == first_selection(self.results_view().len() as int)
    }

    /// Creates a launcher using the supplied catalog and persisted frequencies.
    ///
    /// The initial query is empty, so the initial results are ordered by launch
    /// frequency. `result_limit` controls the maximum number of results.
    pub fn new(catalog: Vec<AppEntry>, frequencies: FrequencyTable, result_limit: usize) -> (r:
        Self)
        ensures
            r.wf(),
            r.is_fresh(),
            r.catalog_view() == catalog@,
            r.counts_view() == frequencies@,
            r.query_view() == Seq::<char>::empty(),
            r.limit() == result_limit,
    {
        let mut launcher = Launcher {
            catalog,
            frequencies,
            query: String::new(),
            results: Vec::new(),
            selected: None,
            result_limit,
        };
        launcher.refresh_results();
        launcher
    }

    /// Returns the complete catalog currently used for searching.
    pub fn catalog(&self) -> (r: &[AppEntry])
        ensures
            r@ == self.catalog_view(),
    {
        self.catalog.as_slice()
    }

    /// Returns the current search query.
    pub fn query(&self) -> (r: &str)
        ensures
            r@ == self.query_view(),
    {
        self.query.as_str()
    }

    /// Returns the current ranked search results.
    pub fn results(&self) -> (r: &[AppEntry])
        ensures
            r@ == self.results_view(),
    {
        self.results.as_slice()
    }

    /// Returns the selected result index, if a result is selected.
    pub fn selected_index(&self) -> (r: Option<usize>)
        ensures
            r == self.selection(),
    {
        self.selected
    }

    /// Returns the currently selected application.
    pub fn selected(&self) -> (r: Option<&AppEntry>)
        ensures
            match r {
                Some(app) => self.selection() matches Some(i) && i < self.results_view().len()
                    && *app == self.results_view()[i as int],
                None => !(self.selection() matches Some(i) && i < self.results_view().len()),
            },
    {
        match self.selected {
            Some(index) => if index < self.results.len() {
                Some(&self.results[index])
            } else {
                None
            },
            None => None,
        }
    }

    /// Returns the recorded launch count for an application.
    pub fn frequency(&self, id: &str) -> (r: u64)
        ensures
            r == launch_count(self.counts_view(), id@),
    {
        self.frequencies.count(id)
    }

    /// Returns the recorded launch counts.
    pub fn frequencies(&self) -> (r: &FrequencyTable)
        ensures
            r@ == self.counts_view(),
    {
        &self.frequencies
    }

    /// Replaces the query and recalculates ranked results.
    pub fn set_query(&mut self, query: &str)
        ensures
            final(self).wf(),
            final(self).is_fresh(),
            final(self).query_view() == query@,
            final(self).catalog_view() == old(self).catalog_view(),
            final(self).counts_view() == old(self).counts_view(),
            final(self).limit() == old(self).limit(),
    {
        self.query = query.to_owned();
        self.refresh_results();
    }

    /// Moves the selection toward the first result.
    pub fn move_selection_up(&mut self)
        ensures
            final(self).selection() == (if old(self).results_view().len() == 0 {
                None
            } else {
                Some(
                    match old(self).selection() {
                        Some(i) => if i == 0 {
                            0usize
                        } else {
                            (i - 1) as usize
                        },
                        None => 0usize,
                    },
                )
            }),
            final(self).results_view() == old(self).results_view(),
            final(self).query_view() == old(self).query_view(),
            final(self).catalog_view() == old(self).catalog_view(),
            final(self).counts_view() == old(self).counts_view(),
            final(self).limit() == old(self).limit(),
            old(self).wf() ==> final(self).wf(),
    {
        self.selected = if self.results.len() == 0 {
            None
        } else {
            let current = match self.selected {
                Some(i) => i,
                None => 0,
            };
            Some(
                if current == 0 {
                    0
                } else {
                    current - 1
                },
            )
        };
    }

    /// Moves the selection toward the last result.
    pub fn move_selection_down(&mut self)
        requires
            old(self).wf(),
        ensures
            final(self).selection() == (if old(self).results_view().len() == 0 {
                None
            } else {
                Some(
                    match old(self).selection() {
                        Some(i) => if i + 1 < old(self).results_view().len() {
                            (i + 1) as usize
                        } else {
                            (old(self).results_view().len() - 1) as usize
                        },
                        None => 0usize,
                    },
                )
            }),
            final(self).results_view() == old(self).results_view(),
            final(self).query_view() == old(self).query_view(),
            final(self).catalog_view() == old(self).catalog_view(),
            final(self).counts_view() == old(self).counts_view(),
            final(self).limit() == old(self).limit(),
            final(self).wf(),
    {
        self.selected = if self.results.len() == 0 {
            None
        } else {
            let current = match self.selected {
                Some(i) => i,
                None => 0,
            };
            let next = current + 1;
            Some(
                if next < self.results.len() {
                    next
                } else {
                    self.results.len() - 1
                },
            )
        };
    }

    /// The command line to start for the application with identifier `id`:
    /// the argument vector of the first catalog entry with that id.
    pub fn launch_command(&self, id: &str) -> (r: Result<Vec<String>, LaunchError>)
        ensures
            match r {
                Ok(argv) => exists|i: int|
                    is_first_with_id(self.catalog_view(), id@, i) && exec_argv(
                        self.catalog_view()[i].exec_command@,
                    ) == Some(argv@.map_values(|a: String| a@)),
                Err(LaunchError::NoSelection) => forall|i: int|
                    0 <= i < self.catalog_view().len() ==> self.catalog_view()[i].id@ != id@,
                Err(LaunchError::Execution(desktop::LaunchError::EmptyCommand)) => exists|i: int|
                    is_first_with_id(self.catalog_view(), id@, i) && exec_argv(
                        self.catalog_view()[i].exec_command@,
                    ) is None,
                Err(_) => false,
            },
    {
        let key = id.to_owned();
        let mut i: usize = 0;
        while i < self.catalog.len()
            invariant
                key@ == id@,
                i <= self.catalog.len(),
                forall|j: int| 0 <= j < i ==> self.catalog@[j].id@ != id@,
            decreases self.catalog.len() - i,
        {
            if self.catalog[i].id == key {
                assert(is_first_with_id(self.catalog@, id@, i as int));
                return match exec_to_argv(self.catalog[i].exec_command.as_str()) {
                    Ok(argv) => Ok(argv),
                    Err(err) => Err(LaunchError::Execution(err)),
                };
            }
            i = i + 1;
        }
        Err(LaunchError::NoSelection)
    }

    /// Records one more launch of the application with identifier `id`.
    /// The results are not recomputed until [`Self::refresh_results`].
    pub fn record_launch(&mut self, id: &str)
        requires
            launch_count(old(self).counts_view(), id@) < u64::MAX,
        ensures
            final(self).counts_view() == old(self).counts_view().insert(
                id@,
                (launch_count(old(self).counts_view(), id@) + 1) as u64,
            ),
            final(self).results_view() == old(self).results_view(),
            final(self).selection() == old(self).selection(),
            final(self).query_view() == old(self).query_view(),
            final(self).catalog_view() == old(self).catalog_view(),
            final(self).limit() == old(self).limit(),
            old(self).wf() ==> final(self).wf(),
    {
        self.frequencies.record_launch(id);
    }

    /// Clears the query and selection, preparing the launcher to be shown again.
    pub fn reset(&mut self)
        ensures
            final(self).wf(),
            final(self).is_fresh(),
            final(self).query_view() == Seq::<char>::empty(),
            final(self).catalog_view() == old(self).catalog_view(),
            final(self).counts_view() == old(self).counts_view(),
            final(self).limit() == old(self).limit(),
    {
        self.query = String::new();
        self.refresh_results();
    }

    /// Recomputes the results for the current query and launch counts and
    /// selects the first of them.
    pub fn refresh_results(&mut self)
        ensures
            final(self).wf(),
            final(self).is_fresh(),
            final(self).query_view() == old(self).query_view(),
            final(self).catalog_view() == old(self).catalog_view(),
            final(self).counts_view() == old(self).counts_view(),
            final(self).limit() == old(self).limit(),
    {
        self.results = rank_apps(
            self.catalog.as_slice(),
            &self.frequencies,
            self.query.as_str(),
            self.result_limit,
        );
        self.selected = if self.results.len() > 0 {
            Some(0)
        } else {
            None
        };
    }
}

/// The results and the selection after a query change, a reset or a
/// refresh depend on the catalog, the launch counts, the query and the limit
/// alone: two launchers that agree on these agree on what they show. In
/// particular a reset shows what a new launcher for the same catalog and
/// counts shows.
pub proof fn lemma_fresh_launchers_agree(a: Launcher, b: Launcher)
    requires
        a.is_fresh(),
        b.is_fresh(),
        a.catalog_view() == b.catalog_view(),
        a.counts_view() == b.counts_view(),
        a.query_view() == b.query_view(),
        a.limit() == b.limit(),
    ensures
        a.results_view() == b.results_view(),
        a.selection() == b.selection(),
{
}

} // verus!
