//! A model of what is on disk, and the proof that a resolver that is given
//! true replies counts all that the module declarations lead to.

use crate::associated_method::{member_table, references, ItemCount, Tally};
use crate::laws::{lemma_merge_associative, lemma_merge_commutative, lemma_merge_empty};
use crate::resolve::{
    directory_candidate, file_candidate, listing_jobs, reference_jobs, resolution, JobView,
    ReplyView, RequestView, Resolution, ResolverView,
};
use crate::syntax::Node;
use crate::table::merged;
use vstd::prelude::*;

verus! {

/// What is on disk, as far as a resolver can ask: the source files by
/// place, each with its syntax tree, and the directories by place, each
/// with the names of its entries.
pub struct Disk {
    pub files: Map<Seq<Seq<char>>, Node>,
    pub directories: Map<Seq<Seq<char>>, Seq<Seq<char>>>,
}

/// The merge of two tables, where both are there.
pub open spec fn both(
    a: Option<Map<Seq<char>, Tally>>,
    b: Option<Map<Seq<char>, Tally>>,
) -> Option<Map<Seq<char>, Tally>> {
    match (a, b) {
        (Some(a), Some(b)) => Some(merged::<ItemCount>(a, b)),
        _ => None,
    }
}

impl Disk {
    /// The true reply to a request.
    pub open spec fn reply_to(self, request: RequestView) -> ReplyView {
        match request {
            RequestView::Probe { file, directory } => ReplyView::Probed {
                is_file: self.files.contains_key(file),
                is_directory: self.directories.contains_key(directory),
            },
            RequestView::Read { file } => ReplyView::Parsed(self.files[file]),
            RequestView::List { directory } => ReplyView::Listed(self.directories[directory]),
            RequestView::Done => ReplyView::Listed(Seq::empty()),
        }
    }

    /// The state of a resolver after so many requests, each with its true
    /// reply.
    pub open spec fn run(self, state: ResolverView, steps: nat) -> ResolverView
        decreases steps,
    {
        if steps == 0 {
            state
        } else {
            self.run(state.after(self.reply_to(state.request())), (steps - 1) as nat)
        }
    }

    /// All that one job leads to, defined by recursion over what is on disk:
    /// a module is counted as the file named after it, else as the
    /// directory named after it, else as nothing; a file as its own member
    /// table and the modules that it declares without a body, looked up in
    /// its base; a directory as its source files, each with the directory
    /// as its base. `depth` bounds how far declarations are followed: where
    /// that is not far enough, there is no result.
    pub open spec fn job_total(self, job: JobView, depth: nat) -> Option<Map<Seq<char>, Tally>>
        decreases depth, 0nat,
    {
        if depth == 0 {
            None
        } else {
            let deeper = (depth - 1) as nat;
            match job {
                JobView::Resolve { base, identifier } => {
                    let file = file_candidate(base, identifier);
                    let directory = directory_candidate(base, identifier);
                    match resolution(
                        self.files.contains_key(file),
                        self.directories.contains_key(directory),
                    ) {
                        Resolution::File => self.job_total(JobView::Load { file, base }, deeper),
                        Resolution::Directory => self.job_total(
                            JobView::List { directory },
                            deeper,
                        ),
                        Resolution::Missing => Some(Map::empty()),
                    }
                },
                JobView::Load { file, base } => both(
                    Some(member_table(self.files[file])),
                    self.jobs_total(reference_jobs(base, references(self.files[file])), deeper),
                ),
                JobView::List { directory } => self.jobs_total(
                    listing_jobs(directory, self.directories[directory]),
                    deeper,
                ),
            }
        }
    }

    /// All that a list of jobs leads to.
    pub open spec fn jobs_total(self, jobs: Seq<JobView>, depth: nat) -> Option<
        Map<Seq<char>, Tally>,
    >
        decreases depth, 1 + jobs.len(),
    {
        if jobs.len() == 0 {
            Some(Map::empty())
        } else {
            both(self.jobs_total(jobs.drop_last(), depth), self.job_total(jobs.last(), depth))
        }
    }

    /// Running on is running in two parts.
    proof fn lemma_run_on(self, state: ResolverView, first: nat, then: nat)
        ensures
            self.run(state, first + then) == self.run(self.run(state, first), then),
        decreases first,
    {
        if first > 0 {
            self.lemma_run_on(
                state.after(self.reply_to(state.request())),
                (first - 1) as nat,
                then,
            );
        }
    }

    /// A resolver that has `job` next, true replies given, comes to the
    /// state in which that job is gone and all that it leads to is in the
    /// table.
    proof fn lemma_job_is_done(
        self,
        table: Map<Seq<char>, Tally>,
        others: Seq<JobView>,
        job: JobView,
        depth: nat,
    ) -> (steps: nat)
        requires
            self.job_total(job, depth) is Some,
        ensures
            self.run(ResolverView { table, jobs: others.push(job) }, steps) == (ResolverView {
                table: merged::<ItemCount>(table, self.job_total(job, depth).unwrap()),
                jobs: others,
            }),
        decreases depth, 0nat,
    {
        let state = ResolverView { table, jobs: others.push(job) };
        let next = state.after(self.reply_to(state.request()));
        let deeper = (depth - 1) as nat;
        assert(state.jobs.drop_last() =~= others);
        assert(self.run(state, 1) == next) by {
            assert(self.run(next, 0) == next);
        }
        let more: nat = match job {
            JobView::Resolve { base, identifier } => {
                let file = file_candidate(base, identifier);
                let directory = directory_candidate(base, identifier);
                match resolution(
                    self.files.contains_key(file),
                    self.directories.contains_key(directory),
                ) {
                    Resolution::File => self.lemma_job_is_done(
                        table,
                        others,
                        JobView::Load { file, base },
                        deeper,
                    ),
                    Resolution::Directory => self.lemma_job_is_done(
                        table,
                        others,
                        JobView::List { directory },
                        deeper,
                    ),
                    Resolution::Missing => {
                        lemma_merge_empty::<ItemCount>(table);
                        0
                    },
                }
            },
            JobView::Load { file, base } => {
                let own = member_table(self.files[file]);
                let found = reference_jobs(base, references(self.files[file]));
                let below = self.jobs_total(found, deeper).unwrap();
                lemma_merge_associative::<ItemCount>(table, own, below);
                self.lemma_jobs_are_done(merged::<ItemCount>(table, own), others, found, deeper)
            },
            JobView::List { directory } => self.lemma_jobs_are_done(
                table,
                others,
                listing_jobs(directory, self.directories[directory]),
                deeper,
            ),
        };
        self.lemma_run_on(state, 1, more);
        1 + more
    }

    /// The same of a list of jobs that come next.
    proof fn lemma_jobs_are_done(
        self,
        table: Map<Seq<char>, Tally>,
        others: Seq<JobView>,
        jobs: Seq<JobView>,
        depth: nat,
    ) -> (steps: nat)
        requires
            self.jobs_total(jobs, depth) is Some,
        ensures
            self.run(ResolverView { table, jobs: others + jobs }, steps) == (ResolverView {
                table: merged::<ItemCount>(table, self.jobs_total(jobs, depth).unwrap()),
                jobs: others,
            }),
        decreases depth, 1 + jobs.len(),
    {
        let state = ResolverView { table, jobs: others + jobs };
        if jobs.len() == 0 {
            assert(others + jobs =~= others);
            lemma_merge_empty::<ItemCount>(table);
            0
        } else {
            let before = jobs.drop_last();
            let last = self.job_total(jobs.last(), depth).unwrap();
            let rest = self.jobs_total(before, depth).unwrap();
            assert(others + jobs =~= (others + before).push(jobs.last()));
            let first = self.lemma_job_is_done(table, others + before, jobs.last(), depth);
            let then = self.lemma_jobs_are_done(
                merged::<ItemCount>(table, last),
                others,
                before,
                depth,
            );
            self.lemma_run_on(state, first, then);
            lemma_merge_associative::<ItemCount>(table, last, rest);
            lemma_merge_commutative::<ItemCount>(last, rest);
            first + then
        }
    }

    /// A resolver that is given true replies counts what the recursion
    /// `jobs_total` defines: where following the declarations comes to an
    /// end, the resolver comes, after the number of requests returned, to
    /// the state in which nothing is left to do, and its table is what it
    /// started with, merged with all that its jobs lead to.
    pub proof fn lemma_resolver_counts_all(self, state: ResolverView, depth: nat) -> (steps: nat)
        requires
            self.jobs_total(state.jobs, depth) is Some,
        ensures
            self.run(state, steps).request() == RequestView::Done,
            self.run(state, steps).table == merged::<ItemCount>(
                state.table,
                self.jobs_total(state.jobs, depth).unwrap(),
            ),
    {
        assert(Seq::<JobView>::empty() + state.jobs =~= state.jobs);
        self.lemma_jobs_are_done(state.table, Seq::empty(), state.jobs, depth)
    }
}

} // verus!
