//! Modules whose bodies are in other files: where they are looked for, and
//! the resolver that follows them without reading a file itself.

use crate::associated_method::{member_table, references, ItemCount, Tally, AMF};
use crate::laws::lemma_merge_into_empty;
use crate::syntax::Node;
use crate::table::{fits, merged, texts, Overflow, Table};
use vstd::prelude::*;

verus! {

/// Where the body of a module declared without one is found.
#[derive(Clone, Copy, Debug, PartialEq, Eq)]
pub enum Resolution {
    /// In the file named after the module.
    File,
    /// In the source files of the directory named after the module.
    Directory,
    /// Nowhere: the declaration adds nothing.
    Missing,
}

/// The layout policy: the file named after the module if it is there, else
/// the directory named after it if that is there, else nothing.
pub open spec fn resolution(is_file: bool, is_directory: bool) -> Resolution {
    if is_file {
        Resolution::File
    } else if is_directory {
        Resolution::Directory
    } else {
        Resolution::Missing
    }
}

pub fn resolve(is_file: bool, is_directory: bool) -> (r: Resolution)
    ensures
        r == resolution(is_file, is_directory),
{
    if is_file {
        Resolution::File
    } else if is_directory {
        Resolution::Directory
    } else {
        Resolution::Missing
    }
}

/// The end of the name of a source file: `.rs`.
pub open spec fn source_extension() -> Seq<char> {
    seq!['.', 'r', 's']
}

/// Whether a file of this name is a source file: the name ends in the
/// extension and has something before it.
pub open spec fn is_source_name(name: Seq<char>) -> bool {
    name.len() > 3 && name.subrange(name.len() - 3, name.len() as int) == source_extension()
}

pub fn is_source_file(name: &str) -> (r: bool)
    ensures
        r == is_source_name(name@),
{
    let n = name.unicode_len();
    if n <= 3 {
        return false;
    }
    let found = name.get_char(n - 3) == '.' && name.get_char(n - 2) == 'r' && name.get_char(n - 1)
        == 's';
    proof {
        let end = name@.subrange(n - 3, n as int);
        if found {
            assert(end =~= source_extension());
        } else {
            assert(end[0] == name@[n - 3] && end[1] == name@[n - 2] && end[2] == name@[n - 1]);
        }
    }
    found
}

/// The file in which the body of the module `identifier` is looked for
/// first, for a declaration whose modules are looked up in `base`.
pub open spec fn file_candidate(base: Seq<Seq<char>>, identifier: Seq<char>) -> Seq<Seq<char>> {
    base.push(identifier + source_extension())
}

/// The directory in which it is looked for next.
pub open spec fn directory_candidate(base: Seq<Seq<char>>, identifier: Seq<char>) -> Seq<
    Seq<char>,
> {
    base.push(identifier)
}

/// A piece of work that is still to do. Places are named component by
/// component below the directory of the entry file.
#[derive(Debug)]
pub enum Job {
    /// Find the body of the module `identifier`, declared without one in a
    /// file whose modules are looked up in `base`.
    Resolve { base: Vec<String>, identifier: String },
    /// Count `file`; its modules are looked up in `base`.
    Load { file: Vec<String>, base: Vec<String> },
    /// Count the source files of `directory`.
    List { directory: Vec<String> },
}

/// A job, by the texts of its strings.
pub enum JobView {
    Resolve { base: Seq<Seq<char>>, identifier: Seq<char> },
    Load { file: Seq<Seq<char>>, base: Seq<Seq<char>> },
    List { directory: Seq<Seq<char>> },
}

impl View for Job {
    type V = JobView;

    open spec fn view(&self) -> JobView {
        match *self {
            Job::Resolve { base, identifier } => JobView::Resolve {
                base: texts(base@),
                identifier: identifier@,
            },
            Job::Load { file, base } => JobView::Load { file: texts(file@), base: texts(base@) },
            Job::List { directory } => JobView::List { directory: texts(directory@) },
        }
    }
}

/// What the resolver needs from outside to go on.
#[derive(Debug)]
pub enum Request {
    /// Is `file` a file, and is `directory` a directory?
    Probe { file: Vec<String>, directory: Vec<String> },
    /// The syntax tree of `file`.
    Read { file: Vec<String> },
    /// The names of the entries of `directory`.
    List { directory: Vec<String> },
    /// Nothing: the work is done.
    Done,
}

/// A request, by the texts of its strings.
pub enum RequestView {
    Probe { file: Seq<Seq<char>>, directory: Seq<Seq<char>> },
    Read { file: Seq<Seq<char>> },
    List { directory: Seq<Seq<char>> },
    Done,
}

impl View for Request {
    type V = RequestView;

    open spec fn view(&self) -> RequestView {
        match *self {
            Request::Probe { file, directory } => RequestView::Probe {
                file: texts(file@),
                directory: texts(directory@),
            },
            Request::Read { file } => RequestView::Read { file: texts(file@) },
            Request::List { directory } => RequestView::List { directory: texts(directory@) },
            Request::Done => RequestView::Done,
        }
    }
}

/// What came back from outside.
#[derive(Debug)]
pub enum Reply {
    /// Whether the file and the directory asked about are there.
    Probed { is_file: bool, is_directory: bool },
    /// The syntax tree of the file asked for.
    Parsed(Node),
    /// The names of the entries of the directory asked for.
    Listed(Vec<String>),
}

/// A reply, by the texts of its strings.
pub enum ReplyView {
    Probed { is_file: bool, is_directory: bool },
    Parsed(Node),
    Listed(Seq<Seq<char>>),
}

impl View for Reply {
    type V = ReplyView;

    open spec fn view(&self) -> ReplyView {
        match *self {
            Reply::Probed { is_file, is_directory } => ReplyView::Probed { is_file, is_directory },
            Reply::Parsed(tree) => ReplyView::Parsed(tree),
            Reply::Listed(names) => ReplyView::Listed(texts(names@)),
        }
    }
}

/// The state of a resolver: the counts so far, and the work still to do,
/// the next piece last.
pub struct ResolverView {
    pub table: Map<Seq<char>, Tally>,
    pub jobs: Seq<JobView>,
}

/// One job for each module that a file declares without a body.
pub open spec fn reference_jobs(base: Seq<Seq<char>>, identifiers: Seq<Seq<char>>) -> Seq<
    JobView,
> {
    identifiers.map_values(|identifier: Seq<char>| JobView::Resolve { base, identifier })
}

/// One job for each source file among the entries of a directory; each file
/// looks its own modules up in that directory.
pub open spec fn listing_jobs(directory: Seq<Seq<char>>, names: Seq<Seq<char>>) -> Seq<JobView>
    decreases names.len(),
{
    if names.len() == 0 {
        Seq::empty()
    } else {
        let before = listing_jobs(directory, names.drop_last());
        if is_source_name(names.last()) {
            before.push(JobView::Load { file: directory.push(names.last()), base: directory })
        } else {
            before
        }
    }
}

impl ResolverView {
    /// What is asked for next: what the last job needs.
    pub open spec fn request(self) -> RequestView {
        if self.jobs.len() == 0 {
            RequestView::Done
        } else {
            match self.jobs.last() {
                JobView::Resolve { base, identifier } => RequestView::Probe {
                    file: file_candidate(base, identifier),
                    directory: directory_candidate(base, identifier),
                },
                JobView::Load { file, base } => RequestView::Read { file },
                JobView::List { directory } => RequestView::List { directory },
            }
        }
    }

    /// Whether the reply is to what is asked for.
    pub open spec fn answered_by(self, reply: ReplyView) -> bool {
        match (self.request(), reply) {
            (RequestView::Probe { .. }, ReplyView::Probed { .. }) => true,
            (RequestView::Read { .. }, ReplyView::Parsed(_)) => true,
            (RequestView::List { .. }, ReplyView::Listed(_)) => true,
            _ => false,
        }
    }

    /// Whether taking the reply in would leave the range of the counts.
    pub open spec fn overflows(self, reply: ReplyView) -> bool {
        match reply {
            ReplyView::Parsed(tree) => self.answered_by(reply) && !fits::<ItemCount>(
                self.table,
                member_table(tree),
            ),
            _ => false,
        }
    }

    /// The state after a reply. The last job is done with: a module is
    /// replaced by the file or the directory that the layout policy finds
    /// for it, or dropped; a file is counted, and its own modules are
    /// added to the work; a directory is replaced by its source files. A
    /// reply to something else changes nothing.
    pub open spec fn after(self, reply: ReplyView) -> ResolverView {
        if !self.answered_by(reply) {
            self
        } else {
            let others = self.jobs.drop_last();
            match (self.jobs.last(), reply) {
                (
                    JobView::Resolve { base, identifier },
                    ReplyView::Probed { is_file, is_directory },
                ) => ResolverView {
                    table: self.table,
                    jobs: match resolution(is_file, is_directory) {
                        Resolution::File => others.push(
                            JobView::Load { file: file_candidate(base, identifier), base },
                        ),
                        Resolution::Directory => others.push(
                            JobView::List { directory: directory_candidate(base, identifier) },
                        ),
                        Resolution::Missing => others,
                    },
                },
                (JobView::Load { file, base }, ReplyView::Parsed(tree)) => ResolverView {
                    table: merged::<ItemCount>(self.table, member_table(tree)),
                    jobs: others + reference_jobs(base, references(tree)),
                },
                (JobView::List { directory }, ReplyView::Listed(names)) => ResolverView {
                    table: self.table,
                    jobs: others + listing_jobs(directory, names),
                },
                _ => self,
            }
        }
    }
}

/// The views of a list of jobs.
pub open spec fn views(jobs: Seq<Job>) -> Seq<JobView> {
    jobs.map_values(|job: Job| job@)
}

fn copy_path(path: &Vec<String>) -> (r: Vec<String>)
    ensures
        texts(r@) == texts(path@),
{
    let mut copy: Vec<String> = Vec::new();
    let mut i: usize = 0;
    while i < path.len()
        invariant
            i <= path.len(),
            texts(copy@) == texts(path@.take(i as int)),
        decreases path.len() - i,
    {
        let ghost before = copy@;
        copy.push(path[i].clone());
        assert(texts(copy@) =~= texts(before).push(path[i as int]@));
        assert(texts(path@.take(i + 1)) =~= texts(path@.take(i as int)).push(path[i as int]@));
        i += 1;
    }
    assert(path@.take(path.len() as int) =~= path@);
    copy
}

fn push_reference_jobs(jobs: &mut Vec<Job>, base: &Vec<String>, identifiers: &Vec<String>)
    ensures
        views(final(jobs)@) == views(old(jobs)@) + reference_jobs(
            texts(base@),
            texts(identifiers@),
        ),
{
    let mut i: usize = 0;
    while i < identifiers.len()
        invariant
            i <= identifiers.len(),
            views(jobs@) == views(old(jobs)@) + reference_jobs(
                texts(base@),
                texts(identifiers@.take(i as int)),
            ),
        decreases identifiers.len() - i,
    {
        let ghost before = views(jobs@);
        let job = Job::Resolve { base: copy_path(base), identifier: identifiers[i].clone() };
        jobs.push(job);
        assert(views(jobs@) =~= before.push(job@));
        assert(reference_jobs(texts(base@), texts(identifiers@.take(i + 1)))
            =~= reference_jobs(texts(base@), texts(identifiers@.take(i as int))).push(job@));
        i += 1;
    }
    assert(identifiers@.take(identifiers.len() as int) =~= identifiers@);
}

fn push_listing_jobs(jobs: &mut Vec<Job>, directory: &Vec<String>, names: &Vec<String>)
    ensures
        views(final(jobs)@) == views(old(jobs)@) + listing_jobs(texts(directory@), texts(names@)),
{
    let mut i: usize = 0;
    while i < names.len()
        invariant
            i <= names.len(),
            views(jobs@) == views(old(jobs)@) + listing_jobs(
                texts(directory@),
                texts(names@.take(i as int)),
            ),
        decreases names.len() - i,
    {
        let ghost before = views(jobs@);
        assert(texts(names@.take(i + 1)).drop_last() =~= texts(names@.take(i as int)));
        if is_source_file(names[i].as_str()) {
            let mut file = copy_path(directory);
            file.push(names[i].clone());
            assert(texts(file@) =~= texts(directory@).push(names[i as int]@));
            let job = Job::Load { file, base: copy_path(directory) };
            jobs.push(job);
            assert(views(jobs@) =~= before.push(job@));
        }
        i += 1;
    }
    assert(names@.take(names.len() as int) =~= names@);
}

/// Follows the modules that files declare without a body, from file to
/// file, and adds up what their implementation blocks hold. It says what
/// it needs (`request`), and goes on when it is given (`reply`): it reads no
/// file itself.
pub struct Resolver {
    counter: AMF,
    jobs: Vec<Job>,
}

impl View for Resolver {
    type V = ResolverView;

    closed spec fn view(&self) -> ResolverView {
        ResolverView { table: self.counter.table(), jobs: views(self.jobs@) }
    }
}

impl Resolver {
    /// The invariant of the table.
    pub closed spec fn wf(&self) -> bool {
        self.counter.wf()
    }

    /// A resolver that goes on from a counter: it starts with the counter's
    /// table, and has the modules to find that the counter has kept.
    pub fn new(counter: AMF) -> (r: Resolver)
        requires
            counter.wf(),
        ensures
            r.wf(),
            r@.table == counter.table(),
            r@.jobs == match counter.base() {
                Some(base) => reference_jobs(base, counter.pending()),
                None => Seq::empty(),
            },
    {
        let mut counter = counter;
        let mut jobs: Vec<Job> = Vec::new();
        let found = counter.take_references();
        match counter.path() {
            Some(base) => {
                push_reference_jobs(&mut jobs, base, &found);
            },
            None => {},
        }
        let r = Resolver { counter, jobs };
        assert(r@.jobs =~= match counter.base() {
            Some(base) => reference_jobs(base, texts(found@)),
            None => Seq::empty(),
        });
        r
    }

    /// What the resolver needs next.
    pub fn request(&self) -> (r: Request)
        ensures
            r@ == self@.request(),
    {
        let n = self.jobs.len();
        if n == 0 {
            return Request::Done;
        }
        match &self.jobs[n - 1] {
            Job::Resolve { base, identifier } => {
                let mut file = copy_path(base);
                file.push(module_file_name(identifier));
                let mut directory = copy_path(base);
                directory.push(identifier.clone());
                assert(texts(file@) =~= file_candidate(texts(base@), identifier@));
                assert(texts(directory@) =~= directory_candidate(texts(base@), identifier@));
                Request::Probe { file, directory }
            },
            Job::Load { file, .. } => Request::Read { file: copy_path(file) },
            Job::List { directory } => Request::List { directory: copy_path(directory) },
        }
    }

    /// Takes in a reply to the last request. On overflow the resolver stays
    /// as it was.
    pub fn reply(&mut self, reply: Reply) -> (r: Result<(), Overflow>)
        requires
            old(self).wf(),
        ensures
            final(self).wf(),
            r is Err <==> old(self)@.overflows(reply@),
            r is Ok ==> final(self)@ == old(self)@.after(reply@),
            r is Err ==> final(self)@ == old(self)@,
    {
        let ghost before = views(self.jobs@);
        let job = match self.jobs.pop() {
            Some(job) => job,
            None => {
                return Ok(());
            },
        };
        let ghost others = views(self.jobs@);
        assert(others =~= before.drop_last());
        assert(job@ == before.last());
        assert(before =~= others.push(job@));
        match (job, reply) {
            (Job::Resolve { base, identifier }, Reply::Probed { is_file, is_directory }) => {
                match resolve(is_file, is_directory) {
                    Resolution::File => {
                        let mut file = copy_path(&base);
                        file.push(module_file_name(&identifier));
                        assert(texts(file@) =~= file_candidate(texts(base@), identifier@));
                        let next = Job::Load { file, base };
                        self.jobs.push(next);
                        assert(views(self.jobs@) =~= others.push(next@));
                    },
                    Resolution::Directory => {
                        let mut directory = copy_path(&base);
                        directory.push(identifier);
                        assert(texts(directory@) =~= directory_candidate(
                            texts(base@),
                            identifier@,
                        ));
                        let next = Job::List { directory };
                        self.jobs.push(next);
                        assert(views(self.jobs@) =~= others.push(next@));
                    },
                    Resolution::Missing => {},
                }
                Ok(())
            },
            (Job::Load { file, base }, Reply::Parsed(tree)) => {
                proof {
                    lemma_merge_into_empty::<ItemCount>(self.counter.table(), member_table(tree));
                }
                let mut fresh = AMF::from_path(Some(copy_path(&base)));
                let counted = match fresh.visit_file(&tree) {
                    Ok(()) => self.counter.merge(&mut fresh),
                    Err(e) => Err(e),
                };
                match counted {
                    Ok(()) => {
                        let found = fresh.take_references();
                        push_reference_jobs(&mut self.jobs, &base, &found);
                        Ok(())
                    },
                    Err(e) => {
                        let job = Job::Load { file, base };
                        self.jobs.push(job);
                        assert(views(self.jobs@) =~= before);
                        Err(e)
                    },
                }
            },
            (Job::List { directory }, Reply::Listed(names)) => {
                push_listing_jobs(&mut self.jobs, &directory, &names);
                Ok(())
            },
            (job, _) => {
                self.jobs.push(job);
                assert(views(self.jobs@) =~= before);
                Ok(())
            },
        }
    }

    /// The table, with all that was counted.
    pub fn into_table(self) -> (r: Table<ItemCount>)
        requires
            self.wf(),
        ensures
            r.wf(),
            r@ == self@.table,
    {
        self.counter.into_table()
    }
}

/// The name of the file that holds the body of the module `identifier`.
fn module_file_name(identifier: &String) -> (r: String)
    ensures
        r@ == identifier@ + source_extension(),
{
    proof {
        reveal_strlit(".rs");
    }
    let name = identifier.clone().concat(".rs");
    assert(".rs"@ =~= source_extension());
    name
}

} // verus!
