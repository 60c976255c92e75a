use vstd::prelude::*;
use crate::stats::Counters;
use crate::text::str_eq;

verus! {

/// One unit of work: a directory path and its depth below the root.
#[derive(Clone, Debug)]
pub struct Task {
    pub path: String,
    pub depth: usize,
}

/// The shared traversal state of one scan: the queue of pending tasks, the
/// number of tasks taken but not yet finished, and the completion flag.
/// A scan keeps one value of this type behind a single lock; each method
/// below is the body of one critical section of the worker protocol.
pub struct St {
    pub q: Vec<Task>,
    pub open: usize,
    pub done: bool,
}

impl St {
    /// The unique stable condition meaning the scan is over: nothing
    /// queued and nothing in flight.
    pub open spec fn idle(&self) -> bool {
        self.q@.len() == 0 && self.open == 0
    }

    /// The protocol invariant: the completion flag is only ever raised in
    /// an idle state, so once a worker has been told to exit no task can
    /// still be pending or in flight.
    pub open spec fn wf(&self) -> bool {
        self.done ==> self.idle()
    }

    /// Fresh state holding only the root task, at depth zero.
    pub fn new_scan(root: String) -> (s: St)
        ensures
            s.wf(),
            !s.done,
            s.open == 0,
            s.q@.len() == 1,
            s.q@[0].path@ == root@,
            s.q@[0].depth == 0,
    {
        let mut q: Vec<Task> = Vec::new();
        q.push(Task { path: root, depth: 0 });
        St { q, open: 0, done: false }
    }

    /// The wait predicate: a worker leaves the wait loop only when there
    /// is a task to take or the scan is done.
    pub fn ready(&self) -> (r: bool)
        ensures
            r == (self.q@.len() > 0 || self.done),
    {
        self.q.len() > 0 || self.done
    }

    /// One take step, entered once `ready` holds: if the scan is done the
    /// worker gets nothing and must exit; otherwise it takes the front
    /// task and counts as in flight.
    pub fn take(&mut self) -> (t: Option<Task>)
        requires
            old(self).wf(),
            old(self).q@.len() > 0 || old(self).done,
            old(self).open < usize::MAX,
        ensures
            final(self).wf(),
            old(self).done ==> t is None && *final(self) == *old(self) && final(self).done,
            !old(self).done ==> (t matches Some(x) && x == old(self).q@[0] && final(self).q@
                == old(self).q@.drop_first() && final(self).open == old(self).open + 1
                && !final(self).done),
    {
        if self.done {
            None
        } else {
            let t = self.q.remove(0);
            self.open = self.open + 1;
            proof {
                assert(self.q@ =~= old(self).q@.drop_first());
            }
            Some(t)
        }
    }

    /// One push step: a worker that is processing a task hands in a newly
    /// discovered subdirectory and wakes one blocked consumer. Only a
    /// worker with a task in flight pushes, so the scan cannot be done.
    pub fn push_child(&mut self, path: String, depth: usize)
        requires
            old(self).wf(),
            old(self).open > 0,
        ensures
            final(self).wf(),
            final(self).q@ == old(self).q@.push((Task { path, depth })),
            final(self).open == old(self).open,
            !final(self).done,
    {
        self.q.push(Task { path, depth });
    }

    /// One finish step: the worker that completed a task leaves the
    /// in-flight set; if nothing is queued and nothing is left in flight
    /// it — and only it — raises the completion flag. Returns true exactly
    /// when the flag was raised, i.e. when all blocked workers must wake.
    pub fn finish(&mut self) -> (completed: bool)
        requires
            old(self).wf(),
        ensures
            final(self).wf(),
            final(self).q@ == old(self).q@,
            final(self).open as int == (if old(self).open > 0 {
                old(self).open - 1
            } else {
                0
            }),
            final(self).done == (old(self).done || (old(self).q@.len() == 0 && old(self).open
                <= 1)),
            completed == (old(self).q@.len() == 0 && old(self).open <= 1),
            old(self).done ==> final(self).done,
    {
        if self.open > 0 {
            self.open = self.open - 1;
        }
        if self.q.len() == 0 && self.open == 0 {
            self.done = true;
            true
        } else {
            false
        }
    }
}

/// What one directory entry turned out to be when a worker listed a
/// directory.
#[derive(Clone, Debug)]
pub enum Entry {
    /// A subdirectory, with its full path.
    Dir(String),
    /// A regular file, with its full path.
    File(String),
    /// Neither a regular file nor a directory (a symlink, a socket, ...).
    Other,
    /// The entry's type could not be read.
    StatFail,
    /// The enumeration yielded a permission-denied error instead of an
    /// entry.
    DeniedFail,
    /// The enumeration yielded some other error instead of an entry.
    OtherFail,
}

/// The outcome of listing one directory.
#[derive(Clone, Debug)]
pub enum Listing {
    Entries(Vec<Entry>),
    Denied,
    Failed,
}

/// Subdirectories found in a listing, in order.
pub open spec fn dir_paths(es: Seq<Entry>) -> Seq<Seq<char>>
    decreases es.len(),
{
    if es.len() == 0 {
        Seq::empty()
    } else {
        (match es[0] {
            Entry::Dir(p) => seq![p@],
            _ => Seq::empty(),
        }) + dir_paths(es.drop_first())
    }
}

/// Regular files found in a listing, in order.
pub open spec fn file_paths(es: Seq<Entry>) -> Seq<Seq<char>>
    decreases es.len(),
{
    if es.len() == 0 {
        Seq::empty()
    } else {
        (match es[0] {
            Entry::File(p) => seq![p@],
            _ => Seq::empty(),
        }) + file_paths(es.drop_first())
    }
}

/// Entries counted as permission denied.
pub open spec fn cnt_den(es: Seq<Entry>) -> int
    decreases es.len(),
{
    if es.len() == 0 {
        0
    } else {
        (if es[0] is DeniedFail {
            1int
        } else {
            0int
        }) + cnt_den(es.drop_first())
    }
}

/// Entries counted as other errors: a failed type probe or a failed
/// enumeration step.
pub open spec fn cnt_err(es: Seq<Entry>) -> int
    decreases es.len(),
{
    if es.len() == 0 {
        0
    } else {
        (if es[0] is StatFail || es[0] is OtherFail {
            1int
        } else {
            0int
        }) + cnt_err(es.drop_first())
    }
}

/// What processing one listing produced: tasks for the discovered
/// subdirectories, the file paths to record, whether a map row is owed —
/// only a successfully listed directory gets one — and the four counter
/// increments.
pub struct DirOut {
    pub subs: Vec<Task>,
    pub files: Vec<String>,
    pub record: bool,
    pub dirs: u64,
    pub nfiles: u64,
    pub den: u64,
    pub err: u64,
}

/// Classifies the outcome of listing one directory dequeued at `depth`:
/// each subdirectory becomes a task one level deeper and bumps the
/// directory counter, each regular file is recorded and bumps the file
/// counter, failures bump the denied or error counter by their kind, and
/// every entry gets exactly one terminal classification. A directory
/// that could not be listed at all yields no row and a single denied or
/// error count.
pub fn process_listing(depth: usize, listing: Listing) -> (r: DirOut)
    requires
        depth < usize::MAX,
    ensures
        (match listing {
            Listing::Entries(es) => {
                &&& r.record
                &&& r.dirs as int == dir_paths(es@).len()
                &&& r.nfiles as int == file_paths(es@).len()
                &&& r.den as int == cnt_den(es@)
                &&& r.err as int == cnt_err(es@)
                &&& r.subs@.len() == dir_paths(es@).len()
                &&& forall|i: int|
                    0 <= i < r.subs@.len() ==> (#[trigger] r.subs@[i]).path@ == dir_paths(es@)[i]
                        && r.subs@[i].depth == depth + 1
                &&& r.files.deep_view() == file_paths(es@)
            },
            Listing::Denied => {
                &&& !r.record
                &&& r.dirs == 0 && r.nfiles == 0 && r.den == 1 && r.err == 0
                &&& r.subs@.len() == 0 && r.files@.len() == 0
            },
            Listing::Failed => {
                &&& !r.record
                &&& r.dirs == 0 && r.nfiles == 0 && r.den == 0 && r.err == 1
                &&& r.subs@.len() == 0 && r.files@.len() == 0
            },
        }),
{
    match listing {
        Listing::Entries(es) => {
            let n = es.len();
            let mut subs: Vec<Task> = Vec::new();
            let mut files: Vec<String> = Vec::new();
            let mut den: u64 = 0;
            let mut err: u64 = 0;
            let mut i: usize = 0;
            proof {
                assert(es@.subrange(0, n as int) =~= es@);
                assert(files.deep_view() =~= Seq::<Seq<char>>::empty());
                assert(Seq::new(subs@.len(), |k: int| subs@[k].path@) =~= Seq::<Seq<char>>::empty());
            }
            while i < n
                invariant
                    n == es@.len(),
                    i <= n,
                    depth < usize::MAX,
                    dir_paths(es@) == Seq::new(subs@.len(), |k: int| subs@[k].path@) + dir_paths(
                        es@.subrange(i as int, n as int),
                    ),
                    file_paths(es@) == files.deep_view() + file_paths(
                        es@.subrange(i as int, n as int),
                    ),
                    cnt_den(es@) == den + cnt_den(es@.subrange(i as int, n as int)),
                    cnt_err(es@) == err + cnt_err(es@.subrange(i as int, n as int)),
                    den <= i,
                    err <= i,
                    forall|k: int| 0 <= k < subs@.len() ==> (#[trigger] subs@[k]).depth == depth + 1,
                decreases n - i,
            {
                let ghost suf = es@.subrange(i as int, n as int);
                proof {
                    assert(suf[0] == es@[i as int]);
                    assert(suf.drop_first() =~= es@.subrange(i + 1, n as int));
                }
                let ghost old_subs = subs@;
                let ghost old_files = files.deep_view();
                match &es[i] {
                    Entry::Dir(p) => {
                        subs.push(Task { path: p.clone(), depth: depth + 1 });
                        proof {
                            assert(Seq::new(subs@.len(), |k: int| subs@[k].path@) =~= Seq::new(
                                old_subs.len(),
                                |k: int| old_subs[k].path@,
                            ) + seq![es@[i as int]->Dir_0@]);
                        }
                    },
                    Entry::File(p) => {
                        files.push(p.clone());
                        proof {
                            assert(files.deep_view() =~= old_files + seq![es@[i as int]->File_0@]);
                        }
                    },
                    Entry::Other => {
                    },
                    Entry::StatFail => {
                        err = err + 1;
                    },
                    Entry::DeniedFail => {
                        den = den + 1;
                    },
                    Entry::OtherFail => {
                        err = err + 1;
                    },
                }
                i = i + 1;
                proof {
                    assert(dir_paths(es@) =~= Seq::new(subs@.len(), |k: int| subs@[k].path@)
                        + dir_paths(es@.subrange(i as int, n as int)));
                    assert(file_paths(es@) =~= files.deep_view() + file_paths(
                        es@.subrange(i as int, n as int),
                    ));
                }
            }
            proof {
                assert(es@.subrange(n as int, n as int) =~= Seq::<Entry>::empty());
                assert(dir_paths(es@) =~= Seq::new(subs@.len(), |k: int| subs@[k].path@));
                assert(file_paths(es@) =~= files.deep_view());
            }
            let dirs = subs.len() as u64;
            let nfiles = files.len() as u64;
            DirOut { subs, files, record: true, dirs, nfiles, den, err }
        },
        Listing::Denied => {
            DirOut {
                subs: Vec::new(),
                files: Vec::new(),
                record: false,
                dirs: 0,
                nfiles: 0,
                den: 1,
                err: 0,
            }
        },
        Listing::Failed => {
            DirOut {
                subs: Vec::new(),
                files: Vec::new(),
                record: false,
                dirs: 0,
                nfiles: 0,
                den: 0,
                err: 1,
            }
        },
    }
}

/// One row of the result map: a directory and the files found directly in
/// it, in listing order.
#[derive(Clone, Debug)]
pub struct Row {
    pub path: String,
    pub files: Vec<String>,
}

/// The scan's result map: one row per successfully listed directory, in
/// the order the rows were recorded. `record` itself appends
/// unconditionally; that a scan's rows have pairwise distinct keys
/// (`keys_distinct`, because the traversal discovers every directory
/// through exactly one parent listing) is proved over whole trees by
/// `model::lemma_node_keys`.
#[derive(Clone, Debug)]
pub struct ResultMap {
    pub rows: Vec<Row>,
}

/// No two rows of a result-map view share a key.
pub open spec fn keys_distinct(es: Seq<(Seq<char>, Seq<Seq<char>>)>) -> bool {
    forall|k1: int, k2: int|
        0 <= k1 < k2 < es.len() ==> (#[trigger] es[k1]).0 != (#[trigger] es[k2]).0
}

impl View for ResultMap {
    type V = Seq<(Seq<char>, Seq<Seq<char>>)>;

    open spec fn view(&self) -> Seq<(Seq<char>, Seq<Seq<char>>)> {
        Seq::new(
            self.rows@.len(),
            |i: int| (self.rows@[i].path@, self.rows@[i].files.deep_view()),
        )
    }
}

/// The first row keyed by `k`, if any.
pub open spec fn lookup_spec(m: Seq<(Seq<char>, Seq<Seq<char>>)>, k: Seq<char>) -> Option<
    Seq<Seq<char>>,
>
    decreases m.len(),
{
    if m.len() == 0 {
        None
    } else if m[0].0 == k {
        Some(m[0].1)
    } else {
        lookup_spec(m.drop_first(), k)
    }
}

impl ResultMap {
    pub fn new() -> (m: ResultMap)
        ensures
            m@.len() == 0,
            m@ == Seq::<(Seq<char>, Seq<Seq<char>>)>::empty(),
    {
        let m = ResultMap { rows: Vec::new() };
        proof {
            assert(m@ =~= Seq::<(Seq<char>, Seq<Seq<char>>)>::empty());
        }
        m
    }

    pub fn len(&self) -> (n: usize)
        ensures
            n == self@.len(),
    {
        self.rows.len()
    }

    /// Records the file list of one just-listed directory.
    pub fn record(&mut self, path: String, files: Vec<String>)
        ensures
            final(self)@ == old(self)@.push((path@, files.deep_view())),
    {
        let ghost target = self@.push((path@, files.deep_view()));
        self.rows.push(Row { path, files });
        proof {
            assert(self@ =~= target);
        }
    }

    /// Finds the files recorded for a directory path.
    pub fn get(&self, path: &str) -> (r: Option<&Vec<String>>)
        ensures
            match r {
                Some(v) => lookup_spec(self@, path@) == Some(v.deep_view()),
                None => lookup_spec(self@, path@) is None,
            },
    {
        let n = self.rows.len();
        let mut i: usize = 0;
        proof {
            assert(self@.subrange(0, n as int) =~= self@);
        }
        while i < n
            invariant
                n == self.rows@.len(),
                i <= n,
                lookup_spec(self@, path@) == lookup_spec(self@.subrange(i as int, n as int), path@),
        decreases n - i,
        {
            proof {
                let suf = self@.subrange(i as int, n as int);
                assert(suf[0] == self@[i as int]);
                assert(suf.drop_first() =~= self@.subrange(i + 1, n as int));
            }
            if str_eq(self.rows[i].path.as_str(), path) {
                return Some(&self.rows[i].files);
            }
            i = i + 1;
        }
        proof {
            assert(self@.subrange(n as int, n as int) =~= Seq::<(Seq<char>, Seq<Seq<char>>)>::empty());
        }
        None
    }
}

} // verus!
