use vstd::prelude::*;
use crate::engine::{keys_distinct, ResultMap};
use crate::stats::Counters;
use crate::text::join_path;

verus! {

/// How listing one directory of a synthetic tree turns out.
#[derive(Clone, Copy, PartialEq, Eq, Structural, Debug)]
pub enum Access {
    Listed,
    Denied,
    Failed,
}

/// A directory of a synthetic tree: its name, how listing it turns out,
/// and — when listable — its entries.
pub struct Node {
    pub name: String,
    pub access: Access,
    pub kids: Vec<Kid>,
}

/// One entry of a listed synthetic directory, mirroring the engine's
/// terminal classifications.
pub enum Kid {
    /// A subdirectory.
    Sub(Node),
    /// A regular file, by name.
    File(String),
    /// Neither a regular file nor a directory.
    Other,
    /// An entry whose type probe fails.
    StatFail,
    /// An enumeration step failing with permission denied.
    DeniedFail,
    /// An enumeration step failing some other way.
    OtherFail,
}

/// Regular files directly inside a listed directory.
pub open spec fn direct_files(ks: Seq<Kid>) -> int
    decreases ks.len(),
{
    if ks.len() == 0 {
        0
    } else {
        (if ks[0] is File {
            1int
        } else {
            0int
        }) + direct_files(ks.drop_first())
    }
}

/// Subdirectories directly inside a listed directory.
pub open spec fn direct_dirs(ks: Seq<Kid>) -> int
    decreases ks.len(),
{
    if ks.len() == 0 {
        0
    } else {
        (if ks[0] is Sub {
            1int
        } else {
            0int
        }) + direct_dirs(ks.drop_first())
    }
}

/// Permission-denied enumeration steps directly inside a listed directory.
pub open spec fn direct_den(ks: Seq<Kid>) -> int
    decreases ks.len(),
{
    if ks.len() == 0 {
        0
    } else {
        (if ks[0] is DeniedFail {
            1int
        } else {
            0int
        }) + direct_den(ks.drop_first())
    }
}

/// Other per-entry failures directly inside a listed directory.
pub open spec fn direct_err(ks: Seq<Kid>) -> int
    decreases ks.len(),
{
    if ks.len() == 0 {
        0
    } else {
        (if ks[0] is StatFail || ks[0] is OtherFail {
            1int
        } else {
            0int
        }) + direct_err(ks.drop_first())
    }
}

/// Files the scan records below this directory, itself included.
pub open spec fn n_files(n: Node) -> int
    decreases n,
{
    if n.access is Listed {
        direct_files(n.kids@) + sub_files(n.kids@)
    } else {
        0
    }
}

pub open spec fn sub_files(ks: Seq<Kid>) -> int
    decreases ks,
{
    if ks.len() == 0 {
        0
    } else {
        (match ks[0] {
            Kid::Sub(c) => n_files(c),
            _ => 0,
        }) + sub_files(ks.drop_first())
    }
}

/// Subdirectories the scan discovers below this directory.
pub open spec fn n_dirs(n: Node) -> int
    decreases n,
{
    if n.access is Listed {
        direct_dirs(n.kids@) + sub_dirs(n.kids@)
    } else {
        0
    }
}

pub open spec fn sub_dirs(ks: Seq<Kid>) -> int
    decreases ks,
{
    if ks.len() == 0 {
        0
    } else {
        (match ks[0] {
            Kid::Sub(c) => n_dirs(c),
            _ => 0,
        }) + sub_dirs(ks.drop_first())
    }
}

/// Permission-denied counts the scan accumulates below this directory.
pub open spec fn n_den(n: Node) -> int
    decreases n,
{
    match n.access {
        Access::Denied => 1,
        Access::Failed => 0,
        Access::Listed => direct_den(n.kids@) + sub_den(n.kids@),
    }
}

pub open spec fn sub_den(ks: Seq<Kid>) -> int
    decreases ks,
{
    if ks.len() == 0 {
        0
    } else {
        (match ks[0] {
            Kid::Sub(c) => n_den(c),
            _ => 0,
        }) + sub_den(ks.drop_first())
    }
}

/// Other-error counts the scan accumulates below this directory.
pub open spec fn n_err(n: Node) -> int
    decreases n,
{
    match n.access {
        Access::Denied => 0,
        Access::Failed => 1,
        Access::Listed => direct_err(n.kids@) + sub_err(n.kids@),
    }
}

pub open spec fn sub_err(ks: Seq<Kid>) -> int
    decreases ks,
{
    if ks.len() == 0 {
        0
    } else {
        (match ks[0] {
            Kid::Sub(c) => n_err(c),
            _ => 0,
        }) + sub_err(ks.drop_first())
    }
}

/// The deepest level the scan observes below this directory when the
/// directory itself sits at depth `d`; an unlistable directory is still
/// dequeued, so its own depth always counts.
pub open spec fn n_depth(n: Node, d: int) -> int
    decreases n,
{
    if n.access is Listed {
        vstd::math::max(d, kids_depth(n.kids@, d + 1))
    } else {
        d
    }
}

pub open spec fn kids_depth(ks: Seq<Kid>, d: int) -> int
    decreases ks,
{
    if ks.len() == 0 {
        -1
    } else {
        vstd::math::max(
            match ks[0] {
                Kid::Sub(c) => n_depth(c, d),
                _ => -1,
            },
            kids_depth(ks.drop_first(), d),
        )
    }
}

/// Full paths of the files directly inside a directory at path `p`, in
/// listing order.
pub open spec fn kid_file_paths(p: Seq<char>, ks: Seq<Kid>) -> Seq<Seq<char>>
    decreases ks.len(),
{
    if ks.len() == 0 {
        Seq::empty()
    } else {
        (match ks[0] {
            Kid::File(nm) => seq![p + seq!['/'] + nm@],
            _ => Seq::empty(),
        }) + kid_file_paths(p, ks.drop_first())
    }
}

/// The rows a scan records for the subtree rooted at path `p`: one row
/// per listed directory, the directory itself first, then its
/// subdirectories in order.
pub open spec fn entries_spec(p: Seq<char>, n: Node) -> Seq<(Seq<char>, Seq<Seq<char>>)>
    decreases n,
{
    if n.access is Listed {
        seq![(p, kid_file_paths(p, n.kids@))] + kids_entries(p, n.kids@)
    } else {
        Seq::empty()
    }
}

pub open spec fn kids_entries(p: Seq<char>, ks: Seq<Kid>) -> Seq<(Seq<char>, Seq<Seq<char>>)>
    decreases ks,
{
    if ks.len() == 0 {
        Seq::empty()
    } else {
        (match ks[0] {
            Kid::Sub(c) => entries_spec(p + seq!['/'] + c.name@, c),
            _ => Seq::empty(),
        }) + kids_entries(p, ks.drop_first())
    }
}

proof fn lemma_counts_nonneg(n: Node)
    ensures
        n_files(n) >= 0,
        n_dirs(n) >= 0,
        n_den(n) >= 0,
        n_err(n) >= 0,
    decreases n,
{
    lemma_kids_counts_nonneg(n.kids@);
}

proof fn lemma_kids_counts_nonneg(ks: Seq<Kid>)
    ensures
        direct_files(ks) >= 0,
        direct_dirs(ks) >= 0,
        direct_den(ks) >= 0,
        direct_err(ks) >= 0,
        sub_files(ks) >= 0,
        sub_dirs(ks) >= 0,
        sub_den(ks) >= 0,
        sub_err(ks) >= 0,
    decreases ks,
{
    if ks.len() > 0 {
        match ks[0] {
            Kid::Sub(c) => lemma_counts_nonneg(c),
            _ => {},
        }
        lemma_kids_counts_nonneg(ks.drop_first());
    }
}

proof fn lemma_kids_depth_lb(ks: Seq<Kid>, d: int)
    ensures
        kids_depth(ks, d) >= -1,
    decreases ks,
{
    if ks.len() > 0 {
        lemma_kids_depth_lb(ks.drop_first(), d);
    }
}

/// The depth reached below a suffix of the entries never exceeds the depth
/// reached below all of them.
proof fn lemma_kids_depth_suffix(ks: Seq<Kid>, d: int, i: int)
    requires
        0 <= i <= ks.len(),
    ensures
        kids_depth(ks, d) >= kids_depth(ks.subrange(i, ks.len() as int), d),
    decreases i,
{
    if i == 0 {
        assert(ks.subrange(0, ks.len() as int) =~= ks);
    } else {
        lemma_kids_depth_suffix(ks, d, i - 1);
        let s1 = ks.subrange(i - 1, ks.len() as int);
        assert(s1.drop_first() =~= ks.subrange(i, ks.len() as int));
        lemma_kids_depth_lb(ks.subrange(i, ks.len() as int), d);
    }
}

/// Sum of the file-list lengths over the recorded rows.
pub open spec fn rows_files(m: Seq<(Seq<char>, Seq<Seq<char>>)>) -> int
    decreases m.len(),
{
    if m.len() == 0 {
        0
    } else {
        m[0].1.len() + rows_files(m.drop_first())
    }
}

proof fn lemma_rows_files_concat(a: Seq<(Seq<char>, Seq<Seq<char>>)>, b: Seq<
    (Seq<char>, Seq<Seq<char>>),
>)
    ensures
        rows_files(a + b) == rows_files(a) + rows_files(b),
    decreases a.len(),
{
    if a.len() == 0 {
        assert(a + b =~= b);
    } else {
        assert((a + b).drop_first() =~= a.drop_first() + b);
        assert((a + b)[0] == a[0]);
        lemma_rows_files_concat(a.drop_first(), b);
    }
}

proof fn lemma_kid_file_paths_len(p: Seq<char>, ks: Seq<Kid>)
    ensures
        kid_file_paths(p, ks).len() == direct_files(ks),
    decreases ks.len(),
{
    if ks.len() > 0 {
        lemma_kid_file_paths_len(p, ks.drop_first());
    }
}

/// Every recorded file appears in exactly one row of the result map: over
/// any subtree, the row file lists add up to the file counter.
pub proof fn lemma_files_accounted(p: Seq<char>, n: Node)
    ensures
        rows_files(entries_spec(p, n)) == n_files(n),
    decreases n,
{
    if n.access is Listed {
        lemma_kid_file_paths_len(p, n.kids@);
        lemma_rows_files_concat(
            seq![(p, kid_file_paths(p, n.kids@))],
            kids_entries(p, n.kids@),
        );
        assert(seq![(p, kid_file_paths(p, n.kids@))].drop_first() =~= Seq::<
            (Seq<char>, Seq<Seq<char>>),
        >::empty());
        lemma_files_accounted_kids(p, n.kids@);
        let head = seq![(p, kid_file_paths(p, n.kids@))];
        assert(entries_spec(p, n) == head + kids_entries(p, n.kids@));
        assert(rows_files(head + kids_entries(p, n.kids@)) == rows_files(head) + rows_files(
            kids_entries(p, n.kids@),
        ));
        assert(rows_files(head) == head[0].1.len() + rows_files(head.drop_first()));
        assert(rows_files(head.drop_first()) == 0);
        assert(head[0].1.len() == direct_files(n.kids@));
        assert(rows_files(kids_entries(p, n.kids@)) == sub_files(n.kids@));
        assert(n_files(n) == direct_files(n.kids@) + sub_files(n.kids@));
    }
}

proof fn lemma_files_accounted_kids(p: Seq<char>, ks: Seq<Kid>)
    ensures
        rows_files(kids_entries(p, ks)) == sub_files(ks),
    decreases ks,
{
    if ks.len() > 0 {
        match ks[0] {
            Kid::Sub(c) => {
                lemma_rows_files_concat(
                    entries_spec(p + seq!['/'] + c.name@, c),
                    kids_entries(p, ks.drop_first()),
                );
                lemma_files_accounted(p + seq!['/'] + c.name@, c);
            },
            _ => {
                lemma_rows_files_concat(
                    Seq::empty(),
                    kids_entries(p, ks.drop_first()),
                );
            },
        }
        lemma_files_accounted_kids(p, ks.drop_first());
    }
}

/// The result map holds at most one row per discovered directory plus one
/// for the root: directories that fail to list are counted but excluded.
pub proof fn lemma_rows_bound(p: Seq<char>, n: Node)
    ensures
        entries_spec(p, n).len() <= n_dirs(n) + 1,
    decreases n,
{
    if n.access is Listed {
        lemma_rows_bound_kids(p, n.kids@);
    }
}

proof fn lemma_rows_bound_kids(p: Seq<char>, ks: Seq<Kid>)
    ensures
        kids_entries(p, ks).len() <= direct_dirs(ks) + sub_dirs(ks),
    decreases ks,
{
    if ks.len() > 0 {
        match ks[0] {
            Kid::Sub(c) => {
                lemma_rows_bound(p + seq!['/'] + c.name@, c);
            },
            _ => {},
        }
        lemma_rows_bound_kids(p, ks.drop_first());
    }
}

/// Read-only idempotence: the rows a scan yields are a function of the
/// root path and the tree alone, so repeating a scan over an unmodified
/// tree yields an identical result map.
pub proof fn lemma_scan_deterministic(
    p: Seq<char>,
    n: Node,
    m1: Seq<(Seq<char>, Seq<Seq<char>>)>,
    m2: Seq<(Seq<char>, Seq<Seq<char>>)>,
)
    requires
        m1 == entries_spec(p, n),
        m2 == entries_spec(p, n),
    ensures
        m1 == m2,
{
}

/// A directory name the filesystem could produce: nonempty, without a
/// path separator.
pub open spec fn name_ok(nm: Seq<char>) -> bool {
    nm.len() > 0 && forall|i: int| 0 <= i < nm.len() ==> nm[i] != '/'
}

/// No two sibling subdirectories share a name.
pub open spec fn sib_distinct(ks: Seq<Kid>) -> bool {
    forall|i: int, j: int|
        0 <= i < j < ks.len() && ks[i] is Sub && ks[j] is Sub ==> (#[trigger] ks[i])->Sub_0.name@
            != (#[trigger] ks[j])->Sub_0.name@
}

pub open spec fn wf_kids(ks: Seq<Kid>) -> bool
    decreases ks,
{
    if ks.len() == 0 {
        true
    } else {
        (match ks[0] {
            Kid::Sub(c) => name_ok(c.name@) && wf_node(c),
            _ => true,
        }) && wf_kids(ks.drop_first())
    }
}

/// A tree shaped like a real directory tree: every directory name is
/// nonempty and slash-free, and siblings are distinct.
pub open spec fn wf_node(n: Node) -> bool
    decreases n,
{
    sib_distinct(n.kids@) && wf_kids(n.kids@)
}

/// `q` lies strictly below `p`: it starts with `p` followed by a slash.
pub open spec fn extends(q: Seq<char>, p: Seq<char>) -> bool {
    q.len() > p.len() && q.subrange(0, p.len() as int) == p && q[p.len() as int] == '/'
}

/// Index of the first slash, or the length if there is none.
pub open spec fn first_slash(r: Seq<char>) -> int
    decreases r.len(),
{
    if r.len() == 0 {
        0
    } else if r[0] == '/' {
        0
    } else {
        1 + first_slash(r.drop_first())
    }
}

/// The leading path component: everything before the first slash.
pub open spec fn head_name(r: Seq<char>) -> Seq<char> {
    r.subrange(0, first_slash(r))
}

/// The part of `q` after `p` and its slash.
pub open spec fn rest_of(p: Seq<char>, q: Seq<char>) -> Seq<char> {
    q.subrange(p.len() as int + 1, q.len() as int)
}

/// The name under which a path below `p` was discovered.
pub open spec fn name_in(p: Seq<char>, q: Seq<char>) -> Seq<char> {
    head_name(rest_of(p, q))
}

proof fn lemma_first_slash_at(r: Seq<char>, k: int)
    requires
        0 <= k <= r.len(),
        forall|i: int| 0 <= i < k ==> r[i] != '/',
        k < r.len() ==> r[k] == '/',
    ensures
        first_slash(r) == k,
    decreases r.len(),
{
    if r.len() == 0 {
    } else if r[0] == '/' {
        assert(k == 0);
    } else {
        assert(k >= 1);
        let d = r.drop_first();
        assert(forall|i: int| 0 <= i < k - 1 ==> d[i] == r[i + 1] && d[i] != '/');
        assert(k - 1 < d.len() ==> d[k - 1] == r[k as int] && d[k - 1] == '/');
        lemma_first_slash_at(d, k - 1);
    }
}

/// A path below `p` that either is `p`-slash-`a` or lies below it was
/// discovered under the name `a`.
proof fn lemma_name_in(p: Seq<char>, a: Seq<char>, q: Seq<char>)
    requires
        name_ok(a),
        q == p + seq!['/'] + a || (extends(q, p + seq!['/'] + a)),
    ensures
        extends(q, p),
        name_in(p, q) == a,
{
    let pc = p + seq!['/'] + a;
    let r = rest_of(p, q);
    if q == pc {
        assert(q.subrange(0, p.len() as int) =~= p);
        assert(q[p.len() as int] == '/');
        assert(r =~= a);
        assert forall|i: int| 0 <= i < a.len() implies r[i] != '/' by {
            assert(r[i] == a[i]);
            assert(a[i] != '/');
        }
        lemma_first_slash_at(r, a.len() as int);
        assert(head_name(r) =~= a);
    } else {
        assert(q.subrange(0, pc.len() as int) == pc);
        assert(q.subrange(0, p.len() as int) =~= p);
        assert(q[p.len() as int] == pc[p.len() as int]);
        assert(r.len() == q.len() - p.len() - 1 > a.len());
        assert(forall|i: int| 0 <= i < a.len() ==> r[i] == q[p.len() + 1 + i]);
        assert(forall|i: int|
            0 <= i < a.len() ==> q[p.len() + 1 + i] == pc[p.len() + 1 + i] && pc[p.len() + 1 + i]
                == a[i]);
        assert(r[a.len() as int] == q[pc.len() as int]);
        assert(q[pc.len() as int] == '/');
        assert forall|i: int| 0 <= i < a.len() implies r[i] != '/' by {
            assert(r[i] == q[p.len() + 1 + i]);
            assert(q[p.len() + 1 + i] == a[i]);
            assert(a[i] != '/');
        }
        lemma_first_slash_at(r, a.len() as int);
        assert(head_name(r) =~= a);
    }
}

/// Names of the subdirectories directly inside a listing.
pub open spec fn sub_names(ks: Seq<Kid>) -> Set<Seq<char>>
    decreases ks,
{
    if ks.len() == 0 {
        Set::empty()
    } else {
        match ks[0] {
            Kid::Sub(c) => sub_names(ks.drop_first()).insert(c.name@),
            _ => sub_names(ks.drop_first()),
        }
    }
}

proof fn lemma_sub_names_member(ks: Seq<Kid>, x: Seq<char>)
    requires
        sub_names(ks).contains(x),
    ensures
        exists|i: int| 0 <= i < ks.len() && (#[trigger] ks[i]) is Sub && ks[i]->Sub_0.name@ == x,
    decreases ks,
{
    let d = ks.drop_first();
    match ks[0] {
        Kid::Sub(c) => {
            if c.name@ == x {
                assert(ks[0] is Sub && ks[0]->Sub_0.name@ == x);
            } else {
                lemma_sub_names_member(d, x);
                let i = choose|i: int| 0 <= i < d.len() && (#[trigger] d[i]) is Sub
                    && d[i]->Sub_0.name@ == x;
                assert(ks[i + 1] == d[i]);
            }
        },
        _ => {
            lemma_sub_names_member(d, x);
            let i = choose|i: int| 0 <= i < d.len() && (#[trigger] d[i]) is Sub
                && d[i]->Sub_0.name@ == x;
            assert(ks[i + 1] == d[i]);
        },
    }
}

proof fn lemma_kids_keys(p: Seq<char>, ks: Seq<Kid>)
    requires
        sib_distinct(ks),
        wf_kids(ks),
    ensures
        forall|k: int|
            0 <= k < kids_entries(p, ks).len() ==> extends((#[trigger] kids_entries(p, ks)[k]).0, p)
                && sub_names(ks).contains(name_in(p, kids_entries(p, ks)[k].0)),
        keys_distinct(kids_entries(p, ks)),
    decreases ks,
{
    if ks.len() == 0 {
    } else {
        let d = ks.drop_first();
        assert forall|i: int, j: int|
            0 <= i < j < d.len() && d[i] is Sub && d[j] is Sub implies (#[trigger] d[i])->Sub_0.name@
            != (#[trigger] d[j])->Sub_0.name@ by {
            assert(d[i] == ks[i + 1] && d[j] == ks[j + 1]);
        }
        lemma_kids_keys(p, d);
        let kes = kids_entries(p, ks);
        let tail = kids_entries(p, d);
        match ks[0] {
            Kid::Sub(c) => {
                let a = c.name@;
                let pc = p + seq!['/'] + a;
                let head = entries_spec(pc, c);
                assert(kes == head + tail);
                lemma_node_keys(pc, c);
                assert forall|k: int| 0 <= k < head.len() implies extends(
                    (#[trigger] head[k]).0,
                    p,
                ) && name_in(p, head[k].0) == a by {
                    if k == 0 {
                        lemma_name_in(p, a, pc);
                    } else {
                        lemma_name_in(p, a, head[k].0);
                    }
                }
                assert forall|k: int| 0 <= k < kes.len() implies extends(
                    (#[trigger] kes[k]).0,
                    p,
                ) && sub_names(ks).contains(name_in(p, kes[k].0)) by {
                    if k < head.len() {
                        assert(kes[k] == head[k]);
                    } else {
                        assert(kes[k] == tail[k - head.len()]);
                        assert(sub_names(ks) == sub_names(d).insert(a));
                    }
                }
                assert forall|k1: int, k2: int| 0 <= k1 < k2 < kes.len() implies (
                #[trigger] kes[k1]).0 != (#[trigger] kes[k2]).0 by {
                    if k2 < head.len() {
                        assert(kes[k1] == head[k1] && kes[k2] == head[k2]);
                    } else if k1 >= head.len() {
                        assert(kes[k1] == tail[k1 - head.len()] && kes[k2] == tail[k2
                            - head.len()]);
                    } else {
                        assert(kes[k1] == head[k1] && kes[k2] == tail[k2 - head.len()]);
                        if kes[k1].0 == kes[k2].0 {
                            assert(name_in(p, kes[k1].0) == a);
                            assert(sub_names(d).contains(name_in(p, kes[k2].0)));
                            assert(sub_names(d).contains(a));
                            lemma_sub_names_member(d, a);
                            let i = choose|i: int|
                                0 <= i < d.len() && (#[trigger] d[i]) is Sub && d[i]->Sub_0.name@
                                    == a;
                            assert(ks[i + 1] == d[i]);
                            assert(ks[0] is Sub && ks[0]->Sub_0.name@ == a);
                            assert(false);
                        }
                    }
                }
            },
            _ => {
                assert(kes =~= tail);
            },
        }
    }
}

/// Each directory path appears at most once as a key of the result map:
/// over a well-formed tree — directory names nonempty, slash-free and
/// distinct among siblings, as on a real filesystem — the root's row
/// comes first, every other key lies strictly below the root path, and
/// no two rows share a key.
pub proof fn lemma_node_keys(p: Seq<char>, n: Node)
    requires
        wf_node(n),
    ensures
        entries_spec(p, n).len() > 0 ==> entries_spec(p, n)[0].0 == p,
        forall|k: int|
            1 <= k < entries_spec(p, n).len() ==> extends((#[trigger] entries_spec(p, n)[k]).0, p),
        keys_distinct(entries_spec(p, n)),
    decreases n,
{
    if n.access is Listed {
        let ks = n.kids@;
        lemma_kids_keys(p, ks);
        let es = entries_spec(p, n);
        let kes = kids_entries(p, ks);
        assert(es == seq![(p, kid_file_paths(p, ks))] + kes);
        assert forall|k: int| 1 <= k < es.len() implies extends((#[trigger] es[k]).0, p) by {
            assert(es[k] == kes[k - 1]);
        }
        assert forall|k1: int, k2: int| 0 <= k1 < k2 < es.len() implies (#[trigger] es[k1]).0 != (
        #[trigger] es[k2]).0 by {
            if k1 == 0 {
                assert(es[0].0 == p);
                assert(es[k2] == kes[k2 - 1]);
                assert(extends(es[k2].0, p));
            } else {
                assert(es[k1] == kes[k1 - 1] && es[k2] == kes[k2 - 1]);
            }
        }
    }
}

/// One sequential engine step over a synthetic directory, run to
/// completion: dequeued at `path` and `depth`, the directory's depth is
/// noted, its listing is classified entry by entry, a row is recorded
/// when the listing succeeded, and each subdirectory is walked in turn.
fn scan_node(path: String, depth: usize, node: &Node, m: &mut ResultMap, c: &mut Counters)
    requires
        old(c).files + n_files(*node) <= u64::MAX,
        old(c).dirs + n_dirs(*node) <= u64::MAX,
        old(c).den + n_den(*node) <= u64::MAX,
        old(c).err + n_err(*node) <= u64::MAX,
        n_depth(*node, depth as int) < usize::MAX,
    ensures
        final(m)@ == old(m)@ + entries_spec(path@, *node),
        final(c).files as int == old(c).files + n_files(*node),
        final(c).dirs as int == old(c).dirs + n_dirs(*node),
        final(c).den as int == old(c).den + n_den(*node),
        final(c).err as int == old(c).err + n_err(*node),
        final(c).deep as int == vstd::math::max(old(c).deep as int, n_depth(*node, depth as int)),
    decreases *node,
{
    proof {
        lemma_counts_nonneg(*node);
        lemma_kids_counts_nonneg(node.kids@);
    }
    c.note_depth(depth as u64);
    match node.access {
        Access::Denied => {
            c.den = c.den + 1;
            proof {
                assert(old(m)@ + entries_spec(path@, *node) =~= old(m)@);
            }
        },
        Access::Failed => {
            c.err = c.err + 1;
            proof {
                assert(old(m)@ + entries_spec(path@, *node) =~= old(m)@);
            }
        },
        Access::Listed => {
            let ghost ks = node.kids@;
            let ghost deep0 = c.deep;
            let n = node.kids.len();
            let mut files: Vec<String> = Vec::new();
            let mut i: usize = 0;
            proof {
                assert(ks.subrange(0, n as int) =~= ks);
                assert(files.deep_view() =~= Seq::<Seq<char>>::empty());
                assert(files.deep_view() + kid_file_paths(path@, ks) =~= kid_file_paths(path@, ks));
            }
            while i < n
                invariant
                    ks == node.kids@,
                    node.access is Listed,
                    n == ks.len(),
                    i <= n,
                    old(c).files + n_files(*node) <= u64::MAX,
                    old(c).dirs + n_dirs(*node) <= u64::MAX,
                    old(c).den + n_den(*node) <= u64::MAX,
                    old(c).err + n_err(*node) <= u64::MAX,
                    c.files as int + direct_files(ks.subrange(i as int, n as int)) + sub_files(ks)
                        == old(c).files + n_files(*node),
                    c.dirs as int + direct_dirs(ks.subrange(i as int, n as int)) + sub_dirs(ks)
                        == old(c).dirs + n_dirs(*node),
                    c.den as int + direct_den(ks.subrange(i as int, n as int)) + sub_den(ks) == old(
                        c,
                    ).den + n_den(*node),
                    c.err as int + direct_err(ks.subrange(i as int, n as int)) + sub_err(ks) == old(
                        c,
                    ).err + n_err(*node),
                    c.deep == deep0,
                    files.deep_view() + kid_file_paths(path@, ks.subrange(i as int, n as int))
                        == kid_file_paths(path@, ks),
                decreases n - i,
            {
                let ghost suf = ks.subrange(i as int, n as int);
                let ghost old_files = files.deep_view();
                proof {
                    assert(suf[0] == ks[i as int]);
                    assert(suf.drop_first() =~= ks.subrange(i + 1, n as int));
                    lemma_kids_counts_nonneg(ks.subrange(i + 1, n as int));
                    lemma_kids_counts_nonneg(suf);
                    lemma_kids_counts_nonneg(ks);
                }
                match &node.kids[i] {
                    Kid::Sub(_) => {
                        c.dirs = c.dirs + 1;
                    },
                    Kid::File(nm) => {
                        c.files = c.files + 1;
                        files.push(join_path(path.as_str(), nm.as_str()));
                        proof {
                            assert(files.deep_view() =~= old_files + seq![
                                path@ + seq!['/'] + ks[i as int]->File_0@,
                            ]);
                        }
                    },
                    Kid::Other => {},
                    Kid::StatFail => {
                        c.err = c.err + 1;
                    },
                    Kid::DeniedFail => {
                        c.den = c.den + 1;
                    },
                    Kid::OtherFail => {
                        c.err = c.err + 1;
                    },
                }
                i = i + 1;
                proof {
                    assert(files.deep_view() + kid_file_paths(
                        path@,
                        ks.subrange(i as int, n as int),
                    ) =~= kid_file_paths(path@, ks));
                }
            }
            proof {
                assert(ks.subrange(n as int, n as int) =~= Seq::<Kid>::empty());
                assert(files.deep_view() =~= kid_file_paths(path@, ks));
            }
            let row_path = path.clone();
            m.record(row_path, files);
            proof {
                assert(m@ =~= old(m)@ + seq![(path@, kid_file_paths(path@, ks))]);
                assert(m@ + kids_entries(path@, ks) =~= old(m)@ + entries_spec(path@, *node));
            }
            let mut j: usize = 0;
            proof {
                assert(ks.subrange(0, n as int) =~= ks);
            }
            while j < n
                invariant
                    ks == node.kids@,
                    node.access is Listed,
                    n == ks.len(),
                    j <= n,
                    n_depth(*node, depth as int) < usize::MAX,
                    old(c).files + n_files(*node) <= u64::MAX,
                    old(c).dirs + n_dirs(*node) <= u64::MAX,
                    old(c).den + n_den(*node) <= u64::MAX,
                    old(c).err + n_err(*node) <= u64::MAX,
                    m@ + kids_entries(path@, ks.subrange(j as int, n as int)) == old(m)@
                        + entries_spec(path@, *node),
                    c.files as int + sub_files(ks.subrange(j as int, n as int)) == old(c).files
                        + n_files(*node),
                    c.dirs as int + sub_dirs(ks.subrange(j as int, n as int)) == old(c).dirs
                        + n_dirs(*node),
                    c.den as int + sub_den(ks.subrange(j as int, n as int)) == old(c).den + n_den(
                        *node,
                    ),
                    c.err as int + sub_err(ks.subrange(j as int, n as int)) == old(c).err + n_err(
                        *node,
                    ),
                    vstd::math::max(
                        c.deep as int,
                        kids_depth(ks.subrange(j as int, n as int), depth as int + 1),
                    ) == vstd::math::max(old(c).deep as int, n_depth(*node, depth as int)),
                decreases n - j,
            {
                let ghost suf = ks.subrange(j as int, n as int);
                proof {
                    assert(suf[0] == ks[j as int]);
                    assert(suf.drop_first() =~= ks.subrange(j + 1, n as int));
                    lemma_kids_counts_nonneg(ks.subrange(j + 1, n as int));
                    lemma_kids_depth_lb(ks.subrange(j + 1, n as int), depth as int + 1);
                }
                match &node.kids[j] {
                    Kid::Sub(child) => {
                        proof {
                            lemma_counts_nonneg(*child);
                            lemma_kids_depth_suffix(ks, depth as int + 1, j as int);
                            assert(n_depth(*node, depth as int) >= kids_depth(
                                ks,
                                depth as int + 1,
                            ));
                            assert(kids_depth(suf, depth as int + 1) >= n_depth(
                                *child,
                                depth as int + 1,
                            ));
                        }
                        let cp = join_path(path.as_str(), child.name.as_str());
                        let ghost m_pre = m@;
                        scan_node(cp, depth + 1, child, m, c);
                        proof {
                            assert(m@ + kids_entries(path@, ks.subrange(j + 1, n as int)) =~= m_pre
                                + kids_entries(path@, suf));
                        }
                    },
                    _ => {
                        proof {
                            assert(kids_entries(path@, suf) =~= kids_entries(
                                path@,
                                ks.subrange(j + 1, n as int),
                            ));
                        }
                    },
                }
                j = j + 1;
            }
            proof {
                assert(ks.subrange(n as int, n as int) =~= Seq::<Kid>::empty());
                assert(m@ + kids_entries(path@, ks.subrange(n as int, n as int)) =~= m@);
            }
        },
    }
}

/// Runs the engine's per-task work sequentially over a whole synthetic
/// tree rooted at `root_path`. The result is a function of the tree
/// alone, so two scans of an unmodified tree yield identical result
/// maps; termination for every finite tree is part of verification.
pub fn scan_tree(root_path: &str, root: &Node) -> (r: (ResultMap, Counters))
    requires
        n_files(*root) <= u64::MAX,
        n_dirs(*root) <= u64::MAX,
        n_den(*root) <= u64::MAX,
        n_err(*root) <= u64::MAX,
        n_depth(*root, 0) < usize::MAX,
    ensures
        r.0@ == entries_spec(root_path@, *root),
        r.1.files as int == n_files(*root),
        r.1.dirs as int == n_dirs(*root),
        r.1.den as int == n_den(*root),
        r.1.err as int == n_err(*root),
        r.1.deep as int == n_depth(*root, 0),
{
    let mut m = ResultMap::new();
    let mut c = Counters::new();
    proof {
        lemma_counts_nonneg(*root);
    }
    scan_node(String::from_str(root_path), 0, root, &mut m, &mut c);
    proof {
        assert(m@ =~= entries_spec(root_path@, *root));
    }
    (m, c)
}

} // verus!
