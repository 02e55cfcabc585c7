//! The bookkeeping of the elaboration server: the job queue, the virtual file system with its
//! dependency graph, the decisions of the worker, and the table of open requests. The threads,
//! locks and protocol messages around them live with the caller.

use vstd::prelude::*;
use crate::text::{apply_changes, changed_all, earliest, Change};

verus! {

/// A position in a text document: a zero-based line and a character offset in that line.
#[derive(Clone, Copy, Debug, Default, PartialEq, Eq, Structural)]
pub struct Position {
    /// The line.
    pub line: u32,
    /// The character offset in the line.
    pub character: u32,
}

/// A unit of work for the worker.
#[derive(Clone, Debug)]
pub enum Job {
    /// Parse and elaborate the file, whose text changed from `start` on.
    Elaborate {
        /// The file.
        path: String,
        /// The first position that changed.
        start: Position,
    },
    /// Elaborate the file again because a file it depends on changed.
    DepChange(String),
}

impl Job {
    /// The file that this job is about.
    pub open spec fn spec_path(&self) -> Seq<char> {
        match self {
            Job::Elaborate { path, .. } => path@,
            Job::DepChange(path) => path@,
        }
    }

    /// The file that this job is about.
    pub fn path(&self) -> (r: &String)
        ensures
            r@ == self.spec_path(),
    {
        match self {
            Job::Elaborate { path, .. } => path,
            Job::DepChange(path) => path,
        }
    }
}

/// Some job of `jobs` is about `p`.
pub open spec fn mentions(jobs: Seq<Job>, p: Seq<char>) -> bool {
    exists|k: int| 0 <= k < jobs.len() && (#[trigger] jobs[k]).spec_path() == p
}

/// The jobs of `old`, in order, but those about a file that some job of `new` is about.
pub open spec fn kept(old: Seq<Job>, new: Seq<Job>) -> Seq<Job>
    decreases old.len(),
{
    if old.len() == 0 {
        old
    } else {
        let rest = kept(old.drop_last(), new);
        if mentions(new, old.last().spec_path()) {
            rest
        } else {
            rest.push(old.last())
        }
    }
}

/// No two jobs of `jobs` are about the same file.
pub open spec fn distinct_paths(jobs: Seq<Job>) -> bool {
    forall|i: int, j: int|
        0 <= i < jobs.len() && 0 <= j < jobs.len() && i != j ==> (#[trigger] jobs[i]).spec_path()
            != (#[trigger] jobs[j]).spec_path()
}

/// The files that the jobs of `jobs` are about.
pub open spec fn paths(jobs: Seq<Job>) -> Set<Seq<char>> {
    Set::new(|p: Seq<char>| mentions(jobs, p))
}

/// What the worker should do next.
#[derive(Debug)]
pub enum Poll {
    /// The queue was stopped: exit.
    Stop,
    /// No work is pending: wait for a notification.
    Wait,
    /// Do this job.
    Run(Job),
}

/// The pending jobs, in order; `None` once the queue is stopped.
#[derive(Debug)]
pub struct Jobs {
    /// The queue, or `None` when stopped.
    pub queue: Option<Vec<Job>>,
}

impl Jobs {
    /// An empty, running queue.
    pub fn new() -> (r: Jobs)
        ensures
            r.queue matches Some(q) && q@.len() == 0,
    {
        Jobs { queue: Some(Vec::new()) }
    }

    /// Enqueue a batch of jobs: unless the queue is stopped or the batch is empty, every
    /// pending job about a file that the batch is about is dropped, and the batch is appended.
    /// Returns whether the queue changed, that is, whether a worker should be notified.
    pub fn extend(&mut self, new: Vec<Job>) -> (r: bool)
        ensures
            r == (old(self).queue is Some && new@.len() > 0),
            !r ==> final(self).queue == old(self).queue,
            r ==> final(self).queue is Some && final(self).queue->Some_0@ == kept(
                old(self).queue->Some_0@,
                new@,
            ) + new@,
    {
        if new.len() == 0 {
            return false;
        }
        match &mut self.queue {
            None => false,
            Some(jobs) => {
                let ghost prior = jobs@;
                let mut out: Vec<Job> = Vec::new();
                let mut i: usize = 0;
                while i < jobs.len()
                    invariant
                        jobs@ == prior,
                        i <= prior.len(),
                        out@ == kept(prior.subrange(0, i as int), new@),
                    decreases prior.len() - i,
                {
                    let ghost pre = prior.subrange(0, i as int);
                    assert(prior.subrange(0, i + 1).drop_last() =~= pre);
                    let p = jobs[i].path();
                    let mut hit = false;
                    let mut k: usize = 0;
                    while k < new.len()
                        invariant
                            k <= new@.len(),
                            hit == exists|m: int| 0 <= m < k && (#[trigger] new@[m]).spec_path() == p@,
                        decreases new@.len() - k,
                    {
                        let q = new[k].path();
                        assert(q@ == new@[k as int].spec_path());
                        if *q == *p {
                            hit = true;
                        }
                        k += 1;
                    }
                    if !hit {
                        out.push(jobs[i].clone_job());
                    }
                    i += 1;
                }
                assert(prior.subrange(0, prior.len() as int) =~= prior);
                let mut new = new;
                out.append(&mut new);
                *jobs = out;
                true
            },
        }
    }

    /// Take the next job, in the order of the queue.
    pub fn pop(&mut self) -> (r: Poll)
        ensures
            old(self).queue is None ==> r is Stop && final(self).queue is None,
            old(self).queue is Some && old(self).queue->Some_0@.len() == 0 ==> r is Wait
                && final(self).queue == old(self).queue,
            old(self).queue is Some && old(self).queue->Some_0@.len() > 0
                ==> r == Poll::Run(old(self).queue->Some_0@[0]) && final(self).queue is Some
                && final(self).queue->Some_0@ == old(self).queue->Some_0@.drop_first(),
    {
        match &mut self.queue {
            None => Poll::Stop,
            Some(jobs) => {
                if jobs.len() == 0 {
                    Poll::Wait
                } else {
                    Poll::Run(jobs.remove(0))
                }
            },
        }
    }

    /// Stop the queue: pending jobs are dropped, and workers exit when they next look.
    pub fn stop(&mut self)
        ensures
            final(self).queue is None,
    {
        self.queue = None;
    }
}

impl Job {
    /// A copy of this job.
    pub fn clone_job(&self) -> (r: Job)
        ensures
            r == *self,
    {
        match self {
            Job::Elaborate { path, start } => Job::Elaborate { path: path.clone(), start: *start },
            Job::DepChange(path) => Job::DepChange(path.clone()),
        }
    }
}

/// A job about `p` occurs in `a + b` exactly when one occurs in `a` or in `b`.
proof fn lemma_mentions_concat(a: Seq<Job>, b: Seq<Job>, p: Seq<char>)
    ensures
        mentions(a + b, p) == (mentions(a, p) || mentions(b, p)),
{
    if mentions(a, p) {
        let k = choose|k: int| 0 <= k < a.len() && (#[trigger] a[k]).spec_path() == p;
        assert((a + b)[k] == a[k]);
    }
    if mentions(b, p) {
        let k = choose|k: int| 0 <= k < b.len() && (#[trigger] b[k]).spec_path() == p;
        assert((a + b)[a.len() + k] == b[k]);
    }
    if mentions(a + b, p) {
        let k = choose|k: int| 0 <= k < (a + b).len() && (#[trigger] (a + b)[k]).spec_path() == p;
        if k < a.len() {
            assert(a[k] == (a + b)[k]);
        } else {
            assert(b[k - a.len()] == (a + b)[k]);
        }
    }
}

/// Joining two sequences, each about distinct files, none in common, keeps the files distinct.
proof fn lemma_distinct_concat(a: Seq<Job>, b: Seq<Job>)
    requires
        distinct_paths(a),
        distinct_paths(b),
        forall|k: int| 0 <= k < a.len() ==> !mentions(b, (#[trigger] a[k]).spec_path()),
    ensures
        distinct_paths(a + b),
{
    let c = a + b;
    assert forall|i: int, j: int|
        0 <= i < c.len() && 0 <= j < c.len() && i != j implies (#[trigger] c[i]).spec_path()
            != (#[trigger] c[j]).spec_path() by {
        if i < a.len() && j >= a.len() {
            assert(c[j] == b[j - a.len()]);
            assert(!mentions(b, a[i].spec_path()));
        } else if j < a.len() && i >= a.len() {
            assert(c[i] == b[i - a.len()]);
            assert(!mentions(b, a[j].spec_path()));
        } else if i >= a.len() && j >= a.len() {
            assert(c[i] == b[i - a.len()] && c[j] == b[j - a.len()]);
        }
    }
}

/// `kept(old, new)` is about the files of `old` that `new` is not about, and keeps the files
/// distinct.
proof fn lemma_kept(old: Seq<Job>, new: Seq<Job>)
    ensures
        forall|p: Seq<char>| #[trigger] mentions(kept(old, new), p) == (mentions(old, p) && !mentions(new, p)),
        distinct_paths(old) ==> distinct_paths(kept(old, new)),
    decreases old.len(),
{
    if old.len() > 0 {
        let init = old.drop_last();
        let x = old.last();
        lemma_kept(init, new);
        assert(old == init.push(x));
        assert forall|p: Seq<char>| mentions(old, p) == (mentions(init, p) || x.spec_path() == p) by {
            lemma_mentions_concat(init, seq![x], p);
            assert(init + seq![x] == old);
            assert(seq![x][0] == x);
            if mentions(seq![x], p) {
                let k = choose|k: int| 0 <= k < 1 && (#[trigger] seq![x][k]).spec_path() == p;
            }
        }
        let rest = kept(init, new);
        if !mentions(new, x.spec_path()) {
            assert forall|p: Seq<char>| mentions(rest.push(x), p) == (mentions(rest, p) || x.spec_path() == p) by {
                lemma_mentions_concat(rest, seq![x], p);
                assert(rest + seq![x] == rest.push(x));
                assert(seq![x][0] == x);
                if mentions(seq![x], p) {
                    let k = choose|k: int| 0 <= k < 1 && (#[trigger] seq![x][k]).spec_path() == p;
                }
            }
        }
        assert(kept(old, new) == (if mentions(new, x.spec_path()) {
            rest
        } else {
            rest.push(x)
        }));
        assert forall|p: Seq<char>| #[trigger] mentions(kept(old, new), p) == (mentions(old, p) && !mentions(new, p)) by {
            assert(mentions(rest, p) == (mentions(init, p) && !mentions(new, p)));
        }
        if distinct_paths(old) {
            assert(distinct_paths(init)) by {
                assert forall|i: int, j: int|
                    0 <= i < init.len() && 0 <= j < init.len() && i != j implies (#[trigger] init[i]).spec_path()
                        != (#[trigger] init[j]).spec_path() by {
                    assert(init[i] == old[i] && init[j] == old[j]);
                }
            }
            if !mentions(new, x.spec_path()) {
                assert(!mentions(init, x.spec_path())) by {
                    if mentions(init, x.spec_path()) {
                        let k = choose|k: int| 0 <= k < init.len() && (#[trigger] init[k]).spec_path() == x.spec_path();
                        assert(old[k] == init[k] && old[old.len() - 1] == x);
                    }
                }
                assert(!mentions(rest, x.spec_path()));
                lemma_distinct_concat(rest, seq![x]);
                assert(rest + seq![x] == rest.push(x));
            }
        }
    }
}

/// Deduplication on enqueue: when the pending jobs are about distinct files and so are the new
/// ones, after `extend` no two pending jobs are about the same file, and the files that the
/// queue is about are the symmetric difference of those it was about and those of the batch,
/// together with those of the batch.
pub proof fn lemma_extend_dedup(old: Seq<Job>, new: Seq<Job>)
    requires
        distinct_paths(old),
        distinct_paths(new),
    ensures
        distinct_paths(kept(old, new) + new),
        paths(kept(old, new) + new) == paths(old).difference(paths(new)).union(
            paths(new).difference(paths(old)),
        ).union(paths(new)),
{
    lemma_kept(old, new);
    let k = kept(old, new);
    assert forall|i: int| 0 <= i < k.len() implies !mentions(new, (#[trigger] k[i]).spec_path()) by {
        assert(mentions(k, k[i].spec_path()));
    }
    lemma_distinct_concat(k, new);
    assert forall|p: Seq<char>| #[trigger] paths(k + new).contains(p) == paths(old).difference(paths(new)).union(
            paths(new).difference(paths(old)),
        ).union(paths(new)).contains(p) by {
        lemma_mentions_concat(k, new, p);
    }
    assert(paths(k + new) =~= paths(old).difference(paths(new)).union(
            paths(new).difference(paths(old)),
        ).union(paths(new)));
}

/// `v` lists the path `p`.
pub open spec fn lists(v: Seq<String>, p: Seq<char>) -> bool {
    exists|k: int| 0 <= k < v.len() && (#[trigger] v[k])@ == p
}

/// Whether `v` lists the path `p`.
pub fn vec_has(v: &Vec<String>, p: &String) -> (r: bool)
    ensures
        r == lists(v@, p@),
{
    let mut k: usize = 0;
    while k < v.len()
        invariant
            k <= v@.len(),
            forall|m: int| 0 <= m < k ==> (#[trigger] v@[m])@ != p@,
        decreases v@.len() - k,
    {
        if v[k] == *p {
            return true;
        }
        k += 1;
    }
    false
}

/// A copy of a list of paths.
pub fn copy_paths(v: &Vec<String>) -> (r: Vec<String>)
    ensures
        r@ == v@,
{
    let mut out: Vec<String> = Vec::new();
    let mut k: usize = 0;
    while k < v.len()
        invariant
            k <= v@.len(),
            out@ == v@.subrange(0, k as int),
        decreases v@.len() - k,
    {
        out.push(v[k].clone());
        k += 1;
    }
    assert(out@ =~= v@);
    out
}

/// `v` without `p`.
fn vec_without(v: &Vec<String>, p: &String) -> (r: Vec<String>)
    ensures
        forall|q: Seq<char>| #[trigger] lists(r@, q) == (lists(v@, q) && q != p@),
{
    let mut out: Vec<String> = Vec::new();
    let mut k: usize = 0;
    while k < v.len()
        invariant
            k <= v@.len(),
            forall|q: Seq<char>| #[trigger] lists(out@, q) == (lists(v@.subrange(0, k as int), q) && q != p@),
        decreases v@.len() - k,
    {
        let ghost before = out@;
        let keep = !(v[k] == *p);
        if keep {
            out.push(v[k].clone());
        }
        proof {
            assert forall|q: Seq<char>| #[trigger] lists(out@, q) == (lists(v@.subrange(0, k + 1), q) && q != p@) by {
                let sub = v@.subrange(0, k as int);
                let sub1 = v@.subrange(0, k + 1);
                assert(sub1[k as int] == v@[k as int]);
                if keep {
                    assert(out@[before.len() as int] == v@[k as int]);
                    assert(out@ == before.push(v@[k as int]));
                } else {
                    assert(out@ == before);
                }
                if lists(sub1, q) {
                    let m = choose|m: int| 0 <= m < sub1.len() && (#[trigger] sub1[m])@ == q;
                    if m < k {
                        assert(sub[m] == sub1[m]);
                    }
                }
                if lists(sub, q) {
                    let m = choose|m: int| 0 <= m < sub.len() && (#[trigger] sub[m])@ == q;
                    assert(sub[m] == sub1[m]);
                }
                if lists(out@, q) {
                    let m = choose|m: int| 0 <= m < out@.len() && (#[trigger] out@[m])@ == q;
                    if m < before.len() {
                        assert(before[m] == out@[m]);
                    }
                }
                if lists(before, q) {
                    let m = choose|m: int| 0 <= m < before.len() && (#[trigger] before[m])@ == q;
                    assert(before[m] == out@[m]);
                }
            }
        }
        k += 1;
    }
    assert(v@.subrange(0, v@.len() as int) =~= v@);
    out
}

/// A path is in the first `k + 1` entries exactly when it is in the first `k` or is entry `k`.
proof fn lemma_has_prefix_step(v: Seq<String>, k: int, p: Seq<char>)
    requires
        0 <= k < v.len(),
    ensures
        lists(v.subrange(0, k + 1), p) == (lists(v.subrange(0, k), p) || v[k]@ == p),
{
    let a = v.subrange(0, k);
    let b = v.subrange(0, k + 1);
    assert(b[k] == v[k]);
    if lists(b, p) {
        let m = choose|m: int| 0 <= m < b.len() && (#[trigger] b[m])@ == p;
        if m < k {
            assert(a[m] == b[m]);
        }
    }
    if lists(a, p) {
        let m = choose|m: int| 0 <= m < a.len() && (#[trigger] a[m])@ == p;
        assert(a[m] == b[m]);
    }
}

/// What is known of a file after parsing and elaboration.
#[derive(Debug)]
pub enum FileCache<A, E> {
    /// A parse that is out of date and waits for elaboration.
    Dirty(A),
    /// An elaborated file.
    Ready {
        /// The parse.
        ast: A,
        /// The elaborated environment.
        env: E,
        /// The files it depends on.
        deps: Vec<String>,
    },
}

/// An open file: its text, its cached parse, and the files that depend on it.
#[derive(Debug)]
pub struct VirtualFile<T, A, E> {
    /// The canonical path of the file.
    pub path: String,
    /// Whether the text is the one saved on disk.
    pub saved: bool,
    /// The text.
    pub text: T,
    /// The cached parse and elaboration.
    pub parsed: Option<FileCache<A, E>>,
    /// The dependencies that the last successful elaboration of this file reported.
    pub deps: Vec<String>,
    /// The files that depend on this one.
    pub downstream: Vec<String>,
}

/// The two records agree on all but the downstream set.
pub open spec fn same_but_downstream<T, A, E>(a: &VirtualFile<T, A, E>, b: &VirtualFile<T, A, E>) -> bool {
    &&& a.path == b.path
    &&& a.saved == b.saved
    &&& a.text == b.text
    &&& a.parsed == b.parsed
    &&& a.deps == b.deps
}

/// The two records agree on all but the cached parse.
pub open spec fn same_but_parsed<T, A, E>(a: &VirtualFile<T, A, E>, b: &VirtualFile<T, A, E>) -> bool {
    &&& a.path == b.path
    &&& a.saved == b.saved
    &&& a.text == b.text
    &&& a.deps == b.deps
    &&& a.downstream == b.downstream
}

/// What the worker does on a job for a file whose cache is `cache`.
#[derive(Debug)]
pub enum Plan<A, E> {
    /// The file is not open: nothing to do.
    Skip,
    /// Parse the text, reusing the statements of `old_ast` before the given position, then
    /// elaborate, reusing `old_env`.
    Parse {
        /// The previous parse and the first position that changed.
        old_ast: Option<(Position, A)>,
        /// The previous environment.
        old_env: Option<E>,
    },
    /// Elaborate `ast` again without parsing, reusing `old_env`.
    Reuse {
        /// The parse to elaborate.
        ast: A,
        /// The previous environment.
        old_env: Option<E>,
    },
}

/// The plan for `job` on a file whose cache was `cache`.
pub open spec fn plan_for<A, E>(job: &Job, cache: Option<FileCache<A, E>>) -> Plan<A, E> {
    match job {
        Job::Elaborate { start, .. } => match cache {
            None => Plan::Parse { old_ast: None, old_env: None },
            Some(FileCache::Dirty(ast)) => Plan::Parse { old_ast: Some((*start, ast)), old_env: None },
            Some(FileCache::Ready { ast, env, .. }) => Plan::Parse {
                old_ast: Some((*start, ast)),
                old_env: Some(env),
            },
        },
        Job::DepChange(_) => match cache {
            None => Plan::Parse { old_ast: None, old_env: None },
            Some(FileCache::Dirty(ast)) => Plan::Reuse { ast, old_env: None },
            Some(FileCache::Ready { ast, env, .. }) => Plan::Reuse { ast, old_env: Some(env) },
        },
    }
}

/// The cache after its file was marked dirty: a `Ready` cache keeps only its parse.
pub open spec fn dirtied<A, E>(c: Option<FileCache<A, E>>) -> Option<FileCache<A, E>> {
    match c {
        Some(FileCache::Ready { ast, .. }) => Some(FileCache::Dirty(ast)),
        other => other,
    }
}

/// The number of `true` entries.
pub open spec fn count_true(s: Seq<bool>) -> nat
    decreases s.len(),
{
    if s.len() == 0 {
        0
    } else {
        count_true(s.drop_last()) + if s.last() {
            1nat
        } else {
            0nat
        }
    }
}

/// At most every entry is `true`.
proof fn lemma_count_le(s: Seq<bool>)
    ensures
        count_true(s) <= s.len(),
    decreases s.len(),
{
    if s.len() > 0 {
        lemma_count_le(s.drop_last());
    }
}

/// Setting a `false` entry adds one.
proof fn lemma_count_set(s: Seq<bool>, i: int)
    requires
        0 <= i < s.len(),
        !s[i],
    ensures
        count_true(s.update(i, true)) == count_true(s) + 1,
    decreases s.len(),
{
    let t = s.update(i, true);
    if i == s.len() - 1 {
        assert(t.drop_last() =~= s.drop_last());
    } else {
        assert(t.drop_last() =~= s.drop_last().update(i, true));
        lemma_count_set(s.drop_last(), i);
    }
}

/// Popping the last path of a list.
proof fn lemma_lists_pop(v: Seq<String>, q: Seq<char>)
    requires
        v.len() > 0,
    ensures
        lists(v, q) == (lists(v.drop_last(), q) || v.last()@ == q),
{
    let w = v.drop_last();
    if lists(v, q) {
        let m = choose|m: int| 0 <= m < v.len() && (#[trigger] v[m])@ == q;
        if m < w.len() {
            assert(w[m] == v[m]);
        }
    }
    if lists(w, q) {
        let m = choose|m: int| 0 <= m < w.len() && (#[trigger] w[m])@ == q;
        assert(w[m] == v[m]);
    }
}

/// Pushing a path onto a list.
proof fn lemma_lists_push(v: Seq<String>, x: String, q: Seq<char>)
    ensures
        lists(v.push(x), q) == (lists(v, q) || x@ == q),
{
    lemma_lists_pop(v.push(x), q);
    assert(v.push(x).drop_last() =~= v);
}

/// Appending one job.
proof fn lemma_mentions_push(v: Seq<Job>, x: Job, p: Seq<char>)
    ensures
        mentions(v.push(x), p) == (mentions(v, p) || x.spec_path() == p),
{
    lemma_mentions_concat(v, seq![x], p);
    assert(v + seq![x] =~= v.push(x));
    assert(seq![x][0] == x);
    if mentions(seq![x], p) {
        let k = choose|k: int| 0 <= k < 1 && (#[trigger] seq![x][k]).spec_path() == p;
    }
}

/// A sequence of `false` has no `true` entry.
proof fn lemma_count_zero(s: Seq<bool>)
    requires
        forall|i: int| 0 <= i < s.len() ==> !(#[trigger] s[i]),
    ensures
        count_true(s) == 0,
    decreases s.len(),
{
    if s.len() > 0 {
        lemma_count_zero(s.drop_last());
    }
}

/// A path is in `[x] + v` exactly when it is `x` or in `v`.
proof fn lemma_lists_concat1(x: String, v: Seq<String>, q: Seq<char>)
    ensures
        lists(seq![x] + v, q) == (x@ == q || lists(v, q)),
{
    let w = seq![x] + v;
    assert(w[0] == x);
    if lists(w, q) {
        let m = choose|m: int| 0 <= m < w.len() && (#[trigger] w[m])@ == q;
        if m > 0 {
            assert(v[m - 1] == w[m]);
        }
    }
    if lists(v, q) {
        let m = choose|m: int| 0 <= m < v.len() && (#[trigger] v[m])@ == q;
        assert(w[m + 1] == v[m]);
    }
}

/// Some job of `jobs` is for a file of `vfs` that has `q` downstream of it.
pub open spec fn reached_by<T, A, E>(vfs: &Vfs<T, A, E>, jobs: Seq<Job>, q: Seq<char>) -> bool {
    exists|m: int, i: int|
        #![trigger jobs[m], vfs.file(i)]
        0 <= m < jobs.len() && 0 <= i < vfs.n() && vfs.file(i).path@ == jobs[m].spec_path() && lists(
            vfs.file(i).downstream@,
            q,
        )
}

/// Extending the jobs keeps what they reach.
proof fn lemma_reached_prefix<T, A, E>(vfs: &Vfs<T, A, E>, a: Seq<Job>, b: Seq<Job>, q: Seq<char>)
    requires
        a.len() <= b.len(),
        forall|k: int| 0 <= k < a.len() ==> b[k] == a[k],
    ensures
        reached_by(vfs, a, q) ==> reached_by(vfs, b, q),
{
    if reached_by(vfs, a, q) {
        let (m, i) = choose|m: int, i: int|
            #![trigger a[m], vfs.file(i)]
            0 <= m < a.len() && 0 <= i < vfs.n() && vfs.file(i).path@ == a[m].spec_path() && lists(
                vfs.file(i).downstream@,
                q,
            );
        assert(b[m] == a[m]);
    }
}

/// `j`-th file left after removing the `i`-th: its index before the removal.
pub open spec fn skip(i: int, j: int) -> int {
    if j < i {
        j
    } else {
        j + 1
    }
}

/// The jobs of a dirtying pass from `roots` over the files of `vfs`: each file got at most
/// one `DepChange` job, and only an open one; each job is for a root or for a file downstream
/// of the file of an earlier job; every open root has a job, and so does every open file
/// downstream of a file with a job.
pub open spec fn dirty_jobs<T, A, E>(vfs: &Vfs<T, A, E>, roots: Seq<String>, added: Seq<Job>) -> bool {
    &&& distinct_paths(added)
    &&& forall|k: int| 0 <= k < added.len() ==> (#[trigger] added[k]) is DepChange && vfs.index_of(added[k].spec_path()) is Some
    &&& forall|k: int|
        0 <= k < added.len() ==> lists(roots, (#[trigger] added[k]).spec_path()) || reached_by(
            vfs,
            added.subrange(0, k),
            added[k].spec_path(),
        )
    &&& forall|j: int| 0 <= j < vfs.n() && lists(roots, (#[trigger] vfs.file(j)).path@) ==> mentions(added, vfs.file(j).path@)
    &&& forall|i: int, j: int|
        0 <= i < vfs.n() && 0 <= j < vfs.n() && mentions(added, vfs.file(i).path@) && lists(
            (#[trigger] vfs.file(i)).downstream@,
            (#[trigger] vfs.file(j)).path@,
        ) ==> mentions(added, vfs.file(j).path@)
}

/// The caches after a dirtying pass with jobs `added`: a file with a job is dirtied, the
/// others keep their cache.
pub open spec fn dirty_caches<T, A, E>(old: &Vfs<T, A, E>, new: &Vfs<T, A, E>, added: Seq<Job>) -> bool {
    forall|i: int| 0 <= i < old.n() ==> (#[trigger] new.file(i)).parsed == if mentions(added, old.file(i).path@) {
        dirtied(old.file(i).parsed)
    } else {
        old.file(i).parsed
    }
}

/// A dirtying pass from `roots`, going from `old` to `new` with the jobs `added`.
pub open spec fn dirty_pass<T, A, E>(
    old: &Vfs<T, A, E>,
    new: &Vfs<T, A, E>,
    roots: Seq<String>,
    added: Seq<Job>,
) -> bool {
    dirty_jobs(old, roots, added) && dirty_caches(old, new, added)
}

/// Two file systems with the same paths and downstream sets agree on the jobs of a pass.
proof fn lemma_dirty_jobs_same_graph<T, A, E>(a: &Vfs<T, A, E>, b: &Vfs<T, A, E>, roots: Seq<String>, added: Seq<Job>)
    requires
        a.n() == b.n(),
        forall|i: int| 0 <= i < a.n() ==> #[trigger] b.file(i).path == a.file(i).path && b.file(i).downstream == a.file(i).downstream,
        dirty_jobs(a, roots, added),
    ensures
        dirty_jobs(b, roots, added),
{
    assert forall|k: int| 0 <= k < added.len() implies (#[trigger] added[k]) is DepChange && b.index_of(added[k].spec_path()) is Some by {
        assert(a.index_of(added[k].spec_path()) is Some);
        let x = choose|x: int| 0 <= x < a.n() && (#[trigger] a.file(x)).path@ == added[k].spec_path();
        assert(b.file(x).path == a.file(x).path);
    }
    assert forall|k: int| 0 <= k < added.len() implies lists(roots, (#[trigger] added[k]).spec_path()) || reached_by(
            b,
            added.subrange(0, k),
            added[k].spec_path(),
        ) by {
        if !lists(roots, added[k].spec_path()) {
            let sub = added.subrange(0, k);
            assert(reached_by(a, sub, added[k].spec_path()));
            let (m, i) = choose|m: int, i: int|
                #![trigger sub[m], a.file(i)]
                0 <= m < sub.len() && 0 <= i < a.n() && a.file(i).path@ == sub[m].spec_path() && lists(
                    a.file(i).downstream@,
                    added[k].spec_path(),
                );
            assert(b.file(i).path == a.file(i).path);
        }
    }
    assert forall|j: int| 0 <= j < b.n() && lists(roots, (#[trigger] b.file(j)).path@) implies mentions(added, b.file(j).path@) by {
        assert(b.file(j).path == a.file(j).path);
    }
    assert forall|i: int, j: int|
        0 <= i < b.n() && 0 <= j < b.n() && mentions(added, b.file(i).path@) && lists(
            (#[trigger] b.file(i)).downstream@,
            (#[trigger] b.file(j)).path@,
        ) implies mentions(added, b.file(j).path@) by {
        assert(b.file(i).path == a.file(i).path && b.file(i).downstream == a.file(i).downstream);
        assert(b.file(j).path == a.file(j).path);
    }
}

/// The open files, by canonical path.
#[derive(Debug)]
pub struct Vfs<T, A, E> {
    /// The files; no two have the same path.
    pub files: Vec<VirtualFile<T, A, E>>,
}

impl<T, A, E> Vfs<T, A, E> {
    /// The number of files.
    pub open spec fn n(&self) -> int {
        self.files@.len() as int
    }

    /// The file at index `i`.
    pub open spec fn file(&self, i: int) -> &VirtualFile<T, A, E> {
        &self.files@[i]
    }

    /// No two files have the same path.
    pub open spec fn unique(&self) -> bool {
        forall|i: int, j: int|
            0 <= i < self.n() && 0 <= j < self.n() && i != j ==> (#[trigger] self.file(i)).path@
                != (#[trigger] self.file(j)).path@
    }

    /// Every recorded dependency edge is backed by the last elaboration: if file `b` is in
    /// the downstream set of file `a`, then `b`'s last elaboration reported `a`.
    pub open spec fn edges_backed(&self) -> bool {
        forall|i: int, j: int|
            0 <= i < self.n() && 0 <= j < self.n() && lists(
                (#[trigger] self.file(i)).downstream@,
                (#[trigger] self.file(j)).path@,
            ) ==> lists(self.file(j).deps@, self.file(i).path@)
    }

    /// The invariant of the file system.
    pub open spec fn wf(&self) -> bool {
        self.unique() && self.edges_backed()
    }

    /// The index of the file with path `p`, if it is open.
    pub open spec fn index_of(&self, p: Seq<char>) -> Option<int> {
        if exists|i: int| 0 <= i < self.n() && (#[trigger] self.file(i)).path@ == p {
            Some(choose|i: int| 0 <= i < self.n() && (#[trigger] self.file(i)).path@ == p)
        } else {
            None
        }
    }

    /// The downstream set of the file `p`, empty when it is not open.
    pub open spec fn downstream_of(&self, p: Seq<char>) -> Seq<String> {
        match self.index_of(p) {
            Some(i) => self.file(i).downstream@,
            None => Seq::empty(),
        }
    }

    /// The two file systems agree on the paths, dependencies and downstream sets.
    pub open spec fn same_graph(&self, other: &Vfs<T, A, E>) -> bool {
        &&& self.n() == other.n()
        &&& forall|i: int|
            0 <= i < self.n() ==> (#[trigger] self.file(i)).path == other.file(i).path
                && self.file(i).deps == other.file(i).deps
                && self.file(i).downstream == other.file(i).downstream
    }

    /// An empty file system.
    pub fn new() -> (r: Vfs<T, A, E>)
        ensures
            r.wf(),
            r.n() == 0,
    {
        Vfs { files: Vec::new() }
    }

    /// The index of the file with path `p`, if it is open.
    pub fn find(&self, p: &String) -> (r: Option<usize>)
        requires
            self.unique(),
        ensures
            r matches Some(i) ==> i < self.n() && self.file(i as int).path@ == p@,
            r is None ==> forall|i: int| 0 <= i < self.n() ==> (#[trigger] self.file(i)).path@ != p@,
            r matches Some(i) ==> self.index_of(p@) == Some(i as int),
            r is None ==> self.index_of(p@) is None,
    {
        let mut i: usize = 0;
        while i < self.files.len()
            invariant
                i <= self.n(),
                self.unique(),
                forall|j: int| 0 <= j < i ==> (#[trigger] self.file(j)).path@ != p@,
            decreases self.n() - i,
        {
            if self.files[i].path == *p {
                assert(self.file(i as int).path@ == p@);
                proof {
                    let c = choose|c: int| 0 <= c < self.n() && (#[trigger] self.file(c)).path@ == p@;
                    if c != i {
                        assert(self.file(c).path@ != self.file(i as int).path@);
                    }
                }
                return Some(i);
            }
            i += 1;
        }
        None
    }

    /// Record a finished elaboration of `path` with the given parse, environment and
    /// dependencies: the file becomes `Ready`, its last dependencies become `deps`, and the
    /// dependency edges into it are brought in line with `deps`. Returns false, changing
    /// nothing, when the file is no longer open.
    pub fn finish_job(&mut self, path: &String, ast: A, env: E, deps: Vec<String>) -> (r: bool)
        requires
            old(self).wf(),
        ensures
            final(self).wf(),
            r == (old(self).index_of(path@) is Some),
            !r ==> final(self).files@ == old(self).files@,
            final(self).n() == old(self).n(),
            forall|i: int|
                0 <= i < old(self).n() ==> (#[trigger] final(self).file(i)).path == old(self).file(i).path
                    && final(self).file(i).text == old(self).file(i).text
                    && final(self).file(i).saved == old(self).file(i).saved,
            forall|i: int|
                0 <= i < old(self).n() && old(self).file(i).path@ != path@
                    ==> (#[trigger] final(self).file(i)).parsed == old(self).file(i).parsed
                    && final(self).file(i).deps == old(self).file(i).deps,
            r ==> ({
                let i = old(self).index_of(path@)->Some_0;
                &&& final(self).file(i).deps@ == deps@
                &&& final(self).file(i).parsed matches Some(FileCache::Ready { ast: a, env: e, deps: d })
                &&& a == ast && e == env && d@ == deps@
            }),
            r ==> forall|j: int, q: Seq<char>|
                0 <= j < old(self).n() ==> #[trigger] lists(final(self).file(j).downstream@, q) == ({
                    let old_deps = old(self).file(old(self).index_of(path@)->Some_0).deps@;
                    let a = old(self).file(j).path@;
                    if q == path@ && lists(old_deps, a) && !lists(deps@, a) {
                        false
                    } else if q == path@ && lists(deps@, a) && !lists(old_deps, a) {
                        true
                    } else {
                        lists(old(self).file(j).downstream@, q)
                    }
                }),
    {
        match self.find(path) {
            None => false,
            Some(i) => {
                let ghost start = *self;
                let old_deps = copy_paths(&self.files[i].deps);
                let new_deps = copy_paths(&deps);
                let cache_deps = copy_paths(&deps);
                self.files[i].deps = deps;
                self.files[i].parsed = Some(FileCache::Ready { ast, env, deps: cache_deps });
                let ghost mid = *self;
                assert forall|a: int, b: int|
                    0 <= a < mid.n() && 0 <= b < mid.n() && a != b implies (#[trigger] mid.file(a)).path@
                        != (#[trigger] mid.file(b)).path@ by {
                    assert(start.file(a).path@ != start.file(b).path@);
                }
                self.update_downstream(&old_deps, &new_deps, path);
                proof {
                    assert forall|a: int, b: int|
                        0 <= a < self.n() && 0 <= b < self.n() && a != b implies (#[trigger] self.file(a)).path@
                            != (#[trigger] self.file(b)).path@ by {
                        assert(same_but_downstream(self.file(a), mid.file(a)));
                        assert(same_but_downstream(self.file(b), mid.file(b)));
                    }
                    assert forall|a: int, b: int|
                        0 <= a < self.n() && 0 <= b < self.n() && lists(
                            (#[trigger] self.file(a)).downstream@,
                            (#[trigger] self.file(b)).path@,
                        ) implies lists(self.file(b).deps@, self.file(a).path@) by {
                        assert(same_but_downstream(self.file(a), mid.file(a)));
                        assert(same_but_downstream(self.file(b), mid.file(b)));
                        assert(mid.file(a).downstream == start.file(a).downstream);
                        if b != i {
                            assert(start.file(b).path@ != start.file(i as int).path@);
                            assert(lists(start.file(a).downstream@, start.file(b).path@));
                            assert(mid.file(b).deps == start.file(b).deps);
                        } else {
                            if !lists(new_deps@, mid.file(a).path@) {
                                assert(lists(start.file(a).downstream@, path@));
                                assert(lists(start.file(i as int).deps@, start.file(a).path@));
                            }
                        }
                    }
                    assert forall|k: int| 0 <= k < start.n() implies (#[trigger] self.file(k)).path == start.file(k).path
                        && self.file(k).text == start.file(k).text && self.file(k).saved == start.file(k).saved by {
                        assert(same_but_downstream(self.file(k), mid.file(k)));
                    }
                    assert forall|k: int| 0 <= k < start.n() && start.file(k).path@ != path@ implies (#[trigger] self.file(k)).parsed
                        == start.file(k).parsed && self.file(k).deps == start.file(k).deps by {
                        assert(same_but_downstream(self.file(k), mid.file(k)));
                    }
                    assert(same_but_downstream(self.file(i as int), mid.file(i as int)));
                    assert(start.index_of(path@) == Some(i as int));
                    assert forall|j: int, q: Seq<char>| 0 <= j < start.n() implies #[trigger] lists(self.file(j).downstream@, q) == ({
                        let a = start.file(j).path@;
                        if q == path@ && lists(old_deps@, a) && !lists(deps@, a) {
                            false
                        } else if q == path@ && lists(deps@, a) && !lists(old_deps@, a) {
                            true
                        } else {
                            lists(start.file(j).downstream@, q)
                        }
                    }) by {
                        assert(mid.file(j).downstream == start.file(j).downstream);
                        assert(mid.file(j).path == start.file(j).path);
                    }
                }
                true
            },
        }
    }

    /// Record a finished job as `finish_job` does. After an `Elaborate` job the files
    /// downstream of the file are then marked dirty (`dirty_downstream`), since they were
    /// elaborated against its old text; after a `DepChange` job nothing is queued, since
    /// `dirty` already reached them. Returns false, changing nothing, when the file is no
    /// longer open.
    pub fn complete_job(&mut self, queue: &mut Vec<Job>, job: &Job, ast: A, env: E, deps: Vec<String>) -> (r: bool)
        requires
            old(self).wf(),
        ensures
            final(self).wf(),
            r == (old(self).index_of(job.spec_path()) is Some),
            !r ==> final(self).files@ == old(self).files@ && final(queue)@ == old(queue)@,
            final(self).n() == old(self).n(),
            final(queue)@.len() >= old(queue)@.len(),
            final(queue)@.subrange(0, old(queue)@.len() as int) == old(queue)@,
            job is DepChange ==> final(queue)@ == old(queue)@,
            forall|j: int|
                0 <= j < old(self).n() ==> (#[trigger] final(self).file(j)).path == old(self).file(j).path
                    && final(self).file(j).text == old(self).file(j).text
                    && final(self).file(j).saved == old(self).file(j).saved,
            r ==> ({
                let i = old(self).index_of(job.spec_path())->Some_0;
                let added = final(queue)@.subrange(old(queue)@.len() as int, final(queue)@.len() as int);
                &&& final(self).file(i).deps@ == deps@
                &&& forall|j: int, q: Seq<char>|
                    0 <= j < old(self).n() ==> #[trigger] lists(final(self).file(j).downstream@, q) == ({
                        let old_deps = old(self).file(i).deps@;
                        let a = old(self).file(j).path@;
                        if q == job.spec_path() && lists(old_deps, a) && !lists(deps@, a) {
                            false
                        } else if q == job.spec_path() && lists(deps@, a) && !lists(old_deps, a) {
                            true
                        } else {
                            lists(old(self).file(j).downstream@, q)
                        }
                    })
                &&& job is Elaborate ==> dirty_jobs(final(self), final(self).file(i).downstream@, added)
                &&& !mentions(added, job.spec_path()) ==> (final(self).file(i).parsed matches Some(FileCache::Ready { ast: a, env: e, deps: d })
                    && a == ast && e == env && d@ == deps@)
                &&& forall|j: int|
                    0 <= j < old(self).n() && j != i ==> (#[trigger] final(self).file(j)).deps == old(self).file(j).deps
                        && final(self).file(j).parsed == if mentions(added, old(self).file(j).path@) {
                            dirtied(old(self).file(j).parsed)
                        } else {
                            old(self).file(j).parsed
                        }
            }),
    {
        let path = job.path();
        let ghost start = *self;
        let ghost q0 = queue@;
        if !self.finish_job(path, ast, env, deps) {
            assert(queue@.subrange(0, q0.len() as int) =~= q0);
            return false;
        }
        let ghost mid = *self;
        let ghost i = start.index_of(path@)->Some_0;
        proof {
            assert(mid.file(i).path@ == path@);
            let i2 = mid.index_of(path@)->Some_0;
            assert(mid.index_of(path@) is Some);
            if i2 != i {
                assert(mid.file(i2).path@ != mid.file(i).path@);
            }
        }
        match job {
            Job::Elaborate { .. } => {
                self.dirty_downstream(queue, path);
                proof {
                    let added = queue@.subrange(q0.len() as int, queue@.len() as int);
                    assert forall|x: int| 0 <= x < mid.n() implies #[trigger] self.file(x).path == mid.file(x).path
                        && self.file(x).downstream == mid.file(x).downstream by {
                        assert(same_but_parsed(self.file(x), mid.file(x)));
                    }
                    assert(mid.downstream_of(path@) == self.file(i).downstream@);
                    lemma_dirty_jobs_same_graph(&mid, self, self.file(i).downstream@, added);
                    assert forall|j: int| 0 <= j < start.n() implies (#[trigger] self.file(j)).path == start.file(j).path
                        && self.file(j).text == start.file(j).text && self.file(j).saved == start.file(j).saved by {
                        assert(same_but_parsed(self.file(j), mid.file(j)));
                    }
                    assert forall|j: int| 0 <= j < start.n() && j != i implies (#[trigger] self.file(j)).deps == start.file(j).deps
                        && self.file(j).parsed == if mentions(added, start.file(j).path@) {
                            dirtied(start.file(j).parsed)
                        } else {
                            start.file(j).parsed
                        } by {
                        assert(same_but_parsed(self.file(j), mid.file(j)));
                        assert(start.file(j).path@ != start.file(i).path@);
                    }
                    assert(same_but_parsed(self.file(i), mid.file(i)));
                    assert forall|j: int, q: Seq<char>| 0 <= j < start.n() implies #[trigger] lists(self.file(j).downstream@, q)
                        == lists(mid.file(j).downstream@, q) by {
                        assert(same_but_parsed(self.file(j), mid.file(j)));
                    }
                }
            },
            Job::DepChange(_) => {
                proof {
                    assert(queue@.subrange(0, q0.len() as int) =~= q0);
                    assert(queue@.subrange(q0.len() as int, queue@.len() as int) =~= Seq::<Job>::empty());
                    assert forall|j: int| 0 <= j < start.n() && j != i implies (#[trigger] self.file(j)).deps == start.file(j).deps
                        && self.file(j).parsed == start.file(j).parsed by {
                        assert(start.file(j).path@ != start.file(i).path@);
                    }
                }
            },
        }
        true
    }

    /// Take the cached parse of the file of `job`, and say what the worker has to do: parse
    /// and elaborate (an `Elaborate` job, or a file never parsed), or elaborate the cached
    /// parse again (a `DepChange` job). A `Ready` cache lends its environment for reuse.
    pub fn start_job(&mut self, job: &Job) -> (r: Plan<A, E>)
        requires
            old(self).wf(),
        ensures
            final(self).wf(),
            final(self).n() == old(self).n(),
            old(self).index_of(job.spec_path()) is None ==> r is Skip && final(self).files@ == old(self).files@,
            forall|i: int|
                0 <= i < old(self).n() && old(self).file(i).path@ != job.spec_path()
                    ==> #[trigger] final(self).file(i) == old(self).file(i),
            old(self).index_of(job.spec_path()) matches Some(i) ==> ({
                let f = old(self).file(i);
                &&& final(self).file(i).parsed is None
                &&& same_but_parsed(final(self).file(i), f)
                &&& r == plan_for(job, f.parsed)
            }),
    {
        match self.find(job.path()) {
            None => Plan::Skip,
            Some(i) => {
                let ghost start = *self;
                let cache = self.files[i].parsed.take();
                proof {
                    assert forall|a: int, b: int|
                        0 <= a < self.n() && 0 <= b < self.n() && lists(
                            (#[trigger] self.file(a)).downstream@,
                            (#[trigger] self.file(b)).path@,
                        ) implies lists(self.file(b).deps@, self.file(a).path@) by {
                        assert(start.file(a).downstream == self.file(a).downstream);
                        assert(start.file(b).path == self.file(b).path);
                    }
                    assert forall|a: int, b: int|
                        0 <= a < self.n() && 0 <= b < self.n() && a != b implies (#[trigger] self.file(a)).path@
                            != (#[trigger] self.file(b)).path@ by {
                        assert(start.file(a).path@ != start.file(b).path@);
                    }
                }
                match job {
                    Job::Elaborate { start: pos, .. } => match cache {
                        None => Plan::Parse { old_ast: None, old_env: None },
                        Some(FileCache::Dirty(ast)) => Plan::Parse { old_ast: Some((*pos, ast)), old_env: None },
                        Some(FileCache::Ready { ast, env, .. }) => Plan::Parse {
                            old_ast: Some((*pos, ast)),
                            old_env: Some(env),
                        },
                    },
                    Job::DepChange(_) => match cache {
                        None => Plan::Parse { old_ast: None, old_env: None },
                        Some(FileCache::Dirty(ast)) => Plan::Reuse { ast, old_env: None },
                        Some(FileCache::Ready { ast, env, .. }) => Plan::Reuse { ast, old_env: Some(env) },
                    },
                }
            },
        }
    }

    /// Mark every open file in `roots` and, transitively, every open file downstream of them
    /// as dirty, in one pass: each such file gets one `DepChange` job, and a `Ready` cache
    /// keeps only its parse. A file is visited once, so cyclic dependencies end. Every job is
    /// for a root or for a file downstream of the file of an earlier job, so no other file is
    /// touched.
    pub fn dirty_paths(&mut self, queue: &mut Vec<Job>, roots: &Vec<String>)
        requires
            old(self).wf(),
        ensures
            final(self).wf(),
            final(self).n() == old(self).n(),
            forall|i: int| 0 <= i < old(self).n() ==> same_but_parsed(#[trigger] final(self).file(i), old(self).file(i)),
            final(queue)@.len() >= old(queue)@.len(),
            final(queue)@.subrange(0, old(queue)@.len() as int) == old(queue)@,
            dirty_pass(old(self), final(self), roots@, final(queue)@.subrange(old(queue)@.len() as int, final(queue)@.len() as int)),
    {
        let ghost start = *self;
        let ghost q0 = queue@;
        let n = self.files.len();
        let mut seen: Vec<bool> = Vec::new();
        while seen.len() < n
            invariant
                seen@.len() <= n,
                forall|i: int| 0 <= i < seen@.len() ==> !(#[trigger] seen@[i]),
            decreases n - seen@.len(),
        {
            seen.push(false);
        }
        proof {
            assert(count_true(seen@) == 0) by {
                lemma_count_zero(seen@);
            }
        }
        let mut stack: Vec<String> = Vec::new();
        let mut k = roots.len();
        while k > 0
            invariant
                k <= roots@.len(),
                forall|q: Seq<char>| #[trigger] lists(stack@, q) == lists(roots@.subrange(k as int, roots@.len() as int), q),
            decreases k,
        {
            k -= 1;
            let ghost before = stack@;
            stack.push(roots[k].clone());
            proof {
                assert forall|q: Seq<char>| #[trigger] lists(stack@, q) == lists(roots@.subrange(k as int, roots@.len() as int), q) by {
                    lemma_lists_push(before, roots@[k as int], q);
                    assert(roots@.subrange(k as int, roots@.len() as int) =~= seq![roots@[k as int]] + roots@.subrange(k + 1, roots@.len() as int));
                    lemma_lists_concat1(roots@[k as int], roots@.subrange(k + 1, roots@.len() as int), q);
                }
            }
        }
        assert(roots@.subrange(0, roots@.len() as int) =~= roots@);
        assert(queue@.subrange(q0.len() as int, queue@.len() as int) =~= Seq::<Job>::empty());
        while stack.len() > 0
            invariant
                n == start.n(),
                self.n() == start.n(),
                seen@.len() == n,
                count_true(seen@) <= n,
                start.wf(),
                forall|i: int| 0 <= i < start.n() ==> same_but_parsed(#[trigger] self.file(i), start.file(i)),
                forall|i: int| 0 <= i < start.n() ==> (#[trigger] self.file(i)).parsed == if seen@[i] {
                    dirtied(start.file(i).parsed)
                } else {
                    start.file(i).parsed
                },
                queue@.len() >= q0.len(),
                queue@.subrange(0, q0.len() as int) == q0,
                forall|i: int| 0 <= i < start.n() ==> #[trigger] seen@[i] == mentions(
                    queue@.subrange(q0.len() as int, queue@.len() as int),
                    start.file(i).path@,
                ),
                distinct_paths(queue@.subrange(q0.len() as int, queue@.len() as int)),
                forall|k: int|
                    0 <= k < queue@.len() - q0.len() ==> (#[trigger] queue@.subrange(q0.len() as int, queue@.len() as int)[k]) is DepChange
                        && start.index_of(queue@.subrange(q0.len() as int, queue@.len() as int)[k].spec_path()) is Some,
                forall|q: Seq<char>| #[trigger] lists(stack@, q) ==> lists(roots@, q) || reached_by(
                    &start,
                    queue@.subrange(q0.len() as int, queue@.len() as int),
                    q,
                ),
                forall|k: int|
                    0 <= k < queue@.len() - q0.len() ==> lists(roots@, (#[trigger] queue@.subrange(q0.len() as int, queue@.len() as int)[k]).spec_path())
                        || reached_by(
                        &start,
                        queue@.subrange(q0.len() as int, queue@.len() as int).subrange(0, k),
                        queue@.subrange(q0.len() as int, queue@.len() as int)[k].spec_path(),
                    ),
                forall|j: int|
                    0 <= j < start.n() && lists(roots@, (#[trigger] start.file(j)).path@) ==> seen@[j] || lists(
                        stack@,
                        start.file(j).path@,
                    ),
                forall|i: int, j: int|
                    0 <= i < start.n() && 0 <= j < start.n() && seen@[i] && lists(
                        (#[trigger] start.file(i)).downstream@,
                        (#[trigger] start.file(j)).path@,
                    ) ==> seen@[j] || lists(stack@, start.file(j).path@),
            decreases n - count_true(seen@), stack@.len(),
        {
            let ghost stack0 = stack@;
            let ghost queue0 = queue@;
            let ghost seen0 = seen@;
            let p = match stack.pop() {
                Some(p) => p,
                None => {
                    assert(false);
                    return;
                },
            };
            proof {
                assert(stack0.drop_last() =~= stack@);
                assert forall|q: Seq<char>| lists(stack0, q) == (lists(stack@, q) || p@ == q) by {
                    lemma_lists_pop(stack0, q);
                }
                assert forall|q: Seq<char>| #[trigger] lists(stack@, q) implies lists(roots@, q) || reached_by(
                    &start,
                    queue@.subrange(q0.len() as int, queue@.len() as int),
                    q,
                ) by {
                    assert(lists(stack0, q));
                }
                assert(lists(stack0, p@)) by {
                    lemma_lists_pop(stack0, p@);
                }
            }
            match self.find(&p) {
                None => {
                    proof {
                        assert forall|i: int, j: int|
                            0 <= i < start.n() && 0 <= j < start.n() && seen@[i] && lists(
                                (#[trigger] start.file(i)).downstream@,
                                (#[trigger] start.file(j)).path@,
                            ) implies seen@[j] || lists(stack@, start.file(j).path@) by {
                            assert(self.file(j).path == start.file(j).path);
                        }
                        assert forall|j: int|
                            0 <= j < start.n() && lists(roots@, (#[trigger] start.file(j)).path@) implies seen@[j] || lists(
                                stack@,
                                start.file(j).path@,
                            ) by {
                            assert(self.file(j).path == start.file(j).path);
                        }
                    }
                },
                Some(i) => {
                    if !seen[i] {
                        proof {
                            lemma_count_set(seen@, i as int);
                            lemma_count_le(seen@.update(i as int, true));
                            assert(self.file(i as int).path == start.file(i as int).path);
                        }
                        let ghost pre = *self;
                        seen.set(i, true);
                        let job = Job::DepChange(p.clone());
                        queue.push(job);
                        let c = self.files[i].parsed.take();
                        let d = match c {
                            Some(FileCache::Ready { ast, .. }) => Some(FileCache::Dirty(ast)),
                            other => other,
                        };
                        self.files[i].parsed = d;
                        let ds = copy_paths(&self.files[i].downstream);
                        let ghost stack1 = stack@;
                        let mut k = ds.len();
                        while k > 0
                            invariant
                                k <= ds@.len(),
                                forall|q: Seq<char>| #[trigger] lists(stack@, q) == (lists(stack1, q) || lists(ds@.subrange(k as int, ds@.len() as int), q)),
                            decreases k,
                        {
                            k -= 1;
                            let ghost before = stack@;
                            stack.push(ds[k].clone());
                            proof {
                                assert forall|q: Seq<char>| #[trigger] lists(stack@, q) == (lists(stack1, q) || lists(ds@.subrange(k as int, ds@.len() as int), q)) by {
                                    lemma_lists_push(before, ds@[k as int], q);
                                    assert(ds@.subrange(k as int, ds@.len() as int) =~= seq![ds@[k as int]] + ds@.subrange(k + 1, ds@.len() as int));
                                    lemma_lists_concat1(ds@[k as int], ds@.subrange(k + 1, ds@.len() as int), q);
                                }
                            }
                        }
                        proof {
                            assert(ds@.subrange(0, ds@.len() as int) =~= ds@);
                            let added0 = queue0.subrange(q0.len() as int, queue0.len() as int);
                            let added = queue@.subrange(q0.len() as int, queue@.len() as int);
                            assert(added =~= added0.push(job));
                            assert forall|pp: Seq<char>| mentions(added, pp) == (mentions(added0, pp) || p@ == pp) by {
                                lemma_mentions_push(added0, job, pp);
                            }
                            assert(!mentions(added0, p@)) by {
                                assert(seen0[i as int] == mentions(added0, start.file(i as int).path@));
                            }
                            assert forall|a: int, b: int|
                                0 <= a < added.len() && 0 <= b < added.len() && a != b implies (#[trigger] added[a]).spec_path()
                                    != (#[trigger] added[b]).spec_path() by {
                                if a < added0.len() && b < added0.len() {
                                    assert(added[a] == added0[a] && added[b] == added0[b]);
                                } else if a < added0.len() {
                                    assert(added[a] == added0[a]);
                                    assert(mentions(added0, added0[a].spec_path()));
                                } else if b < added0.len() {
                                    assert(added[b] == added0[b]);
                                    assert(mentions(added0, added0[b].spec_path()));
                                }
                            }
                            assert forall|m: int| 0 <= m < queue@.len() - q0.len() implies (#[trigger] queue@.subrange(q0.len() as int, queue@.len() as int)[m]) is DepChange
                                && start.index_of(queue@.subrange(q0.len() as int, queue@.len() as int)[m].spec_path()) is Some by {
                                if m < added0.len() {
                                    assert(added[m] == added0[m]);
                                } else {
                                    assert(added[m] == job);
                                    assert(start.file(i as int).path@ == p@);
                                }
                            }
                            assert forall|x: int| 0 <= x < start.n() implies #[trigger] seen@[x] == mentions(added, start.file(x).path@) by {
                                if x != i {
                                    assert(start.file(x).path@ != start.file(i as int).path@);
                                }
                            }
                            assert(c == start.file(i as int).parsed);
                            assert(d == dirtied(start.file(i as int).parsed));
                            assert forall|x: int| 0 <= x < start.n() implies same_but_parsed(#[trigger] self.file(x), start.file(x)) by {
                                assert(same_but_parsed(pre.file(x), start.file(x)));
                                if x != i {
                                    assert(self.file(x) == pre.file(x));
                                }
                            }
                            assert forall|x: int| 0 <= x < start.n() implies (#[trigger] self.file(x)).parsed == if seen@[x] {
                                dirtied(start.file(x).parsed)
                            } else {
                                start.file(x).parsed
                            } by {
                                if x != i {
                                    assert(self.file(x) == pre.file(x));
                                    assert(seen@[x] == seen0[x]);
                                }
                            }
                            assert forall|m: int| 0 <= m < added0.len() implies added[m] == added0[m] by {}
                            assert forall|q: Seq<char>| #[trigger] lists(stack@, q) implies lists(roots@, q) || reached_by(&start, added, q) by {
                                lemma_reached_prefix(&start, added0, added, q);
                                if lists(stack1, q) {
                                    assert(lists(roots@, q) || reached_by(&start, added0, q));
                                }
                                if lists(ds@, q) {
                                    assert(added[added0.len() as int] == job);
                                    assert(start.file(i as int).path@ == added[added0.len() as int].spec_path());
                                    assert(ds@ == start.file(i as int).downstream@);
                                    assert(reached_by(&start, added, q));
                                }
                            }
                            assert forall|m: int|
                                0 <= m < queue@.len() - q0.len() implies lists(roots@, (#[trigger] queue@.subrange(q0.len() as int, queue@.len() as int)[m]).spec_path())
                                    || reached_by(&start, added.subrange(0, m), added[m].spec_path()) by {
                                if m < added0.len() {
                                    assert(added.subrange(0, m) =~= added0.subrange(0, m));
                                } else {
                                    assert(added.subrange(0, m) =~= added0);
                                    assert(added[m] == job);
                                    assert(lists(stack0, p@));
                                }
                            }
                            assert forall|j: int|
                                0 <= j < start.n() && lists(roots@, (#[trigger] start.file(j)).path@) implies seen@[j] || lists(
                                    stack@,
                                    start.file(j).path@,
                                ) by {
                                if !seen0[j] && !lists(stack1, start.file(j).path@) {
                                    assert(p@ == start.file(j).path@);
                                    if j != i {
                                        assert(start.file(j).path@ != start.file(i as int).path@);
                                    }
                                }
                            }
                            assert(queue@.subrange(0, q0.len() as int) =~= queue0.subrange(0, q0.len() as int));
                            assert forall|a: int, b: int|
                                0 <= a < start.n() && 0 <= b < start.n() && seen@[a] && lists(
                                    (#[trigger] start.file(a)).downstream@,
                                    (#[trigger] start.file(b)).path@,
                                ) implies seen@[b] || lists(stack@, start.file(b).path@) by {
                                if a == i {
                                    assert(ds@ == start.file(a).downstream@);
                                } else {
                                    assert(seen0[a]);
                                    if !seen0[b] && !lists(stack1, start.file(b).path@) {
                                        assert(p@ == start.file(b).path@);
                                        assert(b == i) by {
                                            if b != i {
                                                assert(start.file(b).path@ != start.file(i as int).path@);
                                            }
                                        }
                                    }
                                }
                            }
                        }
                    } else {
                        proof {
                            assert(self.file(i as int).path == start.file(i as int).path);
                            assert forall|a: int, b: int|
                                0 <= a < start.n() && 0 <= b < start.n() && seen@[a] && lists(
                                    (#[trigger] start.file(a)).downstream@,
                                    (#[trigger] start.file(b)).path@,
                                ) implies seen@[b] || lists(stack@, start.file(b).path@) by {
                                if !seen@[b] && !lists(stack@, start.file(b).path@) {
                                    assert(p@ == start.file(b).path@);
                                    if b != i {
                                        assert(start.file(b).path@ != start.file(i as int).path@);
                                    }
                                }
                            }
                            assert forall|j: int|
                                0 <= j < start.n() && lists(roots@, (#[trigger] start.file(j)).path@) implies seen@[j] || lists(
                                    stack@,
                                    start.file(j).path@,
                                ) by {
                                if !seen@[j] && !lists(stack@, start.file(j).path@) {
                                    assert(p@ == start.file(j).path@);
                                    if j != i {
                                        assert(start.file(j).path@ != start.file(i as int).path@);
                                    }
                                }
                            }
                        }
                    }
                },
            }
        }
        proof {
            let added = queue@.subrange(q0.len() as int, queue@.len() as int);
            assert forall|a: int, b: int|
                0 <= a < self.n() && 0 <= b < self.n() && a != b implies (#[trigger] self.file(a)).path@
                    != (#[trigger] self.file(b)).path@ by {
                assert(same_but_parsed(self.file(a), start.file(a)));
                assert(same_but_parsed(self.file(b), start.file(b)));
            }
            assert forall|a: int, b: int|
                0 <= a < self.n() && 0 <= b < self.n() && lists(
                    (#[trigger] self.file(a)).downstream@,
                    (#[trigger] self.file(b)).path@,
                ) implies lists(self.file(b).deps@, self.file(a).path@) by {
                assert(same_but_parsed(self.file(a), start.file(a)));
                assert(same_but_parsed(self.file(b), start.file(b)));
            }
            assert forall|a: int| 0 <= a < start.n() implies (#[trigger] self.file(a)).parsed == if mentions(added, start.file(a).path@) {
                dirtied(start.file(a).parsed)
            } else {
                start.file(a).parsed
            } by {
                assert(seen@[a] == mentions(added, start.file(a).path@));
            }
            assert forall|a: int, b: int|
                0 <= a < start.n() && 0 <= b < start.n() && mentions(added, start.file(a).path@)
                    && lists((#[trigger] start.file(a)).downstream@, (#[trigger] start.file(b)).path@)
                    implies mentions(added, start.file(b).path@) by {
                assert(seen@[a] == mentions(added, start.file(a).path@));
                assert(seen@[b] == mentions(added, start.file(b).path@));
                assert(!lists(stack@, start.file(b).path@));
            }
            assert forall|j: int| 0 <= j < start.n() && lists(roots@, (#[trigger] start.file(j)).path@) implies mentions(
                added,
                start.file(j).path@,
            ) by {
                assert(seen@[j] == mentions(added, start.file(j).path@));
                assert(!lists(stack@, start.file(j).path@));
            }
        }
    }

    /// Mark `path` and, transitively, every open file downstream of it as dirty, `path` first:
    /// the pass `dirty_paths` makes from the one root `path`.
    pub fn dirty(&mut self, queue: &mut Vec<Job>, path: &String)
        requires
            old(self).wf(),
        ensures
            final(self).wf(),
            final(self).n() == old(self).n(),
            forall|i: int| 0 <= i < old(self).n() ==> same_but_parsed(#[trigger] final(self).file(i), old(self).file(i)),
            final(queue)@.len() >= old(queue)@.len(),
            final(queue)@.subrange(0, old(queue)@.len() as int) == old(queue)@,
            dirty_pass(old(self), final(self), seq![*path], final(queue)@.subrange(old(queue)@.len() as int, final(queue)@.len() as int)),
            old(self).index_of(path@) is Some ==> final(queue)@.len() > old(queue)@.len() && final(queue)@[old(queue)@.len() as int].spec_path() == path@,
    {
        let ghost q0 = queue@;
        let ghost start = *self;
        let mut roots: Vec<String> = Vec::new();
        roots.push(path.clone());
        assert(roots@ =~= seq![*path]);
        self.dirty_paths(queue, &roots);
        proof {
            let added = queue@.subrange(q0.len() as int, queue@.len() as int);
            if start.index_of(path@) is Some {
                let i = start.index_of(path@)->Some_0;
                assert(roots@[0]@ == start.file(i).path@);
                assert(lists(roots@, start.file(i).path@));
                assert(mentions(added, path@));
                assert(added.len() > 0);
                assert(added.subrange(0, 0).len() == 0);
                assert(!reached_by(&start, added.subrange(0, 0), added[0].spec_path()));
                assert(lists(roots@, added[0].spec_path()));
                let k = choose|k: int| 0 <= k < roots@.len() && (#[trigger] roots@[k])@ == added[0].spec_path();
                assert(queue@[q0.len() as int] == added[0]);
            }
        }
    }

    /// Mark every open file downstream of `path` as dirty, with those downstream of them: a
    /// pass as `dirty_paths` makes from the downstream set of `path` (none when it is not open).
    pub fn dirty_downstream(&mut self, queue: &mut Vec<Job>, path: &String)
        requires
            old(self).wf(),
        ensures
            final(self).wf(),
            final(self).n() == old(self).n(),
            forall|i: int| 0 <= i < old(self).n() ==> same_but_parsed(#[trigger] final(self).file(i), old(self).file(i)),
            final(queue)@.len() >= old(queue)@.len(),
            final(queue)@.subrange(0, old(queue)@.len() as int) == old(queue)@,
            dirty_pass(old(self), final(self), old(self).downstream_of(path@), final(queue)@.subrange(old(queue)@.len() as int, final(queue)@.len() as int)),
    {
        let roots = match self.find(path) {
            None => Vec::new(),
            Some(i) => copy_paths(&self.files[i].downstream),
        };
        assert(roots@ =~= self.downstream_of(path@));
        self.dirty_paths(queue, &roots);
    }

    /// Open `path` with `text`, saved, and queue its elaboration from the start. A file that
    /// is already open is replaced: it gets the new text and no cache, keeping its dependency
    /// edges, and the files downstream of it are marked dirty (`dirty_downstream`). A new file
    /// starts with no cache and no dependency edges, and no other file keeps it downstream.
    pub fn open_virt(&mut self, queue: &mut Vec<Job>, path: String, text: T)
        requires
            old(self).wf(),
        ensures
            final(self).wf(),
            final(queue)@.len() > old(queue)@.len(),
            final(queue)@.subrange(0, old(queue)@.len() as int) == old(queue)@,
            final(queue)@[old(queue)@.len() as int] == (Job::Elaborate { path, start: Position { line: 0, character: 0 } }),
            final(self).index_of(path@) matches Some(i) && final(self).file(i).text == text
                && final(self).file(i).saved && final(self).file(i).parsed is None,
            old(self).index_of(path@) is None ==> ({
                let i = final(self).index_of(path@)->Some_0;
                &&& final(queue)@.len() == old(queue)@.len() + 1
                &&& final(self).n() == old(self).n() + 1
                &&& i == old(self).n()
                &&& final(self).file(i).deps@.len() == 0
                &&& final(self).file(i).downstream@.len() == 0
                &&& forall|j: int| 0 <= j < old(self).n() ==> same_but_downstream(#[trigger] final(self).file(j), old(self).file(j))
                &&& forall|j: int, q: Seq<char>| 0 <= j < old(self).n() ==> #[trigger] lists(final(self).file(j).downstream@, q)
                    == (lists(old(self).file(j).downstream@, q) && q != path@)
            }),
            old(self).index_of(path@) matches Some(i) ==> ({
                let added = final(queue)@.subrange(old(queue)@.len() as int + 1, final(queue)@.len() as int);
                &&& final(self).n() == old(self).n()
                &&& final(self).index_of(path@) == Some(i)
                &&& final(self).file(i).path == old(self).file(i).path
                &&& final(self).file(i).deps == old(self).file(i).deps
                &&& final(self).file(i).downstream == old(self).file(i).downstream
                &&& forall|j: int| 0 <= j < old(self).n() && j != i ==> same_but_parsed(#[trigger] final(self).file(j), old(self).file(j))
                    && final(self).file(j).parsed == if mentions(added, old(self).file(j).path@) {
                        dirtied(old(self).file(j).parsed)
                    } else {
                        old(self).file(j).parsed
                    }
                &&& dirty_jobs(final(self), old(self).file(i).downstream@, added)
            }),
    {
        let ghost q0 = queue@;
        let job = Job::Elaborate { path: path.clone(), start: Position { line: 0, character: 0 } };
        queue.push(job);
        let ghost q1 = queue@;
        match self.find(&path) {
            Some(i) => {
                let ghost start = *self;
                self.files[i].text = text;
                self.files[i].saved = true;
                self.files[i].parsed = None;
                proof {
                    assert forall|a: int, b: int|
                        0 <= a < self.n() && 0 <= b < self.n() && a != b implies (#[trigger] self.file(a)).path@
                            != (#[trigger] self.file(b)).path@ by {
                        assert(start.file(a).path@ != start.file(b).path@);
                    }
                    assert forall|a: int, b: int|
                        0 <= a < self.n() && 0 <= b < self.n() && lists(
                            (#[trigger] self.file(a)).downstream@,
                            (#[trigger] self.file(b)).path@,
                        ) implies lists(self.file(b).deps@, self.file(a).path@) by {
                        assert(start.file(a).downstream == self.file(a).downstream);
                        assert(start.file(b).path == self.file(b).path);
                        assert(start.file(b).deps == self.file(b).deps);
                        assert(start.file(a).path == self.file(a).path);
                    }
                }
                let ghost mid = *self;
                proof {
                    let i2 = mid.index_of(path@)->Some_0;
                    assert(mid.file(i as int).path@ == path@);
                    assert(mid.index_of(path@) is Some);
                    if i2 != i {
                        assert(mid.file(i2).path@ != mid.file(i as int).path@);
                    }
                    assert(start.index_of(path@) == Some(i as int));
                }
                self.dirty_downstream(queue, &path);
                proof {
                    let added = queue@.subrange(q1.len() as int, queue@.len() as int);
                    assert(mid.downstream_of(path@) == start.file(i as int).downstream@);
                    assert forall|x: int| 0 <= x < mid.n() implies #[trigger] self.file(x).path == mid.file(x).path
                        && self.file(x).downstream == mid.file(x).downstream by {
                        assert(same_but_parsed(self.file(x), mid.file(x)));
                    }
                    lemma_dirty_jobs_same_graph(&mid, self, start.file(i as int).downstream@, added);
                    assert(same_but_parsed(self.file(i as int), mid.file(i as int)));
                    assert(self.file(i as int).parsed == dirtied(mid.file(i as int).parsed) || self.file(i as int).parsed == mid.file(i as int).parsed);
                    assert(self.file(i as int).path@ == path@);
                    let c = choose|c: int| 0 <= c < self.n() && (#[trigger] self.file(c)).path@ == path@;
                    if c != i {
                        assert(self.file(c).path@ != self.file(i as int).path@);
                    }
                    assert forall|j: int| 0 <= j < start.n() && j != i implies same_but_parsed(#[trigger] self.file(j), start.file(j))
                        && self.file(j).parsed == if mentions(added, start.file(j).path@) {
                            dirtied(start.file(j).parsed)
                        } else {
                            start.file(j).parsed
                        } by {
                        assert(same_but_parsed(self.file(j), mid.file(j)));
                        assert(mid.file(j) == start.file(j));
                    }
                    assert(queue@.subrange(0, q1.len() as int)[q0.len() as int] == queue@[q0.len() as int]);
                    assert(queue@.subrange(0, q0.len() as int) =~= q1.subrange(0, q0.len() as int)) by {
                        assert forall|m: int| 0 <= m < q0.len() implies queue@.subrange(0, q0.len() as int)[m] == q1.subrange(0, q0.len() as int)[m] by {
                            assert(queue@.subrange(0, q1.len() as int)[m] == queue@[m]);
                        }
                    }
                }
            },
            None => {
                let ghost start = *self;
                let mut k: usize = 0;
                while k < self.files.len()
                    invariant
                        k <= self.n(),
                        self.n() == start.n(),
                        start.wf(),
                        forall|a: int| 0 <= a < self.n() ==> same_but_downstream(#[trigger] self.file(a), start.file(a)),
                        forall|a: int, q: Seq<char>|
                            0 <= a < self.n() ==> #[trigger] lists(self.file(a).downstream@, q) == (lists(start.file(a).downstream@, q)
                                && (a < k ==> q != path@)),
                        forall|a: int| 0 <= a < self.n() ==> (#[trigger] start.file(a)).path@ != path@,
                    decreases self.n() - k,
                {
                    let ghost pre = *self;
                    let ds = vec_without(&self.files[k].downstream, &path);
                    self.files[k].downstream = ds;
                    proof {
                        assert forall|a: int| 0 <= a < self.n() implies same_but_downstream(#[trigger] self.file(a), start.file(a)) by {
                            if a != k {
                                assert(self.file(a) == pre.file(a));
                            }
                        }
                        assert forall|a: int, q: Seq<char>| 0 <= a < self.n() implies #[trigger] lists(self.file(a).downstream@, q)
                            == (lists(start.file(a).downstream@, q) && (a < k + 1 ==> q != path@)) by {
                            if a != k {
                                assert(self.file(a) == pre.file(a));
                            }
                        }
                    }
                    k += 1;
                }
                let ghost mid = *self;
                let f = VirtualFile {
                    path,
                    saved: true,
                    text,
                    parsed: None,
                    deps: Vec::new(),
                    downstream: Vec::new(),
                };
                self.files.push(f);
                proof {
                    let nn = mid.n();
                    assert(self.file(nn) == f);
                    assert forall|a: int| 0 <= a < nn implies #[trigger] self.file(a) == mid.file(a) by {}
                    assert forall|a: int, b: int|
                        0 <= a < self.n() && 0 <= b < self.n() && a != b implies (#[trigger] self.file(a)).path@
                            != (#[trigger] self.file(b)).path@ by {
                        if a < nn && b < nn {
                            assert(same_but_downstream(mid.file(a), start.file(a)));
                            assert(same_but_downstream(mid.file(b), start.file(b)));
                            assert(start.file(a).path@ != start.file(b).path@);
                        } else if a < nn {
                            assert(same_but_downstream(mid.file(a), start.file(a)));
                        } else {
                            assert(same_but_downstream(mid.file(b), start.file(b)));
                        }
                    }
                    assert forall|a: int, b: int|
                        0 <= a < self.n() && 0 <= b < self.n() && lists(
                            (#[trigger] self.file(a)).downstream@,
                            (#[trigger] self.file(b)).path@,
                        ) implies lists(self.file(b).deps@, self.file(a).path@) by {
                        if a < nn {
                            assert(same_but_downstream(mid.file(a), start.file(a)));
                            if b < nn {
                                assert(same_but_downstream(mid.file(b), start.file(b)));
                                assert(lists(start.file(a).downstream@, start.file(b).path@));
                            } else {
                                assert(self.file(b).path@ == path@);
                            }
                        }
                    }
                    assert(self.file(nn).path@ == path@);
                    let c = choose|c: int| 0 <= c < self.n() && (#[trigger] self.file(c)).path@ == path@;
                    if c != nn {
                        assert(self.file(c).path@ != self.file(nn).path@);
                    }
                    assert(queue@.subrange(0, q0.len() as int) =~= q0);
                }
            },
        }
    }

    /// Close `path`. The other files keep their records; when the closed copy was not saved,
    /// the files downstream of it are marked dirty (a pass as `dirty_paths` makes from its
    /// downstream set over the remaining files), since they were elaborated against text that
    /// is now gone. Closing a saved file queues nothing.
    pub fn close(&mut self, queue: &mut Vec<Job>, path: &String)
        requires
            old(self).wf(),
        ensures
            final(self).wf(),
            final(self).index_of(path@) is None,
            old(self).index_of(path@) is None ==> final(self).files@ == old(self).files@ && final(queue)@ == old(queue)@,
            final(queue)@.len() >= old(queue)@.len(),
            final(queue)@.subrange(0, old(queue)@.len() as int) == old(queue)@,
            old(self).index_of(path@) matches Some(i) ==> ({
                let added = final(queue)@.subrange(old(queue)@.len() as int, final(queue)@.len() as int);
                &&& final(self).n() == old(self).n() - 1
                &&& old(self).file(i).saved ==> final(queue)@ == old(queue)@
                &&& !old(self).file(i).saved ==> dirty_jobs(final(self), old(self).file(i).downstream@, added)
                &&& forall|j: int| 0 <= j < final(self).n() ==> same_but_parsed(#[trigger] final(self).file(j), old(self).file(skip(i, j)))
                    && final(self).file(j).parsed == if mentions(added, old(self).file(skip(i, j)).path@) {
                        dirtied(old(self).file(skip(i, j)).parsed)
                    } else {
                        old(self).file(skip(i, j)).parsed
                    }
            }),
    {
        match self.find(path) {
            None => {},
            Some(i) => {
                let ghost start = *self;
                let f = self.files.remove(i);
                proof {
                    assert forall|a: int| 0 <= a < self.n() implies #[trigger] self.file(a) == start.file(if a < i { a } else { a + 1 }) by {}
                    assert forall|a: int, b: int|
                        0 <= a < self.n() && 0 <= b < self.n() && a != b implies (#[trigger] self.file(a)).path@
                            != (#[trigger] self.file(b)).path@ by {
                        let a1 = if a < i { a } else { a + 1 };
                        let b1 = if b < i { b } else { b + 1 };
                        assert(start.file(a1).path@ != start.file(b1).path@);
                    }
                    assert forall|a: int, b: int|
                        0 <= a < self.n() && 0 <= b < self.n() && lists(
                            (#[trigger] self.file(a)).downstream@,
                            (#[trigger] self.file(b)).path@,
                        ) implies lists(self.file(b).deps@, self.file(a).path@) by {
                        let a1 = if a < i { a } else { a + 1 };
                        let b1 = if b < i { b } else { b + 1 };
                        assert(lists(start.file(a1).downstream@, start.file(b1).path@));
                    }
                    assert forall|a: int| 0 <= a < self.n() implies (#[trigger] self.file(a)).path@ != path@ by {
                        let a1 = if a < i { a } else { a + 1 };
                        assert(start.file(a1).path@ != start.file(i as int).path@);
                    }
                }
                let ghost mid = *self;
                let ghost q0 = queue@;
                if !f.saved {
                    self.dirty_paths(queue, &f.downstream);
                    proof {
                        let added = queue@.subrange(q0.len() as int, queue@.len() as int);
                        assert forall|x: int| 0 <= x < mid.n() implies #[trigger] self.file(x).path == mid.file(x).path
                            && self.file(x).downstream == mid.file(x).downstream by {
                            assert(same_but_parsed(self.file(x), mid.file(x)));
                        }
                        lemma_dirty_jobs_same_graph(&mid, self, f.downstream@, added);
                        assert forall|a: int| 0 <= a < self.n() implies (#[trigger] self.file(a)).path@ != path@ by {
                            assert(same_but_parsed(self.file(a), mid.file(a)));
                        }
                    }
                }
                proof {
                    let added = queue@.subrange(q0.len() as int, queue@.len() as int);
                    assert(f == start.file(i as int));
                    assert(start.index_of(path@) == Some(i as int));
                    if f.saved {
                        assert(added.len() == 0);
                    }
                    assert forall|j: int| 0 <= j < self.n() implies same_but_parsed(#[trigger] self.file(j), start.file(skip(i as int, j)))
                        && self.file(j).parsed == if mentions(added, start.file(skip(i as int, j)).path@) {
                            dirtied(start.file(skip(i as int, j)).parsed)
                        } else {
                            start.file(skip(i as int, j)).parsed
                        } by {
                        assert(mid.file(j) == start.file(skip(i as int, j)));
                        if f.saved {
                            assert(!mentions(added, start.file(skip(i as int, j)).path@));
                        } else {
                            assert(same_but_parsed(self.file(j), mid.file(j)));
                        }
                    }
                }
                assert(queue@.subrange(0, old(queue)@.len() as int) =~= old(queue)@);
            },
        }
    }

    /// Bring the downstream sets in line with a new elaboration of `to`: `to` leaves the
    /// downstream set of every file in `old_deps` but not in `deps`, and joins that of every
    /// file in `deps` but not in `old_deps`.
    pub fn update_downstream(&mut self, old_deps: &Vec<String>, deps: &Vec<String>, to: &String)
        requires
            old(self).unique(),
        ensures
            final(self).n() == old(self).n(),
            forall|i: int|
                0 <= i < old(self).n() ==> same_but_downstream(
                    #[trigger] final(self).file(i),
                    old(self).file(i),
                ),
            forall|i: int, q: Seq<char>|
                0 <= i < old(self).n() ==> #[trigger] lists(final(self).file(i).downstream@, q) == if q
                    == to@ && lists(old_deps@, old(self).file(i).path@) && !lists(
                    deps@,
                    old(self).file(i).path@,
                ) {
                    false
                } else if q == to@ && lists(deps@, old(self).file(i).path@) && !lists(
                    old_deps@,
                    old(self).file(i).path@,
                ) {
                    true
                } else {
                    lists(old(self).file(i).downstream@, q)
                },
    {
        let ghost start = *self;
        let mut k: usize = 0;
        while k < old_deps.len()
            invariant
                k <= old_deps@.len(),
                self.unique(),
                self.n() == start.n(),
                forall|i: int| 0 <= i < start.n() ==> same_but_downstream(#[trigger] self.file(i), start.file(i)),
                forall|i: int, q: Seq<char>|
                    0 <= i < start.n() ==> #[trigger] lists(self.file(i).downstream@, q) == if q == to@
                        && lists(old_deps@.subrange(0, k as int), start.file(i).path@) && !lists(
                        deps@,
                        start.file(i).path@,
                    ) {
                        false
                    } else {
                        lists(start.file(i).downstream@, q)
                    },
            decreases old_deps@.len() - k,
        {
            let from = &old_deps[k];
            let ghost pre = *self;
            if !vec_has(deps, from) {
                self.set_downstream(from, to, false);
            }
            proof {
                assert forall|i: int| 0 <= i < start.n() implies same_but_downstream(#[trigger] self.file(i), start.file(i)) by {
                    assert(same_but_downstream(pre.file(i), start.file(i)));
                }
                assert forall|i: int, q: Seq<char>| 0 <= i < start.n() implies #[trigger] lists(self.file(i).downstream@, q) == if q == to@
                        && lists(old_deps@.subrange(0, k + 1), start.file(i).path@) && !lists(
                        deps@,
                        start.file(i).path@,
                    ) {
                        false
                    } else {
                        lists(start.file(i).downstream@, q)
                    } by {
                    assert(same_but_downstream(pre.file(i), start.file(i)));
                    lemma_has_prefix_step(old_deps@, k as int, start.file(i).path@);
                    assert(lists(pre.file(i).downstream@, q) == if q == to@
                        && lists(old_deps@.subrange(0, k as int), start.file(i).path@) && !lists(
                        deps@,
                        start.file(i).path@,
                    ) {
                        false
                    } else {
                        lists(start.file(i).downstream@, q)
                    });
                }
            }
            k += 1;
        }
        assert(old_deps@.subrange(0, old_deps@.len() as int) =~= old_deps@);
        let ghost mid = *self;
        let mut k: usize = 0;
        while k < deps.len()
            invariant
                k <= deps@.len(),
                self.unique(),
                self.n() == start.n(),
                forall|i: int| 0 <= i < start.n() ==> same_but_downstream(#[trigger] self.file(i), start.file(i)),
                forall|i: int, q: Seq<char>|
                    0 <= i < start.n() ==> #[trigger] lists(self.file(i).downstream@, q) == if q == to@
                        && lists(deps@.subrange(0, k as int), start.file(i).path@) && !lists(
                        old_deps@,
                        start.file(i).path@,
                    ) {
                        true
                    } else {
                        lists(mid.file(i).downstream@, q)
                    },
                forall|i: int, q: Seq<char>|
                    0 <= i < start.n() ==> #[trigger] lists(mid.file(i).downstream@, q) == if q == to@
                        && lists(old_deps@, start.file(i).path@) && !lists(
                        deps@,
                        start.file(i).path@,
                    ) {
                        false
                    } else {
                        lists(start.file(i).downstream@, q)
                    },
            decreases deps@.len() - k,
        {
            let from = &deps[k];
            let ghost pre = *self;
            if !vec_has(old_deps, from) {
                self.set_downstream(from, to, true);
            }
            proof {
                assert forall|i: int| 0 <= i < start.n() implies same_but_downstream(#[trigger] self.file(i), start.file(i)) by {
                    assert(same_but_downstream(pre.file(i), start.file(i)));
                }
                assert forall|i: int, q: Seq<char>| 0 <= i < start.n() implies #[trigger] lists(self.file(i).downstream@, q) == if q == to@
                        && lists(deps@.subrange(0, k + 1), start.file(i).path@) && !lists(
                        old_deps@,
                        start.file(i).path@,
                    ) {
                        true
                    } else {
                        lists(mid.file(i).downstream@, q)
                    } by {
                    assert(same_but_downstream(pre.file(i), start.file(i)));
                    lemma_has_prefix_step(deps@, k as int, start.file(i).path@);
                    assert(lists(pre.file(i).downstream@, q) == if q == to@
                        && lists(deps@.subrange(0, k as int), start.file(i).path@) && !lists(
                        old_deps@,
                        start.file(i).path@,
                    ) {
                        true
                    } else {
                        lists(mid.file(i).downstream@, q)
                    });
                }
            }
            k += 1;
        }
        assert(deps@.subrange(0, deps@.len() as int) =~= deps@);
    }

    /// Record (`val`) or erase the edge that `to` depends on `from`, where `from` is open.
    pub fn set_downstream(&mut self, from: &String, to: &String, val: bool)
        requires
            old(self).unique(),
        ensures
            final(self).n() == old(self).n(),
            forall|i: int|
                0 <= i < old(self).n() ==> same_but_downstream(
                    #[trigger] final(self).file(i),
                    old(self).file(i),
                ),
            forall|i: int, q: Seq<char>|
                0 <= i < old(self).n() ==> #[trigger] lists(final(self).file(i).downstream@, q) == if old(
                    self,
                ).file(i).path@ == from@ && q == to@ {
                    val
                } else {
                    lists(old(self).file(i).downstream@, q)
                },
    {
        match self.find(from) {
            None => {},
            Some(i) => {
                let ghost before = *self;
                let ds = if val {
                    let mut d = copy_paths(&self.files[i].downstream);
                    if !vec_has(&d, to) {
                        let ghost d0 = d@;
                        d.push(to.clone());
                        proof {
                            assert forall|q: Seq<char>| #[trigger] lists(d@, q) == (lists(d0, q) || q == to@) by {
                                assert(d@[d0.len() as int]@ == to@);
                                if lists(d@, q) {
                                    let m = choose|m: int| 0 <= m < d@.len() && (#[trigger] d@[m])@ == q;
                                    if m < d0.len() {
                                        assert(d0[m] == d@[m]);
                                    }
                                }
                                if lists(d0, q) {
                                    let m = choose|m: int| 0 <= m < d0.len() && (#[trigger] d0[m])@ == q;
                                    assert(d0[m] == d@[m]);
                                }
                            }
                        }
                    }
                    d
                } else {
                    vec_without(&self.files[i].downstream, to)
                };
                self.files[i].downstream = ds;
                proof {
                    assert forall|j: int, q: Seq<char>| 0 <= j < before.n() implies #[trigger] lists(self.file(j).downstream@, q) == if before.file(j).path@ == from@ && q == to@ {
                        val
                    } else {
                        lists(before.file(j).downstream@, q)
                    } by {
                        if j != i {
                            assert(self.file(j) == before.file(j));
                            assert(before.file(j).path@ != before.file(i as int).path@);
                        }
                    }
                }
            },
        }
    }
}

/// The file named by an edit is not open.
#[derive(Debug)]
pub struct NotOpen;

impl<A, E> Vfs<Vec<char>, A, E> {
    /// Apply the edits `changes`, in order, to the text of `path`, which is then no longer the
    /// saved one, and return the job that elaborates it again from the earliest position an
    /// edit changed. No edits change nothing and ask for no job.
    pub fn change_text(&mut self, path: &String, changes: &Vec<Change>) -> (r: Result<Option<Job>, NotOpen>)
        requires
            old(self).wf(),
        ensures
            final(self).wf(),
            old(self).index_of(path@) is None ==> r is Err && final(self).files@ == old(self).files@,
            old(self).index_of(path@) is Some && changes@.len() == 0 ==> r == Ok::<Option<Job>, NotOpen>(None)
                && final(self).files@ == old(self).files@,
            old(self).index_of(path@) matches Some(i) ==> changes@.len() > 0 ==> ({
                &&& r == Ok::<Option<Job>, NotOpen>(Some(Job::Elaborate { path: *path, start: earliest(changes@) }))
                &&& final(self).n() == old(self).n()
                &&& final(self).file(i).text@ == changed_all(old(self).file(i).text@, changes@)
                &&& !final(self).file(i).saved
                &&& final(self).file(i).path == old(self).file(i).path
                &&& final(self).file(i).parsed == old(self).file(i).parsed
                &&& final(self).file(i).deps == old(self).file(i).deps
                &&& final(self).file(i).downstream == old(self).file(i).downstream
                &&& forall|j: int| 0 <= j < old(self).n() && j != i ==> #[trigger] final(self).file(j) == old(self).file(j)
            }),
    {
        match self.find(path) {
            None => Err(NotOpen),
            Some(i) => {
                if changes.len() == 0 {
                    return Ok(None);
                }
                let ghost start = *self;
                let (text, start_pos) = apply_changes(&self.files[i].text, changes);
                self.files[i].text = text;
                self.files[i].saved = false;
                proof {
                    assert forall|a: int, b: int|
                        0 <= a < self.n() && 0 <= b < self.n() && a != b implies (#[trigger] self.file(a)).path@
                            != (#[trigger] self.file(b)).path@ by {
                        assert(start.file(a).path@ != start.file(b).path@);
                    }
                    assert forall|a: int, b: int|
                        0 <= a < self.n() && 0 <= b < self.n() && lists(
                            (#[trigger] self.file(a)).downstream@,
                            (#[trigger] self.file(b)).path@,
                        ) implies lists(self.file(b).deps@, self.file(a).path@) by {
                        assert(start.file(a).downstream == self.file(a).downstream);
                        assert(start.file(b).path == self.file(b).path);
                        assert(start.file(b).deps == self.file(b).deps);
                        assert(start.file(a).path == self.file(a).path);
                    }
                }
                Ok(Some(Job::Elaborate { path: path.clone(), start: start_pos }))
            },
        }
    }
}

/// Every recorded dependency edge is backed by the last elaboration: in a file system kept
/// well formed by its operations, if file `b` is downstream of file `a`, then the last
/// successful elaboration of `b` (see `finish_job`) reported `a` among its dependencies.
pub proof fn lemma_edges_backed<T, A, E>(vfs: &Vfs<T, A, E>, a: int, b: int)
    requires
        vfs.wf(),
        0 <= a < vfs.n(),
        0 <= b < vfs.n(),
        lists(vfs.file(a).downstream@, vfs.file(b).path@),
    ensures
        lists(vfs.file(b).deps@, vfs.file(a).path@),
{
}

/// The id of a request of the protocol: a number or a string.
#[derive(Debug)]
pub enum RequestId {
    /// A numeric id.
    Number(i32),
    /// A string id.
    Str(String),
}

impl RequestId {
    /// The two ids are the same.
    pub open spec fn same(&self, o: &RequestId) -> bool {
        match (self, o) {
            (RequestId::Number(a), RequestId::Number(b)) => a == b,
            (RequestId::Str(a), RequestId::Str(b)) => a@ == b@,
            _ => false,
        }
    }

    /// Whether the two ids are the same.
    pub fn same_as(&self, o: &RequestId) -> (r: bool)
        ensures
            r == self.same(o),
    {
        match (self, o) {
            (RequestId::Number(a), RequestId::Number(b)) => *a == *b,
            (RequestId::Str(a), RequestId::Str(b)) => *a == *b,
            _ => false,
        }
    }

    /// A copy of this id.
    pub fn clone_id(&self) -> (r: RequestId)
        ensures
            r.same(self),
    {
        match self {
            RequestId::Number(n) => RequestId::Number(*n),
            RequestId::Str(s) => RequestId::Str(s.clone()),
        }
    }
}

/// Some entry of `s` is for `id`.
pub open spec fn listed(s: Seq<(RequestId, bool)>, id: &RequestId) -> bool {
    exists|k: int| 0 <= k < s.len() && (#[trigger] s[k]).0.same(id)
}

/// Some entry of `s` for `id` has its cancellation flag set.
pub open spec fn flagged(s: Seq<(RequestId, bool)>, id: &RequestId) -> bool {
    exists|k: int| 0 <= k < s.len() && (#[trigger] s[k]).0.same(id) && s[k].1
}

/// The requests being handled, each with its cancellation flag.
#[derive(Debug)]
pub struct OpenRequests {
    /// The requests and their flags.
    pub entries: Vec<(RequestId, bool)>,
}

impl OpenRequests {
    /// `id` is being handled.
    pub open spec fn is_open(&self, id: &RequestId) -> bool {
        listed(self.entries@, id)
    }

    /// `id` is being handled and was asked to stop.
    pub open spec fn cancel_requested(&self, id: &RequestId) -> bool {
        flagged(self.entries@, id)
    }

    /// No request is open.
    pub fn new() -> (r: OpenRequests)
        ensures
            forall|id: &RequestId| !r.is_open(id),
    {
        OpenRequests { entries: Vec::new() }
    }

    /// The entries without those for `id`.
    fn without(&self, id: &RequestId) -> (r: Vec<(RequestId, bool)>)
        ensures
            forall|x: &RequestId| #[trigger] listed(r@, x) == (listed(self.entries@, x) && !x.same(id)),
            forall|x: &RequestId| #[trigger] flagged(r@, x) == (flagged(self.entries@, x) && !x.same(id)),
    {
        let mut out: Vec<(RequestId, bool)> = Vec::new();
        let mut k: usize = 0;
        while k < self.entries.len()
            invariant
                k <= self.entries@.len(),
                forall|x: &RequestId| #[trigger] listed(out@, x) == (listed(self.entries@.subrange(0, k as int), x) && !x.same(id)),
                forall|x: &RequestId| #[trigger] flagged(out@, x) == (flagged(self.entries@.subrange(0, k as int), x) && !x.same(id)),
            decreases self.entries@.len() - k,
        {
            let ghost before = out@;
            let ghost pre = self.entries@.subrange(0, k as int);
            let ghost post = self.entries@.subrange(0, k + 1);
            let e = &self.entries[k];
            let keep = !e.0.same_as(id);
            if keep {
                out.push((e.0.clone_id(), e.1));
            }
            proof {
                assert(post[k as int] == self.entries@[k as int]);
                assert forall|x: &RequestId| #[trigger] listed(out@, x) == (listed(post, x) && !x.same(id)) by {
                    if listed(post, x) {
                        let m = choose|m: int| 0 <= m < post.len() && (#[trigger] post[m]).0.same(x);
                        if m < k {
                            assert(pre[m] == post[m]);
                        }
                    }
                    if listed(pre, x) {
                        let m = choose|m: int| 0 <= m < pre.len() && (#[trigger] pre[m]).0.same(x);
                        assert(pre[m] == post[m]);
                    }
                    if listed(out@, x) {
                        let m = choose|m: int| 0 <= m < out@.len() && (#[trigger] out@[m]).0.same(x);
                        if m < before.len() {
                            assert(before[m] == out@[m]);
                        }
                    }
                    if listed(before, x) {
                        let m = choose|m: int| 0 <= m < before.len() && (#[trigger] before[m]).0.same(x);
                        assert(before[m] == out@[m]);
                    }
                    if keep {
                        assert(out@[before.len() as int].0.same(&self.entries@[k as int].0));
                    }
                }
                assert forall|x: &RequestId| #[trigger] flagged(out@, x) == (flagged(post, x) && !x.same(id)) by {
                    if flagged(post, x) {
                        let m = choose|m: int| 0 <= m < post.len() && (#[trigger] post[m]).0.same(x) && post[m].1;
                        if m < k {
                            assert(pre[m] == post[m]);
                        }
                    }
                    if flagged(pre, x) {
                        let m = choose|m: int| 0 <= m < pre.len() && (#[trigger] pre[m]).0.same(x) && pre[m].1;
                        assert(pre[m] == post[m]);
                    }
                    if flagged(out@, x) {
                        let m = choose|m: int| 0 <= m < out@.len() && (#[trigger] out@[m]).0.same(x) && out@[m].1;
                        if m < before.len() {
                            assert(before[m] == out@[m]);
                        }
                    }
                    if flagged(before, x) {
                        let m = choose|m: int| 0 <= m < before.len() && (#[trigger] before[m]).0.same(x) && before[m].1;
                        assert(before[m] == out@[m]);
                    }
                    if keep {
                        assert(out@[before.len() as int].0.same(&self.entries@[k as int].0));
                    }
                }
            }
            k += 1;
        }
        assert(self.entries@.subrange(0, self.entries@.len() as int) =~= self.entries@);
        out
    }

    /// Start handling `id`, with its flag clear.
    pub fn insert(&mut self, id: RequestId)
        ensures
            final(self).is_open(&id),
            !final(self).cancel_requested(&id),
            forall|x: &RequestId| !x.same(&id) ==> (#[trigger] final(self).is_open(x)) == old(self).is_open(x)
                && final(self).cancel_requested(x) == old(self).cancel_requested(x),
    {
        let mut rest = self.without(&id);
        let ghost r0 = rest@;
        let e = (id, false);
        rest.push(e);
        proof {
            assert(rest@[r0.len() as int] == e);
            assert forall|x: &RequestId| #[trigger] listed(rest@, x) == (listed(r0, x) || x.same(&e.0)) by {
                if listed(rest@, x) {
                    let m = choose|m: int| 0 <= m < rest@.len() && (#[trigger] rest@[m]).0.same(x);
                    if m < r0.len() {
                        assert(r0[m] == rest@[m]);
                    }
                }
                if listed(r0, x) {
                    let m = choose|m: int| 0 <= m < r0.len() && (#[trigger] r0[m]).0.same(x);
                    assert(r0[m] == rest@[m]);
                }
            }
            assert forall|x: &RequestId| #[trigger] flagged(rest@, x) == flagged(r0, x) by {
                if flagged(rest@, x) {
                    let m = choose|m: int| 0 <= m < rest@.len() && (#[trigger] rest@[m]).0.same(x) && rest@[m].1;
                    if m < r0.len() {
                        assert(r0[m] == rest@[m]);
                    }
                }
                if flagged(r0, x) {
                    let m = choose|m: int| 0 <= m < r0.len() && (#[trigger] r0[m]).0.same(x) && r0[m].1;
                    assert(r0[m] == rest@[m]);
                }
            }
        }
        self.entries = rest;
    }

    /// Ask `id` to stop, when it is open. Returns whether it was.
    pub fn cancel(&mut self, id: &RequestId) -> (r: bool)
        ensures
            r == old(self).is_open(id),
            forall|x: &RequestId| #[trigger] final(self).is_open(x) == old(self).is_open(x),
            forall|x: &RequestId|
                #[trigger] final(self).cancel_requested(x) == (old(self).cancel_requested(x) || (x.same(id)
                    && old(self).is_open(id))),
    {
        let ghost e0 = self.entries@;
        let mut found = false;
        let mut k: usize = 0;
        while k < self.entries.len()
            invariant
                self.entries@.len() == e0.len(),
                k <= e0.len(),
                forall|m: int| 0 <= m < e0.len() ==> (#[trigger] self.entries@[m]).0 == e0[m].0,
                forall|m: int| 0 <= m < e0.len() ==> (#[trigger] self.entries@[m]).1 == if m < k && e0[m].0.same(id) {
                    true
                } else {
                    e0[m].1
                },
                found == exists|m: int| 0 <= m < k && (#[trigger] e0[m]).0.same(id),
            decreases e0.len() - k,
        {
            if self.entries[k].0.same_as(id) {
                self.entries[k].1 = true;
                found = true;
            }
            k += 1;
        }
        proof {
            assert forall|x: &RequestId| #[trigger] listed(self.entries@, x) == listed(e0, x) by {
                if listed(self.entries@, x) {
                    let m = choose|m: int| 0 <= m < e0.len() && (#[trigger] self.entries@[m]).0.same(x);
                    assert(e0[m].0 == self.entries@[m].0);
                }
                if listed(e0, x) {
                    let m = choose|m: int| 0 <= m < e0.len() && (#[trigger] e0[m]).0.same(x);
                    assert(e0[m].0 == self.entries@[m].0);
                }
            }
            assert forall|x: &RequestId| #[trigger] flagged(self.entries@, x) == (flagged(e0, x) || (x.same(id) && listed(e0, id))) by {
                if flagged(self.entries@, x) {
                    let m = choose|m: int| 0 <= m < e0.len() && (#[trigger] self.entries@[m]).0.same(x) && self.entries@[m].1;
                    assert(e0[m].0 == self.entries@[m].0);
                    if !e0[m].1 {
                        assert(e0[m].0.same(id));
                    }
                }
                if flagged(e0, x) {
                    let m = choose|m: int| 0 <= m < e0.len() && (#[trigger] e0[m]).0.same(x) && e0[m].1;
                    assert(self.entries@[m].0 == e0[m].0);
                }
                if x.same(id) && listed(e0, id) {
                    let m = choose|m: int| 0 <= m < e0.len() && (#[trigger] e0[m]).0.same(id);
                    assert(self.entries@[m].1);
                    assert(self.entries@[m].0.same(x));
                }
            }
        }
        found
    }

    /// Whether `id` was asked to stop.
    pub fn is_cancelled(&self, id: &RequestId) -> (r: bool)
        ensures
            r == self.cancel_requested(id),
    {
        let mut k: usize = 0;
        while k < self.entries.len()
            invariant
                k <= self.entries@.len(),
                forall|m: int| 0 <= m < k ==> !((#[trigger] self.entries@[m]).0.same(id) && self.entries@[m].1),
            decreases self.entries@.len() - k,
        {
            if self.entries[k].1 && self.entries[k].0.same_as(id) {
                return true;
            }
            k += 1;
        }
        false
    }

    /// Stop handling `id`: its entry is gone, whatever its flag, and no other entry changes.
    pub fn finish(&mut self, id: &RequestId)
        ensures
            !final(self).is_open(id),
            !final(self).cancel_requested(id),
            forall|x: &RequestId| !x.same(id) ==> (#[trigger] final(self).is_open(x)) == old(self).is_open(x)
                && final(self).cancel_requested(x) == old(self).cancel_requested(x),
    {
        let rest = self.without(id);
        proof {
            assert(id.same(id));
        }
        self.entries = rest;
    }
}

} // verus!
