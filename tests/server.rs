use mm0_server::server::{
    FileCache, Job, Jobs, OpenRequests, Plan, Poll, Position, RequestId, Vfs,
};
use mm0_server::text::Change;

fn s(x: &str) -> String {
    x.to_string()
}

fn paths(q: &[Job]) -> Vec<String> {
    q.iter().map(|j| j.path().clone()).collect()
}

fn is_dep(j: &Job, p: &str) -> bool {
    matches!(j, Job::DepChange(x) if x == p)
}

type TestVfs = Vfs<String, u32, u32>;

/// Run every queued job on `vfs`: parse gives ast 1, elaborate gives env 2 and the
/// dependencies that `deps_of` names.
fn run_all(vfs: &mut TestVfs, jobs: &mut Jobs, deps_of: &dyn Fn(&str) -> Vec<String>) -> Vec<String> {
    let mut done = vec![];
    loop {
        match jobs.pop() {
            Poll::Run(job) => {
                match vfs.start_job(&job) {
                    Plan::Skip => continue,
                    Plan::Parse { .. } | Plan::Reuse { .. } => {}
                }
                let p = job.path().clone();
                let mut q = vec![];
                assert!(vfs.complete_job(&mut q, &job, 1, 2, deps_of(&p)));
                done.push(p.clone());
                jobs.extend(q);
            }
            _ => return done,
        }
    }
}

fn chain(p: &str) -> Vec<String> {
    match p {
        "A" => vec![s("B")],
        "B" => vec![s("C")],
        _ => vec![],
    }
}

fn cache_of(vfs: &TestVfs, p: &str) -> &'static str {
    let i = vfs.find(&s(p)).unwrap();
    match &vfs.files[i].parsed {
        None => "none",
        Some(FileCache::Dirty(_)) => "dirty",
        Some(FileCache::Ready { .. }) => "ready",
    }
}

#[test]
fn vfs_dirty_propagation() {
    let mut vfs: TestVfs = Vfs::new();
    let mut jobs = Jobs::new();
    for p in ["C", "B", "A"] {
        let mut q = vec![];
        vfs.open_virt(&mut q, s(p), s("text"));
        jobs.extend(q);
    }
    run_all(&mut vfs, &mut jobs, &chain);
    assert_eq!(vfs.files[vfs.find(&s("C")).unwrap()].downstream, vec![s("B")]);
    assert_eq!(vfs.files[vfs.find(&s("B")).unwrap()].downstream, vec![s("A")]);
    jobs.extend(vec![Job::Elaborate { path: s("C"), start: Position { line: 3, character: 1 } }]);
    match jobs.pop() {
        Poll::Run(job) => {
            assert!(matches!(&job, Job::Elaborate { path, start } if path == "C" && start.line == 3));
            assert!(matches!(vfs.start_job(&job), Plan::Parse { old_ast: Some((p, 1)), old_env: Some(2) } if p.line == 3));
            let mut q = vec![];
            assert!(vfs.complete_job(&mut q, &job, 1, 2, vec![]));
            assert_eq!(q.len(), 2);
            assert!(is_dep(&q[0], "B") && is_dep(&q[1], "A"));
            assert_eq!(cache_of(&vfs, "B"), "dirty");
            assert_eq!(cache_of(&vfs, "A"), "dirty");
            assert_eq!(cache_of(&vfs, "C"), "ready");
            jobs.extend(q);
        }
        _ => panic!("no job"),
    }
    let done = run_all(&mut vfs, &mut jobs, &chain);
    assert_eq!(done, vec![s("B"), s("A")]);
    for p in ["A", "B", "C"] {
        assert_eq!(cache_of(&vfs, p), "ready");
    }
}

#[test]
fn dep_change_reuses_the_parse() {
    let mut vfs: TestVfs = Vfs::new();
    let mut q = vec![];
    vfs.open_virt(&mut q, s("A"), s("t"));
    assert!(matches!(vfs.start_job(&Job::DepChange(s("A"))), Plan::Parse { old_ast: None, old_env: None }));
    assert!(vfs.finish_job(&s("A"), 5, 6, vec![]));
    assert!(matches!(vfs.start_job(&Job::DepChange(s("A"))), Plan::Reuse { ast: 5, old_env: Some(6) }));
    assert!(matches!(vfs.start_job(&Job::DepChange(s("Z"))), Plan::Skip));
    assert!(!vfs.finish_job(&s("Z"), 0, 0, vec![]));
}

#[test]
fn dirty_cycle_terminates() {
    let mut vfs: TestVfs = Vfs::new();
    let mut q = vec![];
    vfs.open_virt(&mut q, s("A"), s("t"));
    vfs.open_virt(&mut q, s("B"), s("t"));
    vfs.finish_job(&s("A"), 1, 1, vec![s("B")]);
    vfs.finish_job(&s("B"), 1, 1, vec![s("A")]);
    let mut out = vec![];
    vfs.dirty(&mut out, &s("A"));
    assert_eq!(paths(&out), vec![s("A"), s("B")]);
    assert!(out.iter().all(|j| matches!(j, Job::DepChange(_))));
}

#[test]
fn update_downstream_symmetric_difference() {
    let mut vfs: TestVfs = Vfs::new();
    let mut q = vec![];
    for p in ["X", "Y", "Z", "T"] {
        vfs.open_virt(&mut q, s(p), s("t"));
    }
    vfs.finish_job(&s("T"), 1, 1, vec![s("X"), s("Y")]);
    vfs.finish_job(&s("T"), 1, 1, vec![s("Y"), s("Z")]);
    let ds = |v: &TestVfs, p: &str| v.files[v.find(&s(p)).unwrap()].downstream.clone();
    assert!(ds(&vfs, "X").is_empty());
    assert_eq!(ds(&vfs, "Y"), vec![s("T")]);
    assert_eq!(ds(&vfs, "Z"), vec![s("T")]);
    assert_eq!(vfs.files[vfs.find(&s("T")).unwrap()].deps, vec![s("Y"), s("Z")]);
}

#[test]
fn open_and_close() {
    let mut vfs: TestVfs = Vfs::new();
    let mut q = vec![];
    vfs.open_virt(&mut q, s("A"), s("one"));
    vfs.open_virt(&mut q, s("B"), s("t"));
    vfs.finish_job(&s("B"), 1, 1, vec![s("A")]);
    assert!(matches!(&q[0], Job::Elaborate { path, start } if path == "A" && *start == Position::default()));
    let mut q2 = vec![];
    vfs.open_virt(&mut q2, s("A"), s("two"));
    assert_eq!(vfs.files[vfs.find(&s("A")).unwrap()].text, "two");
    assert!(matches!(&q2[0], Job::Elaborate { path, .. } if path == "A"));
    assert!(is_dep(&q2[1], "B"));
    let mut q3 = vec![];
    vfs.files[0].saved = false;
    vfs.close(&mut q3, &s("A"));
    assert!(vfs.find(&s("A")).is_none());
    assert_eq!(q3.len(), 1);
    assert!(is_dep(&q3[0], "B"));
    let mut q4 = vec![];
    vfs.close(&mut q4, &s("B"));
    assert!(q4.is_empty());
    assert!(vfs.files.is_empty());
}

#[test]
fn job_queue_dedup() {
    let mut jobs = Jobs::new();
    let e = |p: &str| Job::Elaborate { path: s(p), start: Position::default() };
    assert!(jobs.extend(vec![e("a"), e("b"), e("c")]));
    assert!(jobs.extend(vec![Job::DepChange(s("b")), e("d")]));
    let q = jobs.queue.as_ref().unwrap();
    assert_eq!(paths(q), vec![s("a"), s("c"), s("b"), s("d")]);
    assert!(is_dep(&q[2], "b"));
    assert!(!jobs.extend(vec![]));
    match jobs.pop() {
        Poll::Run(j) => assert_eq!(j.path(), "a"),
        _ => panic!("expected a job"),
    }
    jobs.stop();
    assert!(matches!(jobs.pop(), Poll::Stop));
    assert!(!jobs.extend(vec![e("x")]));
    assert!(jobs.queue.is_none());
    let mut empty = Jobs::new();
    assert!(matches!(empty.pop(), Poll::Wait));
}

#[test]
fn cancellation_round_trip() {
    let mut reqs = OpenRequests::new();
    reqs.insert(RequestId::Number(7));
    reqs.insert(RequestId::Str(s("other")));
    assert!(!reqs.is_cancelled(&RequestId::Number(7)));
    assert!(reqs.cancel(&RequestId::Number(7)));
    assert!(reqs.is_cancelled(&RequestId::Number(7)));
    assert!(!reqs.is_cancelled(&RequestId::Str(s("other"))));
    reqs.finish(&RequestId::Number(7));
    assert!(!reqs.is_cancelled(&RequestId::Number(7)));
    assert!(!reqs.cancel(&RequestId::Number(7)));
    assert_eq!(reqs.entries.len(), 1);
    assert!(RequestId::Str(s("other")).same_as(&reqs.entries[0].0));
}

fn ready_chain() -> TestVfs {
    let mut vfs: TestVfs = Vfs::new();
    let mut jobs = Jobs::new();
    for p in ["C", "B", "A"] {
        let mut q = vec![];
        vfs.open_virt(&mut q, s(p), s("text"));
        jobs.extend(q);
    }
    run_all(&mut vfs, &mut jobs, &chain);
    vfs
}

#[test]
fn dirty_reaches_exactly_the_downstream_files() {
    let mut vfs = ready_chain();
    let mut q = vec![Job::DepChange(s("earlier"))];
    vfs.dirty(&mut q, &s("B"));
    assert_eq!(paths(&q), vec![s("earlier"), s("B"), s("A")]);
    assert!(is_dep(&q[1], "B") && is_dep(&q[2], "A"));
    assert_eq!(cache_of(&vfs, "B"), "dirty");
    assert_eq!(cache_of(&vfs, "A"), "dirty");
    assert_eq!(cache_of(&vfs, "C"), "ready");
    let mut q2 = vec![];
    vfs.dirty(&mut q2, &s("missing"));
    assert!(q2.is_empty());
}

#[test]
fn diamond_gives_one_job_per_file() {
    let mut vfs: TestVfs = Vfs::new();
    let mut q = vec![];
    for p in ["D", "L", "R", "T"] {
        vfs.open_virt(&mut q, s(p), s("t"));
    }
    vfs.finish_job(&s("L"), 1, 1, vec![s("D")]);
    vfs.finish_job(&s("R"), 1, 1, vec![s("D")]);
    vfs.finish_job(&s("T"), 1, 1, vec![s("L"), s("R")]);
    let mut out = vec![];
    vfs.dirty_downstream(&mut out, &s("D"));
    assert_eq!(paths(&out), vec![s("L"), s("T"), s("R")]);
    let mut jobs = Jobs::new();
    assert!(jobs.extend(out));
    assert_eq!(jobs.queue.as_ref().unwrap().len(), 3);
}

#[test]
fn reopening_replaces_text_and_cache() {
    let mut vfs = ready_chain();
    let mut q = vec![];
    vfs.open_virt(&mut q, s("C"), s("new"));
    let i = vfs.find(&s("C")).unwrap();
    assert_eq!(vfs.files[i].text, "new");
    assert!(vfs.files[i].parsed.is_none());
    assert_eq!(vfs.files[i].downstream, vec![s("B")]);
    assert_eq!(paths(&q), vec![s("C"), s("B"), s("A")]);
    assert!(matches!(&q[0], Job::Elaborate { .. }));
}

#[test]
fn closing_saved_file_queues_nothing() {
    let mut vfs = ready_chain();
    let mut q = vec![];
    vfs.close(&mut q, &s("C"));
    assert!(q.is_empty());
    assert_eq!(vfs.files.len(), 2);
    assert_eq!(cache_of(&vfs, "B"), "ready");
    assert_eq!(cache_of(&vfs, "A"), "ready");
}

#[test]
fn changing_text_queues_elaboration() {
    let mut vfs: Vfs<Vec<char>, u32, u32> = Vfs::new();
    let mut q = vec![];
    vfs.open_virt(&mut q, s("F"), "ab\ncd".chars().collect());
    let change = |l: u32, c: u32, t: &str| Change {
        range: Some((Position { line: l, character: c }, Position { line: l, character: c + 1 })),
        text: t.chars().collect(),
    };
    let job = vfs.change_text(&s("F"), &vec![change(1, 1, "X"), change(0, 0, "Y")]).unwrap().unwrap();
    assert!(matches!(&job, Job::Elaborate { path, start } if path == "F" && *start == Position { line: 0, character: 0 }));
    let i = vfs.find(&s("F")).unwrap();
    assert_eq!(vfs.files[i].text.iter().collect::<String>(), "Yb\ncX");
    assert!(!vfs.files[i].saved);
    assert!(vfs.change_text(&s("F"), &vec![]).unwrap().is_none());
    assert!(vfs.change_text(&s("G"), &vec![change(0, 0, "Z")]).is_err());
}
