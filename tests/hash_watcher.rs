use hash_watcher::{
    DebounceStep, Error, GitHashes, HashDebouncer, HashJob, HashSpec, HashState, HashUpdate,
    Reply, Subscriber, DISCOVERY_UNAVAILABLE, REMOVED,
};

fn spec(path: &str) -> HashSpec {
    HashSpec {
        package_path: path.to_string(),
        inputs: None,
    }
}

fn make_expected(expected: Vec<(&str, &str)>) -> GitHashes {
    let mut map = GitHashes::new();
    for (path, hash) in expected {
        map.insert(path.to_string(), hash.to_string());
    }
    map
}

fn topology(paths: &[&str]) -> Option<Result<Vec<String>, String>> {
    Some(Ok(paths.iter().map(|p| p.to_string()).collect()))
}

fn started() -> (Subscriber, Vec<HashJob>) {
    let mut sub = Subscriber::new();
    let effects = sub.handle_package_data_update(&topology(&["packages/foo", "packages/bar"]));
    assert!(effects.replies.is_empty());
    (sub, effects.jobs)
}

fn job_for<'a>(jobs: &'a [HashJob], path: &str) -> &'a HashJob {
    jobs.iter()
        .find(|j| j.spec.package_path == path)
        .expect("a job for the package")
}

fn complete(sub: &mut Subscriber, job: &HashJob, hashes: GitHashes) -> Vec<Reply> {
    sub.handle_hash_update(HashUpdate {
        spec: job.spec.duplicate(),
        version: job.version,
        result: Ok(hashes),
    })
}

fn query_hashes(sub: &mut Subscriber, path: &str, waiter: u64) -> Vec<(String, String)> {
    match sub.handle_query(spec(path), waiter) {
        Some(Reply {
            result: Ok(h),
            waiter: w,
        }) => {
            assert_eq!(w, waiter);
            h.entries
        }
        other => panic!("expected hashes, got {:?}", other),
    }
}

fn sorted(mut v: Vec<(String, String)>) -> Vec<(String, String)> {
    v.sort();
    v
}

/// Routes a file event the way the service does, with every pending
/// debouncer already fired (so each change needs a fresh job).
fn file_event(sub: &mut Subscriber, paths: &[&str], bump_accepted: bool) -> Vec<HashJob> {
    let paths: Vec<String> = paths.iter().map(|p| p.to_string()).collect();
    let mut jobs = Vec::new();
    for package in sub.changed_packages(&paths) {
        if let Some(job) = sub.rehash_package(package, bump_accepted) {
            jobs.push(job);
        }
    }
    jobs
}

#[test]
fn test_basic_file_changes() {
    let (mut sub, jobs) = started();
    let foo_job = job_for(&jobs, "packages/foo");
    let initial = make_expected(vec![
        ("foo-file", "9317666a2e7b729b740c706ab79724952c97bde4"),
        ("package.json", "395351bdd7167f351af3396d3225ebe97a7a4d13"),
        (".gitignore", "89f9ac04aac6c8ee66e158853e7d0439b3ec782d"),
    ]);
    let expected = initial.entries.clone();
    complete(&mut sub, foo_job, initial);
    assert_eq!(sorted(query_hashes(&mut sub, "packages/foo", 1)), sorted(expected));

    // update foo-file
    let jobs = file_event(&mut sub, &["packages/foo/foo-file"], false);
    assert_eq!(jobs.len(), 1);
    let updated = make_expected(vec![
        ("foo-file", "5f6796bbd23dcdc9d30d07a2d8a4817c34b7f1e7"),
        ("package.json", "395351bdd7167f351af3396d3225ebe97a7a4d13"),
        (".gitignore", "89f9ac04aac6c8ee66e158853e7d0439b3ec782d"),
    ]);
    let expected = updated.entries.clone();
    complete(&mut sub, &jobs[0], updated);
    assert_eq!(sorted(query_hashes(&mut sub, "packages/foo", 2)), sorted(expected));

    // files in dist/ and out/ and foo-file change: one job for foo, and the
    // hashes the facility reports keep their three keys
    let jobs = file_event(
        &mut sub,
        &[
            "packages/foo/out/some-file",
            "packages/foo/dist/some-other-file",
            "packages/foo/foo-file",
        ],
        false,
    );
    assert_eq!(jobs.len(), 1);
    assert_eq!(jobs[0].spec.package_path, "packages/foo");
    let latest = make_expected(vec![
        ("foo-file", "0cb73634538618658f092cd7a3a373c243513a6a"),
        ("package.json", "395351bdd7167f351af3396d3225ebe97a7a4d13"),
        (".gitignore", "89f9ac04aac6c8ee66e158853e7d0439b3ec782d"),
    ]);
    let expected = latest.entries.clone();
    complete(&mut sub, &jobs[0], latest);
    let got = query_hashes(&mut sub, "packages/foo", 3);
    assert_eq!(got.len(), 3);
    assert_eq!(sorted(got), sorted(expected));
}

#[test]
fn test_switch_branch() {
    let (mut sub, jobs) = started();
    let bar_job = job_for(&jobs, "packages/bar");
    let before = make_expected(vec![
        ("bar-file", "b9bdb1e4875f7397b3f68c104bc249de0ecd3f8e"),
        ("package.json", "b39117e03f0dbe217b957f58a2ad78b993055088"),
    ]);
    let expected = before.entries.clone();
    complete(&mut sub, bar_job, before);
    assert_eq!(sorted(query_hashes(&mut sub, "packages/bar", 1)), sorted(expected));

    let jobs = file_event(
        &mut sub,
        &["packages/bar/bar-file", "packages/bar/baz-file"],
        false,
    );
    assert_eq!(jobs.len(), 1);
    let after = make_expected(vec![
        ("baz-file", "a5395ccf1b8966f3ea805aff0851eac13acb3540"),
        ("package.json", "b39117e03f0dbe217b957f58a2ad78b993055088"),
    ]);
    let expected = after.entries.clone();
    complete(&mut sub, &jobs[0], after);
    assert_eq!(sorted(query_hashes(&mut sub, "packages/bar", 2)), sorted(expected));
}

#[test]
fn test_non_existent_package() {
    let (mut sub, _jobs) = started();
    let result = sub.handle_query(spec("packages/non-existent"), 7);
    match result {
        Some(Reply {
            waiter: 7,
            result: Err(Error::UnknownPackage(unknown_spec)),
        }) => assert_eq!(unknown_spec.package_path, "packages/non-existent"),
        other => panic!("expected an unknown package, got {:?}", other),
    }
}

#[test]
fn test_debouncer() {
    let mut debouncer = HashDebouncer::new(10);
    assert_eq!(debouncer.timeout_ms, 10);
    let mut observed = debouncer.snapshot();
    for _ in 0..10 {
        // bumps keep coming past the original timeout
        assert!(debouncer.bump());
        match debouncer.debounce_step(observed, true) {
            DebounceStep::Restart(serial) => observed = serial,
            other => panic!("a bump must restart the wait, got {:?}", other),
        }
    }
    assert_eq!(observed, 10);
    assert_eq!(debouncer.debounce_step(observed, false), DebounceStep::Keep);
    assert_eq!(debouncer.debounce_step(observed, true), DebounceStep::Fire);
    assert_eq!(debouncer.serial, None);
    // no bump is taken once it has fired
    assert!(!debouncer.bump());
    assert_eq!(debouncer.serial, None);
}

#[test]
fn debouncer_counts_bumps() {
    let mut debouncer = HashDebouncer::new(5);
    assert_eq!(debouncer.serial, Some(0));
    assert!(debouncer.bump());
    assert!(debouncer.bump());
    assert_eq!(debouncer.serial, Some(2));
    assert_eq!(debouncer.debounce_step(0, false), DebounceStep::Restart(2));
    assert_eq!(debouncer.serial, Some(2));
}

#[test]
fn debouncer_serial_wraps() {
    let mut debouncer = HashDebouncer {
        serial: Some(usize::MAX),
        timeout_ms: 1,
    };
    assert!(debouncer.bump());
    assert_eq!(debouncer.serial, Some(0));
}

#[test]
fn waiters_receive_the_completed_hashes_in_order() {
    let (mut sub, jobs) = started();
    assert!(sub.handle_query(spec("packages/foo"), 1).is_none());
    assert!(sub.handle_query(spec("packages/foo"), 2).is_none());
    let replies = complete(
        &mut sub,
        job_for(&jobs, "packages/foo"),
        make_expected(vec![("a", "1")]),
    );
    assert_eq!(replies.len(), 2);
    assert_eq!(replies[0].waiter, 1);
    assert_eq!(replies[1].waiter, 2);
    for reply in &replies {
        match &reply.result {
            Ok(h) => assert_eq!(h.entries, vec![("a".to_string(), "1".to_string())]),
            Err(e) => panic!("unexpected error {:?}", e),
        }
    }
}

#[test]
fn ready_query_repeats_same_hashes() {
    let (mut sub, jobs) = started();
    complete(
        &mut sub,
        job_for(&jobs, "packages/bar"),
        make_expected(vec![("x", "1"), ("y", "2")]),
    );
    let first = query_hashes(&mut sub, "packages/bar", 1);
    let second = query_hashes(&mut sub, "packages/bar", 2);
    assert_eq!(first, second);
    assert_eq!(first.len(), 2);
}

#[test]
fn stale_completion_is_dropped() {
    let (mut sub, jobs) = started();
    let old_job = job_for(&jobs, "packages/foo");
    let new_jobs = file_event(&mut sub, &["packages/foo/foo-file"], false);
    assert_eq!(new_jobs.len(), 1);
    assert_ne!(new_jobs[0].version, old_job.version);
    assert!(sub.handle_query(spec("packages/foo"), 3).is_none());
    let replies = complete(&mut sub, old_job, make_expected(vec![("old", "0")]));
    assert!(replies.is_empty());
    assert!(matches!(
        sub.hashes.get(&spec("packages/foo")),
        Some(HashState::Pending(_, _))
    ));
    let replies = complete(&mut sub, &new_jobs[0], make_expected(vec![("new", "1")]));
    assert_eq!(replies.len(), 1);
    assert_eq!(replies[0].waiter, 3);
}

#[test]
fn hashing_error_is_cached() {
    let (mut sub, jobs) = started();
    assert!(sub.handle_query(spec("packages/foo"), 1).is_none());
    let job = job_for(&jobs, "packages/foo");
    let replies = sub.handle_hash_update(HashUpdate {
        spec: job.spec.duplicate(),
        version: job.version,
        result: Err("git failed".to_string()),
    });
    assert_eq!(replies.len(), 1);
    assert!(matches!(&replies[0].result, Err(Error::HashingError(m)) if m == "git failed"));
    match sub.handle_query(spec("packages/foo"), 2) {
        Some(Reply {
            result: Err(Error::HashingError(m)),
            ..
        }) => assert_eq!(m, "git failed"),
        other => panic!("expected a hashing error, got {:?}", other),
    }
}

#[test]
fn removed_package_waiters_are_told() {
    let (mut sub, _jobs) = started();
    assert!(sub.handle_query(spec("packages/bar"), 9).is_none());
    let effects = sub.handle_package_data_update(&topology(&["packages/foo"]));
    assert!(effects.jobs.is_empty());
    assert_eq!(effects.replies.len(), 1);
    assert_eq!(effects.replies[0].waiter, 9);
    assert!(matches!(&effects.replies[0].result, Err(Error::Unavailable(m)) if m == REMOVED));
    assert!(!sub.hashes.contains_key(&spec("packages/bar")));
    assert!(sub.hashes.contains_key(&spec("packages/foo")));
}

#[test]
fn lost_topology_drains_everything() {
    let (mut sub, _jobs) = started();
    assert!(sub.handle_query(spec("packages/foo"), 4).is_none());
    let effects = sub.handle_package_data_update(&Some(Err("broken".to_string())));
    assert!(effects.jobs.is_empty());
    assert_eq!(effects.replies.len(), 1);
    assert!(
        matches!(&effects.replies[0].result, Err(Error::Unavailable(m)) if m == DISCOVERY_UNAVAILABLE)
    );
    let effects = sub.handle_package_data_update(&None);
    assert!(effects.replies.is_empty());
    assert!(matches!(
        sub.handle_query(spec("packages/foo"), 5),
        Some(Reply {
            result: Err(Error::UnknownPackage(_)),
            ..
        })
    ));
}

#[test]
fn flush_and_rehash_restarts_every_package() {
    let (mut sub, _jobs) = started();
    assert!(sub.handle_query(spec("packages/foo"), 1).is_none());
    let reason = "file watcher lagged".to_string();
    let effects = sub.flush_and_rehash(&topology(&["packages/foo", "packages/bar"]), &reason);
    assert_eq!(effects.replies.len(), 1);
    assert!(matches!(&effects.replies[0].result, Err(Error::Unavailable(m)) if m == "file watcher lagged"));
    assert_eq!(effects.jobs.len(), 2);
    assert!(sub.handle_query(spec("packages/bar"), 2).is_none());
}

#[test]
fn insert_then_remove_leaves_index_empty() {
    let mut sub = Subscriber::new();
    sub.handle_package_data_update(&topology(&["packages/foo"]));
    let effects = sub.handle_package_data_update(&topology(&[]));
    assert!(effects.jobs.is_empty());
    assert!(!sub.hashes.contains_key(&spec("packages/foo")));
    let changed = sub.changed_packages(&vec!["packages/foo/file".to_string()]);
    assert!(changed.is_empty());
}

#[test]
fn second_identical_event_is_absorbed() {
    let (mut sub, _jobs) = started();
    let first = file_event(&mut sub, &["packages/foo/foo-file"], false);
    assert_eq!(first.len(), 1);
    // the new job's debouncer is still live and takes the bump
    let second = file_event(&mut sub, &["packages/foo/foo-file"], true);
    assert!(second.is_empty());
}

#[test]
fn fired_debouncer_keeps_waiters_on_new_job() {
    let (mut sub, jobs) = started();
    assert!(sub.handle_query(spec("packages/foo"), 5).is_none());
    let fresh = file_event(&mut sub, &["packages/foo/foo-file"], false);
    assert_eq!(fresh.len(), 1);
    assert_ne!(fresh[0].version, job_for(&jobs, "packages/foo").version);
    match sub.hashes.get(&spec("packages/foo")) {
        Some(HashState::Pending(v, waiters)) => {
            assert_eq!(*v, fresh[0].version);
            assert_eq!(waiters, &vec![5]);
        }
        other => panic!("expected a pending state, got {:?}", other),
    }
}

#[test]
fn longest_package_wins_and_no_false_prefix() {
    let mut sub = Subscriber::new();
    sub.handle_package_data_update(&topology(&["packages", "packages/foo"]));
    let owner = |sub: &Subscriber, p: &str| sub.hashes.get_package_path(&p.to_string());
    assert_eq!(owner(&sub, "packages/foo/src/a.js"), Some("packages/foo".to_string()));
    assert_eq!(owner(&sub, "packages/foo"), Some("packages/foo".to_string()));
    assert_eq!(owner(&sub, "packages/foobar/x"), Some("packages".to_string()));
    assert_eq!(owner(&sub, "other/file"), None);
    let changed = sub.changed_packages(&vec![
        "packages/foo/a".to_string(),
        "packages/foo/b".to_string(),
        "packages/readme".to_string(),
        "elsewhere".to_string(),
    ]);
    assert_eq!(changed, vec!["packages/foo".to_string(), "packages".to_string()]);
}

#[test]
fn root_package_owns_everything() {
    let mut sub = Subscriber::new();
    sub.handle_package_data_update(&topology(&[""]));
    assert_eq!(
        sub.hashes.get_package_path(&"any/where".to_string()),
        Some(String::new())
    );
}

#[test]
fn specs_with_inputs_are_separate_entries() {
    let (mut sub, _jobs) = started();
    let globbed = HashSpec {
        package_path: "packages/foo".to_string(),
        inputs: Some(vec!["src/**".to_string()]),
    };
    sub.hashes.insert(globbed.duplicate(), HashState::Unavailable("nope".to_string()));
    assert!(sub.hashes.contains_key(&globbed));
    assert!(matches!(
        sub.hashes.get(&spec("packages/foo")),
        Some(HashState::Pending(_, _))
    ));
    match sub.handle_query(globbed, 1) {
        Some(Reply {
            result: Err(Error::HashingError(m)),
            ..
        }) => assert_eq!(m, "nope"),
        other => panic!("expected a hashing error, got {:?}", other),
    }
    let other = HashSpec {
        package_path: "packages/foo".to_string(),
        inputs: Some(vec!["lib/**".to_string()]),
    };
    assert!(!sub.hashes.contains_key(&other));
}

#[test]
fn git_hashes_duplicate_is_equal() {
    let h = make_expected(vec![("a", "1"), ("b", "2")]);
    let d = h.duplicate();
    assert_eq!(d.entries, h.entries);
    assert_eq!(d.entries.len(), 2);
}
