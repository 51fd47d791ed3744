use cm_bump::bumper::{Bumper, CmdlinePattern, ProcEntry, ProcTable, ProcessDetection};
use cm_bump::operator::{Error, OperatorState};
use cm_bump::updater::{bump_result, ConfigFiles, ConfigUpdater, DirStatus, ReconcilePlan};
use std::collections::BTreeMap;

type Disk = BTreeMap<String, Vec<u8>>;

fn pairs(items: &[(&str, &str)]) -> Vec<(String, String)> {
    items.iter().map(|(k, v)| (k.to_string(), v.to_string())).collect()
}

fn updater(bumper: Option<Bumper>) -> ConfigUpdater {
    let status = Ok(DirStatus { is_dir: true, readonly: false });
    match ConfigUpdater::new("/etc/app", bumper, status) {
        Ok(u) => u,
        Err(e) => panic!("{:?}", e),
    }
}

fn observe(new: Option<&ConfigFiles>, disk: &Disk) -> Vec<Option<Vec<u8>>> {
    match new {
        Some(n) => (0..n.len()).map(|i| disk.get(n.name(i).as_str()).cloned()).collect(),
        None => vec![],
    }
}

/// Carries the plan out on the in-memory directory; the names written.
fn carry_out(plan: &ReconcilePlan, disk: &mut Disk) -> Vec<String> {
    for d in &plan.deletions {
        disk.remove(d.as_str());
    }
    let mut written = vec![];
    for w in &plan.writes {
        disk.insert(w.name.clone(), w.content.as_bytes().to_vec());
        written.push(w.name.clone());
    }
    written
}

fn target_table() -> ProcTable {
    ProcTable {
        entries: vec![ProcEntry {
            name: b"77".to_vec(),
            cmdline: Some(b"app\0--serve\0".to_vec()),
            stat: Some(b"77 (app) S 1 77 77".to_vec()),
        }],
    }
}

fn bumper() -> Bumper {
    let p = CmdlinePattern::new("^app").unwrap_or_else(|e| panic!("{:?}", e));
    match Bumper::new(vec![ProcessDetection::Cmdline(p)], "SIGHUP") {
        Ok(b) => b,
        Err(e) => panic!("{:?}", e),
    }
}

#[test]
fn prepare_computes_digests() {
    let u = updater(None);
    let files = u.prepare(&pairs(&[("a.txt", "hello"), ("b.txt", "world"), ("c", "")]));
    assert_eq!(files.len(), 3);
    assert_eq!(files.name(0), "a.txt");
    assert_eq!(files.file(0).content, "hello");
    assert_eq!(files.file(0).digest, "aaf4c61ddcc5e8a2dabede0f3b482cd9aea9434d");
    assert_eq!(files.file(1).digest, "7c211433f02071597741e6ff5a8ea34789abbf43");
    assert_eq!(files.file(2).digest, "da39a3ee5e6b4b0d3255bfef95601890afd80709");
}

#[test]
fn prepare_last_pair_wins() {
    let u = updater(None);
    let files = u.prepare(&pairs(&[("a", "one"), ("b", "x"), ("a", "two")]));
    assert_eq!(files.len(), 2);
    assert!(files.contains_key(&"a".to_string()));
    assert!(!files.contains_key(&"z".to_string()));
    assert_eq!(files.file(0).content, "two");
}

#[test]
fn base_dir_must_be_a_writable_directory() {
    let ok = ConfigUpdater::new("/d", None, Ok(DirStatus { is_dir: true, readonly: false }));
    assert_eq!(ok.map(|u| u.dir().clone()).ok(), Some("/d".to_string()));
    let not_dir = ConfigUpdater::new("/d", None, Ok(DirStatus { is_dir: false, readonly: false }));
    assert!(matches!(not_dir, Err(Error::OperatorError(_))));
    let readonly = ConfigUpdater::new("/d", None, Ok(DirStatus { is_dir: true, readonly: true }));
    assert!(matches!(readonly, Err(Error::OperatorError(_))));
    let missing = ConfigUpdater::new("/d", None, Err("not found".to_string()));
    assert!(matches!(missing, Err(Error::OperatorError(_))));
}

#[test]
fn unchanged_file_is_not_rewritten() {
    let u = updater(None);
    let new = u.prepare(&pairs(&[("a.txt", "hello")]));
    let same = vec![Some(b"hello".to_vec())];
    assert!(u.reconcile(None, Some(&new), &same).writes.is_empty());
    let stale = vec![Some(b"hallo".to_vec())];
    assert_eq!(u.reconcile(None, Some(&new), &stale).writes.len(), 1);
    let absent = vec![None];
    assert_eq!(u.reconcile(None, Some(&new), &absent).writes.len(), 1);
    assert_eq!(u.reconcile(None, Some(&new), &vec![]).writes.len(), 1);
}

#[test]
fn reconcile_twice_is_idempotent() {
    let u = updater(None);
    let old = u.prepare(&pairs(&[("a", "1"), ("b", "2")]));
    let new = u.prepare(&pairs(&[("b", "3"), ("c", "4")]));
    let mut disk: Disk = BTreeMap::new();
    disk.insert("a".into(), b"1".to_vec());
    disk.insert("b".into(), b"2".to_vec());
    let first = u.reconcile(Some(&old), Some(&new), &observe(Some(&new), &disk));
    assert_eq!(carry_out(&first, &mut disk), vec!["b".to_string(), "c".to_string()]);
    let after = disk.clone();
    let second = u.reconcile(Some(&old), Some(&new), &observe(Some(&new), &disk));
    assert!(carry_out(&second, &mut disk).is_empty());
    assert_eq!(disk, after);
}

#[test]
fn create_materializes_exactly() {
    let u = updater(None);
    let new = u.prepare(&pairs(&[("x.conf", "k=v"), ("y.conf", "")]));
    let mut disk: Disk = BTreeMap::new();
    let plan = u.reconcile(None, Some(&new), &observe(Some(&new), &disk));
    assert!(plan.deletions.is_empty());
    carry_out(&plan, &mut disk);
    let mut expected: Disk = BTreeMap::new();
    expected.insert("x.conf".into(), b"k=v".to_vec());
    expected.insert("y.conf".into(), vec![]);
    assert_eq!(disk, expected);
}

#[test]
fn no_bump_without_write_or_bumper() {
    let mut u = updater(Some(bumper()));
    assert!(u.has_bumper());
    assert_eq!(u.bump_target(false, &target_table()), None);
    assert_eq!(u.bump_target(true, &target_table()), Some(77));
    let mut plain = updater(None);
    assert!(plain.signal().is_none());
    assert_eq!(plain.bump_target(true, &target_table()), None);
    assert!(bump_result(Ok(())).is_ok());
    assert!(matches!(
        bump_result(Err(nix::errno::Errno::ESRCH)),
        Err(Error::OperatorError(_))
    ));
}

#[test]
fn cache_transitions() {
    let mut state: OperatorState<u32> = OperatorState::new();
    assert_eq!(state.on_create("a".into(), 1), None);
    assert_eq!(state.on_create("a".into(), 2), Some(1));
    assert_eq!(state.on_update("a".into(), 3).ok(), Some(2));
    assert!(matches!(state.on_update("b".into(), 9), Err(Error::OperatorError(_))));
    assert_eq!(state.get(&"b".to_string()), Some(&9));
    assert_eq!(state.on_delete(&"a".to_string()).ok(), Some(3));
    assert!(matches!(state.on_delete(&"a".to_string()), Err(Error::OperatorError(_))));
    assert_eq!(state.get(&"a".to_string()), None);
}

/// One event through the engine and the updater; whether it bumped.
fn handle(
    state: &mut OperatorState<ConfigFiles>,
    u: &mut ConfigUpdater,
    disk: &mut Disk,
    event: &str,
    data: &[(&str, &str)],
) -> bool {
    let name = "cfg".to_string();
    let old = match event {
        "create" => state.on_create(name.clone(), u.prepare(&pairs(data))),
        "update" => Some(state.on_update(name.clone(), u.prepare(&pairs(data))).unwrap_or_else(|e| panic!("{:?}", e))),
        _ => Some(state.on_delete(&name).unwrap_or_else(|e| panic!("{:?}", e))),
    };
    let new = state.get(&name);
    let plan = u.reconcile(old.as_ref(), new, &observe(new, disk));
    let written = carry_out(&plan, disk);
    u.bump_target(!written.is_empty(), &target_table()).is_some()
}

#[test]
fn end_to_end_scenario() {
    let mut state: OperatorState<ConfigFiles> = OperatorState::new();
    let mut u = updater(Some(bumper()));
    let mut disk: Disk = BTreeMap::new();

    assert!(handle(&mut state, &mut u, &mut disk, "create", &[("a.txt", "hello")]));
    assert_eq!(disk.get("a.txt").cloned(), Some(b"hello".to_vec()));

    let a_before = disk.get("a.txt").cloned();
    let plan_check = {
        let old = u.prepare(&pairs(&[("a.txt", "hello")]));
        let new = u.prepare(&pairs(&[("a.txt", "hello"), ("b.txt", "world")]));
        u.reconcile(Some(&old), Some(&new), &observe(Some(&new), &disk))
    };
    assert_eq!(plan_check.writes.len(), 1);
    assert_eq!(plan_check.writes[0].name, "b.txt");
    assert!(handle(&mut state, &mut u, &mut disk, "update", &[("a.txt", "hello"), ("b.txt", "world")]));
    assert_eq!(disk.get("b.txt").cloned(), Some(b"world".to_vec()));
    assert_eq!(disk.get("a.txt").cloned(), a_before);

    // Removing a file is no content write: the pass is not marked changed.
    assert!(!handle(&mut state, &mut u, &mut disk, "update", &[("b.txt", "world")]));
    assert!(!disk.contains_key("a.txt"));
    assert_eq!(disk.get("b.txt").cloned(), Some(b"world".to_vec()));

    assert!(!handle(&mut state, &mut u, &mut disk, "delete", &[]));
    assert!(disk.is_empty());
}
