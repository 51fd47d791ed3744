use cm_bump::bumper::{
    is_parent, parse_cmdline, parse_entry_pid, parse_stat_ppid, pid_exists, Bumper,
    CmdlinePattern, Error, ProcEntry, ProcTable, ProcessDetection, ProcessDetector,
};

const STAT: &str = "327321 (cm)bump) S 135114 327321 135114 34824 327321 1077936128 3274 0 0 0 21 0 0 0 20 0 9 0 3568036 657534976 6792 18446744073709551615 94252542341120 94252554575081 140734720655776 0 0 0 0 4096 1088 0 0 0 17 6 0 0 0 0 0 94252558218784 94252559146553 94252566843392 140734720662251 140734720662323 140734720662323 140734720667630 0";

#[test]
fn test_stat_parsing() {
    // an executable with a ')' in its name... yuck!
    let stat = STAT;
    match stat.rfind(") ") {
        Some(last_paren) => {
            let splits: Vec<&str> = stat.split_at(last_paren + 2).1.split(" ").collect();
            assert_eq!("135114", splits[1])
        }
        None => {
            println!("rfind failed.");
        }
    }
}

#[test]
fn stat_ppid_after_last_paren() {
    let stat = STAT.as_bytes().to_vec();
    assert_eq!(parse_stat_ppid(&stat), Some(135114));
    assert!(is_parent(135114, &stat));
    assert!(!is_parent(327321, &stat));
}

#[test]
fn stat_ppid_malformed() {
    assert_eq!(parse_stat_ppid(&b"12 (x) S".to_vec()), None);
    assert_eq!(parse_stat_ppid(&b"12 x S 4".to_vec()), None);
    assert_eq!(parse_stat_ppid(&b"12 (x) S abc 4".to_vec()), None);
    assert_eq!(parse_stat_ppid(&b"12 (x) S -7 4".to_vec()), Some(-7));
    assert_eq!(parse_stat_ppid(&b"12 (x) S +7".to_vec()), Some(7));
    assert_eq!(parse_stat_ppid(&b"12 (x) S 2147483648 4".to_vec()), None);
    assert_eq!(parse_stat_ppid(&b"12 (x) S -2147483648 4".to_vec()), Some(-2147483648));
}

#[test]
fn entry_names_as_pids() {
    assert_eq!(parse_entry_pid(&b"1234".to_vec()), Some(1234));
    assert_eq!(parse_entry_pid(&b"0".to_vec()), Some(0));
    assert_eq!(parse_entry_pid(&b"self".to_vec()), None);
    assert_eq!(parse_entry_pid(&b"".to_vec()), None);
    assert_eq!(parse_entry_pid(&b"+12".to_vec()), None);
    assert_eq!(parse_entry_pid(&b"2147483647".to_vec()), Some(2147483647));
    assert_eq!(parse_entry_pid(&b"2147483648".to_vec()), None);
}

#[test]
fn cmdline_joins_arguments() {
    assert_eq!(parse_cmdline(&b"nginx\0-g\0daemon off;\0".to_vec()), "nginx -g daemon off;");
    assert_eq!(parse_cmdline(&b"".to_vec()), "");
    assert_eq!(parse_cmdline(&b"\0a\0".to_vec()), "a");
    assert_eq!(parse_cmdline(&b"a\0\xff\0b".to_vec()), "a  b");
    assert_eq!(parse_cmdline(&b"  x \0".to_vec()), "x");
}

fn entry(pid: &str, cmdline: &str, ppid: i32) -> ProcEntry {
    let mut argv = cmdline.replace(' ', "\0").into_bytes();
    argv.push(0);
    ProcEntry {
        name: pid.as_bytes().to_vec(),
        cmdline: Some(argv),
        stat: Some(format!("{} (x) S {} 1 1", pid, ppid).into_bytes()),
    }
}

fn pattern(p: &str) -> ProcessDetection {
    match CmdlinePattern::new(p) {
        Ok(p) => ProcessDetection::Cmdline(p),
        Err(e) => panic!("{:?}", e),
    }
}

#[test]
fn pattern_compiles_or_fails() {
    assert!(matches!(CmdlinePattern::new("("), Err(Error::InitError(_))));
    let p = CmdlinePattern::new("^nginx").unwrap_or_else(|e| panic!("{:?}", e));
    assert_eq!(p.as_str(), "^nginx");
    assert!(p.is_match("nginx -g x"));
    assert!(!p.is_match("sh -c nginx"));
}

#[test]
fn resolves_and_follows_restart() {
    let mut chain = ProcessDetector::new(vec![pattern("^nginx"), ProcessDetection::Pid(1)]);
    let t1 = ProcTable {
        entries: vec![entry("1", "init", 0), entry("self", "nginx", 1), entry("20", "nginx -g x", 1)],
    };
    assert_eq!(chain.pid(&t1), Some(20));
    assert_eq!(chain.pid(&t1), Some(20));
    let gone = ProcTable { entries: vec![entry("1", "init", 0), entry("21", "sh", 1)] };
    assert_eq!(chain.pid(&gone), None);
    let t2 = ProcTable { entries: vec![entry("1", "init", 0), entry("35", "nginx -g y", 1)] };
    assert_eq!(chain.pid(&t2), Some(35));
}

#[test]
fn ancestry_must_match() {
    let mut chain = ProcessDetector::new(vec![pattern("^nginx"), pattern("^supervisor")]);
    let t = ProcTable {
        entries: vec![
            entry("5", "supervisor", 1),
            entry("6", "other", 1),
            entry("7", "nginx", 6),
        ],
    };
    assert_eq!(chain.pid(&t), None);
    let t2 = ProcTable {
        entries: vec![entry("5", "supervisor", 1), entry("8", "nginx", 5)],
    };
    assert_eq!(chain.pid(&t2), Some(8));
    let no_parent = ProcTable { entries: vec![entry("8", "nginx", 5)] };
    assert_eq!(chain.pid(&no_parent), None);
}

#[test]
fn pid_criteria() {
    let t = ProcTable { entries: vec![entry("42", "app", 1)] };
    assert!(pid_exists(&t, 42));
    assert!(!pid_exists(&t, 43));
    let mut by_pid = ProcessDetector::new(vec![ProcessDetection::Pid(42)]);
    assert_eq!(by_pid.pid(&t), Some(42));
    let mut missing = ProcessDetector::new(vec![ProcessDetection::Pid(43)]);
    assert_eq!(missing.pid(&t), None);
    // 0 always matches, as the root of the tree
    let mut under_root = ProcessDetector::new(vec![pattern("^app"), ProcessDetection::Pid(0)]);
    let t0 = ProcTable { entries: vec![entry("42", "app", 0)] };
    assert_eq!(under_root.pid(&t0), Some(42));
}

#[test]
fn bumper_needs_criteria_and_signal() {
    assert!(matches!(Bumper::new(vec![], "SIGHUP"), Err(Error::InitError(_))));
    assert!(matches!(
        Bumper::new(vec![ProcessDetection::Pid(1)], "SIGNOPE"),
        Err(Error::InitError(_))
    ));
    let mut b = match Bumper::new(vec![pattern("^app")], "SIGHUP") {
        Ok(b) => b,
        Err(e) => panic!("{:?}", e),
    };
    assert_eq!(b.signal(), nix::sys::signal::Signal::SIGHUP);
    let t = ProcTable { entries: vec![entry("9", "app", 1)] };
    assert_eq!(b.bump(&t), Some(9));
    assert_eq!(b.bump(&ProcTable { entries: vec![] }), None);
}

#[test]
fn delivery_failure_is_signal_error() {
    assert!(Bumper::delivery_result(Ok(())).is_ok());
    assert!(matches!(
        Bumper::delivery_result(Err(nix::errno::Errno::EPERM)),
        Err(Error::SignalError(_))
    ));
}
