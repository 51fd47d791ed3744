use cm_bump::bumper::{Error, ProcessDetection};
use cm_bump::config::{bumper_config, process_detection_config, Opts};

fn opts() -> Opts {
    Opts {
        dir: "/etc/app".into(),
        namespace: "default".into(),
        tls_verify: None,
        labels: "app=x".into(),
        process_command: None,
        process_pid: None,
        process_parent_command: None,
        process_parent_pid: None,
        signal: None,
    }
}

#[test]
fn no_signal_no_bumper() {
    let mut o = opts();
    o.process_pid = Some(4);
    assert!(matches!(bumper_config(&o), Ok(None)));
}

#[test]
fn target_then_parent() {
    let mut o = opts();
    o.signal = Some("SIGHUP".into());
    o.process_command = Some("^nginx".into());
    o.process_parent_pid = Some(1);
    o.process_parent_command = Some("ignored".into());
    match bumper_config(&o) {
        Ok(Some((v, s))) => {
            assert_eq!(s, "SIGHUP");
            assert_eq!(v.len(), 2);
            assert!(matches!(&v[0], ProcessDetection::Cmdline(p) if p.as_str() == "^nginx"));
            assert!(matches!(v[1], ProcessDetection::Pid(1)));
        }
        _ => panic!("expected a configuration"),
    }
}

#[test]
fn empty_chain_when_nothing_described() {
    let mut o = opts();
    o.signal = Some("SIGTERM".into());
    match bumper_config(&o) {
        Ok(Some((v, _))) => assert!(v.is_empty()),
        _ => panic!("expected a configuration"),
    }
}

#[test]
fn bad_pattern_is_init_error() {
    let mut o = opts();
    o.signal = Some("SIGHUP".into());
    o.process_command = Some("([".into());
    assert!(matches!(bumper_config(&o), Err(Error::InitError(_))));
    assert!(matches!(process_detection_config(&Some("([".into()), &None), Err(Error::InitError(_))));
    assert!(matches!(process_detection_config(&Some("([".into()), &Some(3)), Ok(Some(ProcessDetection::Pid(3)))));
    assert!(matches!(process_detection_config(&None, &None), Ok(None)));
}
