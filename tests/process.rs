use scapegoat::process::{DetailedState, Proc, State, StopKind};

#[test]
fn main_test_size() {
    assert_eq!(core::mem::size_of::<Proc>(), 48);
}

#[test]
fn main_test_stop_match() {
    let s = State::Stopped;
    match s {
        State::Running => unreachable!(),
        State::Stopped => {}
        State::Sleeping => unreachable!(),
    }
}

#[test]
fn main_test_detailed_stop_match() {
    let s = DetailedState::Stopped {
        reason: StopKind::Mandatory,
    };
    match s {
        DetailedState::Stopped { reason } => {
            assert_eq!(reason, StopKind::Mandatory);
        }
        _ => unreachable!(),
    }
}

#[test]
fn process_tree_builds() {
    let bash = Proc::new("bash", State::Running, Vec::new());
    let rsyslogd = Proc::new("rsyslogd", State::Running, vec![bash]);
    let cron = Proc::new("cron", State::Sleeping, Vec::new());
    let init = Proc::new("init", State::Running, vec![cron, rsyslogd]);
    let shown = format!("{:?}", init);
    assert!(shown.contains("rsyslogd"));
    assert!(shown.contains("bash"));
}
