use transcribe_stream::session::{ReadOutcome, ReaderState, SessionManager};

#[test]
fn start_hands_out_fresh_identifiers() {
    let mut m = SessionManager::new();
    let first = m.start();
    assert_eq!(first.session, 0);
    assert_eq!(first.replaces, None);
    assert_eq!(m.stop(), Some(0));
    let second = m.start();
    assert_eq!(second.session, 1);
    assert_eq!(second.replaces, None);
    assert_ne!(first.session, second.session);
}

#[test]
fn start_while_active_replaces_the_old_session() {
    let mut m = SessionManager::new();
    let first = m.start();
    let second = m.start();
    assert_eq!(second.replaces, Some(first.session));
    assert!(first.session < second.session);
}

#[test]
fn stop_without_active_session_is_a_no_op() {
    let mut m = SessionManager::new();
    assert_eq!(m.stop(), None);
    m.start();
    assert_eq!(m.stop(), Some(0));
    assert_eq!(m.stop(), None);
}

#[test]
fn reader_keeps_running_on_chunks() {
    assert_eq!(ReaderState::Running.step(ReadOutcome::Chunk), ReaderState::Running);
}

#[test]
fn reader_drains_then_terminates_at_end_of_stream() {
    let drained = ReaderState::Running.step(ReadOutcome::EndOfStream);
    assert_eq!(drained, ReaderState::Draining);
    assert_eq!(drained.step(ReadOutcome::Chunk), ReaderState::Terminated);
}

#[test]
fn reader_terminates_on_read_failure() {
    assert_eq!(ReaderState::Running.step(ReadOutcome::Failure), ReaderState::Terminated);
}

#[test]
fn terminated_reader_never_runs_again() {
    for outcome in [ReadOutcome::Chunk, ReadOutcome::EndOfStream, ReadOutcome::Failure] {
        assert_eq!(ReaderState::Terminated.step(outcome), ReaderState::Terminated);
    }
}
