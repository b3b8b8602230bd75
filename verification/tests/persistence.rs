//! State files.

use copytrading_bot::clock::Timestamp;
use copytrading_bot::persistence::{
    AlertPersistedState, Found, PersistenceStore, SaveAction, SaveEvent, SaveStage, SeenTradesFile,
    StateFile,
};
use copytrading_bot::table::Table;

fn store(dir: &str) -> PersistenceStore {
    PersistenceStore::new(dir.to_string())
}

fn at() -> Timestamp {
    Timestamp::new(0, 0).unwrap()
}

#[test]
fn paths_are_joined_by_one_separator() {
    assert_eq!(store("state").path("x.json"), "state/x.json");
    assert_eq!(store("state/").path("x.json"), "state/x.json");
    assert_eq!(store("").path("x.json"), "x.json");
    assert_eq!(store("state").path("/abs"), "/abs");
    for (dir, file) in [("a/b", "c"), ("a", ""), ("", "c"), ("/", "c"), ("a", "/c")] {
        let expected = std::path::Path::new(dir).join(file);
        assert_eq!(store(dir).path(file), expected.to_str().unwrap());
    }
}

#[test]
fn files_have_siblings() {
    let s = store("d");
    assert_eq!(s.state_path(StateFile::BotState), "d/bot_state.json");
    assert_eq!(s.temp_path(StateFile::SeenTrades), "d/seen_trades.tmp");
    assert_eq!(s.backup_path(StateFile::AlertState), "d/alert_state.bak");
    assert_eq!(
        s.quarantine_path(StateFile::SeenTrades, at()),
        "d/seen_trades.corrupt.19700101T000000.json"
    );
}

#[test]
fn missing_file_gives_nothing() {
    let loaded = store("d").load_bot_state(Found::Missing, at()).unwrap();
    assert!(loaded.value.is_none());
    assert!(loaded.quarantine.is_none());
    let (seen, quarantine) = store("d").load_seen_trades(Found::Missing, at()).unwrap();
    assert_eq!(seen.len(), 0);
    assert!(quarantine.is_none());
}

#[test]
fn unreadable_file_is_an_error() {
    let error = store("d").load_alert_state(Found::Unreadable, at()).unwrap_err();
    assert_eq!(error, "Failed reading d/alert_state.json");
    let error = store("d").load_seen_trades(Found::Unreadable, at()).unwrap_err();
    assert_eq!(error, "Failed reading d/seen_trades.json");
}

#[test]
fn corrupted_lists_are_kept_aside() {
    let (seen, quarantine) = store("d").load_seen_trades(Found::Corrupted, at()).unwrap();
    assert_eq!(seen.len(), 0);
    assert_eq!(quarantine.unwrap(), "d/seen_trades.corrupt.19700101T000000.json");
}

#[test]
fn repeated_trades_are_seen_once() {
    let text = |s: &str| s.to_string();
    let file = SeenTradesFile {
        by_whale: vec![
            (text("w"), vec![text("a"), text("b"), text("a")]),
            (text("v"), vec![]),
        ],
    };
    let (seen, _) = store("d").load_seen_trades(Found::Parsed(file), at()).unwrap();
    assert_eq!(seen.get("w").unwrap().len(), 2);
    assert_eq!(seen.get("v").unwrap().len(), 0);
    let (again, _) = store("d").save_seen_trades(&seen);
    assert_eq!(again.by_whale[0].0, "w");
    assert_eq!(again.by_whale[0].1, vec![text("a"), text("b")]);
}

#[test]
fn file_is_replaced_step_by_step() {
    let s = store("d");
    let mut job = s.save_bot_state();
    assert_eq!(job.stage, SaveStage::Serializing);
    assert_eq!(job.target, "d/bot_state.json");
    assert_eq!(job.temp, "d/bot_state.tmp");
    assert_eq!(job.backup, "d/bot_state.bak");
    assert_eq!(job.step(SaveEvent::Yes), SaveAction::WriteTemp);
    assert_eq!(job.step(SaveEvent::Yes), SaveAction::CheckTarget);
    assert_eq!(job.step(SaveEvent::Yes), SaveAction::Backup);
    assert_eq!(job.step(SaveEvent::No), SaveAction::Replace);
    assert_eq!(job.step(SaveEvent::Yes), SaveAction::Finished);
    assert_eq!(job.target, "d/bot_state.json");
    assert_eq!(s.save_alert_state().target, "d/alert_state.json");
    assert_eq!(s.save_seen_trades(&Table::new()).1.target, "d/seen_trades.json");
}

#[test]
fn new_file_needs_no_backup() {
    let mut job = store("d").save_alert_state();
    job.step(SaveEvent::Yes);
    job.step(SaveEvent::Yes);
    assert_eq!(job.step(SaveEvent::No), SaveAction::Replace);
}

#[test]
fn failures_are_reported_with_the_path() {
    let s = store("d");
    let mut job = s.save_bot_state();
    let action = job.step(SaveEvent::No);
    assert_eq!(action, SaveAction::FailSerializing);
    assert_eq!(s.failure_message(job.file, action), "Failed serializing d/bot_state.json");

    let mut job = s.save_bot_state();
    job.step(SaveEvent::Yes);
    let action = job.step(SaveEvent::No);
    assert_eq!(s.failure_message(job.file, action), "Failed writing temp file d/bot_state.tmp");

    let mut job = s.save_bot_state();
    job.step(SaveEvent::Yes);
    job.step(SaveEvent::Yes);
    job.step(SaveEvent::No);
    let action = job.step(SaveEvent::No);
    assert_eq!(s.failure_message(job.file, action), "Failed atomically replacing d/bot_state.json");
    assert_eq!(s.failure_message(job.file, SaveAction::Finished), "");
}

#[test]
fn nothing_is_remembered_by_default() {
    let s = AlertPersistedState::default();
    assert_eq!(s.last_signature, "");
    assert_eq!(s.last_breaker_signature, "");
    assert!(s.last_sent_at.is_none());
}

#[test]
fn later_save_replaces_the_earlier_and_a_failed_one_leaves_it() {
    let mut contents = "old";
    let mut save = |new: &'static str, failing: Option<SaveAction>| {
        let mut job = store("d").save_bot_state();
        let mut action = job.step(SaveEvent::Yes);
        while matches!(
            action,
            SaveAction::WriteTemp | SaveAction::CheckTarget | SaveAction::Backup | SaveAction::Replace
        ) {
            let fails = failing == Some(action);
            if action == SaveAction::Replace && !fails {
                contents = new;
            }
            action = job.step(if fails { SaveEvent::No } else { SaveEvent::Yes });
        }
        (action, contents)
    };
    assert_eq!(save("first", None), (SaveAction::Finished, "first"));
    assert_eq!(save("second", None), (SaveAction::Finished, "second"));
    assert_eq!(save("lost", Some(SaveAction::WriteTemp)), (SaveAction::FailWriting, "second"));
    assert_eq!(save("lost", Some(SaveAction::Replace)), (SaveAction::FailReplacing, "second"));
    assert_eq!(save("third", Some(SaveAction::Backup)), (SaveAction::Finished, "third"));
}
