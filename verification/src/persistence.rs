//! State files that survive a restart: their names, how they are read and how
//! they are replaced.

use crate::calendar::stamp_text;
use crate::clock::{formatted, Timestamp, NANOS_PER_SEC};
use crate::state::model::totals_cover_windows;
use crate::state::{BotState, BotStateSnapshot};
use crate::table::{keys, lemma_position, lookup, put, texts, with_keys, KeySet, Table};
use crate::text::{characters, optional_text};
use vstd::prelude::*;

verus! {

/// The state files.
#[derive(Clone, Copy, Debug, PartialEq, Eq, Structural)]
pub enum StateFile {
    BotState,
    SeenTrades,
    AlertState,
}

/// The name of a state file without its extension.
pub open spec fn stem(file: StateFile) -> Seq<char> {
    match file {
        StateFile::BotState => "bot_state"@,
        StateFile::SeenTrades => "seen_trades"@,
        StateFile::AlertState => "alert_state"@,
    }
}

/// The name of a state file under an extension.
pub open spec fn file_name(file: StateFile, extension: Seq<char>) -> Seq<char> {
    stem(file) + "."@ + extension
}

/// The path of `file` in the directory `dir`; `file` itself if it is absolute.
pub open spec fn joined(dir: Seq<char>, file: Seq<char>) -> Seq<char> {
    if file.len() > 0 && file[0] == '/' {
        file
    } else if dir.len() == 0 || dir.last() == '/' {
        dir + file
    } else {
        dir + "/"@ + file
    }
}

/// The extension under which a file that cannot be parsed is kept.
pub open spec fn quarantine_extension(at: Timestamp) -> Seq<char> {
    "corrupt."@ + stamp_text(at@ / NANOS_PER_SEC as int) + ".json"@
}

impl StateFile {
    /// The name of the file under an extension.
    pub fn name(&self, extension: &str) -> (r: String)
        ensures
            r@ == file_name(*self, extension@),
    {
        let mut out = (match self {
            StateFile::BotState => "bot_state",
            StateFile::SeenTrades => "seen_trades",
            StateFile::AlertState => "alert_state",
        }).to_owned();
        out.append(".");
        out.append(extension);
        out
    }
}

/// What was found in place of a state file.
#[derive(Debug)]
pub enum Found<T> {
    /// There is no such file.
    Missing,
    /// The file cannot be read.
    Unreadable,
    /// The file was read, but does not parse.
    Corrupted,
    /// The file was read and parsed.
    Parsed(T),
}

/// A file that was loaded.
#[derive(Debug)]
pub struct Loaded<T> {
    /// Its contents; none if it is missing or corrupted.
    pub value: Option<T>,
    /// Where a corrupted file is to be copied.
    pub quarantine: Option<String>,
}

/// What alerting remembers across a restart.
#[derive(Debug)]
pub struct AlertPersistedState {
    pub last_signature: String,
    pub last_sent_at: Option<Timestamp>,
    pub last_breaker_signature: String,
}

impl Default for AlertPersistedState {
    fn default() -> (r: AlertPersistedState)
        ensures
            r.last_signature@ == Seq::<char>::empty(),
            r.last_sent_at is None,
            r.last_breaker_signature@ == Seq::<char>::empty(),
    {
        AlertPersistedState {
            last_signature: String::new(),
            last_sent_at: None,
            last_breaker_signature: String::new(),
        }
    }
}

/// The trades that were seen, as they are stored.
#[derive(Debug)]
pub struct SeenTradesFile {
    pub by_whale: Vec<(String, Vec<String>)>,
}

/// The stored lists of trades, by wallet.
pub open spec fn stored_lists(entries: Seq<(String, Vec<String>)>) -> Seq<(Seq<char>, Seq<Seq<char>>)> {
    entries.map_values(|e: (String, Vec<String>)| (e.0@, texts(e.1@)))
}

/// The trades that were seen, by wallet.
pub open spec fn seen_lists(entries: Seq<(Seq<char>, KeySet)>) -> Seq<(Seq<char>, Seq<Seq<char>>)> {
    entries.map_values(|e: (Seq<char>, KeySet)| (e.0, e.1@))
}

/// Putting a set under a wallet puts its trades there.
pub proof fn lemma_seen_put(entries: Seq<(Seq<char>, KeySet)>, wallet: Seq<char>, set: KeySet)
    ensures
        seen_lists(put(entries, wallet, set)) == put(seen_lists(entries), wallet, set@),
        lookup(seen_lists(entries), wallet) == (match lookup(entries, wallet) {
            Some(s) => Some(s@),
            None => None,
        }),
{
    assert(keys(seen_lists(entries)) =~= keys(entries));
    lemma_position(keys(entries), wallet);
    assert(seen_lists(put(entries, wallet, set)) =~= put(seen_lists(entries), wallet, set@));
}

/// The trades that stored lists stand for: of several lists of one wallet the
/// last one counts, and a trade that is listed twice was seen once.
pub open spec fn restored(lists: Seq<(Seq<char>, Seq<Seq<char>>)>) -> Seq<(Seq<char>, Seq<Seq<char>>)>
    decreases lists.len(),
{
    if lists.len() == 0 {
        lists
    } else {
        put(restored(lists.drop_last()), lists.last().0, with_keys(Seq::empty(), lists.last().1))
    }
}

/// A list without repetitions is kept as it is.
pub proof fn lemma_distinct_list(list: Seq<Seq<char>>)
    requires
        list.no_duplicates(),
    ensures
        with_keys(Seq::empty(), list) == list,
    decreases list.len(),
{
    if list.len() > 0 {
        let shorter = list.drop_last();
        lemma_distinct_list(shorter);
        assert(!shorter.contains(list.last())) by {
            if shorter.contains(list.last()) {
                let i = choose|i: int| 0 <= i < shorter.len() && shorter[i] == list.last();
                assert(list[i] == list[list.len() - 1]);
            }
        }
        assert(shorter.push(list.last()) =~= list);
    }
}

/// What was stored is restored: the trades seen by wallet come back as they
/// were, in the order in which they were.
pub proof fn stored_trades_are_restored(seen: Seq<(Seq<char>, Seq<Seq<char>>)>)
    requires
        keys(seen).no_duplicates(),
        forall|i: int| 0 <= i < seen.len() ==> (#[trigger] seen[i]).1.no_duplicates(),
    ensures
        restored(seen) == seen,
    decreases seen.len(),
{
    if seen.len() > 0 {
        let shorter = seen.drop_last();
        assert(keys(shorter) =~= keys(seen).drop_last());
        assert forall|i: int| 0 <= i < shorter.len() implies (#[trigger] shorter[i]).1.no_duplicates() by {
            assert(seen[i].1.no_duplicates());
        }
        stored_trades_are_restored(shorter);
        assert(seen[seen.len() - 1].1.no_duplicates());
        lemma_distinct_list(seen.last().1);
        lemma_position(keys(shorter), seen.last().0);
        assert(!keys(shorter).contains(seen.last().0)) by {
            if keys(shorter).contains(seen.last().0) {
                let i = choose|i: int|
                    0 <= i < keys(shorter).len() && keys(shorter)[i] == seen.last().0;
                assert(keys(seen)[i] == keys(seen)[seen.len() - 1]);
            }
        }
        assert(shorter.push(seen.last()) =~= seen);
        assert(seen.last() == (seen.last().0, seen.last().1));
    }
}

/// How far the replacement of a file has come.
#[derive(Clone, Copy, Debug, PartialEq, Eq, Structural)]
pub enum SaveStage {
    /// The contents are being serialised.
    Serializing,
    /// The contents are being written beside the file.
    Writing,
    /// It is being found out whether the file exists.
    Looking,
    /// The old file is being copied.
    BackingUp,
    /// The new contents are being moved into place.
    Replacing,
    /// The file was replaced, or it was given up.
    Over,
}

/// What happened during the replacement of a file.
#[derive(Clone, Copy, Debug, PartialEq, Eq, Structural)]
pub enum SaveEvent {
    /// The step that was asked for succeeded; of a question, the answer is yes.
    Yes,
    /// The step that was asked for failed; of a question, the answer is no.
    No,
}

/// What is to be done next to replace a file.
#[derive(Clone, Copy, Debug, PartialEq, Eq, Structural)]
pub enum SaveAction {
    /// Write the contents to the temporary path.
    WriteTemp,
    /// Find out whether the file exists.
    CheckTarget,
    /// Copy the file to the backup path.
    Backup,
    /// Move the temporary file over the file.
    Replace,
    /// The file was replaced.
    Finished,
    /// Report that the contents cannot be serialised.
    FailSerializing,
    /// Report that the temporary file cannot be written.
    FailWriting,
    /// Report that the file cannot be replaced.
    FailReplacing,
}

/// What follows from an event. That the old file cannot be copied stops nothing.
pub open spec fn save_step(stage: SaveStage, event: SaveEvent) -> (SaveStage, SaveAction) {
    match (stage, event) {
        (SaveStage::Serializing, SaveEvent::Yes) => (SaveStage::Writing, SaveAction::WriteTemp),
        (SaveStage::Serializing, SaveEvent::No) => (SaveStage::Over, SaveAction::FailSerializing),
        (SaveStage::Writing, SaveEvent::Yes) => (SaveStage::Looking, SaveAction::CheckTarget),
        (SaveStage::Writing, SaveEvent::No) => (SaveStage::Over, SaveAction::FailWriting),
        (SaveStage::Looking, SaveEvent::Yes) => (SaveStage::BackingUp, SaveAction::Backup),
        (SaveStage::Looking, SaveEvent::No) => (SaveStage::Replacing, SaveAction::Replace),
        (SaveStage::BackingUp, _) => (SaveStage::Replacing, SaveAction::Replace),
        (SaveStage::Replacing, SaveEvent::Yes) => (SaveStage::Over, SaveAction::Finished),
        (SaveStage::Replacing, SaveEvent::No) => (SaveStage::Over, SaveAction::FailReplacing),
        (SaveStage::Over, _) => (SaveStage::Over, SaveAction::Finished),
    }
}

/// The replacement of a state file.
#[derive(Debug)]
pub struct SaveJob {
    pub file: StateFile,
    /// Path of the file that is replaced.
    pub target: String,
    /// Path at which the new contents are written first.
    pub temp: String,
    /// Path at which the old contents are kept.
    pub backup: String,
    pub stage: SaveStage,
}

/// Whether the replacement of a state file of a directory is about to begin: the
/// new contents are to be written beside the file and then moved over it, and
/// the old ones are to be kept beside it.
pub open spec fn is_beginning(job: SaveJob, dir: Seq<char>, file: StateFile) -> bool {
    &&& job.file == file
    &&& job.target@ == joined(dir, file_name(file, "json"@))
    &&& job.temp@ == joined(dir, file_name(file, "tmp"@))
    &&& job.backup@ == joined(dir, file_name(file, "bak"@))
    &&& job.stage == SaveStage::Serializing
}

impl SaveJob {
    /// Takes an event and decides what is to be done next.
    pub fn step(&mut self, event: SaveEvent) -> (r: SaveAction)
        ensures
            (final(self).stage, r) == save_step(old(self).stage, event),
            final(self).file == old(self).file,
            final(self).target == old(self).target,
            final(self).temp == old(self).temp,
            final(self).backup == old(self).backup,
    {
        let (stage, action) = match (self.stage, event) {
            (SaveStage::Serializing, SaveEvent::Yes) => (SaveStage::Writing, SaveAction::WriteTemp),
            (SaveStage::Serializing, SaveEvent::No) => (SaveStage::Over, SaveAction::FailSerializing),
            (SaveStage::Writing, SaveEvent::Yes) => (SaveStage::Looking, SaveAction::CheckTarget),
            (SaveStage::Writing, SaveEvent::No) => (SaveStage::Over, SaveAction::FailWriting),
            (SaveStage::Looking, SaveEvent::Yes) => (SaveStage::BackingUp, SaveAction::Backup),
            (SaveStage::Looking, SaveEvent::No) => (SaveStage::Replacing, SaveAction::Replace),
            (SaveStage::BackingUp, _) => (SaveStage::Replacing, SaveAction::Replace),
            (SaveStage::Replacing, SaveEvent::Yes) => (SaveStage::Over, SaveAction::Finished),
            (SaveStage::Replacing, SaveEvent::No) => (SaveStage::Over, SaveAction::FailReplacing),
            (SaveStage::Over, _) => (SaveStage::Over, SaveAction::Finished),
        };
        self.stage = stage;
        action
    }
}

/// The stage after a run of events from the beginning.
pub open spec fn stage_after(events: Seq<SaveEvent>) -> SaveStage
    decreases events.len(),
{
    if events.len() == 0 {
        SaveStage::Serializing
    } else {
        save_step(stage_after(events.drop_last()), events.last()).0
    }
}

/// A file is moved over only after the new contents were serialised and written
/// completely beside it: until then a failure leaves the file as it was.
pub proof fn replaced_only_when_written(events: Seq<SaveEvent>)
    requires
        events.len() > 0,
        save_step(stage_after(events.drop_last()), events.last()).1 == SaveAction::Replace,
    ensures
        events.len() >= 3,
        events[0] == SaveEvent::Yes,
        events[1] == SaveEvent::Yes,
{
    lemma_stage_depth(events.drop_last());
}

/// What a file holds after a run of events from the beginning of a replacement,
/// given what it held before and what is to replace that: it changes only when
/// moving the new contents over it succeeds.
pub open spec fn contents_after<T>(events: Seq<SaveEvent>, before: T, new: T) -> T
    decreases events.len(),
{
    if events.len() == 0 {
        before
    } else if stage_after(events.drop_last()) == SaveStage::Replacing && events.last() == SaveEvent::Yes {
        new
    } else {
        contents_after(events.drop_last(), before, new)
    }
}

/// Whether a replacement came to its end with the last of these events: what its
/// last action was.
pub open spec fn last_action(events: Seq<SaveEvent>) -> SaveAction {
    save_step(stage_after(events.drop_last()), events.last()).1
}

/// A replacement that finishes puts the new contents in place of whatever the
/// file held; one that fails, at whatever step, leaves them as they were.
pub proof fn save_replaces_all_or_nothing<T>(events: Seq<SaveEvent>, before: T, new: T)
    requires
        events.len() > 0,
    ensures
        stage_after(events.drop_last()) != SaveStage::Over && last_action(events) == SaveAction::Finished
            ==> contents_after(events, before, new) == new,
        last_action(events) == SaveAction::FailSerializing || last_action(events)
            == SaveAction::FailWriting || last_action(events) == SaveAction::FailReplacing
            ==> contents_after(events, before, new) == before,
{
    lemma_untouched(events.drop_last(), before, new);
}

/// Until it is over, a replacement leaves the file as it was.
proof fn lemma_untouched<T>(events: Seq<SaveEvent>, before: T, new: T)
    ensures
        stage_after(events) != SaveStage::Over ==> contents_after(events, before, new) == before,
    decreases events.len(),
{
    if events.len() > 0 {
        lemma_untouched(events.drop_last(), before, new);
    }
}

/// Of two replacements one after the other the second decides, unless it fails:
/// then the first one's contents stay.
pub proof fn later_save_replaces_earlier<T>(
    first: Seq<SaveEvent>,
    second: Seq<SaveEvent>,
    before: T,
    one: T,
    two: T,
)
    requires
        first.len() > 0,
        second.len() > 0,
        stage_after(first.drop_last()) != SaveStage::Over,
        stage_after(second.drop_last()) != SaveStage::Over,
        last_action(first) == SaveAction::Finished,
    ensures
        last_action(second) == SaveAction::Finished ==> contents_after(
            second,
            contents_after(first, before, one),
            two,
        ) == two,
        last_action(second) == SaveAction::FailSerializing || last_action(second)
            == SaveAction::FailWriting || last_action(second) == SaveAction::FailReplacing
            ==> contents_after(second, contents_after(first, before, one), two) == one,
{
    save_replaces_all_or_nothing(first, before, one);
    save_replaces_all_or_nothing(second, contents_after(first, before, one), two);
}

/// How many events a stage takes, and which.
proof fn lemma_stage_depth(events: Seq<SaveEvent>)
    ensures
        stage_after(events) == SaveStage::Serializing <==> events.len() == 0,
        stage_after(events) == SaveStage::Writing ==> events.len() == 1 && events[0] == SaveEvent::Yes,
        stage_after(events) == SaveStage::Looking ==> events.len() == 2 && events[0] == SaveEvent::Yes
            && events[1] == SaveEvent::Yes,
        stage_after(events) == SaveStage::BackingUp ==> events.len() == 3 && events[0] == SaveEvent::Yes
            && events[1] == SaveEvent::Yes,
    decreases events.len(),
{
    if events.len() > 0 {
        lemma_stage_depth(events.drop_last());
    }
}

/// What loading a state file of a directory gives: nothing if the file is
/// missing; an error if it cannot be read; nothing, and the path to keep it at,
/// if it does not parse.
pub open spec fn load_result<T>(
    dir: Seq<char>,
    file: StateFile,
    found: Found<T>,
    at: Timestamp,
    result: Result<Loaded<T>, String>,
) -> bool {
    match found {
        Found::Unreadable => result matches Err(message) && message@ == "Failed reading "@ + joined(
            dir,
            file_name(file, "json"@),
        ),
        Found::Missing => result matches Ok(l) && l.value is None && l.quarantine is None,
        Found::Corrupted => result matches Ok(l) && l.value is None && optional_text(l.quarantine) == Some(
            joined(dir, file_name(file, quarantine_extension(at))),
        ),
        Found::Parsed(value) => result matches Ok(l) && l.value == Some(value) && l.quarantine is None,
    }
}

/// Books that were saved come back after a restart: if the file gives the books
/// that were stored in it, loading them succeeds, and what takes them over has
/// the books of what was saved.
pub proof fn saved_books_are_recovered(
    dir: Seq<char>,
    at: Timestamp,
    saved: BotState,
    snapshot: BotStateSnapshot,
    loaded: Result<Loaded<BotStateSnapshot>, String>,
    recovered: BotState,
)
    requires
        snapshot@ == saved@,
        load_result(dir, StateFile::BotState, Found::Parsed(snapshot), at, loaded),
        loaded matches Ok(l) ==> (l.value matches Some(value) ==> recovered@ == value@),
    ensures
        loaded is Ok,
        loaded->Ok_0.value is Some,
        loaded->Ok_0.quarantine is None,
        recovered@ == saved@,
        totals_cover_windows(saved@) ==> totals_cover_windows(recovered@),
{
}

/// A file that does not parse stops nothing: it is kept aside, and everything
/// starts anew.
pub proof fn corrupted_file_is_set_aside<T>(
    dir: Seq<char>,
    file: StateFile,
    at: Timestamp,
    loaded: Result<Loaded<T>, String>,
)
    requires
        load_result(dir, file, Found::Corrupted, at, loaded),
    ensures
        loaded is Ok,
        loaded->Ok_0.value is None,
        optional_text(loaded->Ok_0.quarantine) == Some(
            joined(dir, file_name(file, quarantine_extension(at))),
        ),
{
}

/// The directory of the state files.
#[derive(Debug)]
pub struct PersistenceStore {
    pub dir: String,
}

impl PersistenceStore {
    /// The store in a directory.
    pub fn new(dir: String) -> (r: PersistenceStore)
        ensures
            r.dir == dir,
    {
        PersistenceStore { dir }
    }

    /// The path of a file in the directory.
    pub fn path(&self, file: &str) -> (r: String)
        ensures
            r@ == joined(self.dir@, file@),
    {
        let name = characters(file);
        if name.len() > 0 && name[0] == '/' {
            return file.to_owned();
        }
        let dir = characters(self.dir.as_str());
        let mut out = self.dir.clone();
        if dir.len() > 0 && dir[dir.len() - 1] != '/' {
            out.append("/");
        }
        out.append(file);
        out
    }

    /// The path of a state file.
    pub fn state_path(&self, file: StateFile) -> (r: String)
        ensures
            r@ == joined(self.dir@, file_name(file, "json"@)),
    {
        self.path(file.name("json").as_str())
    }

    /// The path at which the new contents of a state file are written first.
    pub fn temp_path(&self, file: StateFile) -> (r: String)
        ensures
            r@ == joined(self.dir@, file_name(file, "tmp"@)),
    {
        self.path(file.name("tmp").as_str())
    }

    /// The path at which the old contents of a state file are kept.
    pub fn backup_path(&self, file: StateFile) -> (r: String)
        ensures
            r@ == joined(self.dir@, file_name(file, "bak"@)),
    {
        self.path(file.name("bak").as_str())
    }

    /// The path at which a state file that does not parse is kept.
    pub fn quarantine_path(&self, file: StateFile, at: Timestamp) -> (r: String)
        ensures
            r@ == joined(self.dir@, file_name(file, quarantine_extension(at))),
    {
        let mut extension = "corrupt.".to_owned();
        let stamp = formatted(&at, "%Y%m%dT%H%M%S");
        extension.append(stamp.as_str());
        extension.append(".json");
        self.path(file.name(extension.as_str()).as_str())
    }

    /// Decides what a state file gives: nothing if it is missing; an error if it
    /// cannot be read; nothing, and a path to keep it at, if it does not parse.
    pub fn read_json_if_exists<T>(&self, file: StateFile, found: Found<T>, at: Timestamp) -> (r: Result<
        Loaded<T>,
        String,
    >)
        ensures
            load_result(self.dir@, file, found, at, r),
    {
        match found {
            Found::Unreadable => {
                let mut message = "Failed reading ".to_owned();
                message.append(self.state_path(file).as_str());
                Err(message)
            },
            Found::Missing => Ok(Loaded { value: None, quarantine: None }),
            Found::Corrupted => Ok(
                Loaded { value: None, quarantine: Some(self.quarantine_path(file, at)) },
            ),
            Found::Parsed(value) => Ok(Loaded { value: Some(value), quarantine: None }),
        }
    }

    /// The books, from what was found in their file.
    pub fn load_bot_state(&self, found: Found<BotStateSnapshot>, at: Timestamp) -> (r: Result<
        Loaded<BotStateSnapshot>,
        String,
    >)
        ensures
            load_result(self.dir@, StateFile::BotState, found, at, r),
    {
        self.read_json_if_exists(StateFile::BotState, found, at)
    }

    /// What alerting remembers, from what was found in its file.
    pub fn load_alert_state(&self, found: Found<AlertPersistedState>, at: Timestamp) -> (r: Result<
        Loaded<AlertPersistedState>,
        String,
    >)
        ensures
            load_result(self.dir@, StateFile::AlertState, found, at, r),
    {
        self.read_json_if_exists(StateFile::AlertState, found, at)
    }

    /// Begins to replace the file of the books.
    pub fn save_bot_state(&self) -> (r: SaveJob)
        ensures
            is_beginning(r, self.dir@, StateFile::BotState),
    {
        self.write_json_atomic(StateFile::BotState)
    }

    /// Begins to replace the file of what alerting remembers.
    pub fn save_alert_state(&self) -> (r: SaveJob)
        ensures
            is_beginning(r, self.dir@, StateFile::AlertState),
    {
        self.write_json_atomic(StateFile::AlertState)
    }

    /// Begins to replace a state file.
    pub fn write_json_atomic(&self, file: StateFile) -> (r: SaveJob)
        ensures
            is_beginning(r, self.dir@, file),
    {
        SaveJob {
            file,
            target: self.state_path(file),
            temp: self.temp_path(file),
            backup: self.backup_path(file),
            stage: SaveStage::Serializing,
        }
    }

    /// The message of a failed replacement; empty for any other action.
    pub fn failure_message(&self, file: StateFile, action: SaveAction) -> (r: String)
        ensures
            r@ == (match action {
                SaveAction::FailSerializing => "Failed serializing "@ + joined(
                    self.dir@,
                    file_name(file, "json"@),
                ),
                SaveAction::FailWriting => "Failed writing temp file "@ + joined(
                    self.dir@,
                    file_name(file, "tmp"@),
                ),
                SaveAction::FailReplacing => "Failed atomically replacing "@ + joined(
                    self.dir@,
                    file_name(file, "json"@),
                ),
                _ => Seq::empty(),
            }),
    {
        match action {
            SaveAction::FailSerializing => {
                let mut message = "Failed serializing ".to_owned();
                message.append(self.state_path(file).as_str());
                message
            },
            SaveAction::FailWriting => {
                let mut message = "Failed writing temp file ".to_owned();
                message.append(self.temp_path(file).as_str());
                message
            },
            SaveAction::FailReplacing => {
                let mut message = "Failed atomically replacing ".to_owned();
                message.append(self.state_path(file).as_str());
                message
            },
            _ => String::new(),
        }
    }

    /// The trades seen by wallet, from what was found in their file. A file that
    /// is missing or does not parse gives none.
    pub fn load_seen_trades(&self, found: Found<SeenTradesFile>, at: Timestamp) -> (r: Result<
        (Table<KeySet>, Option<String>),
        String,
    >)
        ensures
            match found {
                Found::Unreadable => r matches Err(message) && message@ == "Failed reading "@ + joined(
                    self.dir@,
                    file_name(StateFile::SeenTrades, "json"@),
                ),
                Found::Missing => r matches Ok(l) && l.0@ == Seq::<(Seq<char>, KeySet)>::empty() && l.1 is None,
                Found::Corrupted => r matches Ok(l) && l.0@ == Seq::<(Seq<char>, KeySet)>::empty()
                    && optional_text(l.1) == Some(
                    joined(self.dir@, file_name(StateFile::SeenTrades, quarantine_extension(at))),
                ),
                Found::Parsed(file) => r matches Ok(l) && l.1 is None && seen_lists(l.0@) == restored(
                    stored_lists(file.by_whale@),
                ),
            },
    {
        match self.read_json_if_exists(StateFile::SeenTrades, found, at) {
            Err(message) => Err(message),
            Ok(loaded) => match loaded.value {
                None => Ok((Table::new(), loaded.quarantine)),
                Some(file) => Ok((restore_seen(file), loaded.quarantine)),
            },
        }
    }

    /// Begins to replace the file of the trades seen by wallet, and gives them
    /// as they are to be stored. Loading them gives the same trades.
    pub fn save_seen_trades(&self, seen: &Table<KeySet>) -> (r: (SeenTradesFile, SaveJob))
        ensures
            stored_lists(r.0.by_whale@) == seen_lists(seen@),
            restored(stored_lists(r.0.by_whale@)) == seen_lists(seen@),
            is_beginning(r.1, self.dir@, StateFile::SeenTrades),
    {
        let mut by_whale: Vec<(String, Vec<String>)> = Vec::new();
        let mut i: usize = 0;
        while i < seen.len()
            invariant
                i <= seen@.len(),
                stored_lists(by_whale@) == seen_lists(seen@).take(i as int),
                forall|j: int| 0 <= j < i ==> (#[trigger] seen_lists(seen@)[j]).1.no_duplicates(),
            decreases seen@.len() - i,
        {
            let set = seen.value_at(i);
            let list = listed(set);
            let ghost before = by_whale@;
            let key = seen.key_at(i).clone();
            let ghost entry = (key, list);
            by_whale.push((key, list));
            proof {
                assert(seen_lists(seen@)[i as int] == (key@, texts(list@)));
                assert(stored_lists(before.push(entry)) =~= stored_lists(before).push(
                    (key@, texts(list@)),
                ));
                assert(seen_lists(seen@).take(i + 1) =~= seen_lists(seen@).take(i as int).push(
                    seen_lists(seen@)[i as int],
                ));
            }
            i = i + 1;
        }
        proof {
            assert(seen_lists(seen@).take(i as int) =~= seen_lists(seen@));
            assert(keys(seen_lists(seen@)) =~= keys(seen@));
        }
        // The keys of a table are distinct.
        let _ = seen.len();
        proof {
            stored_trades_are_restored(seen_lists(seen@));
        }
        (SeenTradesFile { by_whale }, self.write_json_atomic(StateFile::SeenTrades))
    }
}

/// The texts of a set as a list.
fn listed(set: &KeySet) -> (r: Vec<String>)
    ensures
        texts(r@) == set@,
        set@.no_duplicates(),
{
    let mut out: Vec<String> = Vec::new();
    let mut i: usize = 0;
    while i < set.len()
        invariant
            i <= set@.len(),
            texts(out@) == set@.take(i as int),
        decreases set@.len() - i,
    {
        let ghost before = out@;
        let item = set.at(i).clone();
        let ghost added = item;
        out.push(item);
        proof {
            assert(texts(before.push(added)) =~= texts(before).push(added@));
            assert(set@.take(i + 1) =~= set@.take(i as int).push(set@[i as int]));
        }
        i = i + 1;
    }
    proof {
        assert(set@.take(i as int) =~= set@);
    }
    // The texts of a set are distinct.
    let _ = set.len();
    out
}

/// The set of the texts in a list.
fn collected(list: &Vec<String>) -> (r: KeySet)
    ensures
        r@ == with_keys(Seq::empty(), texts(list@)),
{
    let mut set = KeySet::new();
    let mut i: usize = 0;
    proof {
        assert(texts(list@).take(0) =~= Seq::<Seq<char>>::empty());
    }
    while i < list.len()
        invariant
            i <= list.len(),
            set@ == with_keys(Seq::empty(), texts(list@).take(i as int)),
        decreases list.len() - i,
    {
        proof {
            let next = texts(list@).take(i + 1);
            assert(next.drop_last() =~= texts(list@).take(i as int));
            assert(next.last() == list@[i as int]@);
        }
        set.insert(list[i].clone());
        i = i + 1;
    }
    proof {
        assert(texts(list@).take(i as int) =~= texts(list@));
    }
    set
}

/// The trades seen by wallet that a file stands for.
fn restore_seen(file: SeenTradesFile) -> (r: Table<KeySet>)
    ensures
        seen_lists(r@) == restored(stored_lists(file.by_whale@)),
{
    let mut seen: Table<KeySet> = Table::new();
    let mut i: usize = 0;
    let ghost lists = stored_lists(file.by_whale@);
    proof {
        assert(lists.take(0) =~= Seq::<(Seq<char>, Seq<Seq<char>>)>::empty());
        assert(seen_lists(seen@) =~= Seq::<(Seq<char>, Seq<Seq<char>>)>::empty());
    }
    while i < file.by_whale.len()
        invariant
            i <= file.by_whale.len(),
            lists == stored_lists(file.by_whale@),
            seen_lists(seen@) == restored(lists.take(i as int)),
        decreases file.by_whale.len() - i,
    {
        let set = collected(&file.by_whale[i].1);
        let key = file.by_whale[i].0.clone();
        let ghost before = seen@;
        let ghost entry = set;
        let ghost name = key@;
        seen.insert(key, set);
        proof {
            let next = lists.take(i + 1);
            assert(next.drop_last() =~= lists.take(i as int));
            assert(next.last() == lists[i as int]);
            lemma_seen_put(before, name, entry);
        }
        i = i + 1;
    }
    proof {
        assert(lists.take(i as int) =~= lists);
    }
    seen
}

} // verus!
