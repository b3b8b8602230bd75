//! How state files are named, replaced and read back.

use crate::clock::Timestamp;
use crate::persistence::{
    contents_after, is_beginning, load_result, restored, save_step, stage_after, Found, Loaded,
    SaveAction, SaveEvent, SaveJob, SaveStage, StateFile,
};
use crate::table::{added_keys_are_present, lookup, put_then_lookup, with_keys};
use vstd::prelude::*;

verus! {

/// A replacement writes the new contents beside the file, keeps the old ones if there
/// are any, moves the new ones over, and has then finished; that the old ones cannot be
/// kept does not stop it.
pub proof fn file_is_replaced_step_by_step(kept: SaveEvent)
    ensures
        save_step(SaveStage::Serializing, SaveEvent::Yes) == (SaveStage::Writing, SaveAction::WriteTemp),
        save_step(SaveStage::Writing, SaveEvent::Yes) == (SaveStage::Looking, SaveAction::CheckTarget),
        save_step(SaveStage::Looking, SaveEvent::Yes) == (SaveStage::BackingUp, SaveAction::Backup),
        save_step(SaveStage::Looking, SaveEvent::No) == (SaveStage::Replacing, SaveAction::Replace),
        save_step(SaveStage::BackingUp, kept) == (SaveStage::Replacing, SaveAction::Replace),
        save_step(SaveStage::Replacing, SaveEvent::Yes) == (SaveStage::Over, SaveAction::Finished),
{
}

/// A step that fails ends the replacement, and is named: serialising, writing or moving.
pub proof fn failed_step_is_named(stage: SaveStage, event: SaveEvent)
    ensures
        ({
            let (next, action) = save_step(stage, event);
            &&& action == SaveAction::FailSerializing <==> stage == SaveStage::Serializing && event
                == SaveEvent::No
            &&& action == SaveAction::FailWriting <==> stage == SaveStage::Writing && event == SaveEvent::No
            &&& action == SaveAction::FailReplacing <==> stage == SaveStage::Replacing && event == SaveEvent::No
            &&& action == SaveAction::FailSerializing || action == SaveAction::FailWriting || action
                == SaveAction::FailReplacing ==> next == SaveStage::Over
        }),
{
}

/// A replacement in which every step succeeds leaves the new contents, whether or not
/// there was a file before.
pub proof fn successful_save_leaves_new_contents<T>(before: T, new: T, kept: SaveEvent)
    ensures
        contents_after(
            seq![SaveEvent::Yes, SaveEvent::Yes, SaveEvent::Yes, kept, SaveEvent::Yes],
            before,
            new,
        ) == new,
        contents_after(seq![SaveEvent::Yes, SaveEvent::Yes, SaveEvent::No, SaveEvent::Yes], before, new) == new,
{
    let yes = SaveEvent::Yes;
    let one = seq![yes];
    let two = seq![yes, yes];
    let three = seq![yes, yes, yes];
    let four = seq![yes, yes, yes, kept];
    let five = seq![yes, yes, yes, kept, yes];
    let absent = seq![yes, yes, SaveEvent::No];
    let moved = seq![yes, yes, SaveEvent::No, yes];
    assert(one.drop_last() =~= Seq::empty());
    assert(two.drop_last() =~= one);
    assert(three.drop_last() =~= two);
    assert(four.drop_last() =~= three);
    assert(five.drop_last() =~= four);
    assert(absent.drop_last() =~= two);
    assert(moved.drop_last() =~= absent);
    assert(stage_after(Seq::empty()) == SaveStage::Serializing);
    assert(stage_after(one) == SaveStage::Writing);
    assert(stage_after(two) == SaveStage::Looking);
    assert(stage_after(three) == SaveStage::BackingUp);
    assert(stage_after(four) == SaveStage::Replacing);
    assert(stage_after(absent) == SaveStage::Replacing);
}

/// The files stand in the directory, one for each kind of state, under their own names;
/// what is written first and what is kept stand beside them.
pub proof fn files_have_their_names(job: SaveJob, dir: Seq<char>, file: StateFile)
    requires
        is_beginning(job, dir, file),
        dir.len() > 0,
        dir[dir.len() - 1] != '/',
    ensures
        file is BotState ==> job.target@ == dir + "/bot_state.json"@ && job.temp@ == dir + "/bot_state.tmp"@
            && job.backup@ == dir + "/bot_state.bak"@,
        file is SeenTrades ==> job.target@ == dir + "/seen_trades.json"@ && job.temp@ == dir
            + "/seen_trades.tmp"@ && job.backup@ == dir + "/seen_trades.bak"@,
        file is AlertState ==> job.target@ == dir + "/alert_state.json"@ && job.temp@ == dir
            + "/alert_state.tmp"@ && job.backup@ == dir + "/alert_state.bak"@,
        job.stage == SaveStage::Serializing,
        job.file == file,
{
    reveal_strlit("/");
    reveal_strlit(".");
    reveal_strlit("json");
    reveal_strlit("tmp");
    reveal_strlit("bak");
    reveal_strlit("bot_state");
    reveal_strlit("seen_trades");
    reveal_strlit("alert_state");
    reveal_strlit("/bot_state.json");
    reveal_strlit("/bot_state.tmp");
    reveal_strlit("/bot_state.bak");
    reveal_strlit("/seen_trades.json");
    reveal_strlit("/seen_trades.tmp");
    reveal_strlit("/seen_trades.bak");
    reveal_strlit("/alert_state.json");
    reveal_strlit("/alert_state.tmp");
    reveal_strlit("/alert_state.bak");
    match file {
        StateFile::BotState => {
            assert(job.target@ =~= dir + "/bot_state.json"@);
            assert(job.temp@ =~= dir + "/bot_state.tmp"@);
            assert(job.backup@ =~= dir + "/bot_state.bak"@);
        },
        StateFile::SeenTrades => {
            assert(job.target@ =~= dir + "/seen_trades.json"@);
            assert(job.temp@ =~= dir + "/seen_trades.tmp"@);
            assert(job.backup@ =~= dir + "/seen_trades.bak"@);
        },
        StateFile::AlertState => {
            assert(job.target@ =~= dir + "/alert_state.json"@);
            assert(job.temp@ =~= dir + "/alert_state.tmp"@);
            assert(job.backup@ =~= dir + "/alert_state.bak"@);
        },
    }
}

/// Loading gives what the file holds, nothing without a file or with one that does not
/// parse, and an error exactly if the file cannot be read. Only a file that does not
/// parse is set aside.
pub proof fn file_is_loaded<T>(
    dir: Seq<char>,
    file: StateFile,
    found: Found<T>,
    at: Timestamp,
    result: Result<Loaded<T>, String>,
)
    requires
        load_result(dir, file, found, at, result),
    ensures
        result is Err <==> found is Unreadable,
        found matches Found::Parsed(value) ==> result->Ok_0.value == Some(value),
        result is Ok && !(found is Parsed) ==> result->Ok_0.value is None,
        result is Ok ==> (result->Ok_0.quarantine is Some <==> found is Corrupted),
{
}

/// A stored list of a wallet is taken over with every trade in it and no other, in
/// place of an earlier list of the same wallet; other wallets keep theirs.
pub proof fn stored_list_is_taken_over(
    lists: Seq<(Seq<char>, Seq<Seq<char>>)>,
    wallet: Seq<char>,
    list: Seq<Seq<char>>,
    other: Seq<char>,
    key: Seq<char>,
)
    requires
        other != wallet,
    ensures
        ({
            let before = restored(lists);
            let after = restored(lists.push((wallet, list)));
            &&& lookup(after, wallet) matches Some(seen) && (seen.contains(key) <==> list.contains(key))
            &&& lookup(after, other) == lookup(before, other)
        }),
{
    let more = lists.push((wallet, list));
    assert(more.drop_last() =~= lists);
    let seen = with_keys(Seq::empty(), list);
    put_then_lookup(restored(lists), wallet, seen, wallet);
    put_then_lookup(restored(lists), wallet, seen, other);
    added_keys_are_present(Seq::empty(), list, key);
}

} // verus!
