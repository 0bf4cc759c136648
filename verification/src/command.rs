//! The command surface: one input line is parsed into a command, and
//! one command is interpreted against the current content of the
//! backing file.  The interpreter is a pure step: it takes the file
//! content and the input line, and returns the lines to print, the
//! new file content when the command saves, and whether to stop.

use vstd::prelude::*;

use crate::bytes::{
    append_bytes, copy_range, is_ws, join_words, join_words_bytes, lemma_join_words_wordlike,
    lemma_split_words_shape, split_words, split_words_bytes, word_views,
};
use crate::codec::{
    encode_records, lemma_load_round_trippable, lemma_persisted_set, load_records, load_result,
    round_trippable, save_records,
};
use crate::store::{
    bytes_eq, delete_record, get_record, has_key, lemma_remove_key_clears, lookup, remove_key,
    set_record, set_result, views, RecordView,
};

verus! {

/// A parsed input line.  Commands missing their arguments parse to
/// the usage variants; a blank line parses to `Nothing`.
pub enum Command {
    Nothing,
    Put { key: Vec<u8>, value: Vec<u8> },
    SetUsage,
    Get { key: Vec<u8> },
    GetUsage,
    Delete { key: Vec<u8> },
    DeleteUsage,
    List,
    Quit,
    Unknown { word: Vec<u8> },
}

/// The mathematical shape of a parsed command.
pub enum CommandView {
    Nothing,
    Put { key: Seq<u8>, value: Seq<u8> },
    SetUsage,
    Get { key: Seq<u8> },
    GetUsage,
    Delete { key: Seq<u8> },
    DeleteUsage,
    List,
    Quit,
    Unknown { word: Seq<u8> },
}

impl View for Command {
    type V = CommandView;

    open spec fn view(&self) -> CommandView {
        match self {
            Command::Nothing => CommandView::Nothing,
            Command::Put { key, value } => CommandView::Put { key: key@, value: value@ },
            Command::SetUsage => CommandView::SetUsage,
            Command::Get { key } => CommandView::Get { key: key@ },
            Command::GetUsage => CommandView::GetUsage,
            Command::Delete { key } => CommandView::Delete { key: key@ },
            Command::DeleteUsage => CommandView::DeleteUsage,
            Command::List => CommandView::List,
            Command::Quit => CommandView::Quit,
            Command::Unknown { word } => CommandView::Unknown { word: word@ },
        }
    }
}

/// The word `set`.
pub open spec fn word_set() -> Seq<u8> {
    seq![115, 101, 116]
}

/// The word `get`.
pub open spec fn word_get() -> Seq<u8> {
    seq![103, 101, 116]
}

/// The word `delete`.
pub open spec fn word_delete() -> Seq<u8> {
    seq![100, 101, 108, 101, 116, 101]
}

/// The word `list`.
pub open spec fn word_list() -> Seq<u8> {
    seq![108, 105, 115, 116]
}

/// The word `quit`.
pub open spec fn word_quit() -> Seq<u8> {
    seq![113, 117, 105, 116]
}

/// The word `exit`.
pub open spec fn word_exit() -> Seq<u8> {
    seq![101, 120, 105, 116]
}

fn lit_set() -> (r: Vec<u8>)
    ensures
        r@ == word_set(),
{
    let mut r: Vec<u8> = Vec::new();
    r.push(115);
    r.push(101);
    r.push(116);
    proof {
        assert(r@ =~= word_set());
    }
    r
}

fn lit_get() -> (r: Vec<u8>)
    ensures
        r@ == word_get(),
{
    let mut r: Vec<u8> = Vec::new();
    r.push(103);
    r.push(101);
    r.push(116);
    proof {
        assert(r@ =~= word_get());
    }
    r
}

fn lit_delete() -> (r: Vec<u8>)
    ensures
        r@ == word_delete(),
{
    let mut r: Vec<u8> = Vec::new();
    r.push(100);
    r.push(101);
    r.push(108);
    r.push(101);
    r.push(116);
    r.push(101);
    proof {
        assert(r@ =~= word_delete());
    }
    r
}

fn lit_list() -> (r: Vec<u8>)
    ensures
        r@ == word_list(),
{
    let mut r: Vec<u8> = Vec::new();
    r.push(108);
    r.push(105);
    r.push(115);
    r.push(116);
    proof {
        assert(r@ =~= word_list());
    }
    r
}

fn lit_quit() -> (r: Vec<u8>)
    ensures
        r@ == word_quit(),
{
    let mut r: Vec<u8> = Vec::new();
    r.push(113);
    r.push(117);
    r.push(105);
    r.push(116);
    proof {
        assert(r@ =~= word_quit());
    }
    r
}

fn lit_exit() -> (r: Vec<u8>)
    ensures
        r@ == word_exit(),
{
    let mut r: Vec<u8> = Vec::new();
    r.push(101);
    r.push(120);
    r.push(105);
    r.push(116);
    proof {
        assert(r@ =~= word_exit());
    }
    r
}

/// What an input line means: its first word picks the command, the
/// next words are its arguments, and for `set` the remaining words
/// are rejoined with single spaces into the value.
pub open spec fn parse_command_spec(s: Seq<u8>) -> CommandView {
    let ws = split_words(s);
    if ws.len() == 0 {
        CommandView::Nothing
    } else if ws[0] == word_set() {
        if ws.len() < 3 {
            CommandView::SetUsage
        } else {
            CommandView::Put { key: ws[1], value: join_words(ws.skip(2)) }
        }
    } else if ws[0] == word_get() {
        if ws.len() < 2 {
            CommandView::GetUsage
        } else {
            CommandView::Get { key: ws[1] }
        }
    } else if ws[0] == word_delete() {
        if ws.len() < 2 {
            CommandView::DeleteUsage
        } else {
            CommandView::Delete { key: ws[1] }
        }
    } else if ws[0] == word_list() {
        CommandView::List
    } else if ws[0] == word_quit() || ws[0] == word_exit() {
        CommandView::Quit
    } else {
        CommandView::Unknown { word: ws[0] }
    }
}

/// Parses one input line.
pub fn parse_command(line: &Vec<u8>) -> (c: Command)
    ensures
        c@ == parse_command_spec(line@),
{
    let ghost ws = split_words(line@);
    let mut words = split_words_bytes(line);
    if words.len() == 0 {
        return Command::Nothing;
    }
    let ghost w0 = words@;
    let head = words.remove(0);
    proof {
        assert(head@ == ws[0]);
        assert(words@ =~= w0.drop_first());
        assert(forall|i: int| 0 <= i < words@.len() ==> #[trigger] words@[i] == w0[i + 1]);
        assert(word_views(words@) =~= ws.skip(1));
    }
    if bytes_eq(&head, &lit_set()) {
        if words.len() < 2 {
            return Command::SetUsage;
        }
        let ghost w1 = words@;
        let key = words.remove(0);
        proof {
            assert(key@ == ws[1]);
            assert(words@ =~= w1.drop_first());
            assert(forall|i: int| 0 <= i < words@.len() ==> #[trigger] words@[i] == w1[i + 1]);
            assert(word_views(words@) =~= ws.skip(2));
        }
        let value = join_words_bytes(&words);
        return Command::Put { key, value };
    }
    if bytes_eq(&head, &lit_get()) {
        if words.len() < 1 {
            return Command::GetUsage;
        }
        let key = words.remove(0);
        proof {
            assert(key@ == ws[1]);
        }
        return Command::Get { key };
    }
    if bytes_eq(&head, &lit_delete()) {
        if words.len() < 1 {
            return Command::DeleteUsage;
        }
        let key = words.remove(0);
        proof {
            assert(key@ == ws[1]);
        }
        return Command::Delete { key };
    }
    if bytes_eq(&head, &lit_list()) {
        return Command::List;
    }
    if bytes_eq(&head, &lit_quit()) {
        return Command::Quit;
    }
    if bytes_eq(&head, &lit_exit()) {
        return Command::Quit;
    }
    Command::Unknown { word: head }
}

/// The line `Usage: set <key> <value>`.
pub open spec fn msg_usage_set() -> Seq<u8> {
    seq![85, 115, 97, 103, 101, 58, 32, 115, 101, 116, 32, 60, 107, 101, 121, 62, 32, 60, 118, 97, 108, 117, 101, 62]
}

/// Builds `Usage: set <key> <value>`.
pub fn msg_usage_set_bytes() -> (r: Vec<u8>)
    ensures
        r@ == msg_usage_set(),
{
    let mut r: Vec<u8> = Vec::new();
    r.push(85);
    r.push(115);
    r.push(97);
    r.push(103);
    r.push(101);
    r.push(58);
    r.push(32);
    r.push(115);
    r.push(101);
    r.push(116);
    r.push(32);
    r.push(60);
    r.push(107);
    r.push(101);
    r.push(121);
    r.push(62);
    r.push(32);
    r.push(60);
    r.push(118);
    r.push(97);
    r.push(108);
    r.push(117);
    r.push(101);
    r.push(62);
    proof {
        assert(r@ =~= msg_usage_set());
    }
    r
}

/// The line `Usage: get <key>`.
pub open spec fn msg_usage_get() -> Seq<u8> {
    seq![85, 115, 97, 103, 101, 58, 32, 103, 101, 116, 32, 60, 107, 101, 121, 62]
}

/// Builds `Usage: get <key>`.
pub fn msg_usage_get_bytes() -> (r: Vec<u8>)
    ensures
        r@ == msg_usage_get(),
{
    let mut r: Vec<u8> = Vec::new();
    r.push(85);
    r.push(115);
    r.push(97);
    r.push(103);
    r.push(101);
    r.push(58);
    r.push(32);
    r.push(103);
    r.push(101);
    r.push(116);
    r.push(32);
    r.push(60);
    r.push(107);
    r.push(101);
    r.push(121);
    r.push(62);
    proof {
        assert(r@ =~= msg_usage_get());
    }
    r
}

/// The line `Usage: delete <key>`.
pub open spec fn msg_usage_delete() -> Seq<u8> {
    seq![85, 115, 97, 103, 101, 58, 32, 100, 101, 108, 101, 116, 101, 32, 60, 107, 101, 121, 62]
}

/// Builds `Usage: delete <key>`.
pub fn msg_usage_delete_bytes() -> (r: Vec<u8>)
    ensures
        r@ == msg_usage_delete(),
{
    let mut r: Vec<u8> = Vec::new();
    r.push(85);
    r.push(115);
    r.push(97);
    r.push(103);
    r.push(101);
    r.push(58);
    r.push(32);
    r.push(100);
    r.push(101);
    r.push(108);
    r.push(101);
    r.push(116);
    r.push(101);
    r.push(32);
    r.push(60);
    r.push(107);
    r.push(101);
    r.push(121);
    r.push(62);
    proof {
        assert(r@ =~= msg_usage_delete());
    }
    r
}

/// The line `Key not found`.
pub open spec fn msg_not_found() -> Seq<u8> {
    seq![75, 101, 121, 32, 110, 111, 116, 32, 102, 111, 117, 110, 100]
}

/// Builds `Key not found`.
pub fn msg_not_found_bytes() -> (r: Vec<u8>)
    ensures
        r@ == msg_not_found(),
{
    let mut r: Vec<u8> = Vec::new();
    r.push(75);
    r.push(101);
    r.push(121);
    r.push(32);
    r.push(110);
    r.push(111);
    r.push(116);
    r.push(32);
    r.push(102);
    r.push(111);
    r.push(117);
    r.push(110);
    r.push(100);
    proof {
        assert(r@ =~= msg_not_found());
    }
    r
}

/// The line `(empty)`.
pub open spec fn msg_empty() -> Seq<u8> {
    seq![40, 101, 109, 112, 116, 121, 41]
}

/// Builds `(empty)`.
pub fn msg_empty_bytes() -> (r: Vec<u8>)
    ensures
        r@ == msg_empty(),
{
    let mut r: Vec<u8> = Vec::new();
    r.push(40);
    r.push(101);
    r.push(109);
    r.push(112);
    r.push(116);
    r.push(121);
    r.push(41);
    proof {
        assert(r@ =~= msg_empty());
    }
    r
}

/// The line `Exiting.`.
pub open spec fn msg_exiting() -> Seq<u8> {
    seq![69, 120, 105, 116, 105, 110, 103, 46]
}

/// Builds `Exiting.`.
pub fn msg_exiting_bytes() -> (r: Vec<u8>)
    ensures
        r@ == msg_exiting(),
{
    let mut r: Vec<u8> = Vec::new();
    r.push(69);
    r.push(120);
    r.push(105);
    r.push(116);
    r.push(105);
    r.push(110);
    r.push(103);
    r.push(46);
    proof {
        assert(r@ =~= msg_exiting());
    }
    r
}

/// The line `Available: set, get, delete, list, quit`.
pub open spec fn msg_available() -> Seq<u8> {
    seq![65, 118, 97, 105, 108, 97, 98, 108, 101, 58, 32, 115, 101, 116, 44, 32, 103, 101, 116, 44, 32, 100, 101, 108, 101, 116, 101, 44, 32, 108, 105, 115, 116, 44, 32, 113, 117, 105, 116]
}

/// Builds `Available: set, get, delete, list, quit`.
pub fn msg_available_bytes() -> (r: Vec<u8>)
    ensures
        r@ == msg_available(),
{
    let mut r: Vec<u8> = Vec::new();
    r.push(65);
    r.push(118);
    r.push(97);
    r.push(105);
    r.push(108);
    r.push(97);
    r.push(98);
    r.push(108);
    r.push(101);
    r.push(58);
    r.push(32);
    r.push(115);
    r.push(101);
    r.push(116);
    r.push(44);
    r.push(32);
    r.push(103);
    r.push(101);
    r.push(116);
    r.push(44);
    r.push(32);
    r.push(100);
    r.push(101);
    r.push(108);
    r.push(101);
    r.push(116);
    r.push(101);
    r.push(44);
    r.push(32);
    r.push(108);
    r.push(105);
    r.push(115);
    r.push(116);
    r.push(44);
    r.push(32);
    r.push(113);
    r.push(117);
    r.push(105);
    r.push(116);
    proof {
        assert(r@ =~= msg_available());
    }
    r
}

/// The line `Set '<key>'`.
pub open spec fn msg_set_ok(k: Seq<u8>) -> Seq<u8> {
    seq![83, 101, 116, 32, 39] + k + seq![39u8]
}

/// Builds `Set '<key>'`.
pub fn msg_set_ok_bytes(k: &Vec<u8>) -> (r: Vec<u8>)
    ensures
        r@ == msg_set_ok(k@),
{
    let mut r: Vec<u8> = Vec::new();
    r.push(83);
    r.push(101);
    r.push(116);
    r.push(32);
    r.push(39);
    append_bytes(&mut r, k);
    r.push(39);
    proof {
        assert(r@ =~= msg_set_ok(k@));
    }
    r
}

/// The line `Deleted '<key>'`.
pub open spec fn msg_deleted(k: Seq<u8>) -> Seq<u8> {
    seq![68, 101, 108, 101, 116, 101, 100, 32, 39] + k + seq![39u8]
}

/// Builds `Deleted '<key>'`.
pub fn msg_deleted_bytes(k: &Vec<u8>) -> (r: Vec<u8>)
    ensures
        r@ == msg_deleted(k@),
{
    let mut r: Vec<u8> = Vec::new();
    r.push(68);
    r.push(101);
    r.push(108);
    r.push(101);
    r.push(116);
    r.push(101);
    r.push(100);
    r.push(32);
    r.push(39);
    append_bytes(&mut r, k);
    r.push(39);
    proof {
        assert(r@ =~= msg_deleted(k@));
    }
    r
}

/// The line `Unknown command: <word>`.
pub open spec fn msg_unknown(w: Seq<u8>) -> Seq<u8> {
    seq![85, 110, 107, 110, 111, 119, 110, 32, 99, 111, 109, 109, 97, 110, 100, 58, 32] + w
}

/// Builds `Unknown command: <word>`.
pub fn msg_unknown_bytes(w: &Vec<u8>) -> (r: Vec<u8>)
    ensures
        r@ == msg_unknown(w@),
{
    let mut r: Vec<u8> = Vec::new();
    r.push(85);
    r.push(110);
    r.push(107);
    r.push(110);
    r.push(111);
    r.push(119);
    r.push(110);
    r.push(32);
    r.push(99);
    r.push(111);
    r.push(109);
    r.push(109);
    r.push(97);
    r.push(110);
    r.push(100);
    r.push(58);
    r.push(32);
    append_bytes(&mut r, w);
    proof {
        assert(r@ =~= msg_unknown(w@));
    }
    r
}

/// What one command run does: the lines to print, the full new file
/// content when the command saves, and whether the loop stops.
pub struct StepResult {
    pub output: Vec<Vec<u8>>,
    pub write: Option<Vec<u8>>,
    pub quit: bool,
}

/// The mathematical shape of a step's outcome.
#[verifier::ext_equal]
pub struct StepView {
    pub output: Seq<Seq<u8>>,
    pub write: Option<Seq<u8>>,
    pub quit: bool,
}

impl View for StepResult {
    type V = StepView;

    open spec fn view(&self) -> StepView {
        StepView {
            output: word_views(self.output@),
            write: match self.write {
                Some(w) => Some(w@),
                None => None,
            },
            quit: self.quit,
        }
    }
}

/// A step that only prints.
pub open spec fn reply(out: Seq<Seq<u8>>) -> StepView {
    StepView { output: out, write: None, quit: false }
}

/// The lines that `list` prints: each record as `key,value`.
pub open spec fn list_lines(rs: Seq<RecordView>) -> Seq<Seq<u8>> {
    rs.map_values(|r: RecordView| r.key + seq![44u8] + r.value)
}

/// What one input line does to the store held in `content`.  Loading
/// happens afresh on every command that needs data; a mutation is
/// handed back as the full new content to persist.
pub open spec fn step_spec(content: Seq<u8>, line: Seq<u8>) -> StepView {
    match parse_command_spec(line) {
        CommandView::Nothing => reply(Seq::empty()),
        CommandView::SetUsage => reply(seq![msg_usage_set()]),
        CommandView::Put { key, value } => StepView {
            output: seq![msg_set_ok(key)],
            write: Some(encode_records(set_result(load_result(content), key, value))),
            quit: false,
        },
        CommandView::GetUsage => reply(seq![msg_usage_get()]),
        CommandView::Get { key } => match lookup(load_result(content), key) {
            Some(v) => reply(seq![v]),
            None => reply(seq![msg_not_found()]),
        },
        CommandView::DeleteUsage => reply(seq![msg_usage_delete()]),
        CommandView::Delete { key } => if has_key(load_result(content), key) {
            StepView {
                output: seq![msg_deleted(key)],
                write: Some(encode_records(remove_key(load_result(content), key))),
                quit: false,
            }
        } else {
            reply(seq![msg_not_found()])
        },
        CommandView::List => if load_result(content).len() == 0 {
            reply(seq![msg_empty()])
        } else {
            reply(list_lines(load_result(content)))
        },
        CommandView::Quit => StepView { output: seq![msg_exiting()], write: None, quit: true },
        CommandView::Unknown { word } => reply(seq![msg_unknown(word), msg_available()]),
    }
}

/// Runs one input line against the current file content.
pub fn step(content: &Vec<u8>, line: &Vec<u8>) -> (r: StepResult)
    ensures
        r@ == step_spec(content@, line@),
{
    let cmd = parse_command(line);
    let mut output: Vec<Vec<u8>> = Vec::new();
    match cmd {
        Command::Nothing => {
            let r = StepResult { output, write: None, quit: false };
            proof {
                assert(r@ =~~= step_spec(content@, line@));
            }
            r
        },
        Command::SetUsage => {
            output.push(msg_usage_set_bytes());
            let r = StepResult { output, write: None, quit: false };
            proof {
                assert(r@ =~~= step_spec(content@, line@));
            }
            r
        },
        Command::Put { key, value } => {
            let records = load_records(content);
            output.push(msg_set_ok_bytes(&key));
            let updated = set_record(records, key, value);
            let new_content = save_records(&updated);
            let r = StepResult { output, write: Some(new_content), quit: false };
            proof {
                assert(r@ =~~= step_spec(content@, line@));
            }
            r
        },
        Command::GetUsage => {
            output.push(msg_usage_get_bytes());
            let r = StepResult { output, write: None, quit: false };
            proof {
                assert(r@ =~~= step_spec(content@, line@));
            }
            r
        },
        Command::Get { key } => {
            let records = load_records(content);
            match get_record(&records, &key) {
                Some(v) => output.push(v),
                None => output.push(msg_not_found_bytes()),
            }
            let r = StepResult { output, write: None, quit: false };
            proof {
                assert(r@ =~~= step_spec(content@, line@));
            }
            r
        },
        Command::DeleteUsage => {
            output.push(msg_usage_delete_bytes());
            let r = StepResult { output, write: None, quit: false };
            proof {
                assert(r@ =~~= step_spec(content@, line@));
            }
            r
        },
        Command::Delete { key } => {
            let records = load_records(content);
            let (kept, found) = delete_record(records, &key);
            if found {
                output.push(msg_deleted_bytes(&key));
                let new_content = save_records(&kept);
                let r = StepResult { output, write: Some(new_content), quit: false };
                proof {
                    assert(r@ =~~= step_spec(content@, line@));
                }
                r
            } else {
                output.push(msg_not_found_bytes());
                let r = StepResult { output, write: None, quit: false };
                proof {
                    assert(r@ =~~= step_spec(content@, line@));
                }
                r
            }
        },
        Command::List => {
            let records = load_records(content);
            if records.len() == 0 {
                output.push(msg_empty_bytes());
                let r = StepResult { output, write: None, quit: false };
                proof {
                    assert(load_result(content@).len() == 0);
                    assert(r@ =~~= step_spec(content@, line@));
                }
                r
            } else {
                let n = records.len();
                let mut i: usize = 0;
                while i < n
                    invariant
                        0 <= i <= n,
                        n == records@.len(),
                        output@.len() == i,
                        forall|t: int|
                            0 <= t < i ==> #[trigger] output@[t]@ == views(records@)[t].key
                                + seq![44u8] + views(records@)[t].value,
                    decreases n - i,
                {
                    let mut entry = copy_range(&records[i].key, 0, records[i].key.len());
                    proof {
                        assert(records@[i as int].key@.subrange(
                            0,
                            records@[i as int].key@.len() as int,
                        ) =~= records@[i as int].key@);
                    }
                    entry.push(44);
                    append_bytes(&mut entry, &records[i].value);
                    proof {
                        assert(entry@ =~= views(records@)[i as int].key + seq![44u8]
                            + views(records@)[i as int].value);
                    }
                    output.push(entry);
                    i = i + 1;
                }
                let r = StepResult { output, write: None, quit: false };
                proof {
                    assert(load_result(content@).len() > 0);
                    assert(r@.output =~~= list_lines(load_result(content@))) by {
                        assert(views(records@) == load_result(content@));
                        assert(forall|t: int|
                            0 <= t < views(records@).len()
                                ==> #[trigger] list_lines(views(records@))[t]
                                == views(records@)[t].key + seq![44u8] + views(records@)[t].value);
                    }
                    assert(r@ =~~= step_spec(content@, line@));
                }
                r
            }
        },
        Command::Quit => {
            output.push(msg_exiting_bytes());
            let r = StepResult { output, write: None, quit: true };
            proof {
                assert(r@ =~~= step_spec(content@, line@));
            }
            r
        },
        Command::Unknown { word } => {
            output.push(msg_unknown_bytes(&word));
            output.push(msg_available_bytes());
            let r = StepResult { output, write: None, quit: false };
            proof {
                assert(r@ =~~= step_spec(content@, line@));
            }
            r
        },
    }
}

/// A `delete` for an absent key prints `Key not found` and writes
/// nothing, so the backing file stays byte for byte as it was; for a
/// present key it persists the store with every record for that key
/// removed, and none remains in what it persists.
pub proof fn lemma_delete_semantics(content: Seq<u8>, line: Seq<u8>, key: Seq<u8>)
    requires
        parse_command_spec(line) == (CommandView::Delete { key }),
    ensures
        !has_key(load_result(content), key) ==> step_spec(content, line) == reply(
            seq![msg_not_found()],
        ),
        has_key(load_result(content), key) ==> step_spec(content, line).write == Some(
            encode_records(remove_key(load_result(content), key)),
        ),
        !has_key(remove_key(load_result(content), key), key),
{
    lemma_remove_key_clears(load_result(content), key);
}

/// A `set` followed by a `get` of the same key, against the content
/// the `set` asked to persist, prints exactly the value the `set`
/// stored: the value words rejoined with single spaces.  This holds
/// for every key the line format can carry, that is, every key
/// without a comma; a key such as `a,b` is split by the format and
/// is not recovered.
pub proof fn lemma_set_then_get(
    content: Seq<u8>,
    set_line: Seq<u8>,
    get_line: Seq<u8>,
    key: Seq<u8>,
    value: Seq<u8>,
    c1: Seq<u8>,
)
    requires
        parse_command_spec(set_line) == (CommandView::Put { key, value }),
        parse_command_spec(get_line) == (CommandView::Get { key }),
        forall|i: int| 0 <= i < key.len() ==> key[i] != 44,
        step_spec(content, set_line).write == Some(c1),
    ensures
        step_spec(c1, get_line) == reply(seq![value]),
{
    let ws = split_words(set_line);
    lemma_split_words_shape(set_line);
    assert(key == ws[1]);
    assert(value == join_words(ws.skip(2)));
    let vwords = ws.skip(2);
    assert(forall|w: int| 0 <= w < vwords.len() ==> #[trigger] vwords[w] == ws[w + 2]);
    assert(forall|w: int, j: int|
        0 <= w < vwords.len() && 0 <= j < vwords[w].len()
            ==> !is_ws(#[trigger] vwords[w][j])) by {
        assert(forall|w: int, j: int|
            0 <= w < vwords.len() && 0 <= j < vwords[w].len()
                ==> #[trigger] vwords[w][j] == ws[w + 2][j]);
    }
    lemma_join_words_wordlike(vwords);
    assert(round_trippable(RecordView { key, value })) by {
        assert(forall|j: int| 0 <= j < key.len() ==> !is_ws(#[trigger] key[j]));
        assert(forall|j: int|
            0 <= j < value.len() ==> #[trigger] value[j] == 32 || !is_ws(value[j]));
        assert(forall|j: int| 0 <= j < value.len() ==> #[trigger] value[j] != 10);
    }
    lemma_load_round_trippable(content);
    lemma_persisted_set(load_result(content), key, value);
    assert(c1 == encode_records(set_result(load_result(content), key, value)));
    assert(lookup(load_result(c1), key) == Some(value));
}

/// `list` on a store with no records prints exactly `(empty)`,
/// writes nothing, and does not stop the loop.
pub proof fn lemma_list_empty(content: Seq<u8>, line: Seq<u8>)
    requires
        parse_command_spec(line) == CommandView::List,
        load_result(content).len() == 0,
    ensures
        step_spec(content, line) == reply(seq![msg_empty()]),
{
}
} // verus!
