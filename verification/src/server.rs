//! The request dispatcher: the owner of the storage engine.
//!
//! A parsed protocol value is validated into a command invocation (an
//! array of bulk strings), handed to the storage engine, and the reply is
//! wrapped for the caller's reply channel.

use crate::resp::{RESP, RespData, lemma_seq_deep_view, seq_deep_view};
use crate::server_result::{ServerError, ServerMessage, ServerValue};
use crate::storage::{EntryData, Storage, execution_matches, spec_execute, spec_sweep};
use vstd::prelude::*;

verus! {

/// The decoded words of a command invocation, when the items are all bulk
/// strings.
pub open spec fn spec_strings_of(items: Seq<RespData>) -> Option<Seq<Seq<char>>>
    decreases items.len(),
{
    if items.len() == 0 {
        Some(Seq::empty())
    } else {
        match items[0] {
            RespData::BulkString(s) => match spec_strings_of(items.drop_first()) {
                Some(rest) => Some(seq![s] + rest),
                None => None,
            },
            _ => None,
        }
    }
}

/// `spec_strings_of` succeeds exactly on all-bulk-string item runs, and
/// then decodes them element by element.
pub proof fn lemma_strings_of(items: Seq<RespData>)
    ensures
        spec_strings_of(items) is Some <==> (forall|i: int|
            0 <= i < items.len() ==> #[trigger] items[i] is BulkString),
        spec_strings_of(items) matches Some(cmd) ==> cmd.len() == items.len() && (forall|i: int|
            0 <= i < items.len() ==> #[trigger] cmd[i] == items[i]->BulkString_0),
    decreases items.len(),
{
    if items.len() > 0 {
        lemma_strings_of(items.drop_first());
        let rest = items.drop_first();
        assert(forall|i: int| 0 <= i < rest.len() ==> rest[i] == items[i + 1]);
        if items[0] is BulkString {
            match spec_strings_of(rest) {
                Some(restcmd) => {
                    assert forall|i: int| 0 <= i < items.len() implies #[trigger] items[i]
                        is BulkString by {
                        if i > 0 {
                            assert(rest[i - 1] == items[i]);
                        }
                    }
                    let cmd = spec_strings_of(items)->Some_0;
                    assert(cmd == seq![items[0]->BulkString_0] + restcmd);
                    assert forall|i: int| 0 <= i < items.len() implies #[trigger] cmd[i] == items[
                        i
                    ]->BulkString_0 by {
                        if i > 0 {
                            assert(cmd[i] == restcmd[i - 1]);
                            assert(rest[i - 1] == items[i]);
                        }
                    }
                },
                None => {
                    let w = choose|w: int| 0 <= w < rest.len() && !(#[trigger] rest[w] is BulkString);
                    assert(items[w + 1] == rest[w]);
                },
            }
        }
    }
}

/// The command invocation carried by a protocol value: the decoded words
/// of an array of bulk strings, and nothing for any other shape.
pub open spec fn spec_command_of(v: RespData) -> Option<Seq<Seq<char>>> {
    match v {
        RespData::Array(items) => spec_strings_of(items),
        _ => None,
    }
}

/// Validates a protocol value into a command invocation: an array whose
/// items are all bulk strings becomes the word list; any other shape is
/// refused.
pub fn request_to_command(value: &RESP) -> (r: Result<Vec<String>, ServerError>)
    ensures
        match spec_command_of(value.deep_view()) {
            Some(cmd) => r matches Ok(c) && c.deep_view() == cmd,
            None => r matches Err(e) && e == ServerError::IncorrectData,
        },
{
    match value {
        RESP::Array(items) => {
            let ghost idv = seq_deep_view(items@);
            proof {
                lemma_seq_deep_view(items@);
            }
            let mut out: Vec<String> = Vec::new();
            let mut i: usize = 0;
            while i < items.len()
                invariant
                    i <= items@.len(),
                    value.deep_view() == RespData::Array(idv),
                    idv == seq_deep_view(items@),
                    idv.len() == items@.len(),
                    forall|m: int| 0 <= m < items@.len() ==> idv[m] == items@[m].deep_view(),
                    out.deep_view().len() == i,
                    forall|m: int|
                        0 <= m < i ==> #[trigger] idv[m] is BulkString && out.deep_view()[m]
                            == idv[m]->BulkString_0,
                decreases items@.len() - i,
            {
                match &items[i] {
                    RESP::BulkString(s) => {
                        proof {
                            assert(items@[i as int].deep_view() == RespData::BulkString(s@));
                        }
                        out.push(s.clone());
                    },
                    _ => {
                        proof {
                            assert(!(idv[i as int] is BulkString));
                            lemma_strings_of(idv);
                        }
                        return Err(ServerError::IncorrectData);
                    },
                }
                i = i + 1;
            }
            proof {
                lemma_strings_of(idv);
                assert(spec_strings_of(idv) is Some);
                match spec_strings_of(idv) {
                    Some(cmd) => {
                        assert(out.deep_view() =~= cmd);
                    },
                    None => {
                        assert(false);
                    },
                }
            }
            Ok(out)
        },
        _ => Err(ServerError::IncorrectData),
    }
}

/// How a dispatched reply relates the storage states and the message sent
/// back to the transition function.
pub open spec fn reply_matches(
    pre: Seq<EntryData>,
    post: Seq<EntryData>,
    cmd: Seq<Seq<char>>,
    r: ServerMessage,
    now: u64,
) -> bool {
    let (st2, res) = spec_execute(pre, cmd, now);
    &&& post == st2
    &&& match (r, res) {
        (ServerMessage::Data(ServerValue::RESP(v)), Ok(d)) => v.deep_view() == d,
        (ServerMessage::Error(e), Err(_)) => e == ServerError::CommandError,
        _ => false,
    }
}

/// The dispatcher: it exclusively owns the key space for the lifetime of
/// the process.
pub struct Server {
    pub storage: Option<Storage>,
}

impl Server {
    /// The owned storage, if any, is well formed.
    pub open spec fn wf(self) -> bool {
        match self.storage {
            Some(st) => st.wf(),
            None => true,
        }
    }

    /// A server with no storage attached yet.
    pub fn new() -> (r: Self)
        ensures
            r.storage is None,
            r.wf(),
    {
        Self { storage: None }
    }

    /// Attaches the storage engine.
    pub fn set_storage(self, storage: Storage) -> (r: Self)
        ensures
            r.storage == Some(storage),
    {
        Self { storage: Some(storage) }
    }

    /// Runs one expiry sweep against the owned storage, if any.
    pub fn expire_keys(&mut self)
        requires
            old(self).wf(),
        ensures
            final(self).wf(),
            match old(self).storage {
                None => *final(self) == *old(self),
                Some(st) => match final(self).storage {
                    Some(st2) => exists|now: u64|
                        st2.store.deep_view() == #[trigger] spec_sweep(st.store.deep_view(), now),
                    None => false,
                },
            },
    {
        match &mut self.storage {
            Some(storage) => {
                storage.expire_keys();
            },
            None => {},
        }
    }

    /// Processes one parsed request: validates its shape, executes the
    /// command, and wraps exactly one reply.
    #[verifier::rlimit(50)]
    pub fn process_value(&mut self, value: &RESP) -> (r: ServerMessage)
        requires
            old(self).wf(),
        ensures
            final(self).wf(),
            match spec_command_of(value.deep_view()) {
                None => *final(self) == *old(self) && (r matches ServerMessage::Error(e) && e
                    == ServerError::IncorrectData),
                Some(cmd) => match (old(self).storage, final(self).storage) {
                    (None, None) => *final(self) == *old(self) && (r matches ServerMessage::Error(e)
                        && e == ServerError::StorageNotInitialised),
                    (Some(st), Some(st2)) => exists|now: u64|
                        #[trigger] reply_matches(
                            st.store.deep_view(),
                            st2.store.deep_view(),
                            cmd,
                            r,
                            now,
                        ),
                    _ => false,
                },
            },
    {
        let command = match request_to_command(value) {
            Ok(c) => c,
            Err(e) => {
                return ServerMessage::Error(e);
            },
        };
        match self.storage.take() {
            None => ServerMessage::Error(ServerError::StorageNotInitialised),
            Some(mut st) => {
                let ghost pre = st.store.deep_view();
                let res = st.process_command(&command);
                let ghost gres = res;
                let reply = match res {
                    Ok(v) => ServerMessage::Data(ServerValue::RESP(v)),
                    Err(_e) => ServerMessage::Error(ServerError::CommandError),
                };
                let ghost post = st.store.deep_view();
                self.storage = Some(st);
                proof {
                    let now = choose|now: u64|
                        #[trigger] execution_matches(pre, post, command.deep_view(), gres, now);
                    assert(execution_matches(pre, post, command.deep_view(), gres, now));
                    assert(reply_matches(pre, post, command.deep_view(), reply, now));
                    assert(old(self).storage->Some_0.store.deep_view() == pre);
                    assert(self.storage->Some_0.store.deep_view() == post);
                    assert(exists|n: u64|
                        #[trigger] reply_matches(
                            old(self).storage->Some_0.store.deep_view(),
                            self.storage->Some_0.store.deep_view(),
                            command.deep_view(),
                            reply,
                            n,
                        ));
                }
                reply
            },
        }
    }
}

} // verus!
