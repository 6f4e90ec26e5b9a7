//! The per-connection decision logic: classify a decoded frame, serve
//! reads, and phrase every reply the server can give.

use vstd::prelude::*;
use crate::cmd::{cmd_from_spec, new_cmd_err, new_cmd_matches, Cmd, CmdView, InnerCmd};
use crate::resp::{resp_model, DecodeError, RespModel, RespValue};
use crate::storage::{store_get, store_view, StorageError};

verus! {

pub open spec fn msg_ok() -> Seq<u8> {
    seq![79u8, 75u8]
}

pub open spec fn msg_pong() -> Seq<u8> {
    seq![80u8, 79u8, 78u8, 71u8]
}

/// `"Request timeout"`.
pub open spec fn msg_request_timeout() -> Seq<u8> {
    seq![
        82u8, 101u8, 113u8, 117u8, 101u8, 115u8, 116u8, 32u8, 116u8, 105u8, 109u8, 101u8, 111u8,
        117u8, 116u8,
    ]
}

/// `"Internal error"`.
pub open spec fn msg_internal_error() -> Seq<u8> {
    seq![73u8, 110u8, 116u8, 101u8, 114u8, 110u8, 97u8, 108u8, 32u8, 101u8, 114u8, 114u8, 111u8,
        114u8]
}

/// `"Err unknown command"`.
pub open spec fn msg_unknown_command() -> Seq<u8> {
    seq![
        69u8, 114u8, 114u8, 32u8, 117u8, 110u8, 107u8, 110u8, 111u8, 119u8, 110u8, 32u8, 99u8,
        111u8, 109u8, 109u8, 97u8, 110u8, 100u8,
    ]
}

/// `"Err "` followed by the decode error's name.
pub open spec fn decode_error_msg(e: DecodeError) -> Seq<u8> {
    let prefix = seq![69u8, 114u8, 114u8, 32u8];
    match e {
        DecodeError::IncompleteData => prefix + seq![
            73u8, 110u8, 99u8, 111u8, 109u8, 112u8, 108u8, 101u8, 116u8, 101u8, 68u8, 97u8, 116u8,
            97u8,
        ],
        DecodeError::UnrecognizedType => prefix + seq![
            85u8, 110u8, 114u8, 101u8, 99u8, 111u8, 103u8, 110u8, 105u8, 122u8, 101u8, 100u8,
            84u8, 121u8, 112u8, 101u8,
        ],
        DecodeError::ParseIntError => prefix + seq![
            80u8, 97u8, 114u8, 115u8, 101u8, 73u8, 110u8, 116u8, 69u8, 114u8, 114u8, 111u8, 114u8,
        ],
        DecodeError::Utf8Error => prefix + seq![85u8, 116u8, 102u8, 56u8, 69u8, 114u8, 114u8,
            111u8, 114u8],
        DecodeError::NeedMore => prefix,
    }
}

fn push_bytes(out: &mut Vec<u8>, b: &[u8])
    ensures
        final(out)@ == old(out)@ + b@,
{
    let copied = vstd::slice::slice_to_vec(b);
    let mut copied = copied;
    out.append(&mut copied);
}

/// Serve a read: consult storage and phrase the reply. An absent key
/// answers the null bulk string.
pub fn handle_read(storage: &bitcask_engine_rs::bitcask::BitCask, key: &Vec<u8>) -> (r: RespValue)
    ensures
        ({
            let m = store_view(*storage);
            match r {
                RespValue::BulkString(Option::Some(v)) => m.contains_key(key@) && v@ == m[key@],
                RespValue::BulkString(Option::None) => true,
                _ => false,
            }
        }),
        !store_view(*storage).contains_key(key@) ==> r matches RespValue::BulkString(
            Option::None,
        ),
{
    let value = store_get(storage, key);
    RespValue::BulkString(value)
}

/// What a write that went through the sync layer came back with: the apply
/// task answered, the reply channel was dropped, or the wait timed out.
pub enum WriteWait {
    Applied(Result<(), StorageError>),
    ChannelClosed,
    TimedOut,
}

pub open spec fn write_reply_spec(o: WriteWait) -> RespModel {
    match o {
        WriteWait::Applied(res) => match res {
            Result::Ok(_) => RespModel::Simple(msg_ok()),
            Result::Err(_) => RespModel::Bulk(Option::None),
        },
        WriteWait::ChannelClosed => RespModel::Error(msg_request_timeout()),
        WriteWait::TimedOut => RespModel::Error(msg_internal_error()),
    }
}

/// Phrase the reply to a write: `+OK` when applied, the null bulk string
/// when the write was refused (an unmet `NX`/`XX` condition or a storage
/// fault), and an error frame when the wait ended without an answer.
pub fn write_reply(outcome: &WriteWait) -> (r: RespValue)
    ensures
        resp_model(r) == write_reply_spec(*outcome),
{
    match outcome {
        WriteWait::Applied(res) => match res {
            Result::Ok(_) => {
                let mut m: Vec<u8> = Vec::new();
                m.push(79);
                m.push(75);
                proof {
                    assert(m@ =~= msg_ok());
                }
                RespValue::SimpleString(m)
            },
            Result::Err(_) => RespValue::BulkString(Option::None),
        },
        WriteWait::ChannelClosed => {
            let mut m: Vec<u8> = Vec::new();
            push_bytes(&mut m, &[82, 101, 113, 117, 101, 115, 116, 32, 116, 105, 109, 101, 111,
                117, 116]);
            proof {
                assert(m@ =~= msg_request_timeout());
            }
            RespValue::Error(m)
        },
        WriteWait::TimedOut => {
            let mut m: Vec<u8> = Vec::new();
            push_bytes(&mut m, &[73, 110, 116, 101, 114, 110, 97, 108, 32, 101, 114, 114, 111,
                114]);
            proof {
                assert(m@ =~= msg_internal_error());
            }
            RespValue::Error(m)
        },
    }
}

/// Phrase the error frame for a malformed frame; the connection then
/// continues.
pub fn decode_error_reply(e: &DecodeError) -> (r: RespValue)
    requires
        !(*e matches DecodeError::NeedMore),
    ensures
        resp_model(r) == RespModel::Error(decode_error_msg(*e)),
{
    let mut m: Vec<u8> = Vec::new();
    push_bytes(&mut m, &[69, 114, 114, 32]);
    match e {
        DecodeError::IncompleteData => {
            push_bytes(&mut m, &[73, 110, 99, 111, 109, 112, 108, 101, 116, 101, 68, 97, 116, 97]);
        },
        DecodeError::UnrecognizedType => {
            push_bytes(&mut m, &[85, 110, 114, 101, 99, 111, 103, 110, 105, 122, 101, 100, 84,
                121, 112, 101]);
        },
        DecodeError::ParseIntError => {
            push_bytes(&mut m, &[80, 97, 114, 115, 101, 73, 110, 116, 69, 114, 114, 111, 114]);
        },
        DecodeError::Utf8Error => {
            push_bytes(&mut m, &[85, 116, 102, 56, 69, 114, 114, 111, 114]);
        },
        DecodeError::NeedMore => {
            proof {
                assert(false);
            }
        },
    }
    proof {
        assert(m@ =~= decode_error_msg(*e));
    }
    RespValue::Error(m)
}

/// What the connection does with one decoded frame.
pub enum SessionAction {
    /// Answer at once with this frame.
    Reply(RespValue),
    /// Serve a read of this key from local storage.
    Read(Vec<u8>),
    /// Hand this write to the sync layer and await its answer.
    Submit(InnerCmd),
}

/// Classify one decoded frame: an unknown or malformed command is answered
/// with an error frame, `PING` with `+PONG`, a read is served locally, and
/// a write goes to consensus.
pub fn classify_frame(frame: RespValue) -> (r: SessionAction)
    ensures
        ({
            let cv = cmd_from_spec(resp_model(frame));
            match new_cmd_err(cv) {
                Option::Some(_) => r matches SessionAction::Reply(v) && resp_model(v)
                    == RespModel::Error(msg_unknown_command()),
                Option::None => match cv {
                    CmdView::Ping => r matches SessionAction::Reply(v) && resp_model(v)
                        == RespModel::Simple(msg_pong()),
                    CmdView::Get { key } => r matches SessionAction::Read(k) && RespModel::Bulk(
                        Option::Some(k@),
                    ) == key,
                    _ => r matches SessionAction::Submit(c) && new_cmd_matches(
                        cv,
                        crate::cmd::inner_view(c),
                    ),
                },
            }
        }),
{
    let cmd = Cmd::from(frame);
    match InnerCmd::new(cmd) {
        Result::Err(_) => {
            let mut m: Vec<u8> = Vec::new();
            push_bytes(&mut m, &[69, 114, 114, 32, 117, 110, 107, 110, 111, 119, 110, 32, 99, 111,
                109, 109, 97, 110, 100]);
            proof {
                assert(m@ =~= msg_unknown_command());
            }
            SessionAction::Reply(RespValue::Error(m))
        },
        Result::Ok(inner) => match inner {
            InnerCmd::Get(_, key) => SessionAction::Read(key),
            InnerCmd::Ping => {
                let mut m: Vec<u8> = Vec::new();
                m.push(80);
                m.push(79);
                m.push(78);
                m.push(71);
                proof {
                    assert(m@ =~= msg_pong());
                }
                SessionAction::Reply(RespValue::SimpleString(m))
            },
            w => SessionAction::Submit(w),
        },
    }
}

} // verus!
