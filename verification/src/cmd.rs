//! The client command model: parsing a decoded RESP frame into a typed
//! command, exactly as the wire grammar prescribes.

use vstd::prelude::*;
use crate::bytes::{
    le_bytes, le_val, lemma_le_bytes_len, lemma_le_roundtrip, lemma_le_val_bound, pow256, read_le,
    write_le,
};
use crate::resp::{
    append_bytes, copy_range, lemma_resp_models_index, resp_model, resp_models, RespModel,
    RespValue,
};
use crate::storage::{is_fault, store_delete, store_put, store_view, StorageError};

verus! {

/// A conditional-write option: set only if absent (`NX`) or only if present
/// (`XX`).
#[derive(Clone, Copy, Debug, PartialEq, Eq, Structural)]
pub struct PutOptionSerde {
    pub nx: bool,
    pub xx: bool,
}

impl PutOptionSerde {
    pub fn nx() -> (r: Option<PutOptionSerde>)
        ensures
            r == Option::Some(PutOptionSerde { nx: true, xx: false }),
    {
        Option::Some(PutOptionSerde { nx: true, xx: false })
    }

    pub fn xx() -> (r: Option<PutOptionSerde>)
        ensures
            r == Option::Some(PutOptionSerde { nx: false, xx: true }),
    {
        Option::Some(PutOptionSerde { nx: false, xx: true })
    }
}

/// Errors of command parsing and admission.
#[derive(Clone, Copy, Debug, PartialEq, Eq, Structural)]
pub enum CmdError {
    UnknownCommand,
    NoneBulkString,
    InvalidBulkString,
    InvalidCommand,
}

#[derive(Debug, PartialEq, Eq)]
pub struct GetCmd {
    pub key: RespValue,
}

#[derive(Debug, PartialEq, Eq)]
pub struct SetCmd {
    pub key: RespValue,
    pub value: RespValue,
    pub option: Option<PutOptionSerde>,
}

#[derive(Debug, PartialEq, Eq)]
pub struct DelCmd {
    pub key: RespValue,
}

#[derive(Debug, PartialEq, Eq)]
pub struct PingCmd;

/// A parsed client request.
#[derive(Debug, PartialEq, Eq)]
pub enum Cmd {
    Get(GetCmd),
    Put(SetCmd),
    Del(DelCmd),
    Ping,
    Unknown,
}

/// The model of a parsed client request.
pub enum CmdView {
    Get { key: RespModel },
    Put { key: RespModel, value: RespModel, option: Option<PutOptionSerde> },
    Del { key: RespModel },
    Ping,
    Unknown,
}

pub open spec fn cmd_view(c: Cmd) -> CmdView {
    match c {
        Cmd::Get(g) => CmdView::Get { key: resp_model(g.key) },
        Cmd::Put(s) => CmdView::Put {
            key: resp_model(s.key),
            value: resp_model(s.value),
            option: s.option,
        },
        Cmd::Del(d) => CmdView::Del { key: resp_model(d.key) },
        Cmd::Ping => CmdView::Ping,
        Cmd::Unknown => CmdView::Unknown,
    }
}

// ---------------------------------------------------------------------------
// The grammar of each verb.
// ---------------------------------------------------------------------------

/// ASCII upper-casing of one byte.
pub open spec fn upper(b: u8) -> u8 {
    if 97 <= b && b <= 122 {
        (b - 32) as u8
    } else {
        b
    }
}

pub open spec fn upper_seq(s: Seq<u8>) -> Seq<u8> {
    Seq::new(s.len(), |i: int| upper(s[i]))
}

pub open spec fn verb_get() -> Seq<u8> {
    seq![71u8, 69u8, 84u8]
}

pub open spec fn verb_set() -> Seq<u8> {
    seq![83u8, 69u8, 84u8]
}

pub open spec fn verb_del() -> Seq<u8> {
    seq![68u8, 69u8, 76u8]
}

pub open spec fn verb_ping() -> Seq<u8> {
    seq![80u8, 73u8, 78u8, 71u8]
}

pub open spec fn opt_nx_lit() -> Seq<u8> {
    seq![78u8, 88u8]
}

pub open spec fn opt_xx_lit() -> Seq<u8> {
    seq![88u8, 88u8]
}

/// What `GET <rest>` parses to: one key of any frame shape.
pub open spec fn get_spec(rest: Seq<RespModel>) -> Result<RespModel, CmdError> {
    if rest.len() == 1 {
        Result::Ok(rest[0])
    } else {
        Result::Err(CmdError::InvalidCommand)
    }
}

/// What the optional third `SET` argument parses to: the literal bulk
/// string `NX` or `XX`.
pub open spec fn set_option_spec(m: RespModel) -> Result<Option<PutOptionSerde>, CmdError> {
    match m {
        RespModel::Bulk(ob) => {
            let b = match ob {
                Option::Some(b) => b,
                Option::None => Seq::empty(),
            };
            if b == opt_nx_lit() {
                Result::Ok(Option::Some(PutOptionSerde { nx: true, xx: false }))
            } else if b == opt_xx_lit() {
                Result::Ok(Option::Some(PutOptionSerde { nx: false, xx: true }))
            } else {
                Result::Err(CmdError::InvalidCommand)
            }
        },
        _ => Result::Err(CmdError::InvalidCommand),
    }
}

/// What `SET <rest>` parses to: key, value, and an optional option literal.
pub open spec fn set_spec(rest: Seq<RespModel>) -> Result<
    (RespModel, RespModel, Option<PutOptionSerde>),
    CmdError,
> {
    if rest.len() == 2 {
        Result::Ok((rest[0], rest[1], Option::None))
    } else if rest.len() == 3 {
        match set_option_spec(rest[2]) {
            Result::Ok(op) => Result::Ok((rest[0], rest[1], op)),
            Result::Err(e) => Result::Err(e),
        }
    } else {
        Result::Err(CmdError::InvalidCommand)
    }
}

/// The whole dispatch: a non-empty array of bulk strings whose first
/// element, ASCII-upper-cased, is the verb.
pub open spec fn cmd_from_spec(m: RespModel) -> CmdView {
    match m {
        RespModel::Array(items) => {
            if items.len() >= 1 && (forall|j: int|
                0 <= j < items.len() ==> (#[trigger] items[j]) matches RespModel::Bulk(_)) {
                match items[0] {
                    RespModel::Bulk(Option::Some(vb)) => {
                        let v = upper_seq(vb);
                        let rest = items.drop_first();
                        if v == verb_get() {
                            match get_spec(rest) {
                                Result::Ok(key) => CmdView::Get { key },
                                Result::Err(_) => CmdView::Unknown,
                            }
                        } else if v == verb_set() {
                            match set_spec(rest) {
                                Result::Ok((key, value, option)) => CmdView::Put {
                                    key,
                                    value,
                                    option,
                                },
                                Result::Err(_) => CmdView::Unknown,
                            }
                        } else if v == verb_del() {
                            match get_spec(rest) {
                                Result::Ok(key) => CmdView::Del { key },
                                Result::Err(_) => CmdView::Unknown,
                            }
                        } else if v == verb_ping() {
                            if rest.len() == 0 {
                                CmdView::Ping
                            } else {
                                CmdView::Unknown
                            }
                        } else {
                            CmdView::Unknown
                        }
                    },
                    _ => CmdView::Unknown,
                }
            } else {
                CmdView::Unknown
            }
        },
        _ => CmdView::Unknown,
    }
}

/// Law: verb matching is case-insensitive. Two frames that differ only in
/// the casing of the verb parse to the same command.
pub proof fn lemma_parse_case_insensitive(items: Seq<RespModel>, v1: Seq<u8>, v2: Seq<u8>)
    requires
        upper_seq(v1) == upper_seq(v2),
    ensures
        cmd_from_spec(RespModel::Array(seq![RespModel::Bulk(Option::Some(v1))] + items))
            == cmd_from_spec(RespModel::Array(seq![RespModel::Bulk(Option::Some(v2))] + items)),
{
    let a1 = seq![RespModel::Bulk(Option::Some(v1))] + items;
    let a2 = seq![RespModel::Bulk(Option::Some(v2))] + items;
    assert(a1[0] == RespModel::Bulk(Option::Some(v1)));
    assert(a2[0] == RespModel::Bulk(Option::Some(v2)));
    assert(a1.drop_first() =~= items);
    assert(a2.drop_first() =~= items);
    assert(forall|j: int| 1 <= j < a1.len() ==> a1[j] == a2[j]);
    assert((forall|j: int|
        0 <= j < a1.len() ==> (#[trigger] a1[j]) matches RespModel::Bulk(_)) <==> (forall|j: int|
        0 <= j < a2.len() ==> (#[trigger] a2[j]) matches RespModel::Bulk(_)));
}

// ---------------------------------------------------------------------------
// Executable parsers.
// ---------------------------------------------------------------------------

/// ASCII upper-casing of a byte string.
#[verifier::loop_isolation(false)]
fn to_upper(v: &Vec<u8>) -> (r: Vec<u8>)
    ensures
        r@ == upper_seq(v@),
{
    let n = v.len();
    let mut out: Vec<u8> = Vec::new();
    let mut i: usize = 0;
    while i < n
        invariant
            i <= n,
            out@.len() == i,
            forall|j: int| 0 <= j < i ==> out@[j] == upper(v@[j]),
        decreases n - i,
    {
        let b = v[i];
        if 97 <= b && b <= 122 {
            out.push(b - 32);
        } else {
            out.push(b);
        }
        i = i + 1;
    }
    proof {
        assert(out@ =~= upper_seq(v@));
    }
    out
}

impl GetCmd {
    /// Parse the arguments after the verb `GET`: exactly one key.
    pub fn parse(value: RespValue) -> (r: Result<GetCmd, CmdError>)
        ensures
            match resp_model(value) {
                RespModel::Array(items) => match get_spec(items) {
                    Result::Ok(key) => r matches Result::Ok(g) && resp_model(g.key) == key,
                    Result::Err(e) => r == Result::Err::<GetCmd, CmdError>(e),
                },
                _ => r == Result::Err::<GetCmd, CmdError>(CmdError::InvalidCommand),
            },
    {
        match value {
            RespValue::Array(mut arr) => {
                if arr.len() == 1 {
                    proof {
                        lemma_resp_models_index(arr@, 0);
                    }
                    let key = arr.remove(0);
                    Result::Ok(GetCmd { key })
                } else {
                    proof {
                        crate::resp::lemma_resp_models_len(arr@);
                    }
                    Result::Err(CmdError::InvalidCommand)
                }
            },
            _ => Result::Err(CmdError::InvalidCommand),
        }
    }
}

impl DelCmd {
    /// Parse the arguments after the verb `DEL`: exactly one key.
    pub fn parse(value: RespValue) -> (r: Result<DelCmd, CmdError>)
        ensures
            match resp_model(value) {
                RespModel::Array(items) => match get_spec(items) {
                    Result::Ok(key) => r matches Result::Ok(d) && resp_model(d.key) == key,
                    Result::Err(e) => r == Result::Err::<DelCmd, CmdError>(e),
                },
                _ => r == Result::Err::<DelCmd, CmdError>(CmdError::InvalidCommand),
            },
    {
        match value {
            RespValue::Array(mut arr) => {
                if arr.len() == 1 {
                    proof {
                        lemma_resp_models_index(arr@, 0);
                    }
                    let key = arr.remove(0);
                    Result::Ok(DelCmd { key })
                } else {
                    proof {
                        crate::resp::lemma_resp_models_len(arr@);
                    }
                    Result::Err(CmdError::InvalidCommand)
                }
            },
            _ => Result::Err(CmdError::InvalidCommand),
        }
    }
}

impl PingCmd {
    /// Parse the arguments after the verb `PING`: none.
    pub fn parse(value: RespValue) -> (r: Result<PingCmd, CmdError>)
        ensures
            match resp_model(value) {
                RespModel::Array(items) => if items.len() == 0 {
                    r matches Result::Ok(_)
                } else {
                    r == Result::Err::<PingCmd, CmdError>(CmdError::InvalidCommand)
                },
                _ => r == Result::Err::<PingCmd, CmdError>(CmdError::InvalidCommand),
            },
    {
        match value {
            RespValue::Array(arr) => {
                proof {
                    crate::resp::lemma_resp_models_len(arr@);
                }
                if arr.len() == 0 {
                    Result::Ok(PingCmd)
                } else {
                    Result::Err(CmdError::InvalidCommand)
                }
            },
            _ => Result::Err(CmdError::InvalidCommand),
        }
    }
}

impl SetCmd {
    /// Parse the arguments after the verb `SET`: key, value, and an
    /// optional `NX`/`XX` literal.
    pub fn parse(value: RespValue) -> (r: Result<SetCmd, CmdError>)
        ensures
            match resp_model(value) {
                RespModel::Array(items) => match set_spec(items) {
                    Result::Ok((key, val, option)) => r matches Result::Ok(s) && resp_model(s.key)
                        == key && resp_model(s.value) == val && s.option == option,
                    Result::Err(e) => r == Result::Err::<SetCmd, CmdError>(e),
                },
                _ => r == Result::Err::<SetCmd, CmdError>(CmdError::InvalidCommand),
            },
    {
        match value {
            RespValue::Array(mut arr) => {
                let n = arr.len();
                proof {
                    crate::resp::lemma_resp_models_len(arr@);
                }
                if n == 2 || n == 3 {
                    proof {
                        lemma_resp_models_index(arr@, 0);
                        lemma_resp_models_index(arr@, 1);
                        if n == 3 {
                            lemma_resp_models_index(arr@, 2);
                        }
                    }
                    let ghost items0 = arr@;
                    let key = arr.remove(0);
                    let value = arr.remove(0);
                    proof {
                        assert(arr@ =~= items0.subrange(2, n as int));
                    }
                    if arr.len() == 1 {
                        let option = arr.remove(0);
                        proof {
                            assert(option == items0[2]);
                        }
                        match option {
                            RespValue::BulkString(ob) => {
                                let matched: Option<Option<PutOptionSerde>> = match ob {
                                    Option::Some(b) => {
                                        if b.len() == 2 && b[0] == 78 && b[1] == 88 {
                                            proof {
                                                assert(b@ =~= opt_nx_lit());
                                            }
                                            Option::Some(PutOptionSerde::nx())
                                        } else if b.len() == 2 && b[0] == 88 && b[1] == 88 {
                                            proof {
                                                assert(b@ =~= opt_xx_lit());
                                            }
                                            Option::Some(PutOptionSerde::xx())
                                        } else {
                                            proof {
                                                assert(b@ != opt_nx_lit() && b@ != opt_xx_lit());
                                            }
                                            Option::None
                                        }
                                    },
                                    Option::None => {
                                        proof {
                                            assert(opt_nx_lit().len() == 2);
                                            assert(opt_xx_lit().len() == 2);
                                            assert(Seq::<u8>::empty().len() == 0);
                                            assert(Seq::<u8>::empty() != opt_nx_lit());
                                            assert(Seq::<u8>::empty() != opt_xx_lit());
                                        }
                                        Option::None
                                    },
                                };
                                match matched {
                                    Option::Some(op) => Result::Ok(
                                        SetCmd { key, value, option: op },
                                    ),
                                    Option::None => Result::Err(CmdError::InvalidCommand),
                                }
                            },
                            _ => Result::Err(CmdError::InvalidCommand),
                        }
                    } else {
                        Result::Ok(SetCmd { key, value, option: Option::None })
                    }
                } else {
                    Result::Err(CmdError::InvalidCommand)
                }
            },
            _ => Result::Err(CmdError::InvalidCommand),
        }
    }
}

impl Cmd {
    /// Parse a decoded frame into a client command. Anything that does not
    /// match the grammar comes back as `Unknown`.
    pub fn from(value: RespValue) -> (c: Cmd)
        ensures
            cmd_view(c) == cmd_from_spec(resp_model(value)),
    {
        match value {
            RespValue::Array(mut arr) => {
                let ghost items0 = arr@;
                let n = arr.len();
                proof {
                    crate::resp::lemma_resp_models_len(items0);
                }
                let mut all_bulk = true;
                let mut i: usize = 0;
                while i < n
                    invariant
                        i <= n,
                        n == arr@.len(),
                        arr@ == items0,
                        all_bulk == (forall|j: int|
                            0 <= j < i ==> (#[trigger] resp_models(items0)[j]) matches RespModel::Bulk(
                                _,
                            )),
                    decreases n - i,
                {
                    proof {
                        lemma_resp_models_index(items0, i as int);
                    }
                    match &arr[i] {
                        RespValue::BulkString(_) => {},
                        _ => {
                            all_bulk = false;
                        },
                    }
                    i = i + 1;
                }
                if n == 0 || !all_bulk {
                    return Cmd::Unknown;
                }
                proof {
                    lemma_resp_models_index(items0, 0);
                }
                let first = arr.remove(0);
                proof {
                    assert(arr@ =~= items0.drop_first());
                    assert(resp_models(items0).drop_first() =~= resp_models(
                        items0.drop_first(),
                    )) by {
                        assert(resp_models(items0) == seq![resp_model(items0[0])] + resp_models(
                            items0.drop_first(),
                        ));
                        crate::resp::lemma_resp_models_len(items0.drop_first());
                    }
                }
                match first {
                    RespValue::BulkString(Option::Some(vb)) => {
                        let up = to_upper(&vb);
                        if up.len() == 3 && (*up.get(0).unwrap() == 71 && *up.get(1).unwrap() == 69
                            && *up.get(2).unwrap() == 84) {
                            proof {
                                assert(up@ =~= verb_get());
                            }
                            match GetCmd::parse(RespValue::Array(arr)) {
                                Result::Ok(cmd) => Cmd::Get(cmd),
                                Result::Err(_) => Cmd::Unknown,
                            }
                        } else if up.len() == 3 && (*up.get(0).unwrap() == 83 && *up.get(
                            1,
                        ).unwrap() == 69 && *up.get(2).unwrap() == 84) {
                            proof {
                                assert(up@ =~= verb_set());
                                assert(up@ != verb_get());
                            }
                            match SetCmd::parse(RespValue::Array(arr)) {
                                Result::Ok(cmd) => Cmd::Put(cmd),
                                Result::Err(_) => Cmd::Unknown,
                            }
                        } else if up.len() == 3 && (*up.get(0).unwrap() == 68 && *up.get(
                            1,
                        ).unwrap() == 69 && *up.get(2).unwrap() == 76) {
                            proof {
                                assert(up@ =~= verb_del());
                                assert(up@ != verb_get() && up@ != verb_set());
                            }
                            match DelCmd::parse(RespValue::Array(arr)) {
                                Result::Ok(cmd) => Cmd::Del(cmd),
                                Result::Err(_) => Cmd::Unknown,
                            }
                        } else if up.len() == 4 && (*up.get(0).unwrap() == 80 && *up.get(
                            1,
                        ).unwrap() == 73 && *up.get(2).unwrap() == 78 && *up.get(3).unwrap()
                            == 71) {
                            proof {
                                assert(up@ =~= verb_ping());
                                assert(up@ != verb_get() && up@ != verb_set() && up@ != verb_del());
                            }
                            match PingCmd::parse(RespValue::Array(arr)) {
                                Result::Ok(_) => Cmd::Ping,
                                Result::Err(_) => Cmd::Unknown,
                            }
                        } else {
                            proof {
                                assert(up@ != verb_get() && up@ != verb_set() && up@ != verb_del()
                                    && up@ != verb_ping());
                            }
                            Cmd::Unknown
                        }
                    },
                    _ => Cmd::Unknown,
                }
            },
            _ => Cmd::Unknown,
        }
    }
}


// ---------------------------------------------------------------------------
// The replicated command.
// ---------------------------------------------------------------------------

/// A 128-bit identifier minted per admitted write, used to reunite a
/// committed log entry with the client awaiting it.
pub type RequestId = u128;

/// The command that travels through consensus.
#[derive(Debug, PartialEq, Eq)]
pub enum InnerCmd {
    Get(RequestId, Vec<u8>),
    Put(RequestId, Vec<u8>, Vec<u8>, Option<PutOptionSerde>),
    Del(RequestId, Vec<u8>),
    Ping,
}

/// The model of a replicated command.
pub enum InnerView {
    Get(u128, Seq<u8>),
    Put(u128, Seq<u8>, Seq<u8>, Option<PutOptionSerde>),
    Del(u128, Seq<u8>),
    Ping,
}

pub open spec fn inner_view(c: InnerCmd) -> InnerView {
    match c {
        InnerCmd::Get(id, k) => InnerView::Get(id, k@),
        InnerCmd::Put(id, k, v, op) => InnerView::Put(id, k@, v@, op),
        InnerCmd::Del(id, k) => InnerView::Del(id, k@),
        InnerCmd::Ping => InnerView::Ping,
    }
}

pub open spec fn inner_id(v: InnerView) -> u128 {
    match v {
        InnerView::Get(id, _) => id,
        InnerView::Put(id, _, _, _) => id,
        InnerView::Del(id, _) => id,
        InnerView::Ping => 0,
    }
}

/// A command that mutates storage and so must travel through consensus.
pub open spec fn is_write(v: InnerView) -> bool {
    v matches InnerView::Put(_, _, _, _) || v matches InnerView::Del(_, _)
}

// ---------------------------------------------------------------------------
// The stable byte encoding of a replicated command: a tag byte, then
// fixed-order fields, length-prefixed byte strings, little-endian integers.
// All replicas decode identically.
// ---------------------------------------------------------------------------

pub open spec fn opt_byte(op: Option<PutOptionSerde>) -> u8 {
    match op {
        Option::None => 0,
        Option::Some(o) => (1 + (if o.nx {
            1int
        } else {
            0int
        }) + (if o.xx {
            2int
        } else {
            0int
        })) as u8,
    }
}

pub open spec fn byte_opt(b: u8) -> Option<Option<PutOptionSerde>> {
    if b == 0 {
        Option::Some(Option::None)
    } else if 1 <= b && b <= 4 {
        Option::Some(
            Option::Some(
                PutOptionSerde { nx: b == 2 || b == 4, xx: b == 3 || b == 4 },
            ),
        )
    } else {
        Option::None
    }
}

pub open spec fn enc_cmd(v: InnerView) -> Seq<u8> {
    match v {
        InnerView::Get(id, k) => seq![0u8] + le_bytes(id as nat, 16) + le_bytes(k.len(), 8) + k,
        InnerView::Put(id, k, val, op) => seq![1u8] + le_bytes(id as nat, 16) + le_bytes(
            k.len(),
            8,
        ) + k + le_bytes(val.len(), 8) + val + seq![opt_byte(op)],
        InnerView::Del(id, k) => seq![2u8] + le_bytes(id as nat, 16) + le_bytes(k.len(), 8) + k,
        InnerView::Ping => seq![3u8],
    }
}

pub open spec fn dec_cmd(s: Seq<u8>) -> Option<InnerView> {
    if s.len() < 1 {
        Option::None
    } else {
        let tag = s[0];
        if tag == 0 || tag == 2 {
            if s.len() < 25 {
                Option::None
            } else {
                let id = le_val(s.subrange(1, 17));
                let klen = le_val(s.subrange(17, 25)) as int;
                if s.len() == 25 + klen {
                    let k = s.subrange(25, 25 + klen);
                    if tag == 0 {
                        Option::Some(InnerView::Get(id as u128, k))
                    } else {
                        Option::Some(InnerView::Del(id as u128, k))
                    }
                } else {
                    Option::None
                }
            }
        } else if tag == 1 {
            if s.len() < 25 {
                Option::None
            } else {
                let id = le_val(s.subrange(1, 17));
                let klen = le_val(s.subrange(17, 25)) as int;
                if s.len() < 25 + klen + 8 {
                    Option::None
                } else {
                    let k = s.subrange(25, 25 + klen);
                    let vlen = le_val(s.subrange(25 + klen, 25 + klen + 8)) as int;
                    if s.len() == 25 + klen + 8 + vlen + 1 {
                        let val = s.subrange(25 + klen + 8, 25 + klen + 8 + vlen);
                        match byte_opt(s[s.len() - 1]) {
                            Option::Some(op) => Option::Some(
                                InnerView::Put(id as u128, k, val, op),
                            ),
                            Option::None => Option::None,
                        }
                    } else {
                        Option::None
                    }
                }
            }
        } else if tag == 3 {
            if s.len() == 1 {
                Option::Some(InnerView::Ping)
            } else {
                Option::None
            }
        } else {
            Option::None
        }
    }
}

/// Byte strings short enough for their length prefix: below `2^64`.
pub open spec fn cmd_wf(v: InnerView) -> bool {
    match v {
        InnerView::Get(_, k) => k.len() < pow256(8),
        InnerView::Put(_, k, val, _) => k.len() < pow256(8) && val.len() < pow256(8),
        InnerView::Del(_, k) => k.len() < pow256(8),
        InnerView::Ping => true,
    }
}

proof fn lemma_id_fits(id: u128)
    ensures
        (id as nat) < pow256(16),
        le_val(le_bytes(id as nat, 16)) == id as nat,
{
    assert(pow256(16) == 0x100000000000000000000000000000000) by {
        reveal_with_fuel(pow256, 17);
    }
    lemma_le_roundtrip(id as nat, 16);
}

/// Law: the replicated-command codec round-trips. Every replica decodes
/// an encoded command back to exactly the command that was encoded.
pub proof fn lemma_cmd_roundtrip(v: InnerView)
    requires
        cmd_wf(v),
    ensures
        dec_cmd(enc_cmd(v)) == Option::Some(v),
{
    let s = enc_cmd(v);
    match v {
        InnerView::Get(id, k) => {
            lemma_id_fits(id);
            lemma_le_bytes_len(id as nat, 16);
            lemma_le_bytes_len(k.len(), 8);
            lemma_le_roundtrip(k.len(), 8);
            assert(s.len() == 25 + k.len());
            assert(s[0] == 0);
            assert(s.subrange(1, 17) =~= le_bytes(id as nat, 16));
            assert(s.subrange(17, 25) =~= le_bytes(k.len(), 8));
            assert(s.subrange(25, 25 + k.len() as int) =~= k);
        },
        InnerView::Del(id, k) => {
            lemma_id_fits(id);
            lemma_le_bytes_len(id as nat, 16);
            lemma_le_bytes_len(k.len(), 8);
            lemma_le_roundtrip(k.len(), 8);
            assert(s.len() == 25 + k.len());
            assert(s[0] == 2);
            assert(s.subrange(1, 17) =~= le_bytes(id as nat, 16));
            assert(s.subrange(17, 25) =~= le_bytes(k.len(), 8));
            assert(s.subrange(25, 25 + k.len() as int) =~= k);
        },
        InnerView::Put(id, k, val, op) => {
            lemma_id_fits(id);
            lemma_le_bytes_len(id as nat, 16);
            lemma_le_bytes_len(k.len(), 8);
            lemma_le_roundtrip(k.len(), 8);
            lemma_le_bytes_len(val.len(), 8);
            lemma_le_roundtrip(val.len(), 8);
            let kl = k.len() as int;
            let vl = val.len() as int;
            assert(s.len() == 25 + kl + 8 + vl + 1);
            assert(s[0] == 1);
            assert(s.subrange(1, 17) =~= le_bytes(id as nat, 16));
            assert(s.subrange(17, 25) =~= le_bytes(k.len(), 8));
            assert(s.subrange(25, 25 + kl) =~= k);
            assert(s.subrange(25 + kl, 25 + kl + 8) =~= le_bytes(val.len(), 8));
            assert(s.subrange(25 + kl + 8, 25 + kl + 8 + vl) =~= val);
            assert(s[s.len() - 1] == opt_byte(op));
            assert(byte_opt(opt_byte(op)) == Option::Some(op));
        },
        InnerView::Ping => {
            assert(s.len() == 1);
            assert(s[0] == 3);
        },
    }
}

impl InnerCmd {
    /// Encode for replication, in the stable format above.
    pub fn encode_cmd(&self) -> (r: Vec<u8>)
        ensures
            r@ == enc_cmd(inner_view(*self)),
    {
        let mut out: Vec<u8> = Vec::new();
        match self {
            InnerCmd::Get(id, k) => {
                out.push(0);
                write_le(*id, 16, &mut out);
                write_le(k.len() as u128, 8, &mut out);
                append_bytes(&mut out, k);
                proof {
                    assert(out@ =~= enc_cmd(inner_view(*self)));
                }
            },
            InnerCmd::Put(id, k, v, op) => {
                out.push(1);
                write_le(*id, 16, &mut out);
                write_le(k.len() as u128, 8, &mut out);
                append_bytes(&mut out, k);
                write_le(v.len() as u128, 8, &mut out);
                append_bytes(&mut out, v);
                let ob: u8 = match op {
                    Option::None => 0,
                    Option::Some(o) => {
                        let mut x: u8 = 1;
                        if o.nx {
                            x = x + 1;
                        }
                        if o.xx {
                            x = x + 2;
                        }
                        x
                    },
                };
                out.push(ob);
                proof {
                    assert(ob == opt_byte(*op));
                    assert(out@ =~= enc_cmd(inner_view(*self)));
                }
            },
            InnerCmd::Del(id, k) => {
                out.push(2);
                write_le(*id, 16, &mut out);
                write_le(k.len() as u128, 8, &mut out);
                append_bytes(&mut out, k);
                proof {
                    assert(out@ =~= enc_cmd(inner_view(*self)));
                }
            },
            InnerCmd::Ping => {
                out.push(3);
                proof {
                    assert(out@ =~= enc_cmd(inner_view(*self)));
                }
            },
        }
        out
    }

    /// Decode a replicated payload; `None` when the bytes are not one
    /// well-formed command.
    pub fn decode_cmd(s: &Vec<u8>) -> (r: Option<InnerCmd>)
        ensures
            match r {
                Option::Some(c) => dec_cmd(s@) == Option::Some(inner_view(c)),
                Option::None => dec_cmd(s@) == Option::None::<InnerView>,
            },
    {
        let n = s.len();
        if n < 1 {
            return Option::None;
        }
        let tag = s[0];
        if tag == 0 || tag == 2 {
            if n < 25 {
                return Option::None;
            }
            let id = read_le(s, 1, 16);
            let klen128 = read_le(s, 17, 8);
            proof {
                lemma_le_val_bound(s@.subrange(1, 17));
                assert(pow256(16) == 0x100000000000000000000000000000000) by {
                    reveal_with_fuel(pow256, 17);
                }
            }
            if klen128 != (n - 25) as u128 {
                return Option::None;
            }
            let k = copy_range(s, 25, n);
            proof {
                assert(s@.subrange(25, n as int) =~= s@.subrange(
                    25,
                    25 + le_val(s@.subrange(17, 25)) as int,
                ));
            }
            if tag == 0 {
                Option::Some(InnerCmd::Get(id, k))
            } else {
                Option::Some(InnerCmd::Del(id, k))
            }
        } else if tag == 1 {
            if n < 34 {
                return Option::None;
            }
            let id = read_le(s, 1, 16);
            let klen128 = read_le(s, 17, 8);
            proof {
                lemma_le_val_bound(s@.subrange(1, 17));
                assert(pow256(16) == 0x100000000000000000000000000000000) by {
                    reveal_with_fuel(pow256, 17);
                }
            }
            if klen128 > (n - 33) as u128 {
                return Option::None;
            }
            let klen = klen128 as usize;
            if n - 34 < klen {
                return Option::None;
            }
            let k = copy_range(s, 25, 25 + klen);
            let vlen128 = read_le(s, 25 + klen, 8);
            if vlen128 != (n - 34 - klen) as u128 {
                return Option::None;
            }
            let vlen = n - 34 - klen;
            let val = copy_range(s, 25 + klen + 8, 25 + klen + 8 + vlen);
            let ob = s[n - 1];
            let op: Option<PutOptionSerde> = if ob == 0 {
                Option::None
            } else if ob == 1 {
                Option::Some(PutOptionSerde { nx: false, xx: false })
            } else if ob == 2 {
                Option::Some(PutOptionSerde { nx: true, xx: false })
            } else if ob == 3 {
                Option::Some(PutOptionSerde { nx: false, xx: true })
            } else if ob == 4 {
                Option::Some(PutOptionSerde { nx: true, xx: true })
            } else {
                return Option::None;
            };
            Option::Some(InnerCmd::Put(id, k, val, op))
        } else if tag == 3 {
            if n == 1 {
                Option::Some(InnerCmd::Ping)
            } else {
                Option::None
            }
        } else {
            Option::None
        }
    }

    /// The request id this command carries; `Ping` carries none.
    pub fn get_request_id(&self) -> (r: RequestId)
        requires
            !(inner_view(*self) matches InnerView::Ping),
        ensures
            r == inner_id(inner_view(*self)),
    {
        match self {
            InnerCmd::Get(id, _) => *id,
            InnerCmd::Put(id, _, _, _) => *id,
            InnerCmd::Del(id, _) => *id,
            InnerCmd::Ping => {
                proof {
                    assert(false);
                }
                0
            },
        }
    }

    /// Apply a committed write to storage: `Put` through the engine's
    /// conditional put, `Del` through its delete.
    pub fn handle(&self, storage: &mut bitcask_engine_rs::bitcask::BitCask) -> (r: Result<
        (),
        StorageError,
    >)
        requires
            is_write(inner_view(*self)),
        ensures
            handle_post(
                inner_view(*self),
                store_view(*old(storage)),
                store_view(*final(storage)),
                r,
            ),
    {
        match self {
            InnerCmd::Put(_, key, value, option) => {
                let (nx, xx) = match option {
                    Option::Some(o) => (o.nx, o.xx),
                    Option::None => (false, false),
                };
                let r = store_put(storage, key, value, nx, xx);
                proof {
                    assert(handle_post(
                        inner_view(*self),
                        store_view(*old(storage)),
                        store_view(*storage),
                        r,
                    ));
                }
                r
            },
            InnerCmd::Del(_, key) => store_delete(storage, key),
            _ => {
                proof {
                    assert(false);
                }
                Result::Err(StorageError::Other)
            },
        }
    }

    /// Admit a parsed client command: mint a fresh request id and convert
    /// the bulk-string arguments to plain byte strings.
    pub fn new(cmd: Cmd) -> (r: Result<InnerCmd, CmdError>)
        ensures
            match new_cmd_err(cmd_view(cmd)) {
                Option::Some(e) => r == Result::Err::<InnerCmd, CmdError>(e),
                Option::None => r matches Result::Ok(c) && new_cmd_matches(
                    cmd_view(cmd),
                    inner_view(c),
                ),
            },
    {
        let id = fresh_request_id();
        match cmd {
            Cmd::Get(g) => match convert_bulk_string_to_vec(g.key) {
                Result::Ok(k) => Result::Ok(InnerCmd::Get(id, k)),
                Result::Err(e) => Result::Err(e),
            },
            Cmd::Put(s) => match convert_bulk_string_to_vec(s.key) {
                Result::Err(e) => Result::Err(e),
                Result::Ok(k) => match convert_bulk_string_to_vec(s.value) {
                    Result::Err(e) => Result::Err(e),
                    Result::Ok(v) => Result::Ok(InnerCmd::Put(id, k, v, s.option)),
                },
            },
            Cmd::Del(d) => match convert_bulk_string_to_vec(d.key) {
                Result::Ok(k) => Result::Ok(InnerCmd::Del(id, k)),
                Result::Err(e) => Result::Err(e),
            },
            Cmd::Ping => Result::Ok(InnerCmd::Ping),
            Cmd::Unknown => Result::Err(CmdError::UnknownCommand),
        }
    }
}

/// What applying one write to the map model yields.
pub open spec fn apply_result(v: InnerView, m: Map<Seq<u8>, Seq<u8>>) -> Map<Seq<u8>, Seq<u8>> {
    match v {
        InnerView::Put(_, k, val, _) => m.insert(k, val),
        InnerView::Del(_, k) => m.remove(k),
        _ => m,
    }
}

/// Whether the write's `NX`/`XX` condition refuses it on this map.
pub open spec fn apply_cond_fails(v: InnerView, m: Map<Seq<u8>, Seq<u8>>) -> bool {
    match v {
        InnerView::Put(_, k, _, op) => match op {
            Option::Some(o) => (o.nx && m.contains_key(k)) || (!o.nx && o.xx && !m.contains_key(
                k,
            )),
            Option::None => false,
        },
        _ => false,
    }
}

/// The contract of applying one write: an unmet condition refuses
/// deterministically and leaves the map as it was; otherwise either the
/// write lands and the map is the model result, or a storage fault leaves
/// the map as it was.
pub open spec fn handle_post(
    v: InnerView,
    m0: Map<Seq<u8>, Seq<u8>>,
    m1: Map<Seq<u8>, Seq<u8>>,
    r: Result<(), StorageError>,
) -> bool {
    match v {
        InnerView::Put(_, k, val, op) => {
            let nx = op matches Option::Some(o) && o.nx;
            let xx = op matches Option::Some(o) && o.xx && !o.nx;
            if nx && m0.contains_key(k) {
                r == Result::Err::<(), StorageError>(StorageError::KeyExists) && m1 == m0
            } else if xx && !m0.contains_key(k) {
                r == Result::Err::<(), StorageError>(StorageError::KeyNotFound) && m1 == m0
            } else {
                (r matches Result::Ok(_) && m1 == m0.insert(k, val)) || (r matches Result::Err(e)
                    && is_fault(e) && m1 == m0)
            }
        },
        InnerView::Del(_, k) => (r matches Result::Ok(_) && m1 == m0.remove(k)) || (r
            matches Result::Err(e) && is_fault(e) && m1 == m0),
        _ => false,
    }
}

/// Which error admission answers, if any: `Unknown` is refused outright,
/// and every key or value must be a non-null bulk string.
pub open spec fn bulk_arg_err(m: RespModel) -> Option<CmdError> {
    match m {
        RespModel::Bulk(Option::Some(_)) => Option::None,
        RespModel::Bulk(Option::None) => Option::Some(CmdError::NoneBulkString),
        _ => Option::Some(CmdError::InvalidBulkString),
    }
}

pub open spec fn new_cmd_err(cv: CmdView) -> Option<CmdError> {
    match cv {
        CmdView::Unknown => Option::Some(CmdError::UnknownCommand),
        CmdView::Ping => Option::None,
        CmdView::Get { key } => bulk_arg_err(key),
        CmdView::Del { key } => bulk_arg_err(key),
        CmdView::Put { key, value, .. } => if bulk_arg_err(key) matches Option::Some(_) {
            bulk_arg_err(key)
        } else {
            bulk_arg_err(value)
        },
    }
}

/// The admitted command carries the client's bytes unchanged, under a
/// fresh (unspecified) request id.
pub open spec fn new_cmd_matches(cv: CmdView, iv: InnerView) -> bool {
    match cv {
        CmdView::Get { key } => match key {
            RespModel::Bulk(Option::Some(b)) => iv matches InnerView::Get(_, k) && k == b,
            _ => false,
        },
        CmdView::Put { key, value, option } => match (key, value) {
            (RespModel::Bulk(Option::Some(kb)), RespModel::Bulk(Option::Some(vb))) => iv
                matches InnerView::Put(_, k, v, op) && k == kb && v == vb && op == option,
            _ => false,
        },
        CmdView::Del { key } => match key {
            RespModel::Bulk(Option::Some(b)) => iv matches InnerView::Del(_, k) && k == b,
            _ => false,
        },
        CmdView::Ping => iv matches InnerView::Ping,
        CmdView::Unknown => false,
    }
}

/// The bytes of a non-null bulk string; anything else is refused as the
/// argument of a command.
pub fn convert_bulk_string_to_vec(bulk_string: RespValue) -> (r: Result<Vec<u8>, CmdError>)
    ensures
        match resp_model(bulk_string) {
            RespModel::Bulk(ob) => match ob {
                Option::Some(b) => r matches Result::Ok(v) && v@ == b,
                Option::None => r == Result::Err::<Vec<u8>, CmdError>(CmdError::NoneBulkString),
            },
            _ => r == Result::Err::<Vec<u8>, CmdError>(CmdError::InvalidBulkString),
        },
{
    match bulk_string {
        RespValue::BulkString(Option::Some(bytes)) => Result::Ok(bytes),
        RespValue::BulkString(Option::None) => Result::Err(CmdError::NoneBulkString),
        _ => Result::Err(CmdError::InvalidBulkString),
    }
}

/// Relies on `uuid::Uuid::new_v4`: a randomly generated identifier; nothing
/// is assumed of its value.
#[verifier::external_body]
fn fresh_request_id() -> RequestId {
    uuid::Uuid::new_v4().as_u128()
}

} // verus!
