use kv_rs::cli::Args;
use kv_rs::cmd::{Cmd, CmdError, DelCmd, GetCmd, InnerCmd, PutOptionSerde, SetCmd};
use kv_rs::resp::RespValue;

fn bulk(s: &[u8]) -> RespValue {
    RespValue::BulkString(Some(s.to_vec()))
}

fn arr(items: Vec<RespValue>) -> RespValue {
    RespValue::Array(items)
}

#[test]
fn parse_get() {
    let c = Cmd::from(arr(vec![bulk(b"GET"), bulk(b"foo")]));
    assert_eq!(c, Cmd::Get(GetCmd { key: bulk(b"foo") }));
}

#[test]
fn parse_verb_is_case_insensitive() {
    let lower = Cmd::from(arr(vec![bulk(b"get"), bulk(b"foo")]));
    let mixed = Cmd::from(arr(vec![bulk(b"gEt"), bulk(b"foo")]));
    let upper = Cmd::from(arr(vec![bulk(b"GET"), bulk(b"foo")]));
    assert_eq!(lower, upper);
    assert_eq!(mixed, upper);
}

#[test]
fn parse_set_plain() {
    let c = Cmd::from(arr(vec![bulk(b"SET"), bulk(b"k"), bulk(b"v")]));
    assert_eq!(
        c,
        Cmd::Put(SetCmd { key: bulk(b"k"), value: bulk(b"v"), option: None })
    );
}

#[test]
fn parse_set_nx_and_xx() {
    let c = Cmd::from(arr(vec![bulk(b"SET"), bulk(b"k"), bulk(b"v"), bulk(b"NX")]));
    assert_eq!(
        c,
        Cmd::Put(SetCmd {
            key: bulk(b"k"),
            value: bulk(b"v"),
            option: Some(PutOptionSerde { nx: true, xx: false }),
        })
    );
    let c = Cmd::from(arr(vec![bulk(b"SET"), bulk(b"k"), bulk(b"v"), bulk(b"XX")]));
    assert_eq!(
        c,
        Cmd::Put(SetCmd {
            key: bulk(b"k"),
            value: bulk(b"v"),
            option: Some(PutOptionSerde { nx: false, xx: true }),
        })
    );
}

#[test]
fn set_option_literal_is_case_sensitive() {
    let c = Cmd::from(arr(vec![bulk(b"SET"), bulk(b"k"), bulk(b"v"), bulk(b"nx")]));
    assert_eq!(c, Cmd::Unknown);
}

#[test]
fn parse_del_and_ping() {
    let c = Cmd::from(arr(vec![bulk(b"DEL"), bulk(b"foo")]));
    assert_eq!(c, Cmd::Del(DelCmd { key: bulk(b"foo") }));
    let c = Cmd::from(arr(vec![bulk(b"PING")]));
    assert_eq!(c, Cmd::Ping);
}

#[test]
fn parse_rejects_wrong_arity() {
    assert_eq!(Cmd::from(arr(vec![bulk(b"GET")])), Cmd::Unknown);
    assert_eq!(
        Cmd::from(arr(vec![bulk(b"GET"), bulk(b"a"), bulk(b"b")])),
        Cmd::Unknown
    );
    assert_eq!(Cmd::from(arr(vec![bulk(b"SET"), bulk(b"k")])), Cmd::Unknown);
    assert_eq!(
        Cmd::from(arr(vec![bulk(b"PING"), bulk(b"x")])),
        Cmd::Unknown
    );
}

#[test]
fn parse_rejects_unknown_verb_and_shapes() {
    assert_eq!(Cmd::from(arr(vec![bulk(b"NOPE")])), Cmd::Unknown);
    assert_eq!(Cmd::from(arr(Vec::new())), Cmd::Unknown);
    assert_eq!(Cmd::from(bulk(b"GET")), Cmd::Unknown);
    assert_eq!(Cmd::from(RespValue::Integer(3)), Cmd::Unknown);
    assert_eq!(
        Cmd::from(arr(vec![bulk(b"GET"), RespValue::Integer(1)])),
        Cmd::Unknown
    );
    assert_eq!(
        Cmd::from(arr(vec![RespValue::BulkString(None), bulk(b"x")])),
        Cmd::Unknown
    );
}

#[test]
fn admit_get_keeps_key_bytes() {
    let inner = InnerCmd::new(Cmd::Get(GetCmd { key: bulk(b"foo") })).unwrap();
    match &inner {
        InnerCmd::Get(_, k) => assert_eq!(k, &b"foo".to_vec()),
        other => panic!("expected a read, got {:?}", other),
    }
}

#[test]
fn admit_mints_distinct_request_ids() {
    let a = InnerCmd::new(Cmd::Del(DelCmd { key: bulk(b"x") })).unwrap();
    let b = InnerCmd::new(Cmd::Del(DelCmd { key: bulk(b"x") })).unwrap();
    assert_ne!(a.get_request_id(), b.get_request_id());
}

#[test]
fn admit_rejects_unknown_and_bad_arguments() {
    assert_eq!(InnerCmd::new(Cmd::Unknown), Err(CmdError::UnknownCommand));
    assert_eq!(
        InnerCmd::new(Cmd::Get(GetCmd { key: RespValue::BulkString(None) })),
        Err(CmdError::NoneBulkString)
    );
    assert_eq!(
        InnerCmd::new(Cmd::Get(GetCmd { key: RespValue::Integer(1) })),
        Err(CmdError::InvalidBulkString)
    );
    assert_eq!(
        InnerCmd::new(Cmd::Put(SetCmd {
            key: bulk(b"k"),
            value: RespValue::BulkString(None),
            option: None,
        })),
        Err(CmdError::NoneBulkString)
    );
    assert!(InnerCmd::new(Cmd::Ping).is_ok());
}

#[test]
fn command_codec_round_trips() {
    let cases = vec![
        InnerCmd::Get(7, b"key".to_vec()),
        InnerCmd::Del(u128::MAX, b"".to_vec()),
        InnerCmd::Put(42, b"k".to_vec(), b"value".to_vec(), None),
        InnerCmd::Put(1, b"k".to_vec(), b"v".to_vec(), Some(PutOptionSerde { nx: true, xx: false })),
        InnerCmd::Put(2, b"k".to_vec(), b"v".to_vec(), Some(PutOptionSerde { nx: false, xx: true })),
        InnerCmd::Put(3, b"k".to_vec(), b"v".to_vec(), Some(PutOptionSerde { nx: false, xx: false })),
        InnerCmd::Ping,
    ];
    for c in cases {
        let bytes = c.encode_cmd();
        let back = InnerCmd::decode_cmd(&bytes).expect("well-formed payload");
        assert_eq!(back, c);
    }
}

#[test]
fn command_decode_rejects_malformed_payloads() {
    assert_eq!(InnerCmd::decode_cmd(&Vec::new()), None);
    assert_eq!(InnerCmd::decode_cmd(&vec![9u8]), None);
    let mut truncated = InnerCmd::Del(5, b"abc".to_vec()).encode_cmd();
    truncated.pop();
    assert_eq!(InnerCmd::decode_cmd(&truncated), None);
    let mut padded = InnerCmd::Ping.encode_cmd();
    padded.push(0);
    assert_eq!(InnerCmd::decode_cmd(&padded), None);
}

#[test]
fn args_getters_return_the_configuration() {
    let args = Args {
        peer_addr: vec!["10.0.0.1:8080".to_string(), "10.0.0.2:8080".to_string()],
        self_addr: "10.0.0.1:8080".to_string(),
        kv_addr: "0.0.0.0:6379".to_string(),
        directory: "./data/kv_server/storage".to_string(),
        raft_state_file: "./data/raft/raft_state".to_string(),
        log_level: "debug".to_string(),
        rust_log: "tokio=error".to_string(),
    };
    assert_eq!(args.peer_addr(), vec!["10.0.0.1:8080".to_string(), "10.0.0.2:8080".to_string()]);
    assert_eq!(args.self_addr(), "10.0.0.1:8080");
    assert_eq!(args.kv_addr(), "0.0.0.0:6379");
    assert_eq!(args.data_dir(), "./data/kv_server/storage");
    assert_eq!(args.raft_state_file(), "./data/raft/raft_state");
    assert_eq!(args.log_level(), "debug");
    assert_eq!(args.rust_log(), "tokio=error");
}
