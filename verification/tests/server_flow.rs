//! The request path end to end, against a real storage engine: decode,
//! classify, apply through the sync layer's steps, and encode the reply.

use bitcask_engine_rs::bitcask::BitCask;
use kv_rs::cmd::InnerCmd;
use kv_rs::connection::{classify_frame, handle_read, write_reply, SessionAction, WriteWait};
use kv_rs::resp::RespCodec;
use kv_rs::sync_layer::{apply_step, submit_step, ApplyError, RequestMap};

fn open_store(name: &str) -> BitCask {
    let mut dir = String::from("/tmp/kv_rs_test_data/");
    dir.push_str(name);
    BitCask::new(dir).expect("storage opens")
}

/// One request served the way the tasks would serve it: a write is
/// submitted, and the committed payload applied, on this same node.
fn serve(storage: &mut BitCask, map: &mut RequestMap<u64>, ticket: u64, input: &[u8]) -> Vec<u8> {
    let mut codec = RespCodec::new();
    let buf: Vec<u8> = input.to_vec();
    let (frame, consumed) = codec.decode(&buf, 0).expect("one whole frame");
    assert_eq!(consumed, input.len());
    let reply = match classify_frame(frame) {
        SessionAction::Reply(v) => v,
        SessionAction::Read(key) => handle_read(storage, &key),
        SessionAction::Submit(w) => {
            let payload = submit_step(map, &w, ticket);
            let (res, notify) = apply_step(map, &payload, storage).expect("a write applies");
            assert_eq!(notify, Some(ticket));
            write_reply(&WriteWait::Applied(res))
        }
    };
    let mut out: Vec<u8> = Vec::new();
    codec.encode(&mut out, &reply);
    out
}

#[test]
fn simple_round_trip() {
    let mut storage = open_store("simple_round_trip");
    let mut map: RequestMap<u64> = RequestMap::new();
    let r = serve(&mut storage, &mut map, 1, b"*3\r\n$3\r\nSET\r\n$3\r\nfoo\r\n$3\r\nbar\r\n");
    assert_eq!(r, b"+OK\r\n".to_vec());
    let r = serve(&mut storage, &mut map, 2, b"*2\r\n$3\r\nGET\r\n$3\r\nfoo\r\n");
    assert_eq!(r, b"$3\r\nbar\r\n".to_vec());
}

#[test]
fn missing_key() {
    let mut storage = open_store("missing_key");
    let mut map: RequestMap<u64> = RequestMap::new();
    let r = serve(&mut storage, &mut map, 1, b"*2\r\n$3\r\nGET\r\n$5\r\nnokey\r\n");
    assert_eq!(r, b"$-1\r\n".to_vec());
}

#[test]
fn nx_on_existing_key() {
    let mut storage = open_store("nx_on_existing_key");
    let mut map: RequestMap<u64> = RequestMap::new();
    let r = serve(&mut storage, &mut map, 1, b"*3\r\n$3\r\nSET\r\n$3\r\nfoo\r\n$3\r\nbar\r\n");
    assert_eq!(r, b"+OK\r\n".to_vec());
    let r = serve(
        &mut storage,
        &mut map,
        2,
        b"*4\r\n$3\r\nSET\r\n$3\r\nfoo\r\n$3\r\nbaz\r\n$2\r\nNX\r\n",
    );
    assert_eq!(r, b"$-1\r\n".to_vec());
    let r = serve(&mut storage, &mut map, 3, b"*2\r\n$3\r\nGET\r\n$3\r\nfoo\r\n");
    assert_eq!(r, b"$3\r\nbar\r\n".to_vec());
}

#[test]
fn xx_on_absent_key() {
    let mut storage = open_store("xx_on_absent_key");
    let mut map: RequestMap<u64> = RequestMap::new();
    let r = serve(
        &mut storage,
        &mut map,
        1,
        b"*4\r\n$3\r\nSET\r\n$6\r\nabsent\r\n$1\r\nv\r\n$2\r\nXX\r\n",
    );
    assert_eq!(r, b"$-1\r\n".to_vec());
    let r = serve(&mut storage, &mut map, 2, b"*2\r\n$3\r\nGET\r\n$6\r\nabsent\r\n");
    assert_eq!(r, b"$-1\r\n".to_vec());
}

#[test]
fn delete_is_idempotent() {
    let mut storage = open_store("delete_is_idempotent");
    let mut map: RequestMap<u64> = RequestMap::new();
    let r = serve(&mut storage, &mut map, 1, b"*3\r\n$3\r\nSET\r\n$3\r\nfoo\r\n$3\r\nbar\r\n");
    assert_eq!(r, b"+OK\r\n".to_vec());
    let r = serve(&mut storage, &mut map, 2, b"*2\r\n$3\r\nDEL\r\n$3\r\nfoo\r\n");
    assert_eq!(r, b"+OK\r\n".to_vec());
    let r = serve(&mut storage, &mut map, 3, b"*2\r\n$3\r\nDEL\r\n$3\r\nfoo\r\n");
    assert_eq!(r, b"+OK\r\n".to_vec());
    let r = serve(&mut storage, &mut map, 4, b"*2\r\n$3\r\nGET\r\n$3\r\nfoo\r\n");
    assert_eq!(r, b"$-1\r\n".to_vec());
}

#[test]
fn unknown_verb_answers_an_error_frame() {
    let mut storage = open_store("unknown_verb");
    let mut map: RequestMap<u64> = RequestMap::new();
    let r = serve(&mut storage, &mut map, 1, b"*1\r\n$4\r\nNOPE\r\n");
    assert_eq!(r, b"-Err unknown command\r\n".to_vec());
    // The connection logic is stateless between frames: the next command
    // still works.
    let r = serve(&mut storage, &mut map, 2, b"*1\r\n$4\r\nPING\r\n");
    assert_eq!(r, b"+PONG\r\n".to_vec());
}

#[test]
fn ping_answers_pong() {
    let mut storage = open_store("ping_pong");
    let mut map: RequestMap<u64> = RequestMap::new();
    let r = serve(&mut storage, &mut map, 1, b"*1\r\n$4\r\nping\r\n");
    assert_eq!(r, b"+PONG\r\n".to_vec());
}

#[test]
fn write_reply_wordings() {
    let mut codec = RespCodec::new();
    let mut out: Vec<u8> = Vec::new();
    codec.encode(&mut out, &write_reply(&WriteWait::ChannelClosed));
    assert_eq!(out, b"-Request timeout\r\n".to_vec());
    let mut out: Vec<u8> = Vec::new();
    codec.encode(&mut out, &write_reply(&WriteWait::TimedOut));
    assert_eq!(out, b"-Internal error\r\n".to_vec());
}

#[test]
fn apply_refuses_reads_and_garbage() {
    let mut storage = open_store("apply_refuses");
    let mut map: RequestMap<u64> = RequestMap::new();
    let read_payload = InnerCmd::Get(9, b"k".to_vec()).encode_cmd();
    assert_eq!(
        apply_step(&mut map, &read_payload, &mut storage),
        Err(ApplyError::NotAWrite)
    );
    let garbage: Vec<u8> = vec![250, 1, 2];
    assert_eq!(
        apply_step(&mut map, &garbage, &mut storage),
        Err(ApplyError::BadPayload)
    );
}

#[test]
fn map_drains_as_commits_arrive() {
    let mut storage = open_store("map_drains");
    let mut map: RequestMap<u64> = RequestMap::new();
    let writes = vec![
        InnerCmd::Put(101, b"a".to_vec(), b"1".to_vec(), None),
        InnerCmd::Put(102, b"b".to_vec(), b"2".to_vec(), None),
        InnerCmd::Del(103, b"a".to_vec()),
    ];
    let mut payloads: Vec<Vec<u8>> = Vec::new();
    for (i, w) in writes.iter().enumerate() {
        payloads.push(submit_step(&mut map, w, i as u64));
    }
    assert_eq!(map.len(), 3);
    let (res, notify) = apply_step(&mut map, &payloads[0], &mut storage).unwrap();
    assert!(res.is_ok());
    assert_eq!(notify, Some(0));
    let (res, notify) = apply_step(&mut map, &payloads[1], &mut storage).unwrap();
    assert!(res.is_ok());
    assert_eq!(notify, Some(1));
    assert_eq!(map.len(), 1);
    let (res, notify) = apply_step(&mut map, &payloads[2], &mut storage).unwrap();
    assert!(res.is_ok());
    assert_eq!(notify, Some(2));
    assert_eq!(map.len(), 0);
}

#[test]
fn foreign_commits_apply_silently() {
    // A payload proposed by another node matches no local map entry.
    let mut storage = open_store("foreign_commits");
    let mut map: RequestMap<u64> = RequestMap::new();
    let payload = InnerCmd::Put(77, b"k".to_vec(), b"v".to_vec(), None).encode_cmd();
    let (res, notify) = apply_step(&mut map, &payload, &mut storage).unwrap();
    assert!(res.is_ok());
    assert_eq!(notify, None);
    assert_eq!(map.len(), 0);
}

#[test]
fn replicas_applying_the_same_commits_agree() {
    let mut a = open_store("replica_a");
    let mut b = open_store("replica_b");
    let mut map_a: RequestMap<u64> = RequestMap::new();
    let mut map_b: RequestMap<u64> = RequestMap::new();
    let payloads = vec![
        InnerCmd::Put(1, b"k".to_vec(), b"1".to_vec(), None).encode_cmd(),
        InnerCmd::Put(2, b"k".to_vec(), b"2".to_vec(), None).encode_cmd(),
        InnerCmd::Put(3, b"other".to_vec(), b"x".to_vec(), None).encode_cmd(),
    ];
    for p in &payloads {
        apply_step(&mut map_a, p, &mut a).unwrap().0.unwrap();
        apply_step(&mut map_b, p, &mut b).unwrap().0.unwrap();
    }
    let ra = handle_read(&a, &b"k".to_vec());
    let rb = handle_read(&b, &b"k".to_vec());
    assert_eq!(ra, rb);
    let mut codec = RespCodec::new();
    let mut out: Vec<u8> = Vec::new();
    codec.encode(&mut out, &ra);
    // The later write wins on every replica.
    assert_eq!(out, b"$1\r\n2\r\n".to_vec());
}

#[test]
fn null_bulk_key_is_an_unknown_command() {
    let mut storage = open_store("null_bulk_key");
    let mut map: RequestMap<u64> = RequestMap::new();
    let r = serve(&mut storage, &mut map, 1, b"*2\r\n$3\r\nGET\r\n$-1\r\n");
    assert_eq!(r, b"-Err unknown command\r\n".to_vec());
}
