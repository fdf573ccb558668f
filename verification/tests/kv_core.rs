use kv::{CommandRequest, CommandResponse, Hset, Kvpair, KvError, MemTable, RequestData, Service,
    ServiceInner, StatusHook, Storage, StorageIter, SuffixHook, Value, dispatch};

fn assert_res_ok(mut res: CommandResponse, values: &[Value], pairs: &[Kvpair]) {
    res.pairs.sort_by(|a, b| a.key.cmp(&b.key));
    assert_eq!(res.status, 200);
    assert_eq!(res.message, "success");
    assert_eq!(res.values, values);
    assert_eq!(res.pairs, pairs);
}

fn assert_res_error(res: CommandResponse, code: u32, msg: &str) {
    assert_eq!(res.status, code);
    assert_eq!(res.message, msg);
    assert_eq!(res.values, &[]);
    assert_eq!(res.pairs, &[]);
}

#[test]
fn hset_should_work() {
    let mut table = MemTable::new();
    let cmd = CommandRequest::new_hset("t1", "k1", "v1".into());
    let _cmd2 = CommandRequest::new_hset("t1", "k2", "v2".into());

    let resp = dispatch(cmd.clone(), &mut table);

    assert_res_ok(resp, &[Value::default()], &[]);

    let resp = dispatch(cmd, &mut table);
    assert_res_ok(resp, &["v1".into()], &[]);
}

#[test]
fn hget_should_work() {
    let mut table = MemTable::new();
    let cmd = CommandRequest::new_hset("t1", "k1", "v1".into());

    dispatch(cmd.clone(), &mut table);

    let cmd = CommandRequest::new_hget("t1", "k1");
    let resp = dispatch(cmd, &mut table);
    assert_res_ok(resp, &["v1".into()], &[]);

    let cmd = CommandRequest::new_hget("t1", "k2");
    let resp = dispatch(cmd, &mut table);
    assert_res_error(resp, 404, "not found");
}

#[test]
fn hgetall_should_work() {
    let mut table = MemTable::new();
    let cmds = vec![
        CommandRequest::new_hset("t1", "k1", "v1".into()),
        CommandRequest::new_hset("t1", "k2", "v2".into()),
        CommandRequest::new_hset("t1", "k3", "v3".into()),
    ];
    for cmd in cmds {
        dispatch(cmd.clone(), &mut table);
    }
    let cmd = CommandRequest::new_hgetall("t1");
    let resp = dispatch(cmd, &mut table);
    assert_res_ok(
        resp,
        &[],
        &[
            Kvpair::new("k1", "v1".into()),
            Kvpair::new("k2", "v2".into()),
            Kvpair::new("k3", "v3".into()),
        ],
    );
}

#[test]
fn memtable_basic_interface_should_work() {
    let mut storage = MemTable::new();
    let v = storage.set("t1", "k1", "v1".into());
    assert!(v.unwrap().is_none());

    let v1 = storage.set("t1", "k2", "v1".into());
    assert!(v1.unwrap().is_none());
    let v4 = storage.set("t1", "k4", "v1".into());
    assert!(v4.unwrap().is_none());

    let v1 = storage.set("t1", "k1", "v11".into());
    assert_eq!(v1, Ok(Some("v1".into())));

    let v = storage.get("t1", "k1");
    assert_eq!(v, Ok(Some("v11".into())));

    let v2 = storage.delete("t1", "k4");
    assert_eq!(v2, Ok(Some("v1".into())));

    assert_eq!(storage.get("t1", "k3"), Ok(None));

    assert!(storage.get("t2", "k1").unwrap().is_none());

    assert_eq!(storage.contains("t1", "k1"), Ok(true));

    assert_eq!(storage.contains("t2", "k1"), Ok(false));

    let vd = storage.delete("t1", "k2");
    assert_eq!(vd, Ok(Some("v1".into())));
}

struct LogReceived;

impl kv::Nofiy<CommandRequest> for LogReceived {
    fn notify(&self, cmd: &CommandRequest) {
        println!("on_received: {:?}", cmd);
    }
}

struct LogExecuted;

impl kv::Nofiy<CommandResponse> for LogExecuted {
    fn notify(&self, res: &CommandResponse) {
        println!("{:?}", res);
    }
}

struct LogAfterSend;

impl kv::Nofiy<()> for LogAfterSend {
    fn notify(&self, _arg: &()) {
        println!("on_after_send");
    }
}

#[test]
fn event_registration_should_work() {
    let mut service: Service<MemTable> = ServiceInner::new(MemTable::default())
        .fn_received(Box::new(LogReceived))
        .fn_executed(Box::new(LogExecuted))
        .fn_berfore_send(Box::new(StatusHook { code: 201 }))
        .fn_after_send(Box::new(LogAfterSend))
        .into();

    let res = service.exec(CommandRequest::new_hset("t1", "k1", "v1".into()));
    assert_eq!(res.status, 201);
    assert_eq!(res.message, "success");
    assert_eq!(res.values, vec![Value::default()]);
}

#[test]
fn hooks_run_in_registration_order() {
    let mut service: Service<MemTable> = ServiceInner::new(MemTable::default())
        .fn_berfore_send(Box::new(StatusHook { code: 201 }))
        .fn_berfore_send(Box::new(SuffixHook { expect: 201, suffix: ":done".to_owned() }))
        .into();

    let res = service.exec(CommandRequest::new_hset("t1", "k1", "v1".into()));
    assert_eq!(res.status, 201);
    assert_eq!(res.message, "success:done");
}

fn is_compressed(data: &[u8]) -> bool {
    if let &[v] = &data[..1] {
        v >> 7 == 1
    } else {
        false
    }
}

#[test]
fn command_request_encode_decode_should_work() {
    let mut buf: Vec<u8> = Vec::new();

    let cmd = CommandRequest::new_hget("t1", "k1");
    cmd.encode_frame(&mut buf).unwrap();

    assert_eq!(is_compressed(&buf), false);

    let cmd1 = CommandRequest::decode_frame(&mut buf).unwrap();
    assert_eq!(cmd, cmd1);
}

#[test]
fn command_response_encode_decode_should_work() {
    let mut buf: Vec<u8> = Vec::new();

    let values: Vec<Value> = vec![1.into(), "hello".into(), Value::from(&b"data"[..])];
    let res: CommandResponse = values.into();
    res.encode_frame(&mut buf).unwrap();

    assert_eq!(is_compressed(&buf), false);

    let res1 = CommandResponse::decode_frame(&mut buf).unwrap();
    assert_eq!(res, res1);
}

#[test]
fn command_response_compressed_encode_decode_should_work() {
    let mut buf: Vec<u8> = Vec::new();

    let payload = vec![0u8; 1437];
    let value: Value = Value::from(&payload[..]);
    let res: CommandResponse = value.into();
    res.encode_frame(&mut buf).unwrap();

    assert_eq!(is_compressed(&buf), true);

    let res1 = CommandResponse::decode_frame(&mut buf).unwrap();
    assert_eq!(res, res1);
}

#[test]
fn idempotent_overwrite_returns_first_value() {
    let mut storage = MemTable::new();
    assert_eq!(storage.set("t", "k", "v1".into()), Ok(None));
    assert_eq!(storage.set("t", "k", "v2".into()), Ok(Some("v1".into())));
    assert_eq!(storage.get("t", "k"), Ok(Some("v2".into())));
}

#[test]
fn missing_key_is_none_not_error() {
    let storage = MemTable::new();
    assert_eq!(storage.get("t", "missing"), Ok(None));
}

#[test]
fn hset_without_value_fails_validation() {
    let mut table = MemTable::new();
    let cmd = CommandRequest {
        request_data: Some(RequestData::Hset(Hset {
            table: "t1".to_owned(),
            pair: Some(Kvpair { key: "k1".to_owned(), value: None }),
        })),
    };
    let resp = dispatch(cmd, &mut table);
    assert_res_error(resp, 500, "Internal error: value is required");

    let cmd = CommandRequest {
        request_data: Some(RequestData::Hset(Hset { table: "t1".to_owned(), pair: None })),
    };
    let resp = dispatch(cmd, &mut table);
    assert_res_error(resp, 500, "Internal error: pair is required");
}

#[test]
fn tables_are_isolated() {
    let mut storage = MemTable::new();
    assert_eq!(storage.set("t1", "k", "v".into()), Ok(None));
    assert_eq!(storage.get("t2", "k"), Ok(None));
}

#[test]
fn empty_request_is_not_implemented() {
    let mut table = MemTable::new();
    let resp = dispatch(CommandRequest { request_data: None }, &mut table);
    assert_res_error(resp, 500, "Internal error: Not implemented");
}

#[test]
fn error_descriptions_match_their_variants() {
    assert_eq!(
        KvError::Internal("value is required".to_owned()).describe(),
        "Internal error: value is required"
    );
    assert_eq!(
        KvError::NotFound("t".to_owned(), "k".to_owned()).describe(),
        "Not found for table: t, key: k"
    );
    assert_eq!(KvError::KeyNotFound.describe(), "key not found");
    assert_eq!(KvError::FrameError.describe(), "frame error");
}

#[test]
fn decode_header_splits_length_and_flag() {
    assert_eq!(kv::frame::decode_header(5), (5, false));
    assert_eq!(kv::frame::decode_header(0x80000005), (5, true));
}

#[test]
fn decode_frame_rejects_garbage() {
    let mut buf: Vec<u8> = vec![0, 0, 0, 3, 9, 9, 9];
    assert!(CommandRequest::decode_frame(&mut buf).is_err());

    let mut short: Vec<u8> = vec![0, 0];
    assert!(CommandRequest::decode_frame(&mut short).is_err());
}

#[test]
fn frame_decoding_consumes_one_frame() {
    let mut buf: Vec<u8> = Vec::new();
    let first = CommandRequest::new_hget("t1", "k1");
    let second = CommandRequest::new_hgetall("t2");
    first.encode_frame(&mut buf).unwrap();
    second.encode_frame(&mut buf).unwrap();

    assert_eq!(CommandRequest::decode_frame(&mut buf).unwrap(), first);
    assert_eq!(CommandRequest::decode_frame(&mut buf).unwrap(), second);
    assert!(buf.is_empty());
}

#[test]
fn value_kinds_round_trip_in_a_response() {
    let mut buf: Vec<u8> = Vec::new();
    let values: Vec<Value> = vec![
        Value::Empty,
        Value::Str("text".to_owned()),
        Value::Int(-7),
        Value::Double(1.5f64.to_bits()),
        Value::Bool(true),
        Value::Bytes(vec![1, 2, 3]),
    ];
    let res: CommandResponse = values.into();
    res.encode_frame(&mut buf).unwrap();
    let res1 = CommandResponse::decode_frame(&mut buf).unwrap();
    assert_eq!(res, res1);
    assert_eq!(f64::from_bits(match &res1.values[3] {
        Value::Double(bits) => *bits,
        _ => panic!("expected a double"),
    }), 1.5);
}

#[test]
fn pairs_round_trip_in_a_response() {
    let mut buf: Vec<u8> = Vec::new();
    let pairs = vec![Kvpair::new("k1", "v1".into()), Kvpair::new("k2", 9.into())];
    let res: CommandResponse = pairs.into();
    res.encode_frame(&mut buf).unwrap();
    let res1 = CommandResponse::decode_frame(&mut buf).unwrap();
    assert_eq!(res, res1);
}

#[test]
fn storage_iter_walks_the_snapshot() {
    let mut storage = MemTable::new();
    storage.set("t1", "k1", "v1".into()).unwrap();
    storage.set("t1", "k2", "v2".into()).unwrap();
    let mut iter: StorageIter = storage.get_iter("t1").unwrap();
    let mut keys: Vec<String> = Vec::new();
    while let Some(p) = iter.next() {
        keys.push(p.key);
    }
    keys.sort();
    assert_eq!(keys, vec!["k1".to_owned(), "k2".to_owned()]);
}

#[test]
fn end_to_end_three_writes_then_snapshot() {
    let mut service: Service<MemTable> = ServiceInner::new(MemTable::new()).into();
    service.exec(CommandRequest::new_hset("t1", "k1", "v1".into()));
    service.exec(CommandRequest::new_hset("t1", "k2", "v2".into()));
    service.exec(CommandRequest::new_hset("t1", "k3", "v3".into()));
    let res = service.exec(CommandRequest::new_hgetall("t1"));
    assert_res_ok(
        res,
        &[],
        &[
            Kvpair::new("k1", "v1".into()),
            Kvpair::new("k2", "v2".into()),
            Kvpair::new("k3", "v3".into()),
        ],
    );
}
