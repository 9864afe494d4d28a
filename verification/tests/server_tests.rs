use resp_kv::command::run;
use resp_kv::config::{Capabilities, Config, ReplicationConfig, Roles, ServerConfig, BaseCliArgs, ToConfigString};
use resp_kv::connection::{apply_primary_stream, Connection, SlaveConfig};
use resp_kv::handshake::{
    build_handshake_cmd, check_handshake_reply, parse_fullresync, reply_is_ok, reply_is_pong,
    HandshakeOutcome, HandshakeStep,
};
use resp_kv::journal::CmdQueue;
use resp_kv::resp::types::RESPDatatypes;
use resp_kv::store::CacheRepository;

fn master_config() -> Config {
    Config {
        server_config: ServerConfig { port: 6379 },
        replication_config: ReplicationConfig {
            role: Roles::Master("id0123".to_string(), 0),
            master_repl_id: None,
            master_repl_offset: None,
        },
    }
}

fn new_world() -> (CacheRepository, CmdQueue, Connection) {
    let store = CacheRepository::new();
    let queue = CmdQueue::new();
    let conn = Connection::new("127.0.0.1".to_string(), master_config(), false);
    (store, queue, conn)
}

fn cmd(words: &[&str]) -> Vec<u8> {
    let items: Vec<RESPDatatypes> = words
        .iter()
        .map(|w| RESPDatatypes::BufBulk(w.as_bytes().to_vec()))
        .collect();
    RESPDatatypes::Array(items).encode()
}

fn send(
    bytes: Vec<u8>,
    store: &mut CacheRepository,
    queue: &mut CmdQueue,
    conn: &mut Connection,
    now: u64,
) -> Vec<u8> {
    let mut buf = bytes;
    run(&mut buf, store, queue, conn, now)
}

#[test]
fn ping_replies_pong_in_any_case_and_inside_arrays() {
    let (mut s, mut q, mut c) = new_world();
    assert_eq!(send(b"+PING\r\n".to_vec(), &mut s, &mut q, &mut c, 0), b"+PONG\r\n".to_vec());
    assert_eq!(send(cmd(&["ping"]), &mut s, &mut q, &mut c, 0), b"+PONG\r\n".to_vec());
    assert_eq!(send(cmd(&["PiNg"]), &mut s, &mut q, &mut c, 0), b"+PONG\r\n".to_vec());
}

#[test]
fn ping_matches_only_the_exact_verb() {
    let (mut s, mut q, mut c) = new_world();
    assert_eq!(
        send(b"+PINGX\r\n".to_vec(), &mut s, &mut q, &mut c, 0),
        b"-command not found\r\n".to_vec()
    );
    assert_eq!(
        send(cmd(&["pings"]), &mut s, &mut q, &mut c, 0),
        b"-command not found\r\n".to_vec()
    );
}

#[test]
fn echo_returns_its_message_or_a_null_string() {
    let (mut s, mut q, mut c) = new_world();
    assert_eq!(
        send(cmd(&["ECHO", "hey"]), &mut s, &mut q, &mut c, 0),
        b"$3\r\nhey\r\n".to_vec()
    );
    assert_eq!(send(cmd(&["echo"]), &mut s, &mut q, &mut c, 0), b"$-1\r\n".to_vec());
}

#[test]
fn set_and_get_round_trip_through_the_store() {
    let (mut s, mut q, mut c) = new_world();
    assert_eq!(
        send(cmd(&["SET", "k", "v"]), &mut s, &mut q, &mut c, 0),
        b"+OK\r\n".to_vec()
    );
    assert_eq!(
        send(cmd(&["GET", "k"]), &mut s, &mut q, &mut c, 0),
        b"$1\r\nv\r\n".to_vec()
    );
    assert_eq!(
        send(cmd(&["GET", "nope"]), &mut s, &mut q, &mut c, 0),
        b"$-1\r\n".to_vec()
    );
}

#[test]
fn set_px_expires_after_the_window() {
    let (mut s, mut q, mut c) = new_world();
    send(cmd(&["SET", "k", "v", "PX", "50"]), &mut s, &mut q, &mut c, 100);
    assert_eq!(
        send(cmd(&["GET", "k"]), &mut s, &mut q, &mut c, 149),
        b"$1\r\nv\r\n".to_vec()
    );
    assert_eq!(
        send(cmd(&["GET", "k"]), &mut s, &mut q, &mut c, 151),
        b"$-1\r\n".to_vec()
    );
}

#[test]
fn incr_counts_errors_and_starts_at_one() {
    let (mut s, mut q, mut c) = new_world();
    send(cmd(&["SET", "k", "10"]), &mut s, &mut q, &mut c, 0);
    assert_eq!(send(cmd(&["INCR", "k"]), &mut s, &mut q, &mut c, 0), b":11\r\n".to_vec());
    send(cmd(&["SET", "k", "abc"]), &mut s, &mut q, &mut c, 0);
    assert_eq!(
        send(cmd(&["INCR", "k"]), &mut s, &mut q, &mut c, 0),
        b"-ERR value is not an integer or out of range\r\n".to_vec()
    );
    assert_eq!(
        send(cmd(&["INCR", "fresh"]), &mut s, &mut q, &mut c, 0),
        b":1\r\n".to_vec()
    );
    send(cmd(&["SET", "big", "2147483647"]), &mut s, &mut q, &mut c, 0);
    assert_eq!(
        send(cmd(&["INCR", "big"]), &mut s, &mut q, &mut c, 0),
        b"-ERR value is not an integer or out of range\r\n".to_vec()
    );
}

#[test]
fn transactions_queue_and_exec_in_order() {
    let (mut s, mut q, mut c) = new_world();
    assert_eq!(send(cmd(&["MULTI"]), &mut s, &mut q, &mut c, 0), b"+OK\r\n".to_vec());
    assert_eq!(
        send(cmd(&["SET", "a", "1"]), &mut s, &mut q, &mut c, 0),
        b"+QUEUED\r\n".to_vec()
    );
    assert_eq!(send(cmd(&["INCR", "a"]), &mut s, &mut q, &mut c, 0), b"+QUEUED\r\n".to_vec());
    assert_eq!(
        send(cmd(&["EXEC"]), &mut s, &mut q, &mut c, 0),
        b"*2\r\n+OK\r\n:2\r\n".to_vec()
    );
    assert_eq!(send(cmd(&["GET", "a"]), &mut s, &mut q, &mut c, 0), b"$1\r\n2\r\n".to_vec());
}

#[test]
fn discard_drops_the_queue() {
    let (mut s, mut q, mut c) = new_world();
    send(cmd(&["MULTI"]), &mut s, &mut q, &mut c, 0);
    send(cmd(&["SET", "a", "1"]), &mut s, &mut q, &mut c, 0);
    assert_eq!(send(cmd(&["DISCARD"]), &mut s, &mut q, &mut c, 0), b"+OK\r\n".to_vec());
    assert_eq!(send(cmd(&["GET", "a"]), &mut s, &mut q, &mut c, 0), b"$-1\r\n".to_vec());
}

#[test]
fn transaction_misuse_is_reported() {
    let (mut s, mut q, mut c) = new_world();
    assert_eq!(
        send(cmd(&["EXEC"]), &mut s, &mut q, &mut c, 0),
        b"-ERR EXEC without MULTI\r\n".to_vec()
    );
    assert_eq!(
        send(cmd(&["DISCARD"]), &mut s, &mut q, &mut c, 0),
        b"-ERR DISCARD without MULTI\r\n".to_vec()
    );
}

#[test]
fn unknown_commands_are_rejected() {
    let (mut s, mut q, mut c) = new_world();
    assert_eq!(
        send(cmd(&["NOSUCH"]), &mut s, &mut q, &mut c, 0),
        b"-command not found\r\n".to_vec()
    );
    assert_eq!(
        send(b"!bad\r\n".to_vec(), &mut s, &mut q, &mut c, 0),
        b"-ERR invalid input\r\n".to_vec()
    );
    assert_eq!(send(Vec::new(), &mut s, &mut q, &mut c, 0), Vec::<u8>::new());
}

#[test]
fn info_replication_renders_the_section() {
    let (mut s, mut q, mut c) = new_world();
    let reply = send(cmd(&["INFO", "replication"]), &mut s, &mut q, &mut c, 0);
    let body = b"# Replication\nrole:master\nmaster_replid:id0123\nmaster_repl_offset:0";
    let mut expected = format!("${}\r\n", body.len()).into_bytes();
    expected.extend_from_slice(body);
    expected.extend_from_slice(b"\r\n");
    assert_eq!(reply, expected);
    assert_eq!(send(cmd(&["INFO", "other"]), &mut s, &mut q, &mut c, 0), b"+OK\r\n".to_vec());
}

#[test]
fn writes_are_journaled_for_replication() {
    let (mut s, mut q, mut c) = new_world();
    let set1 = cmd(&["SET", "k", "v"]);
    send(set1.clone(), &mut s, &mut q, &mut c, 0);
    send(cmd(&["GET", "k"]), &mut s, &mut q, &mut c, 0);
    send(cmd(&["INCR", "n"]), &mut s, &mut q, &mut c, 0);
    assert_eq!(q.queue.len(), 2);
    assert_eq!(q.queue[0].cmd, set1);
}

#[test]
fn replconf_and_psync_manage_replica_state() {
    let (mut s, mut q, mut c) = new_world();
    assert_eq!(
        send(cmd(&["REPLCONF", "GETACK", "*"]), &mut s, &mut q, &mut c, 0),
        b"-ERR GETACK without REPLCONF\r\n".to_vec()
    );
    assert_eq!(
        send(cmd(&["REPLCONF", "listening-port", "6380"]), &mut s, &mut q, &mut c, 0),
        b"+OK\r\n".to_vec()
    );
    assert!(c.slave_config.is_some());
    assert_eq!(
        send(cmd(&["REPLCONF", "GETACK", "*"]), &mut s, &mut q, &mut c, 0),
        b"*3\r\n$8\r\nREPLCONF\r\n$3\r\nACK\r\n$1\r\n0\r\n".to_vec()
    );
    let reply = send(cmd(&["PSYNC", "?", "-1"]), &mut s, &mut q, &mut c, 0);
    assert!(reply.starts_with(b"+FULLRESYNC "));
    assert!(c.send_rdb_file);
    let frame = c.send_empty_rdb_file().unwrap();
    assert!(frame.starts_with(b"$88\r\n"));
    assert_eq!(frame.len(), 5 + 88);
}

#[test]
fn replica_delivery_hands_out_journal_entries_in_order() {
    let (mut s, mut q, mut c) = new_world();
    send(cmd(&["SET", "a", "1"]), &mut s, &mut q, &mut c, 0);
    send(cmd(&["SET", "b", "2"]), &mut s, &mut q, &mut c, 0);
    let mut replica = Connection::new("peer".to_string(), master_config(), false);
    replica.slave_config = Some(SlaveConfig {
        port: "6380".to_string(),
        exp: 0,
        last_cmd_id: None,
        send_output: None,
        bytes_offset: 0,
    });
    let frames = replica.replica_delivery(&q);
    assert_eq!(frames, vec![cmd(&["SET", "a", "1"]), cmd(&["SET", "b", "2"])]);
    let again = replica.replica_delivery(&q);
    assert_eq!(again, Vec::<Vec<u8>>::new());
}

#[test]
fn primary_stream_is_applied_silently_after_the_rdb_tail() {
    let mut store = CacheRepository::new();
    let mut queue = CmdQueue::new();
    let mut conn = Connection::new("up".to_string(), master_config(), true);
    let mut buff = vec![0xffu8, 0xfe, 0x01];
    buff.extend_from_slice(&cmd(&["SET", "k", "v"]));
    buff.extend_from_slice(&cmd(&["INCR", "n"]));
    let outs = apply_primary_stream(&mut conn, &buff, &mut store, &mut queue, 0);
    assert_eq!(outs, Vec::<Vec<u8>>::new());
    assert_eq!(store.get("k".to_string(), 0), Some(b"v".to_vec()));
    assert_eq!(store.get("n".to_string(), 0), Some(b"1".to_vec()));
}

#[test]
fn handshake_frames_and_replies_match_the_protocol() {
    assert_eq!(
        build_handshake_cmd(&HandshakeStep::Ping, 6380),
        b"*1\r\n$4\r\nPING\r\n".to_vec()
    );
    assert_eq!(
        build_handshake_cmd(&HandshakeStep::ListeningPort, 6380),
        cmd(&["REPLCONF", "listening-port", "6380"])
    );
    assert_eq!(
        build_handshake_cmd(&HandshakeStep::Capa, 6380),
        cmd(&["REPLCONF", "capa", "psync"])
    );
    assert_eq!(
        build_handshake_cmd(&HandshakeStep::Psync, 6380),
        cmd(&["PSYNC", "?", "-1"])
    );
    match check_handshake_reply(&HandshakeStep::Ping, &b"+PONG\r\n".to_vec()) {
        HandshakeOutcome::Proceed(HandshakeStep::ListeningPort) => {}
        _ => panic!("expected the listening-port step next"),
    }
    match check_handshake_reply(&HandshakeStep::Capa, &b"+NO\r\n".to_vec()) {
        HandshakeOutcome::Fatal => {}
        _ => panic!("expected a fatal mismatch"),
    }
    match check_handshake_reply(&HandshakeStep::Psync, &b"+FULLRESYNC ridxyz 7\r\n".to_vec()) {
        HandshakeOutcome::Done(id, off) => {
            assert_eq!(id, "ridxyz".to_string());
            assert_eq!(off, 7);
        }
        _ => panic!("expected a completed handshake"),
    }
    assert!(reply_is_pong(&b"+PONG\r\n".to_vec()));
    assert!(!reply_is_pong(&b"+NOPE\r\n".to_vec()));
    assert!(reply_is_ok(&b"+OK\r\n".to_vec()));
    let parsed = parse_fullresync(&b"+FULLRESYNC abc123 42\r\n".to_vec()).unwrap();
    assert_eq!(parsed.0, "abc123".to_string());
    assert_eq!(parsed.1, 42);
    assert!(parse_fullresync(&b"+OK\r\n".to_vec()).is_none());
}

#[test]
fn cli_arguments_pick_roles_and_ports() {
    let primary = BaseCliArgs { port: Some(7000), replicaof: None };
    assert_eq!(primary.get_port_or_default(6379), 7000);
    match primary.get_role() {
        Roles::Master(id, off) => {
            assert_eq!(id.len(), 40);
            assert_eq!(off, 0);
        }
        _ => panic!("expected a primary role"),
    }
    let replica = BaseCliArgs { port: None, replicaof: Some("localhost 6379".to_string()) };
    assert_eq!(replica.get_port_or_default(6379), 6379);
    match replica.get_role() {
        Roles::Slave(addr) => assert_eq!(addr, "localhost 6379".to_string()),
        _ => panic!("expected a replica role"),
    }
    assert_eq!(Capabilities::Psync.to_string(), "psync".to_string());
}

#[test]
fn config_sections_and_errors_render_their_text() {
    let rc = ReplicationConfig {
        role: Roles::Slave("x".to_string()),
        master_repl_id: None,
        master_repl_offset: None,
    };
    assert_eq!(rc.to_config_string(), "# Replication\nrole:slave".to_string());
    let e = resp_kv::errors::CommandNotFoundError { cmd: "boom".to_string() };
    assert_eq!(e.get_output(), "invalid command boom".to_string());
    let t = resp_kv::errors::ValueIsNotType {
        kind_name: "integer".to_string(),
        can_be_out_of_range: Some(true),
    };
    assert_eq!(t.message(), "ERR value is not an integer or out of range".to_string());
}
