//! Per-connection state: the transaction buffer, the replica bookkeeping
//! seen from the primary side, and the frames a connection emits during
//! initial sync. Socket I/O stays outside; these methods compute bytes
//! and state transitions.

use vstd::prelude::*;
use crate::config::Config;
use crate::command::QueuedCommand;
use crate::resp::types::{RESPDatatypes, SpecResp};
use crate::resp::serialize::spec_encode;
use crate::store::clone_string;

verus! {

/// What the primary tracks about a connection that registered as a
/// replica.
#[verifier::ext_equal]
pub struct SlaveConfig {
    pub port: String,
    pub exp: u64,
    pub last_cmd_id: Option<u128>,
    pub send_output: Option<bool>,
    pub bytes_offset: u16,
}

/// One client connection's state, apart from its socket.
#[verifier::ext_equal]
pub struct Connection {
    pub id: String,
    pub in_transaction: bool,
    pub tnxs: Option<Vec<QueuedCommand>>,
    pub server_config: Config,
    pub slave_config: Option<SlaveConfig>,
    pub send_rdb_file: bool,
    pub is_master: bool,
}

/// One hexadecimal digit's value.
pub open spec fn hex_val(c: char) -> int {
    if '0' <= c <= '9' {
        c as int - '0' as int
    } else if 'a' <= c <= 'f' {
        c as int - 'a' as int + 10
    } else {
        c as int - 'A' as int + 10
    }
}

/// `c` is a hexadecimal digit.
pub open spec fn is_hex_digit(c: char) -> bool {
    ('0' <= c <= '9') || ('a' <= c <= 'f') || ('A' <= c <= 'F')
}

/// Hexadecimal text: an even number of hex digits.
pub open spec fn is_hex_text(s: Seq<char>) -> bool {
    s.len() % 2 == 0 && (forall|i: int| 0 <= i < s.len() ==> is_hex_digit(#[trigger] s[i]))
}

/// The bytes hexadecimal text denotes, two digits each.
pub open spec fn hex_bytes(s: Seq<char>) -> Seq<u8> {
    Seq::new(s.len() / 2, |i: int| (hex_val(s[2 * i]) * 16 + hex_val(s[2 * i + 1])) as u8)
}

/// Relies on `hex::decode`: it fails exactly on odd length or a
/// non-hex character, and otherwise turns each digit pair into one
/// byte, high digit first.
#[verifier::external_body]
fn hex_decode(s: &str) -> (r: Option<Vec<u8>>)
    ensures
        match r {
            Some(b) => is_hex_text(s@) && b@ == hex_bytes(s@),
            None => !is_hex_text(s@),
        },
{
    hex::decode(s).ok()
}

/// The fixed empty snapshot emitted during initial sync, as hex text.
pub open spec fn empty_rdb_hex() -> Seq<char> {
    "524544495330303131fa0972656469732d76657205372e322e30fa0a72656469732d62697473c040fa056374696d65c26d08bc65fa08757365642d6d656dc2b0c41000fa08616f662d62617365c000fff06e3bfec0ff5aa2"@
}

impl Connection {
    /// A fresh connection in client mode.
    pub fn new(id: String, config: Config, is_master: bool) -> (r: Connection)
        ensures
            r.id == id,
            !r.in_transaction,
            r.tnxs is None,
            r.slave_config is None,
            !r.send_rdb_file,
            r.is_master == is_master,
            r.server_config == config,
    {
        Connection {
            id,
            in_transaction: false,
            tnxs: None,
            server_config: config,
            slave_config: None,
            send_rdb_file: false,
            is_master,
        }
    }

    /// The connection is buffering a transaction.
    pub fn is_in_transaction(&self) -> (r: bool)
        ensures
            r == self.in_transaction,
    {
        self.in_transaction
    }

    /// Enters transaction mode with an empty queue.
    pub fn enable_transaction(&mut self)
        ensures
            final(self).in_transaction,
            final(self).tnxs matches Some(q) && q@.len() == 0,
            final(self).id == old(self).id,
            final(self).server_config == old(self).server_config,
            final(self).slave_config == old(self).slave_config,
            final(self).send_rdb_file == old(self).send_rdb_file,
            final(self).is_master == old(self).is_master,
    {
        self.in_transaction = true;
        self.tnxs = Some(Vec::new());
    }

    /// Leaves transaction mode and drops the queue.
    pub fn discard_transaction(&mut self)
        ensures
            !final(self).in_transaction,
            final(self).tnxs is None,
            final(self).id == old(self).id,
            final(self).server_config == old(self).server_config,
            final(self).slave_config == old(self).slave_config,
            final(self).send_rdb_file == old(self).send_rdb_file,
            final(self).is_master == old(self).is_master,
    {
        self.in_transaction = false;
        self.tnxs = None;
    }

    /// Pushes a command onto the transaction queue, when one is open.
    pub fn add_tnx(&mut self, cmd: QueuedCommand)
        ensures
            match old(self).tnxs {
                Some(q) => final(self).tnxs matches Some(q2) && q2@ == q@.push(cmd),
                None => final(self).tnxs is None,
            },
            final(self).in_transaction == old(self).in_transaction,
            final(self).id == old(self).id,
            final(self).server_config == old(self).server_config,
            final(self).slave_config == old(self).slave_config,
            final(self).send_rdb_file == old(self).send_rdb_file,
            final(self).is_master == old(self).is_master,
    {
        match &mut self.tnxs {
            Some(q) => {
                q.push(cmd);
            },
            None => {},
        }
    }

    /// Takes the transaction queue, leaving none behind.
    pub fn get_tnxs(&mut self) -> (r: Option<Vec<QueuedCommand>>)
        ensures
            r == old(self).tnxs,
            final(self).tnxs is None,
            final(self).in_transaction == old(self).in_transaction,
            final(self).id == old(self).id,
            final(self).server_config == old(self).server_config,
            final(self).slave_config == old(self).slave_config,
            final(self).send_rdb_file == old(self).send_rdb_file,
            final(self).is_master == old(self).is_master,
    {
        let mut taken: Option<Vec<QueuedCommand>> = None;
        core::mem::swap(&mut taken, &mut self.tnxs);
        taken
    }

    /// The peer id this connection was opened under.
    pub fn get_id(&self) -> (r: String)
        ensures
            r == self.id,
    {
        clone_string(&self.id)
    }

    /// One replication tick for a replica-facing connection: reads
    /// every journal entry past the cursor, advances the cursor, and
    /// hands back the command frames to write, in journal order.
    pub fn replica_delivery(&mut self, queue: &crate::journal::CmdQueue) -> (r: Vec<Vec<u8>>)
        requires
            queue.wf(),
        ensures
            old(self).slave_config is None ==> r@.len() == 0 && *final(self) == *old(self),
            old(self).slave_config matches Some(sc) ==> {
                &&& final(self).slave_config matches Some(sc2) && sc2.port == sc.port
                    && sc2.exp == sc.exp && sc2.send_output == sc.send_output && sc2.bytes_offset
                    == sc.bytes_offset
                &&& (queue.entries().len() == 0 ==> r@.len() == 0
                    && final(self).slave_config->Some_0.last_cmd_id == sc.last_cmd_id)
                &&& (queue.entries().len() > 0 ==> exists|nc: u128|
                    crate::journal::read_after_post(queue.entries(), sc.last_cmd_id, Some((nc, r)))
                        && final(self).slave_config->Some_0.last_cmd_id == Some(nc))
            },
            final(self).id == old(self).id,
            final(self).in_transaction == old(self).in_transaction,
            final(self).tnxs == old(self).tnxs,
            final(self).send_rdb_file == old(self).send_rdb_file,
            final(self).is_master == old(self).is_master,
            final(self).server_config == old(self).server_config,
    {
        let mut taken: Option<SlaveConfig> = None;
        core::mem::swap(&mut taken, &mut self.slave_config);
        let mut sc = match taken {
            Some(s) => s,
            None => {
                return Vec::new();
            },
        };
        match queue.get_all_cmds_after_id(sc.last_cmd_id) {
            Some((new_cursor, cmds)) => {
                sc.last_cmd_id = Some(new_cursor);
                self.slave_config = Some(sc);
                cmds
            },
            None => {
                self.slave_config = Some(sc);
                Vec::new()
            },
        }
    }

    /// The RDB frame sent to a replica that finished PSYNC: the empty
    /// snapshot as a bulk without trailing CRLF.
    pub fn send_empty_rdb_file(&self) -> (r: Option<Vec<u8>>)
        ensures
            match r {
                Some(b) => b@ == spec_encode(SpecResp::RDBFile(hex_bytes(empty_rdb_hex()))),
                None => !is_hex_text(empty_rdb_hex()),
            },
    {
        let blob = hex_decode(
            "524544495330303131fa0972656469732d76657205372e322e30fa0a72656469732d62697473c040fa056374696d65c26d08bc65fa08757365642d6d656dc2b0c41000fa08616f662d62617365c000fff06e3bfec0ff5aa2",
        );
        match blob {
            Some(bytes) => Some(RESPDatatypes::RDBFile(bytes).encode()),
            None => None,
        }
    }
}

/// The GETACK reply of the frame just applied is armed for sending.
pub open spec fn armed(c: Connection) -> bool {
    c.slave_config matches Some(sc) && sc.send_output == Some(true)
}

/// The connection after one applied frame: the GETACK arming is
/// consumed and the replication offset grows by the frame's length,
/// wrapping at the offset's width.
pub open spec fn tick_conn(c: Connection, consumed: int) -> Connection {
    match c.slave_config {
        Some(sc) => Connection {
            id: c.id,
            in_transaction: c.in_transaction,
            tnxs: c.tnxs,
            server_config: c.server_config,
            slave_config: Some(
                SlaveConfig {
                    port: sc.port,
                    exp: sc.exp,
                    last_cmd_id: sc.last_cmd_id,
                    send_output: None,
                    bytes_offset: ((sc.bytes_offset + consumed % 65536) % 65536) as u16,
                },
            ),
            send_rdb_file: c.send_rdb_file,
            is_master: c.is_master,
        },
        None => c,
    }
}

/// The buffer opens with one whole array frame.
pub open spec fn is_array_frame(s: Seq<u8>) -> bool {
    crate::resp::deserialize::spec_decode(s) matches crate::resp::deserialize::SpecDecode::Val(
        v,
        c,
    ) && v is Array && 1 <= c <= s.len()
}

/// `start` is where the command stream begins: the first position
/// from which a whole array decodes, or the buffer's end when none
/// does.
pub open spec fn arr_start_at(s: Seq<u8>, start: int) -> bool {
    &&& 0 <= start <= s.len()
    &&& (forall|j: int| 0 <= j < start ==> !is_array_frame(#[trigger] s.skip(j)))
    &&& (start < s.len() ==> is_array_frame(s.skip(start)))
}

/// The stream's start position is unique.
pub proof fn lemma_arr_start_unique(s: Seq<u8>, a: int, b: int)
    requires
        arr_start_at(s, a),
        arr_start_at(s, b),
    ensures
        a == b,
{
    if a < b {
        assert(!is_array_frame(s.skip(a)));
    }
    if b < a {
        assert(!is_array_frame(s.skip(b)));
    }
}

/// Applying the command stream from `pos` on: while a whole array
/// decodes, it is dispatched exactly as `dispatch_post` states, the
/// connection is ticked by the frame's length, and the frame's reply
/// joins the output exactly when GETACK armed it; the run stops at
/// the first position holding no whole array.
pub open spec fn stream_apply(
    buff: Seq<u8>,
    pos: int,
    s1: crate::store::CacheRepository,
    q1: crate::journal::CmdQueue,
    c1: Connection,
    now: u64,
    s2: crate::store::CacheRepository,
    q2: crate::journal::CmdQueue,
    c2: Connection,
    outs: Seq<Seq<u8>>,
) -> bool
    decreases buff.len() - pos,
{
    if pos < 0 || pos >= buff.len() || !is_array_frame(buff.skip(pos)) {
        s2 == s1 && q2 == q1 && c2 == c1 && outs == Seq::<Seq<u8>>::empty()
    } else {
        let v = crate::resp::deserialize::spec_decode(buff.skip(pos))->Val_0;
        let c = crate::resp::deserialize::spec_decode(buff.skip(pos))->Val_1;
        exists|
            s_mid: crate::store::CacheRepository,
            q_mid: crate::journal::CmdQueue,
            c_mid: Connection,
            reply: Seq<u8>,
        |
            #![trigger crate::command::dispatch_post(v, s1, s_mid, q1, q_mid, c1, c_mid, now, reply)]
            crate::command::dispatch_post(v, s1, s_mid, q1, q_mid, c1, c_mid, now, reply) && (
            if armed(c_mid) {
                outs.len() >= 1 && reply == outs[0] && stream_apply(
                    buff,
                    pos + c,
                    s_mid,
                    q_mid,
                    tick_conn(c_mid, c),
                    now,
                    s2,
                    q2,
                    c2,
                    outs.skip(1),
                )
            } else {
                stream_apply(
                    buff,
                    pos + c,
                    s_mid,
                    q_mid,
                    tick_conn(c_mid, c),
                    now,
                    s2,
                    q2,
                    c2,
                    outs,
                )
            })
    }
}

/// One step of the stream run: a dispatched frame followed by a
/// completed run of the remainder completes the run from here.
proof fn lemma_stream_apply_step(
    buff: Seq<u8>,
    pos: int,
    s1: crate::store::CacheRepository,
    q1: crate::journal::CmdQueue,
    c1: Connection,
    now: u64,
    s_mid: crate::store::CacheRepository,
    q_mid: crate::journal::CmdQueue,
    c_mid: Connection,
    reply: Seq<u8>,
    s2: crate::store::CacheRepository,
    q2: crate::journal::CmdQueue,
    c2: Connection,
    rest: Seq<Seq<u8>>,
    outs: Seq<Seq<u8>>,
)
    requires
        0 <= pos < buff.len(),
        is_array_frame(buff.skip(pos)),
        crate::command::dispatch_post(
            crate::resp::deserialize::spec_decode(buff.skip(pos))->Val_0,
            s1,
            s_mid,
            q1,
            q_mid,
            c1,
            c_mid,
            now,
            reply,
        ),
        stream_apply(
            buff,
            pos + crate::resp::deserialize::spec_decode(buff.skip(pos))->Val_1,
            s_mid,
            q_mid,
            tick_conn(c_mid, crate::resp::deserialize::spec_decode(buff.skip(pos))->Val_1),
            now,
            s2,
            q2,
            c2,
            rest,
        ),
        outs == (if armed(c_mid) {
            seq![reply] + rest
        } else {
            rest
        }),
    ensures
        stream_apply(buff, pos, s1, q1, c1, now, s2, q2, c2, outs),
{
    let v = crate::resp::deserialize::spec_decode(buff.skip(pos))->Val_0;
    let c = crate::resp::deserialize::spec_decode(buff.skip(pos))->Val_1;
    assert(crate::command::dispatch_post(v, s1, s_mid, q1, q_mid, c1, c_mid, now, reply));
    if armed(c_mid) {
        assert(outs == seq![reply] + rest);
        assert(outs.len() >= 1);
        assert(outs[0] == reply);
        assert(outs.skip(1) =~= rest);
        assert(stream_apply(
            buff,
            pos + c,
            s_mid,
            q_mid,
            tick_conn(c_mid, c),
            now,
            s2,
            q2,
            c2,
            outs.skip(1),
        ));
    } else {
        assert(outs == rest);
        assert(stream_apply(buff, pos + c, s_mid, q_mid, tick_conn(c_mid, c), now, s2, q2, c2, outs));
    }
}

/// Tests whether a whole array frame decodes at `pos`.
fn array_decodes_at(buff: &Vec<u8>, pos: usize) -> (r: bool)
    requires
        pos <= buff.len(),
    ensures
        r == (pos < buff@.len() && is_array_frame(buff@.skip(pos as int))),
{
    match crate::resp::deserialize::decode_at(buff, pos) {
        crate::resp::deserialize::DecodeResult::Value { value, consumed } => match value {
            RESPDatatypes::Array(items) => true,
            RESPDatatypes::Null => false,
            RESPDatatypes::NullString => false,
            RESPDatatypes::NullArray => false,
            RESPDatatypes::Integer(n) => false,
            RESPDatatypes::Double(p) => false,
            RESPDatatypes::SimpleString(p) => false,
            RESPDatatypes::SimpleError(p) => false,
            RESPDatatypes::BulkString(p) => false,
            RESPDatatypes::RDBFile(p) => false,
            RESPDatatypes::BufBulk(p) => false,
            RESPDatatypes::Boolean(b) => false,
        },
        crate::resp::deserialize::DecodeResult::NeedMore => false,
        crate::resp::deserialize::DecodeResult::Malformed => false,
    }
}

/// Applies a stream read from the primary: from the first position
/// where a whole array decodes, dispatches command after command
/// exactly as `dispatch_post` states, silently; the replication
/// offset grows by each frame's length (wrapping at its width), and
/// the returned frames are exactly the replies GETACK armed, in
/// order.
#[verifier::loop_isolation(false)]
pub fn apply_primary_stream(
    conn: &mut Connection,
    buff: &Vec<u8>,
    store: &mut crate::store::CacheRepository,
    queue: &mut crate::journal::CmdQueue,
    now: u64,
) -> (r: Vec<Vec<u8>>)
    requires
        old(store).wf(),
        old(queue).wf(),
    ensures
        final(store).wf(),
        final(queue).wf(),
        exists|start: int| arr_start_at(buff@, start),
        forall|start: int|
            #[trigger] arr_start_at(buff@, start) ==> stream_apply(
                buff@,
                start,
                *old(store),
                *old(queue),
                *old(conn),
                now,
                *final(store),
                *final(queue),
                *final(conn),
                crate::journal::cmds_view(r),
            ),
{
    let ghost s0 = *store;
    let ghost q0 = *queue;
    let ghost c0 = *conn;
    let mut outs: Vec<Vec<u8>> = Vec::new();
    let mut pos: usize = 0;
    // skip the tail of the RDB transfer: advance to the first
    // position where a whole array decodes
    while pos < buff.len() && !array_decodes_at(buff, pos)
        invariant
            pos <= buff@.len(),
            forall|j: int| 0 <= j < pos ==> !is_array_frame(#[trigger] buff@.skip(j)),
        decreases buff@.len() - pos,
    {
        pos = pos + 1;
    }
    let ghost start0 = pos as int;
    proof {
        assert(arr_start_at(buff@, start0));
        assert(crate::journal::cmds_view(outs) =~= Seq::<Seq<u8>>::empty());
    }
    // decode and dispatch commands from there on
    while pos < buff.len() && array_decodes_at(buff, pos)
        invariant
            start0 <= pos <= buff@.len(),
            store.wf(),
            queue.wf(),
            forall|
                s2: crate::store::CacheRepository,
                q2: crate::journal::CmdQueue,
                c2: Connection,
                rest: Seq<Seq<u8>>,
            |
                stream_apply(buff@, pos as int, *store, *queue, *conn, now, s2, q2, c2, rest)
                    ==> #[trigger] stream_apply(
                    buff@,
                    start0,
                    s0,
                    q0,
                    c0,
                    now,
                    s2,
                    q2,
                    c2,
                    crate::journal::cmds_view(outs) + rest,
                ),
        decreases buff@.len() - pos,
    {
        let ghost s_prev = *store;
        let ghost q_prev = *queue;
        let ghost c_prev = *conn;
        let ghost outs_prev = crate::journal::cmds_view(outs);
        match crate::resp::deserialize::decode_at(buff, pos) {
            crate::resp::deserialize::DecodeResult::Value { value, consumed } => {
                let ghost v = crate::resp::deserialize::spec_decode(buff@.skip(pos as int))->Val_0;
                match value {
                    RESPDatatypes::Array(items) => {
                        let frame = RESPDatatypes::Array(items);
                        proof {
                            assert(frame@ == v);
                        }
                        let reply = crate::command::run_command(frame, store, queue, conn, now);
                        let ghost c_mid = *conn;
                        let ghost replyv = reply@;
                        let mut taken: Option<SlaveConfig> = None;
                        core::mem::swap(&mut taken, &mut conn.slave_config);
                        let armed_flag = match taken {
                            Some(sc) => {
                                let was_armed = match sc.send_output {
                                    Some(flag) => flag,
                                    None => false,
                                };
                                let add: u16 = ((consumed as u64) % 65536) as u16;
                                let wide: u64 = (sc.bytes_offset as u64 + add as u64) % 65536;
                                conn.slave_config = Some(
                                    SlaveConfig {
                                        port: sc.port,
                                        exp: sc.exp,
                                        last_cmd_id: sc.last_cmd_id,
                                        send_output: None,
                                        bytes_offset: wide as u16,
                                    },
                                );
                                was_armed
                            },
                            None => false,
                        };
                        proof {
                            match c_mid.slave_config {
                                Some(sc) => {
                                    assert(conn.slave_config->Some_0 =~= tick_conn(
                                        c_mid,
                                        consumed as int,
                                    ).slave_config->Some_0);
                                },
                                None => {},
                            }
                            assert(*conn =~= tick_conn(c_mid, consumed as int));
                            assert(armed_flag == armed(c_mid));
                        }
                        if armed_flag {
                            let ghost outs_before = outs;
                            outs.push(reply);
                            proof {
                                assert(crate::journal::cmds_view(outs) =~= outs_prev.push(replyv));
                            }
                        }
                        pos = pos + consumed;
                        proof {
                            let ghost p0 = pos - consumed;
                            let ghost ci = crate::resp::deserialize::spec_decode(
                                buff@.skip(p0),
                            )->Val_1;
                            assert(ci == consumed as int);
                            assert forall|
                                s2: crate::store::CacheRepository,
                                q2: crate::journal::CmdQueue,
                                c2: Connection,
                                rest: Seq<Seq<u8>>,
                            |
                                stream_apply(
                                    buff@,
                                    pos as int,
                                    *store,
                                    *queue,
                                    *conn,
                                    now,
                                    s2,
                                    q2,
                                    c2,
                                    rest,
                                ) implies #[trigger] stream_apply(
                                buff@,
                                start0,
                                s0,
                                q0,
                                c0,
                                now,
                                s2,
                                q2,
                                c2,
                                crate::journal::cmds_view(outs) + rest,
                            ) by {
                                let step_outs: Seq<Seq<u8>> = if armed(c_mid) {
                                    seq![replyv] + rest
                                } else {
                                    rest
                                };
                                assert(stream_apply(
                                    buff@,
                                    p0 + ci,
                                    *store,
                                    *queue,
                                    tick_conn(c_mid, ci),
                                    now,
                                    s2,
                                    q2,
                                    c2,
                                    rest,
                                ));
                                lemma_stream_apply_step(
                                    buff@,
                                    p0,
                                    s_prev,
                                    q_prev,
                                    c_prev,
                                    now,
                                    *store,
                                    *queue,
                                    c_mid,
                                    replyv,
                                    s2,
                                    q2,
                                    c2,
                                    rest,
                                    step_outs,
                                );
                                assert(stream_apply(
                                    buff@,
                                    start0,
                                    s0,
                                    q0,
                                    c0,
                                    now,
                                    s2,
                                    q2,
                                    c2,
                                    outs_prev + step_outs,
                                ));
                                assert(outs_prev + step_outs =~= crate::journal::cmds_view(outs)
                                    + rest);
                            }
                        }
                    },
                    RESPDatatypes::Null => {
                        proof {
                            assert(false);
                        }
                    },
                    RESPDatatypes::NullString => {
                        proof {
                            assert(false);
                        }
                    },
                    RESPDatatypes::NullArray => {
                        proof {
                            assert(false);
                        }
                    },
                    RESPDatatypes::Integer(n) => {
                        proof {
                            assert(false);
                        }
                    },
                    RESPDatatypes::Double(p) => {
                        proof {
                            assert(false);
                        }
                    },
                    RESPDatatypes::SimpleString(p) => {
                        proof {
                            assert(false);
                        }
                    },
                    RESPDatatypes::SimpleError(p) => {
                        proof {
                            assert(false);
                        }
                    },
                    RESPDatatypes::BulkString(p) => {
                        proof {
                            assert(false);
                        }
                    },
                    RESPDatatypes::RDBFile(p) => {
                        proof {
                            assert(false);
                        }
                    },
                    RESPDatatypes::BufBulk(p) => {
                        proof {
                            assert(false);
                        }
                    },
                    RESPDatatypes::Boolean(b) => {
                        proof {
                            assert(false);
                        }
                    },
                }
            },
            crate::resp::deserialize::DecodeResult::NeedMore => {
                proof {
                    assert(false);
                }
            },
            crate::resp::deserialize::DecodeResult::Malformed => {
                proof {
                    assert(false);
                }
            },
        }
    }
    proof {
        assert(stream_apply(
            buff@,
            pos as int,
            *store,
            *queue,
            *conn,
            now,
            *store,
            *queue,
            *conn,
            Seq::<Seq<u8>>::empty(),
        ));
        assert(stream_apply(
            buff@,
            start0,
            s0,
            q0,
            c0,
            now,
            *store,
            *queue,
            *conn,
            crate::journal::cmds_view(outs) + Seq::<Seq<u8>>::empty(),
        ));
        assert(crate::journal::cmds_view(outs) + Seq::<Seq<u8>>::empty()
            =~= crate::journal::cmds_view(outs));
        assert forall|start: int| #[trigger]
            arr_start_at(buff@, start) implies stream_apply(
            buff@,
            start,
            s0,
            q0,
            c0,
            now,
            *store,
            *queue,
            *conn,
            crate::journal::cmds_view(outs),
        ) by {
            lemma_arr_start_unique(buff@, start0, start);
        }
    }
    outs
}


} // verus!
