//! The command registry: recognition of each supported command out of
//! a decoded RESP value, and execution against the keyspace, the
//! journal and the connection state. Commands are matched in
//! registration order; verbs are case-insensitive.

use vstd::prelude::*;
use crate::ascii::{
    copy_range, eq_ignore_case, lower_seq, parse_u64_spec, parse_u64_range, push_int, int_repr,
    parse_i32_spec, parse_i32_range, udec_repr, push_udec,
};
use crate::resp::types::{
    lemma_view_items_index, view_items, view_of, RESPDatatypes, SpecResp,
};
use crate::resp::serialize::spec_encode;
use crate::resp::deserialize::bytes_to_string;
use crate::store::{
    clone_string, index_has, keeps, sat_add, spec_lookup, CacheRepository, EntryV,
};
use crate::journal::CmdQueue;
use crate::connection::{Connection, SlaveConfig};
use vstd::utf8::{decode_utf8, valid_utf8};

verus! {

broadcast use vstd::seq::axiom_seq_index_decreases, vstd::std_specs::vec::axiom_vec_index_decreases;

pub open spec fn verb_ping() -> Seq<u8> {
    seq![112u8, 105u8, 110u8, 103u8]
}

pub open spec fn verb_echo() -> Seq<u8> {
    seq![101u8, 99u8, 104u8, 111u8]
}

pub open spec fn verb_set() -> Seq<u8> {
    seq![115u8, 101u8, 116u8]
}

pub open spec fn verb_get() -> Seq<u8> {
    seq![103u8, 101u8, 116u8]
}

pub open spec fn verb_incr() -> Seq<u8> {
    seq![105u8, 110u8, 99u8, 114u8]
}

pub open spec fn verb_multi() -> Seq<u8> {
    seq![109u8, 117u8, 108u8, 116u8, 105u8]
}

pub open spec fn verb_exec() -> Seq<u8> {
    seq![101u8, 120u8, 101u8, 99u8]
}

pub open spec fn verb_discard() -> Seq<u8> {
    seq![100u8, 105u8, 115u8, 99u8, 97u8, 114u8, 100u8]
}

pub open spec fn verb_info() -> Seq<u8> {
    seq![105u8, 110u8, 102u8, 111u8]
}

pub open spec fn verb_replconf() -> Seq<u8> {
    seq![114u8, 101u8, 112u8, 108u8, 99u8, 111u8, 110u8, 102u8]
}

pub open spec fn verb_psync() -> Seq<u8> {
    seq![112u8, 115u8, 121u8, 110u8, 99u8]
}

pub open spec fn verb_px() -> Seq<u8> {
    seq![112u8, 120u8]
}

/// The payload lower-cases to the given verb.
pub open spec fn bulk_verb(e: SpecResp, verb: Seq<u8>) -> bool {
    e matches SpecResp::BufBulk(p) && lower_seq(p) == verb
}

/// The payload is exactly the verb `ping`, in any case.
pub open spec fn is_ping_text(p: Seq<u8>) -> bool {
    lower_seq(p) == verb_ping()
}

/// PING in any of its shapes: a simple string, a bulk, or an array
/// whose head is itself a PING. Nothing but the exact verb matches.
pub open spec fn is_ping_cmd(v: SpecResp) -> bool
    decreases v,
{
    match v {
        SpecResp::SimpleString(p) => is_ping_text(p),
        SpecResp::BufBulk(p) => is_ping_text(p),
        SpecResp::Array(items) => items.len() >= 1 && is_ping_cmd(items[0]),
        _ => false,
    }
}

pub open spec fn is_echo_cmd(v: SpecResp) -> bool {
    v matches SpecResp::Array(items) && items.len() >= 1 && bulk_verb(items[0], verb_echo())
}

/// The message an ECHO carries, when its second element is a bulk.
pub open spec fn echo_msg(v: SpecResp) -> Option<Seq<u8>> {
    let items = v->Array_0;
    if items.len() >= 2 && items[1] is BufBulk {
        Some(items[1]->BufBulk_0)
    } else {
        None
    }
}

pub open spec fn is_set_cmd(v: SpecResp) -> bool {
    &&& v matches SpecResp::Array(items)
    &&& items.len() >= 3
    &&& bulk_verb(items[0], verb_set())
    &&& items[1] is BufBulk
    &&& valid_utf8(items[1]->BufBulk_0)
    &&& items[1]->BufBulk_0.len() > 0
    &&& items[2] is BufBulk
}

pub open spec fn set_key(v: SpecResp) -> Seq<char> {
    decode_utf8(v->Array_0[1]->BufBulk_0)
}

pub open spec fn set_val(v: SpecResp) -> Seq<u8> {
    v->Array_0[2]->BufBulk_0
}

/// The PX option: present only as `PX <positive decimal>`; anything
/// else reads as no expiry.
pub open spec fn set_ttl(v: SpecResp) -> Option<u64> {
    let items = v->Array_0;
    if items.len() >= 5 && items[3] is BufBulk && lower_seq(items[3]->BufBulk_0) == verb_px()
        && items[4] is BufBulk && (parse_u64_spec(items[4]->BufBulk_0) matches Some(t) && t > 0) {
        parse_u64_spec(items[4]->BufBulk_0)
    } else {
        None
    }
}

pub open spec fn is_get_cmd(v: SpecResp) -> bool {
    &&& v matches SpecResp::Array(items)
    &&& items.len() >= 2
    &&& bulk_verb(items[0], verb_get())
    &&& items[1] is BufBulk
    &&& valid_utf8(items[1]->BufBulk_0)
    &&& items[1]->BufBulk_0.len() > 0
}

pub open spec fn get_key_of(v: SpecResp) -> Seq<char> {
    decode_utf8(v->Array_0[1]->BufBulk_0)
}

pub open spec fn is_incr_cmd(v: SpecResp) -> bool {
    &&& v matches SpecResp::Array(items)
    &&& items.len() >= 2
    &&& bulk_verb(items[0], verb_incr())
    &&& items[1] is BufBulk
    &&& valid_utf8(items[1]->BufBulk_0)
}

pub open spec fn incr_key_of(v: SpecResp) -> Seq<char> {
    decode_utf8(v->Array_0[1]->BufBulk_0)
}

pub open spec fn is_one_word_cmd(v: SpecResp, verb: Seq<u8>) -> bool {
    v matches SpecResp::Array(items) && items.len() == 1 && bulk_verb(items[0], verb)
}

pub open spec fn is_multi_cmd(v: SpecResp) -> bool {
    is_one_word_cmd(v, verb_multi())
}

pub open spec fn is_exec_cmd(v: SpecResp) -> bool {
    is_one_word_cmd(v, verb_exec())
}

pub open spec fn is_discard_cmd(v: SpecResp) -> bool {
    is_one_word_cmd(v, verb_discard())
}

pub open spec fn is_info_cmd(v: SpecResp) -> bool {
    v matches SpecResp::Array(items) && items.len() == 2 && bulk_verb(items[0], verb_info())
}

/// The INFO section asked for, lower-cased; empty when the second
/// element is no bulk.
pub open spec fn info_sub(v: SpecResp) -> Seq<u8> {
    let items = v->Array_0;
    if items[1] is BufBulk {
        lower_seq(items[1]->BufBulk_0)
    } else {
        Seq::<u8>::empty()
    }
}

pub open spec fn is_replconf_cmd(v: SpecResp) -> bool {
    &&& v matches SpecResp::Array(items)
    &&& items.len() == 3
    &&& bulk_verb(items[0], verb_replconf())
    &&& items[1] is BufBulk
    &&& valid_utf8(items[1]->BufBulk_0)
    &&& items[2] is BufBulk
    &&& valid_utf8(items[2]->BufBulk_0)
}

pub open spec fn replconf_type(v: SpecResp) -> Seq<char> {
    decode_utf8(v->Array_0[1]->BufBulk_0)
}

pub open spec fn replconf_data(v: SpecResp) -> Seq<char> {
    decode_utf8(v->Array_0[2]->BufBulk_0)
}

pub open spec fn is_psync_cmd(v: SpecResp) -> bool {
    v matches SpecResp::Array(items) && items.len() == 3 && bulk_verb(items[0], verb_psync())
}

/// The PING fast-path command.
#[derive(Debug)]
pub struct Ping {}

/// ECHO with its optional message.
#[derive(Debug)]
pub struct Echo {
    pub data: Option<Vec<u8>>,
}

/// SET with its parsed arguments and the original encoded request,
/// kept for the replication journal.
#[derive(Debug)]
pub struct SetCmd {
    pub cmd: Vec<u8>,
    pub key: String,
    pub value: Vec<u8>,
    pub expiry_ttl: Option<u64>,
}

/// GET with its parsed key.
#[derive(Debug)]
pub struct Get {
    pub key: String,
}

/// INCR with its parsed key and the original encoded request.
#[derive(Debug)]
pub struct Incr {
    pub cmd: Vec<u8>,
    pub key: String,
}

/// MULTI: opens a transaction.
pub struct Multi;

/// EXEC: runs a transaction.
pub struct Exec;

/// DISCARD: drops a transaction.
pub struct Discard;

/// INFO with its section name, lower-cased.
#[derive(Debug)]
pub struct Info {
    pub sub_command: Vec<u8>,
}

/// REPLCONF with its subkey and value.
pub struct ReplConf {
    pub conf_type: String,
    pub conf_data: String,
}

/// PSYNC: arms initial sync.
pub struct Psync;

/// A command a transaction can hold: the read- and write-class ones.
pub enum QueuedCommand {
    SetOp(SetCmd),
    GetOp(Get),
    IncrOp(Incr),
}

/// Ghost mirror of a queued command.
pub enum QueuedV {
    SetQ { key: Seq<char>, value: Seq<u8>, ttl: Option<u64>, cmd: Seq<u8> },
    GetQ { key: Seq<char> },
    IncrQ { key: Seq<char>, cmd: Seq<u8> },
}

/// The ghost mirror of one queued command.
pub open spec fn qc_view(q: QueuedCommand) -> QueuedV {
    match q {
        QueuedCommand::SetOp(s) => QueuedV::SetQ {
            key: s.key@,
            value: s.value@,
            ttl: s.expiry_ttl,
            cmd: s.cmd@,
        },
        QueuedCommand::GetOp(g) => QueuedV::GetQ { key: g.key@ },
        QueuedCommand::IncrOp(i) => QueuedV::IncrQ { key: i.key@, cmd: i.cmd@ },
    }
}

/// The ghost mirrors of a transaction queue.
pub open spec fn qs_view(s: Seq<QueuedCommand>) -> Seq<QueuedV> {
    Seq::new(s.len(), |i: int| qc_view(s[i]))
}

/// Tests a payload for a case-insensitive verb.
fn check_bulk_verb(e: &RESPDatatypes, verb: &[u8]) -> (r: bool)
    ensures
        r == bulk_verb(e@, lower_seq(verb@)),
{
    match e {
        RESPDatatypes::BufBulk(p) => eq_ignore_case(p.as_slice(), verb),
        _ => false,
    }
}

/// Tests a payload for the exact verb `ping`, in any case.
fn is_ping_payload(p: &Vec<u8>) -> (r: bool)
    ensures
        r == is_ping_text(p@),
{
    let lit: &[u8] = &[112u8, 105u8, 110u8, 103u8];
    let r = eq_ignore_case(p.as_slice(), lit);
    proof {
        assert(lower_seq(lit@) =~= verb_ping());
    }
    r
}

impl Ping {
    /// Recognizes PING in any of its shapes.
    pub fn recognize(cmd: &RESPDatatypes) -> (r: bool)
        ensures
            r == is_ping_cmd(cmd@),
        decreases *cmd,
    {
        match cmd {
            RESPDatatypes::SimpleString(p) => is_ping_payload(p),
            RESPDatatypes::BufBulk(p) => is_ping_payload(p),
            RESPDatatypes::Array(items) => {
                proof {
                    lemma_view_items_index(*items, 0);
                }
                if items.len() == 0 {
                    return false;
                }
                proof {
                    assert(view_items(*items, 0)[0] == view_of(items@[0]));
                }
                Ping::recognize(&items[0])
            },
            _ => false,
        }
    }

    /// PING's reply value.
    pub fn get_output(&self) -> (r: RESPDatatypes)
        ensures
            r@ == SpecResp::SimpleString(pong_msg()),
    {
        let payload = vstd::slice::slice_to_vec(&[80u8, 79u8, 78u8, 71u8]);
        proof {
            assert(payload@ =~= pong_msg());
        }
        RESPDatatypes::SimpleString(payload)
    }
}

pub open spec fn pong_msg() -> Seq<u8> {
    seq![80u8, 79, 78, 71]
}

pub open spec fn ok_msg() -> Seq<u8> {
    seq![79u8, 75]
}

pub open spec fn queued_msg() -> Seq<u8> {
    seq![81u8, 85, 69, 85, 69, 68]
}

pub open spec fn exec_err_msg() -> Seq<u8> {
    seq![69u8, 82, 82, 32, 69, 88, 69, 67, 32, 119, 105, 116, 104, 111, 117, 116, 32, 77, 85, 76,
        84, 73]
}

pub open spec fn discard_err_msg() -> Seq<u8> {
    seq![69u8, 82, 82, 32, 68, 73, 83, 67, 65, 82, 68, 32, 119, 105, 116, 104, 111, 117, 116, 32,
        77, 85, 76, 84, 73]
}

pub open spec fn incr_err_msg() -> Seq<u8> {
    seq![69u8, 82, 82, 32, 118, 97, 108, 117, 101, 32, 105, 115, 32, 110, 111, 116, 32, 97, 110,
        32, 105, 110, 116, 101, 103, 101, 114, 32, 111, 114, 32, 111, 117, 116, 32, 111, 102, 32,
        114, 97, 110, 103, 101]
}

pub open spec fn getack_err_msg() -> Seq<u8> {
    seq![69u8, 82, 82, 32, 71, 69, 84, 65, 67, 75, 32, 119, 105, 116, 104, 111, 117, 116, 32, 82,
        69, 80, 76, 67, 79, 78, 70]
}

pub open spec fn notfound_msg() -> Seq<u8> {
    seq![99u8, 111, 109, 109, 97, 110, 100, 32, 110, 111, 116, 32, 102, 111, 117, 110, 100]
}

pub open spec fn replication_sub() -> Seq<u8> {
    seq![114u8, 101, 112, 108, 105, 99, 97, 116, 105, 111, 110]
}

/// Encodes a simple-string reply.
pub fn reply_simple(msg: &[u8]) -> (r: Vec<u8>)
    ensures
        r@ == spec_encode(SpecResp::SimpleString(msg@)),
{
    RESPDatatypes::SimpleString(vstd::slice::slice_to_vec(msg)).encode()
}

/// Encodes an error reply.
pub fn reply_error(msg: &[u8]) -> (r: Vec<u8>)
    ensures
        r@ == spec_encode(SpecResp::SimpleError(msg@)),
{
    RESPDatatypes::SimpleError(vstd::slice::slice_to_vec(msg)).encode()
}

impl Echo {
    /// Recognizes ECHO and captures its message.
    pub fn recognize(cmd: &RESPDatatypes) -> (r: Option<Echo>)
        ensures
            r is Some <==> is_echo_cmd(cmd@),
            r matches Some(e) ==> match echo_msg(cmd@) {
                Some(m) => e.data matches Some(d) && d@ == m,
                None => e.data is None,
            },
    {
        match cmd {
            RESPDatatypes::Array(items) => {
                proof {
                    lemma_view_items_index(*items, 0);
                }
                if items.len() == 0 {
                    return None;
                }
                let lit: &[u8] = &[101u8, 99u8, 104u8, 111u8];
                proof {
                    assert(lower_seq(lit@) =~= verb_echo());
                }
                if !check_bulk_verb(&items[0], lit) {
                    return None;
                }
                if items.len() >= 2 {
                    proof {
                        lemma_view_items_index(*items, 0);
                    }
                    match &items[1] {
                        RESPDatatypes::BufBulk(p) => Some(
                            Echo { data: Some(copy_range(p, 0, p.len())) },
                        ),
                        _ => Some(Echo { data: None }),
                    }
                } else {
                    Some(Echo { data: None })
                }
            },
            _ => None,
        }
    }
}

impl SetCmd {
    /// Recognizes SET and captures key, value, PX option and the
    /// encoded request.
    pub fn recognize(cmd: &RESPDatatypes) -> (r: Option<SetCmd>)
        ensures
            r is Some <==> is_set_cmd(cmd@),
            r matches Some(c) ==> c.key@ == set_key(cmd@) && c.value@ == set_val(cmd@)
                && c.expiry_ttl == set_ttl(cmd@) && c.cmd@ == spec_encode(cmd@),
    {
        match cmd {
            RESPDatatypes::Array(items) => {
                proof {
                    lemma_view_items_index(*items, 0);
                }
                if items.len() < 3 {
                    return None;
                }
                let lit: &[u8] = &[115u8, 101u8, 116u8];
                proof {
                    assert(lower_seq(lit@) =~= verb_set());
                }
                if !check_bulk_verb(&items[0], lit) {
                    return None;
                }
                let key = match &items[1] {
                    RESPDatatypes::BufBulk(p) => {
                        if p.len() == 0 {
                            return None;
                        }
                        match bytes_to_string(p.as_slice()) {
                            Ok(s) => s,
                            Err(_) => {
                                return None;
                            },
                        }
                    },
                    _ => {
                        return None;
                    },
                };
                let value = match &items[2] {
                    RESPDatatypes::BufBulk(p) => copy_range(p, 0, p.len()),
                    _ => {
                        return None;
                    },
                };
                let mut ttl: Option<u64> = None;
                if items.len() >= 5 {
                    let pxlit: &[u8] = &[112u8, 120u8];
                    proof {
                        assert(lower_seq(pxlit@) =~= verb_px());
                    }
                    if check_bulk_verb(&items[3], pxlit) {
                        match &items[4] {
                            RESPDatatypes::BufBulk(p) => {
                                match parse_u64_range(p, 0, p.len()) {
                                    Some(t) => {
                                        proof {
                                            assert(p@.subrange(0, p@.len() as int) =~= p@);
                                        }
                                        if t > 0 {
                                            ttl = Some(t);
                                        }
                                    },
                                    None => {
                                        proof {
                                            assert(p@.subrange(0, p@.len() as int) =~= p@);
                                        }
                                    },
                                }
                            },
                            _ => {},
                        }
                    }
                }
                let cmdbytes = cmd.encode();
                Some(SetCmd { cmd: cmdbytes, key, value, expiry_ttl: ttl })
            },
            _ => None,
        }
    }

    /// The parsed key.
    pub fn get_key(&self) -> (r: String)
        ensures
            r == self.key,
    {
        clone_string(&self.key)
    }

    /// The parsed value bytes.
    pub fn get_value(&self) -> (r: Vec<u8>)
        ensures
            r@ == self.value@,
    {
        copy_range(&self.value, 0, self.value.len())
    }
}

impl Get {
    /// Recognizes GET and captures its key.
    pub fn recognize(cmd: &RESPDatatypes) -> (r: Option<Get>)
        ensures
            r is Some <==> is_get_cmd(cmd@),
            r matches Some(g) ==> g.key@ == get_key_of(cmd@),
    {
        match cmd {
            RESPDatatypes::Array(items) => {
                proof {
                    lemma_view_items_index(*items, 0);
                }
                if items.len() < 2 {
                    return None;
                }
                let lit: &[u8] = &[103u8, 101u8, 116u8];
                proof {
                    assert(lower_seq(lit@) =~= verb_get());
                }
                if !check_bulk_verb(&items[0], lit) {
                    return None;
                }
                match &items[1] {
                    RESPDatatypes::BufBulk(p) => {
                        if p.len() == 0 {
                            return None;
                        }
                        match bytes_to_string(p.as_slice()) {
                            Ok(s) => Some(Get { key: s }),
                            Err(_) => None,
                        }
                    },
                    _ => None,
                }
            },
            _ => None,
        }
    }

    /// The parsed key.
    pub fn get_key(&self) -> (r: String)
        ensures
            r == self.key,
    {
        clone_string(&self.key)
    }
}

impl Incr {
    /// Recognizes INCR and captures its key and the encoded request.
    pub fn recognize(cmd: &RESPDatatypes) -> (r: Option<Incr>)
        ensures
            r is Some <==> is_incr_cmd(cmd@),
            r matches Some(c) ==> c.key@ == incr_key_of(cmd@) && c.cmd@ == spec_encode(cmd@),
    {
        match cmd {
            RESPDatatypes::Array(items) => {
                proof {
                    lemma_view_items_index(*items, 0);
                }
                if items.len() < 2 {
                    return None;
                }
                let lit: &[u8] = &[105u8, 110u8, 99u8, 114u8];
                proof {
                    assert(lower_seq(lit@) =~= verb_incr());
                }
                if !check_bulk_verb(&items[0], lit) {
                    return None;
                }
                match &items[1] {
                    RESPDatatypes::BufBulk(p) => {
                        match bytes_to_string(p.as_slice()) {
                            Ok(s) => Some(Incr { cmd: cmd.encode(), key: s }),
                            Err(_) => None,
                        }
                    },
                    _ => None,
                }
            },
            _ => None,
        }
    }
}

/// Recognizes a one-word command such as MULTI, EXEC or DISCARD.
fn recognize_one_word(cmd: &RESPDatatypes, verb: &[u8]) -> (r: bool)
    ensures
        r == is_one_word_cmd(cmd@, lower_seq(verb@)),
{
    match cmd {
        RESPDatatypes::Array(items) => {
            proof {
                lemma_view_items_index(*items, 0);
            }
            if items.len() != 1 {
                return false;
            }
            check_bulk_verb(&items[0], verb)
        },
        _ => false,
    }
}

impl Info {
    /// Recognizes INFO and captures its section, lower-cased.
    pub fn recognize(cmd: &RESPDatatypes) -> (r: Option<Info>)
        ensures
            r is Some <==> is_info_cmd(cmd@),
            r matches Some(i) ==> i.sub_command@ == info_sub(cmd@),
    {
        match cmd {
            RESPDatatypes::Array(items) => {
                proof {
                    lemma_view_items_index(*items, 0);
                }
                if items.len() != 2 {
                    return None;
                }
                let lit: &[u8] = &[105u8, 110u8, 102u8, 111u8];
                proof {
                    assert(lower_seq(lit@) =~= verb_info());
                }
                if !check_bulk_verb(&items[0], lit) {
                    return None;
                }
                let sub = match &items[1] {
                    RESPDatatypes::BufBulk(p) => crate::ascii::to_lower_vec(p.as_slice()),
                    _ => Vec::new(),
                };
                Some(Info { sub_command: sub })
            },
            _ => None,
        }
    }
}

impl ReplConf {
    /// Recognizes REPLCONF and captures its subkey and value.
    pub fn recognize(cmd: &RESPDatatypes) -> (r: Option<ReplConf>)
        ensures
            r is Some <==> is_replconf_cmd(cmd@),
            r matches Some(c) ==> c.conf_type@ == replconf_type(cmd@) && c.conf_data@
                == replconf_data(cmd@),
    {
        match cmd {
            RESPDatatypes::Array(items) => {
                proof {
                    lemma_view_items_index(*items, 0);
                }
                if items.len() != 3 {
                    return None;
                }
                let lit: &[u8] = &[114u8, 101u8, 112u8, 108u8, 99u8, 111u8, 110u8, 102u8];
                proof {
                    assert(lower_seq(lit@) =~= verb_replconf());
                }
                if !check_bulk_verb(&items[0], lit) {
                    return None;
                }
                let conf_type = match &items[1] {
                    RESPDatatypes::BufBulk(p) => {
                        match bytes_to_string(p.as_slice()) {
                            Ok(s) => s,
                            Err(_) => {
                                return None;
                            },
                        }
                    },
                    _ => {
                        return None;
                    },
                };
                let conf_data = match &items[2] {
                    RESPDatatypes::BufBulk(p) => {
                        match bytes_to_string(p.as_slice()) {
                            Ok(s) => s,
                            Err(_) => {
                                return None;
                            },
                        }
                    },
                    _ => {
                        return None;
                    },
                };
                Some(ReplConf { conf_type, conf_data })
            },
            _ => None,
        }
    }
}

/// The keyspace transition of an upsert: the key maps to the value
/// and expiry, nothing else moves, and the index follows.
pub open spec fn store_updated(
    pre: CacheRepository,
    post: CacheRepository,
    key: Seq<char>,
    value: Seq<u8>,
    expiry: Option<u64>,
) -> bool {
    &&& post.wf()
    &&& spec_lookup(post.entries(), key) == Some(EntryV { key, value, expiry })
    &&& (forall|k: Seq<char>|
        k != key ==> #[trigger] spec_lookup(post.entries(), k) == spec_lookup(pre.entries(), k))
    &&& (forall|k: Seq<char>, t: u64|
        #[trigger] index_has(post.marks(), k, t) <==> ((index_has(pre.marks(), k, t) && k != key)
            || (k == key && expiry == Some(t))))
    &&& post.curr_transaction_id == pre.curr_transaction_id
}

/// The journal transition of a write: one entry carrying the command
/// bytes was appended, except in the unreachable case of an exhausted
/// id space.
pub open spec fn journal_appended(pre: CmdQueue, post: CmdQueue, cmd: Seq<u8>, now: u64) -> bool {
    &&& post.wf()
    &&& {
        ||| (post.entries().len() == pre.entries().len() + 1 && post.entries().last().cmd == cmd
            && (forall|i: int|
            0 <= i < pre.entries().len() ==> #[trigger] post.entries()[i] == pre.entries()[i])
            && post.entries().last().ins >= now)
        ||| (post.entries() == pre.entries() && pre.entries().len() > 0
            && pre.entries().last().id == u128::MAX)
    }
}

/// What INCR computes: one more than the stored decimal value, one
/// for a missing or expired key, and nothing when the value is no
/// 32-bit decimal integer or the successor leaves the range.
pub open spec fn incr_new_val(pre: CacheRepository, key: Seq<char>, now: u64) -> Option<i32> {
    match spec_lookup(pre.entries(), key) {
        None => Some(1i32),
        Some(e) => if !keeps(e, now) {
            Some(1i32)
        } else {
            match parse_i32_spec(e.value) {
                Some(ev) => if ev < i32::MAX {
                    Some((ev + 1) as i32)
                } else {
                    None
                },
                None => None,
            }
        },
    }
}

/// Applies SET: journals the request, then upserts the key.
pub fn apply_set(store: &mut CacheRepository, queue: &mut CmdQueue, s: SetCmd, now: u64) -> (r: Vec<
    u8,
>)
    requires
        old(store).wf(),
        old(queue).wf(),
    ensures
        store_updated(
            *old(store),
            *final(store),
            s.key@,
            s.value@,
            match s.expiry_ttl {
                Some(t) => Some(sat_add(now, t)),
                None => None,
            },
        ),
        journal_appended(*old(queue), *final(queue), s.cmd@, now),
        r@ == spec_encode(SpecResp::SimpleString(ok_msg())),
{
    let SetCmd { cmd, key, value, expiry_ttl } = s;
    self_add(queue, cmd, now);
    match expiry_ttl {
        Some(t) => {
            let x = store.set_with_expiry(key, value, t, now);
        },
        None => {
            let x = store.set(key, value);
        },
    }
    reply_simple(&[79u8, 75u8])
}

/// Appends to the journal, dropping the unusable success flag.
fn self_add(queue: &mut CmdQueue, cmd: Vec<u8>, now: u64)
    requires
        old(queue).wf(),
    ensures
        journal_appended(*old(queue), *final(queue), cmd@, now),
{
    let added = queue.add(cmd, now);
}

/// Applies GET: reads the key at `now`.
pub fn apply_get(store: &CacheRepository, g: &Get, now: u64) -> (r: Vec<u8>)
    ensures
        r@ == (match spec_lookup(store.entries(), g.key@) {
            Some(e) => if keeps(e, now) {
                spec_encode(SpecResp::BufBulk(e.value))
            } else {
                spec_encode(SpecResp::NullString)
            },
            None => spec_encode(SpecResp::NullString),
        }),
{
    match store.get(g.get_key(), now) {
        Some(v) => RESPDatatypes::BufBulk(v).encode(),
        None => RESPDatatypes::NullString.encode(),
    }
}

/// Applies INCR: parses the stored value, adds one, stores the
/// decimal text back and journals the request; a non-integer or
/// out-of-range value leaves everything unchanged and reports the
/// error.
pub fn apply_incr(store: &mut CacheRepository, queue: &mut CmdQueue, inc: Incr, now: u64) -> (r:
    Vec<u8>)
    requires
        old(store).wf(),
        old(queue).wf(),
    ensures
        match incr_new_val(*old(store), inc.key@, now) {
            Some(nv) => store_updated(
                *old(store),
                *final(store),
                inc.key@,
                int_repr(nv as int),
                None,
            ) && journal_appended(*old(queue), *final(queue), inc.cmd@, now) && r@ == spec_encode(
                SpecResp::Integer(nv),
            ),
            None => *final(store) == *old(store) && *final(queue) == *old(queue) && r@
                == spec_encode(SpecResp::SimpleError(incr_err_msg())),
        },
{
    let Incr { cmd, key } = inc;
    let existing = store.get(clone_string(&key), now);
    let nv: i32 = match existing {
        None => 1,
        Some(bytes) => {
            let parsed = parse_i32_range(&bytes, 0, bytes.len());
            proof {
                assert(bytes@.subrange(0, bytes@.len() as int) =~= bytes@);
            }
            match parsed {
                Some(ev) => {
                    if ev == i32::MAX {
                        return reply_error(
                            &[
                                69u8, 82, 82, 32, 118, 97, 108, 117, 101, 32, 105, 115, 32, 110,
                                111, 116, 32, 97, 110, 32, 105, 110, 116, 101, 103, 101, 114, 32,
                                111, 114, 32, 111, 117, 116, 32, 111, 102, 32, 114, 97, 110, 103,
                                101,
                            ],
                        );
                    }
                    ev + 1
                },
                None => {
                    return reply_error(
                        &[
                            69u8, 82, 82, 32, 118, 97, 108, 117, 101, 32, 105, 115, 32, 110, 111,
                            116, 32, 97, 110, 32, 105, 110, 116, 101, 103, 101, 114, 32, 111, 114,
                            32, 111, 117, 116, 32, 111, 102, 32, 114, 97, 110, 103, 101,
                        ],
                    );
                },
            }
        },
    };
    let mut text: Vec<u8> = Vec::new();
    push_int(nv as i64, &mut text);
    self_add(queue, cmd, now);
    let x = store.set(key, text);
    RESPDatatypes::Integer(nv).encode()
}

/// The transition one queued command makes when EXEC runs it: the
/// store and journal effects and the reply element, exactly as for
/// the direct (non-queued) form of the command.
pub open spec fn queued_step(
    qv: QueuedV,
    pre_store: CacheRepository,
    pre_queue: CmdQueue,
    now: u64,
    post_store: CacheRepository,
    post_queue: CmdQueue,
    reply: SpecResp,
) -> bool {
    match qv {
        QueuedV::SetQ { key, value, ttl, cmd } => store_updated(
            pre_store,
            post_store,
            key,
            value,
            match ttl {
                Some(t) => Some(sat_add(now, t)),
                None => None,
            },
        ) && journal_appended(pre_queue, post_queue, cmd, now) && reply == SpecResp::SimpleString(
            ok_msg(),
        ),
        QueuedV::GetQ { key } => post_store == pre_store && post_queue == pre_queue && reply == (
        match spec_lookup(pre_store.entries(), key) {
            Some(e) => if keeps(e, now) {
                SpecResp::BufBulk(e.value)
            } else {
                SpecResp::NullString
            },
            None => SpecResp::NullString,
        }),
        QueuedV::IncrQ { key, cmd } => match incr_new_val(pre_store, key, now) {
            Some(nv) => store_updated(pre_store, post_store, key, int_repr(nv as int), None)
                && journal_appended(pre_queue, post_queue, cmd, now) && reply == SpecResp::Integer(
                nv,
            ),
            None => post_store == pre_store && post_queue == pre_queue && reply
                == SpecResp::SimpleError(incr_err_msg()),
        },
    }
}

/// The left-to-right fold of `queued_step` over a transaction queue:
/// one reply element per queued command, each step starting from the
/// state the step before it left.
pub open spec fn exec_fold(
    cmds: Seq<QueuedV>,
    s1: CacheRepository,
    q1: CmdQueue,
    now: u64,
    s2: CacheRepository,
    q2: CmdQueue,
    replies: Seq<SpecResp>,
) -> bool
    decreases cmds.len(),
{
    if cmds.len() == 0 {
        s2 == s1 && q2 == q1 && replies == Seq::<SpecResp>::empty()
    } else {
        &&& replies.len() == cmds.len()
        &&& exists|s_mid: CacheRepository, q_mid: CmdQueue|
            #![auto]
            queued_step(cmds[0], s1, q1, now, s_mid, q_mid, replies[0]) && exec_fold(
                cmds.skip(1),
                s_mid,
                q_mid,
                now,
                s2,
                q2,
                replies.skip(1),
            )
    }
}

/// Runs one queued command against the keyspace, as EXEC does.
pub fn execute_queued(qc: QueuedCommand, store: &mut CacheRepository, queue: &mut CmdQueue, now: u64) -> (r:
    RESPDatatypes)
    requires
        old(store).wf(),
        old(queue).wf(),
    ensures
        final(store).wf(),
        final(queue).wf(),
        queued_step(qc_view(qc), *old(store), *old(queue), now, *final(store), *final(queue), r@),
{
    match qc {
        QueuedCommand::SetOp(s) => {
            let SetCmd { cmd, key, value, expiry_ttl } = s;
            self_add(queue, cmd, now);
            match expiry_ttl {
                Some(t) => {
                    let x = store.set_with_expiry(key, value, t, now);
                },
                None => {
                    let x = store.set(key, value);
                },
            }
            let payload = vstd::slice::slice_to_vec(&[79u8, 75u8]);
            proof {
                assert(payload@ =~= ok_msg());
            }
            RESPDatatypes::SimpleString(payload)
        },
        QueuedCommand::GetOp(g) => {
            match store.get(g.get_key(), now) {
                Some(v) => RESPDatatypes::BufBulk(v),
                None => RESPDatatypes::NullString,
            }
        },
        QueuedCommand::IncrOp(inc) => {
            let Incr { cmd, key } = inc;
            let existing = store.get(clone_string(&key), now);
            let mut failed = false;
            let mut nv: i32 = 1;
            match existing {
                None => {},
                Some(bytes) => {
                    let parsed = parse_i32_range(&bytes, 0, bytes.len());
                    proof {
                        assert(bytes@.subrange(0, bytes@.len() as int) =~= bytes@);
                    }
                    match parsed {
                        Some(ev) => {
                            if ev == i32::MAX {
                                failed = true;
                            } else {
                                nv = ev + 1;
                            }
                        },
                        None => {
                            failed = true;
                        },
                    }
                },
            }
            if failed {
                let payload = vstd::slice::slice_to_vec(
                    &[
                        69u8, 82, 82, 32, 118, 97, 108, 117, 101, 32, 105, 115, 32, 110, 111, 116,
                        32, 97, 110, 32, 105, 110, 116, 101, 103, 101, 114, 32, 111, 114, 32, 111,
                        117, 116, 32, 111, 102, 32, 114, 97, 110, 103, 101,
                    ],
                );
                proof {
                    assert(payload@ =~= incr_err_msg());
                }
                return RESPDatatypes::SimpleError(payload);
            }
            let mut text: Vec<u8> = Vec::new();
            push_int(nv as i64, &mut text);
            self_add(queue, cmd, now);
            let x = store.set(key, text);
            RESPDatatypes::Integer(nv)
        },
    }
}

/// Connection fields other than the transaction state are untouched.
pub open spec fn conn_same_but_txn(pre: Connection, post: Connection) -> bool {
    &&& post.id == pre.id
    &&& post.server_config == pre.server_config
    &&& post.slave_config == pre.slave_config
    &&& post.send_rdb_file == pre.send_rdb_file
    &&& post.is_master == pre.is_master
}

/// Connection fields other than the replica bookkeeping are
/// untouched.
pub open spec fn conn_same_but_replica(pre: Connection, post: Connection) -> bool {
    &&& post.id == pre.id
    &&& post.server_config == pre.server_config
    &&& post.in_transaction == pre.in_transaction
    &&& post.tnxs == pre.tnxs
    &&& post.is_master == pre.is_master
}

/// The transaction queue grew by exactly this command.
pub open spec fn txn_pushed(pre: Connection, post: Connection, qv: QueuedV) -> bool {
    &&& post.in_transaction == pre.in_transaction
    &&& (pre.tnxs matches Some(q) ==> post.tnxs matches Some(q2) && qs_view(q2@) == qs_view(
        q@,
    ).push(qv))
    &&& (pre.tnxs is None ==> post.tnxs is None)
    &&& conn_same_but_txn(pre, post)
}

/// The FULLRESYNC reply text for the configured primary id and
/// offset, with fixed fallbacks.
pub open spec fn fullresync_chars(c: crate::config::Config) -> Seq<char> {
    "FULLRESYNC "@ + (match c.replication_config.master_repl_id {
        Some(id) => id@,
        None => "8371b4fb1155b71f4a04d3e1bc3e18c4a990aeeb"@,
    }) + " "@ + int_chars(
        match c.replication_config.master_repl_offset {
            Some(o) => o as int,
            None => 0,
        },
    )
}

/// The decimal text of an integer, as characters.
pub open spec fn int_chars(n: int) -> Seq<char> {
    if n < 0 {
        seq!['-'] + crate::config::udec_chars(-n)
    } else {
        crate::config::udec_chars(n)
    }
}

/// What dispatching one decoded value does: the reply it returns and
/// the states it leaves, command by command in registration order.
pub open spec fn dispatch_post(
    v: SpecResp,
    pre_store: CacheRepository,
    post_store: CacheRepository,
    pre_queue: CmdQueue,
    post_queue: CmdQueue,
    pre_conn: Connection,
    post_conn: Connection,
    now: u64,
    r: Seq<u8>,
) -> bool {
    let g1 = is_ping_cmd(v);
    let g2 = !g1 && is_echo_cmd(v);
    let g3 = !g1 && !g2 && is_set_cmd(v);
    let g4 = !g1 && !g2 && !g3 && is_get_cmd(v);
    let g5 = !g1 && !g2 && !g3 && !g4 && is_incr_cmd(v);
    let g6 = !g1 && !g2 && !g3 && !g4 && !g5 && is_multi_cmd(v);
    let g7 = !g1 && !g2 && !g3 && !g4 && !g5 && !g6 && is_exec_cmd(v);
    let g8 = !g1 && !g2 && !g3 && !g4 && !g5 && !g6 && !g7 && is_discard_cmd(v);
    let g9 = !g1 && !g2 && !g3 && !g4 && !g5 && !g6 && !g7 && !g8 && is_info_cmd(v);
    let g10 = !g1 && !g2 && !g3 && !g4 && !g5 && !g6 && !g7 && !g8 && !g9 && is_replconf_cmd(v);
    let g11 = !g1 && !g2 && !g3 && !g4 && !g5 && !g6 && !g7 && !g8 && !g9 && !g10 && is_psync_cmd(
        v,
    );
    let unmatched = !g1 && !g2 && !g3 && !g4 && !g5 && !g6 && !g7 && !g8 && !g9 && !g10 && !g11;
    &&& post_store.wf()
    &&& post_queue.wf()
    &&& (g1 ==> r == spec_encode(SpecResp::SimpleString(pong_msg())) && post_store == pre_store
        && post_queue == pre_queue && post_conn == pre_conn)
    &&& (g2 ==> r == (match echo_msg(v) {
        Some(m) => spec_encode(SpecResp::BufBulk(m)),
        None => spec_encode(SpecResp::NullString),
    }) && post_store == pre_store && post_queue == pre_queue && post_conn == pre_conn)
    &&& (g3 && pre_conn.in_transaction ==> r == spec_encode(SpecResp::SimpleString(queued_msg()))
        && post_store == pre_store && post_queue == pre_queue && txn_pushed(
        pre_conn,
        post_conn,
        QueuedV::SetQ { key: set_key(v), value: set_val(v), ttl: set_ttl(v), cmd: spec_encode(v) },
    ))
    &&& (g3 && !pre_conn.in_transaction ==> r == spec_encode(SpecResp::SimpleString(ok_msg()))
        && store_updated(
        pre_store,
        post_store,
        set_key(v),
        set_val(v),
        match set_ttl(v) {
            Some(t) => Some(sat_add(now, t)),
            None => None,
        },
    ) && journal_appended(pre_queue, post_queue, spec_encode(v), now) && post_conn == pre_conn)
    &&& (g4 && pre_conn.in_transaction ==> r == spec_encode(SpecResp::SimpleString(queued_msg()))
        && post_store == pre_store && post_queue == pre_queue && txn_pushed(
        pre_conn,
        post_conn,
        QueuedV::GetQ { key: get_key_of(v) },
    ))
    &&& (g4 && !pre_conn.in_transaction ==> r == (match spec_lookup(
        pre_store.entries(),
        get_key_of(v),
    ) {
        Some(e) => if keeps(e, now) {
            spec_encode(SpecResp::BufBulk(e.value))
        } else {
            spec_encode(SpecResp::NullString)
        },
        None => spec_encode(SpecResp::NullString),
    }) && post_store == pre_store && post_queue == pre_queue && post_conn == pre_conn)
    &&& (g5 && pre_conn.in_transaction ==> r == spec_encode(SpecResp::SimpleString(queued_msg()))
        && post_store == pre_store && post_queue == pre_queue && txn_pushed(
        pre_conn,
        post_conn,
        QueuedV::IncrQ { key: incr_key_of(v), cmd: spec_encode(v) },
    ))
    &&& (g5 && !pre_conn.in_transaction ==> post_conn == pre_conn && (match incr_new_val(
        pre_store,
        incr_key_of(v),
        now,
    ) {
        Some(nv) => store_updated(pre_store, post_store, incr_key_of(v), int_repr(nv as int), None)
            && journal_appended(pre_queue, post_queue, spec_encode(v), now) && r == spec_encode(
            SpecResp::Integer(nv),
        ),
        None => post_store == pre_store && post_queue == pre_queue && r == spec_encode(
            SpecResp::SimpleError(incr_err_msg()),
        ),
    }))
    &&& (g6 ==> r == spec_encode(SpecResp::SimpleString(ok_msg())) && post_store == pre_store
        && post_queue == pre_queue && post_conn.in_transaction && (post_conn.tnxs matches Some(q)
        && q@.len() == 0) && conn_same_but_txn(pre_conn, post_conn))
    &&& (g7 && !pre_conn.in_transaction ==> r == spec_encode(
        SpecResp::SimpleError(exec_err_msg()),
    ) && post_store == pre_store && post_queue == pre_queue && post_conn == pre_conn)
    &&& (g7 && pre_conn.in_transaction ==> !post_conn.in_transaction && post_conn.tnxs is None
        && conn_same_but_txn(pre_conn, post_conn) && post_store.curr_transaction_id is None && (
    exists|elems: Seq<SpecResp>|
        #![auto]
        exec_fold(
            match pre_conn.tnxs {
                Some(q) => qs_view(q@),
                None => Seq::<QueuedV>::empty(),
            },
            CacheRepository {
                repo: pre_store.repo,
                expiry_map: pre_store.expiry_map,
                curr_transaction_id: Some(pre_conn.id),
            },
            pre_queue,
            now,
            CacheRepository {
                repo: post_store.repo,
                expiry_map: post_store.expiry_map,
                curr_transaction_id: Some(pre_conn.id),
            },
            post_queue,
            elems,
        ) && r == spec_encode(SpecResp::Array(elems))))
    &&& (g8 && pre_conn.in_transaction ==> r == spec_encode(SpecResp::SimpleString(ok_msg()))
        && post_store == pre_store && post_queue == pre_queue && !post_conn.in_transaction
        && post_conn.tnxs is None && conn_same_but_txn(pre_conn, post_conn))
    &&& (g8 && !pre_conn.in_transaction ==> r == spec_encode(
        SpecResp::SimpleError(discard_err_msg()),
    ) && post_store == pre_store && post_queue == pre_queue && post_conn == pre_conn)
    &&& (g9 ==> post_store == pre_store && post_queue == pre_queue && post_conn == pre_conn && r
        == (if info_sub(v) == replication_sub() {
        spec_encode(
            SpecResp::BulkString(
                vstd::utf8::encode_utf8(
                    "# Replication\n"@ + crate::config::role_text(
                        pre_conn.server_config.replication_config.role,
                    ),
                ),
            ),
        )
    } else {
        spec_encode(SpecResp::SimpleString(ok_msg()))
    }))
    &&& (g10 ==> post_store == pre_store && post_queue == pre_queue && conn_same_but_replica(
        pre_conn,
        post_conn,
    ) && {
        let t = replconf_type(v);
        if t == "listening-port"@ {
            r == spec_encode(SpecResp::SimpleString(ok_msg())) && (post_conn.slave_config
                matches Some(sc) && sc.port@ == replconf_data(v) && sc.last_cmd_id is None
                && sc.send_output is None && sc.bytes_offset == 0)
        } else if t == "GETACK"@ {
            match pre_conn.slave_config {
                Some(sc) => r == spec_encode(
                    SpecResp::Array(
                        seq![
                            SpecResp::BulkString(seq![82u8, 69, 80, 76, 67, 79, 78, 70]),
                            SpecResp::BulkString(seq![65u8, 67, 75]),
                            SpecResp::BulkString(udec_repr(sc.bytes_offset as int)),
                        ],
                    ),
                ) && (post_conn.slave_config matches Some(sc2) && sc2.port == sc.port
                    && sc2.last_cmd_id == sc.last_cmd_id && sc2.send_output == Some(true)
                    && sc2.bytes_offset == sc.bytes_offset),
                None => r == spec_encode(SpecResp::SimpleError(getack_err_msg()))
                    && post_conn.slave_config is None,
            }
        } else {
            r == spec_encode(SpecResp::SimpleString(ok_msg())) && post_conn.slave_config
                == pre_conn.slave_config
        }
    })
    &&& (g11 ==> post_store == pre_store && post_queue == pre_queue && conn_same_but_replica(
        pre_conn,
        post_conn,
    ) && post_conn.slave_config == pre_conn.slave_config && post_conn.send_rdb_file && r
        == spec_encode(
        SpecResp::SimpleString(vstd::utf8::encode_utf8(fullresync_chars(pre_conn.server_config))),
    ))
    &&& (unmatched ==> r == spec_encode(SpecResp::SimpleError(notfound_msg())) && post_store
        == pre_store && post_queue == pre_queue && post_conn == pre_conn)
}

impl Psync {
    /// Recognizes PSYNC.
    pub fn recognize(cmd: &RESPDatatypes) -> (r: bool)
        ensures
            r == is_psync_cmd(cmd@),
    {
        match cmd {
            RESPDatatypes::Array(items) => {
                proof {
                    lemma_view_items_index(*items, 0);
                }
                if items.len() != 3 {
                    return false;
                }
                let lit: &[u8] = &[112u8, 115u8, 121u8, 110u8, 99u8];
                proof {
                    assert(lower_seq(lit@) =~= verb_psync());
                }
                check_bulk_verb(&items[0], lit)
            },
            _ => false,
        }
    }
}

/// Appends the decimal text of `n`, with a minus sign when negative.
fn push_int_chars(n: i64, out: &mut String)
    ensures
        final(out)@ == old(out)@ + int_chars(n as int),
{
    if n >= 0 {
        crate::config::push_udec_chars(n as u64, out);
    } else {
        proof {
            reveal_strlit("-");
        }
        out.append("-");
        let mag: u64 = (-(n as i128)) as u64;
        crate::config::push_udec_chars(mag, out);
        proof {
            assert(out@ =~= old(out)@ + int_chars(n as int));
        }
    }
}

/// Dispatches one decoded value: the first recognizing command owns
/// it; an unrecognized one is answered with an error.
pub fn run_command(
    cmd: RESPDatatypes,
    store: &mut CacheRepository,
    queue: &mut CmdQueue,
    conn: &mut Connection,
    now: u64,
) -> (r: Vec<u8>)
    requires
        old(store).wf(),
        old(queue).wf(),
    ensures
        dispatch_post(
            cmd@,
            *old(store),
            *final(store),
            *old(queue),
            *final(queue),
            *old(conn),
            *final(conn),
            now,
            r@,
        ),
{
    if Ping::recognize(&cmd) {
        return Ping {  }.get_output().encode();
    }
    match Echo::recognize(&cmd) {
        Some(e) => {
            match e.data {
                Some(d) => {
                    return RESPDatatypes::BufBulk(d).encode();
                },
                None => {
                    return RESPDatatypes::NullString.encode();
                },
            }
        },
        None => {},
    }
    match SetCmd::recognize(&cmd) {
        Some(s) => {
            if conn.is_in_transaction() {
                let qcmd = QueuedCommand::SetOp(s);
                let ghost qv = qc_view(qcmd);
                let ghost pre = *conn;
                conn.add_tnx(qcmd);
                proof {
                    match pre.tnxs {
                        Some(q) => {
                            let q2 = conn.tnxs->Some_0;
                            assert(qs_view(q2@) =~= qs_view(q@).push(qv));
                        },
                        None => {},
                    }
                }
                return reply_simple(&[81u8, 85, 69, 85, 69, 68]);
            }
            return apply_set(store, queue, s, now);
        },
        None => {},
    }
    match Get::recognize(&cmd) {
        Some(g) => {
            if conn.is_in_transaction() {
                let qcmd = QueuedCommand::GetOp(g);
                let ghost qv = qc_view(qcmd);
                let ghost pre = *conn;
                conn.add_tnx(qcmd);
                proof {
                    match pre.tnxs {
                        Some(q) => {
                            let q2 = conn.tnxs->Some_0;
                            assert(qs_view(q2@) =~= qs_view(q@).push(qv));
                        },
                        None => {},
                    }
                }
                return reply_simple(&[81u8, 85, 69, 85, 69, 68]);
            }
            return apply_get(store, &g, now);
        },
        None => {},
    }
    match Incr::recognize(&cmd) {
        Some(inc) => {
            if conn.is_in_transaction() {
                let qcmd = QueuedCommand::IncrOp(inc);
                let ghost qv = qc_view(qcmd);
                let ghost pre = *conn;
                conn.add_tnx(qcmd);
                proof {
                    match pre.tnxs {
                        Some(q) => {
                            let q2 = conn.tnxs->Some_0;
                            assert(qs_view(q2@) =~= qs_view(q@).push(qv));
                        },
                        None => {},
                    }
                }
                return reply_simple(&[81u8, 85, 69, 85, 69, 68]);
            }
            return apply_incr(store, queue, inc, now);
        },
        None => {},
    }
    let multi_lit: &[u8] = &[109u8, 117u8, 108u8, 116u8, 105u8];
    proof {
        assert(lower_seq(multi_lit@) =~= verb_multi());
    }
    if recognize_one_word(&cmd, multi_lit) {
        conn.enable_transaction();
        return reply_simple(&[79u8, 75u8]);
    }
    let exec_lit: &[u8] = &[101u8, 120u8, 101u8, 99u8];
    proof {
        assert(lower_seq(exec_lit@) =~= verb_exec());
    }
    if recognize_one_word(&cmd, exec_lit) {
        if !conn.is_in_transaction() {
            return reply_error(
                &[
                    69u8, 82, 82, 32, 69, 88, 69, 67, 32, 119, 105, 116, 104, 111, 117, 116, 32,
                    77, 85, 76, 84, 73,
                ],
            );
        }
        let ghost pre_store_g = *store;
        let ghost pre_queue_g = *queue;
        let ghost pre_conn_g = *conn;
        let tnx_id = conn.get_id();
        let tnxs_opt = conn.get_tnxs();
        conn.discard_transaction();
        store.set_transaction(tnx_id);
        let ghost s_begin = *store;
        let ghost q_begin = *queue;
        proof {
            assert(s_begin =~= CacheRepository {
                repo: pre_store_g.repo,
                expiry_map: pre_store_g.expiry_map,
                curr_transaction_id: Some(pre_conn_g.id),
            });
            assert(q_begin == pre_queue_g);
        }
        let mut tnxs: Vec<QueuedCommand> = match tnxs_opt {
            Some(t) => t,
            None => Vec::new(),
        };
        let ghost orig_cmds = qs_view(tnxs@);
        let mut results: Vec<RESPDatatypes> = Vec::new();
        proof {
            assert(view_items(results, 0) =~= Seq::<SpecResp>::empty());
        }
        while tnxs.len() > 0
            invariant
                store.wf(),
                queue.wf(),
                store.curr_transaction_id == s_begin.curr_transaction_id,
                forall|s2: CacheRepository, q2: CmdQueue, rest: Seq<SpecResp>|
                    exec_fold(qs_view(tnxs@), *store, *queue, now, s2, q2, rest)
                        ==> #[trigger] exec_fold(
                        orig_cmds,
                        s_begin,
                        q_begin,
                        now,
                        s2,
                        q2,
                        view_items(results, 0) + rest,
                    ),
            decreases tnxs@.len(),
        {
            let ghost tnxs_before = tnxs@;
            let ghost s_prev = *store;
            let ghost q_prev = *queue;
            let ghost views_before = view_items(results, 0);
            let qc = tnxs.remove(0);
            let ghost qv = qc_view(qc);
            proof {
                assert(tnxs@ =~= tnxs_before.skip(1));
                assert(qs_view(tnxs_before) =~= seq![qv] + qs_view(tnxs@));
            }
            let rv = execute_queued(qc, store, queue, now);
            let ghost rvv = rv@;
            let ghost results_before = results;
            results.push(rv);
            proof {
                crate::resp::types::lemma_view_items_push(results_before, results, rv);
                assert forall|s2: CacheRepository, q2: CmdQueue, rest: Seq<SpecResp>|
                    exec_fold(qs_view(tnxs@), *store, *queue, now, s2, q2, rest)
                        implies #[trigger] exec_fold(
                    orig_cmds,
                    s_begin,
                    q_begin,
                    now,
                    s2,
                    q2,
                    view_items(results, 0) + rest,
                ) by {
                    let cmds1 = qs_view(tnxs_before);
                    let replies1 = seq![rvv] + rest;
                    assert(rest.len() == qs_view(tnxs@).len()) by {
                        if qs_view(tnxs@).len() > 0 {
                        } else {
                            assert(rest == Seq::<SpecResp>::empty());
                        }
                    }
                    assert(replies1.len() == cmds1.len());
                    assert(cmds1[0] == qv);
                    assert(replies1[0] == rvv);
                    assert(cmds1.skip(1) =~= qs_view(tnxs@));
                    assert(replies1.skip(1) =~= rest);
                    assert(queued_step(cmds1[0], s_prev, q_prev, now, *store, *queue, replies1[0]));
                    assert(exec_fold(cmds1.skip(1), *store, *queue, now, s2, q2, replies1.skip(1)));
                    assert(exec_fold(cmds1, s_prev, q_prev, now, s2, q2, replies1));
                    assert(exec_fold(
                        orig_cmds,
                        s_begin,
                        q_begin,
                        now,
                        s2,
                        q2,
                        views_before + replies1,
                    ));
                    assert(views_before + replies1 =~= view_items(results, 0) + rest);
                }
            }
        }
        let ghost s_mid_g = *store;
        store.unset_transaction();
        proof {
            lemma_view_items_index(results, 0);
        }
        let ghost elems = view_items(results, 0);
        let out = RESPDatatypes::Array(results).encode();
        proof {
            assert(qs_view(tnxs@) =~= Seq::<QueuedV>::empty());
            assert(exec_fold(qs_view(tnxs@), s_mid_g, *queue, now, s_mid_g, *queue,
                Seq::<SpecResp>::empty()));
            assert(exec_fold(orig_cmds, s_begin, q_begin, now, s_mid_g, *queue, elems
                + Seq::<SpecResp>::empty()));
            assert(elems + Seq::<SpecResp>::empty() =~= elems);
            assert(s_mid_g =~= CacheRepository {
                repo: store.repo,
                expiry_map: store.expiry_map,
                curr_transaction_id: Some(pre_conn_g.id),
            });
            assert(s_begin == CacheRepository {
                repo: pre_store_g.repo,
                expiry_map: pre_store_g.expiry_map,
                curr_transaction_id: Some(pre_conn_g.id),
            });
            match pre_conn_g.tnxs {
                Some(q) => {
                    assert(orig_cmds =~= qs_view(q@));
                },
                None => {
                    assert(orig_cmds =~= Seq::<QueuedV>::empty());
                },
            }
            assert(out@ == spec_encode(SpecResp::Array(elems)));
        }
        return out;
    }
    let discard_lit: &[u8] = &[100u8, 105u8, 115u8, 99u8, 97u8, 114u8, 100u8];
    proof {
        assert(lower_seq(discard_lit@) =~= verb_discard());
    }
    if recognize_one_word(&cmd, discard_lit) {
        if conn.is_in_transaction() {
            conn.discard_transaction();
            return reply_simple(&[79u8, 75u8]);
        }
        return reply_error(
            &[
                69u8, 82, 82, 32, 68, 73, 83, 67, 65, 82, 68, 32, 119, 105, 116, 104, 111, 117,
                116, 32, 77, 85, 76, 84, 73,
            ],
        );
    }
    match Info::recognize(&cmd) {
        Some(info) => {
            let replit: &[u8] = &[114u8, 101, 112, 108, 105, 99, 97, 116, 105, 111, 110];
            proof {
                assert(replit@ =~= replication_sub());
            }
            if crate::ascii::bytes_eq(info.sub_command.as_slice(), replit) {
                let sec = conn.server_config.replication_config.section_string();
                let bytes = sec.as_str().as_bytes_vec();
                return RESPDatatypes::BulkString(bytes).encode();
            }
            return reply_simple(&[79u8, 75u8]);
        },
        None => {},
    }
    match ReplConf::recognize(&cmd) {
        Some(rc) => {
            let lp = String::from_str("listening-port");
            if rc.conf_type.eq(&lp) {
                conn.slave_config = Some(
                    SlaveConfig {
                        port: rc.conf_data,
                        exp: now,
                        last_cmd_id: None,
                        send_output: None,
                        bytes_offset: 0,
                    },
                );
                return reply_simple(&[79u8, 75u8]);
            }
            let ga = String::from_str("GETACK");
            if rc.conf_type.eq(&ga) {
                let offset: u16 = match &mut conn.slave_config {
                    Some(sc) => {
                        sc.send_output = Some(true);
                        sc.bytes_offset
                    },
                    None => {
                        return reply_error(
                            &[
                                69u8, 82, 82, 32, 71, 69, 84, 65, 67, 75, 32, 119, 105, 116, 104,
                                111, 117, 116, 32, 82, 69, 80, 76, 67, 79, 78, 70,
                            ],
                        );
                    },
                };
                let mut parts: Vec<RESPDatatypes> = Vec::new();
                let w1 = vstd::slice::slice_to_vec(&[82u8, 69, 80, 76, 67, 79, 78, 70]);
                let w2 = vstd::slice::slice_to_vec(&[65u8, 67, 75]);
                let mut w3: Vec<u8> = Vec::new();
                push_udec(offset as u64, &mut w3);
                parts.push(RESPDatatypes::BulkString(w1));
                parts.push(RESPDatatypes::BulkString(w2));
                parts.push(RESPDatatypes::BulkString(w3));
                proof {
                    lemma_view_items_index(parts, 0);
                    assert(parts@[0]@ == SpecResp::BulkString(seq![82u8, 69, 80, 76, 67, 79, 78, 70]))
                        by {
                        assert(parts@[0]@->BulkString_0 =~= seq![82u8, 69, 80, 76, 67, 79, 78, 70]);
                    }
                    assert(parts@[1]@ == SpecResp::BulkString(seq![65u8, 67, 75])) by {
                        assert(parts@[1]@->BulkString_0 =~= seq![65u8, 67, 75]);
                    }
                    assert(parts@[2]@ == SpecResp::BulkString(udec_repr(offset as int))) by {
                        assert(parts@[2]@->BulkString_0 =~= udec_repr(offset as int));
                    }
                    assert(view_items(parts, 0) =~= seq![
                        SpecResp::BulkString(seq![82u8, 69, 80, 76, 67, 79, 78, 70]),
                        SpecResp::BulkString(seq![65u8, 67, 75]),
                        SpecResp::BulkString(udec_repr(offset as int)),
                    ]);
                }
                return RESPDatatypes::Array(parts).encode();
            }
            return reply_simple(&[79u8, 75u8]);
        },
        None => {},
    }
    if Psync::recognize(&cmd) {
        conn.send_rdb_file = true;
        let mut out = String::from_str("FULLRESYNC ");
        match &conn.server_config.replication_config.master_repl_id {
            Some(id) => out.append(id.as_str()),
            None => out.append("8371b4fb1155b71f4a04d3e1bc3e18c4a990aeeb"),
        }
        out.append(" ");
        let off: i32 = match conn.server_config.replication_config.master_repl_offset {
            Some(o) => o,
            None => 0,
        };
        push_int_chars(off as i64, &mut out);
        let bytes = out.as_str().as_bytes_vec();
        return RESPDatatypes::SimpleString(bytes).encode();
    }
    reply_error(
        &[99u8, 111, 109, 109, 97, 110, 100, 32, 110, 111, 116, 32, 102, 111, 117, 110, 100],
    )
}

/// Takes one value off the buffer and dispatches it: an empty or
/// incomplete buffer reads as no reply, a malformed one as an error
/// reply.
pub fn run(
    input: &mut Vec<u8>,
    store: &mut CacheRepository,
    queue: &mut CmdQueue,
    conn: &mut Connection,
    now: u64,
) -> (r: Vec<u8>)
    requires
        old(store).wf(),
        old(queue).wf(),
    ensures
        match crate::resp::deserialize::spec_decode(old(input)@) {
            crate::resp::deserialize::SpecDecode::Val(v, c) => final(input)@ == old(input)@.skip(c)
                && dispatch_post(
                v,
                *old(store),
                *final(store),
                *old(queue),
                *final(queue),
                *old(conn),
                *final(conn),
                now,
                r@,
            ),
            crate::resp::deserialize::SpecDecode::More => {
                &&& final(input)@ == old(input)@
                &&& r@ == Seq::<u8>::empty()
                &&& *final(store) == *old(store)
                &&& *final(queue) == *old(queue)
                &&& *final(conn) == *old(conn)
            },
            crate::resp::deserialize::SpecDecode::Bad => {
                &&& final(input)@ == old(input)@
                &&& r@ == spec_encode(SpecResp::SimpleError(crate::errors::invalid_input_msg()))
                &&& *final(store) == *old(store)
                &&& *final(queue) == *old(queue)
                &&& *final(conn) == *old(conn)
            },
        },
{
    let dslz = crate::resp::deserialize::Deseralize;
    match dslz.deseralize(input) {
        Ok(cmd) => run_command(cmd, store, queue, conn, now),
        Err(crate::errors::RespError::UnexpectedEof) => Vec::new(),
        Err(crate::errors::RespError::NeedMore) => Vec::new(),
        Err(crate::errors::RespError::InvalidInput) => {
            let msg = crate::errors::RespError::invalid_input_message();
            RESPDatatypes::SimpleError(msg).encode()
        },
    }
}

} // verus!
