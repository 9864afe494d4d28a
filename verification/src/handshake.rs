//! The replica side of initial sync: the four request frames sent to
//! the primary, in order, and the checks on each reply. Any mismatch
//! is fatal to startup; the caller drives the socket.

use vstd::prelude::*;
use crate::ascii::{bytes_eq, copy_range, parse_i32_spec, parse_i32_range, udec_repr, push_udec};
use crate::resp::types::{lemma_view_items_index, view_items, RESPDatatypes, SpecResp};
use crate::resp::serialize::spec_encode;
use crate::resp::deserialize::bytes_to_string;
use vstd::utf8::{decode_utf8, valid_utf8};

verus! {

/// The four steps of the handshake, in the order they run.
pub enum HandshakeStep {
    Ping,
    ListeningPort,
    Capa,
    Psync,
}

/// The bulk words of each request frame.
pub open spec fn handshake_words(step: HandshakeStep, port: u16) -> Seq<SpecResp> {
    match step {
        HandshakeStep::Ping => seq![SpecResp::BulkString(seq![80u8, 73, 78, 71])],
        HandshakeStep::ListeningPort => seq![
            SpecResp::BulkString(seq![82u8, 69, 80, 76, 67, 79, 78, 70]),
            SpecResp::BulkString(
                seq![108u8, 105, 115, 116, 101, 110, 105, 110, 103, 45, 112, 111, 114, 116],
            ),
            SpecResp::BulkString(udec_repr(port as int)),
        ],
        HandshakeStep::Capa => seq![
            SpecResp::BulkString(seq![82u8, 69, 80, 76, 67, 79, 78, 70]),
            SpecResp::BulkString(seq![99u8, 97, 112, 97]),
            SpecResp::BulkString(seq![112u8, 115, 121, 110, 99]),
        ],
        HandshakeStep::Psync => seq![
            SpecResp::BulkString(seq![80u8, 83, 89, 78, 67]),
            SpecResp::BulkString(seq![63u8]),
            SpecResp::BulkString(seq![45u8, 49]),
        ],
    }
}

/// Builds the request frame one handshake step sends.
pub fn build_handshake_cmd(step: &HandshakeStep, port: u16) -> (r: Vec<u8>)
    ensures
        r@ == spec_encode(SpecResp::Array(handshake_words(*step, port))),
{
    let mut parts: Vec<RESPDatatypes> = Vec::new();
    match step {
        HandshakeStep::Ping => {
            let w = vstd::slice::slice_to_vec(&[80u8, 73, 78, 71]);
            parts.push(RESPDatatypes::BulkString(w));
            proof {
                assert(parts@[0]@->BulkString_0 =~= seq![80u8, 73, 78, 71]);
            }
        },
        HandshakeStep::ListeningPort => {
            let w1 = vstd::slice::slice_to_vec(&[82u8, 69, 80, 76, 67, 79, 78, 70]);
            let w2 = vstd::slice::slice_to_vec(
                &[108u8, 105, 115, 116, 101, 110, 105, 110, 103, 45, 112, 111, 114, 116],
            );
            let mut w3: Vec<u8> = Vec::new();
            push_udec(port as u64, &mut w3);
            parts.push(RESPDatatypes::BulkString(w1));
            parts.push(RESPDatatypes::BulkString(w2));
            parts.push(RESPDatatypes::BulkString(w3));
            proof {
                assert(parts@[0]@->BulkString_0 =~= seq![82u8, 69, 80, 76, 67, 79, 78, 70]);
                assert(parts@[1]@->BulkString_0 =~= seq![108u8, 105, 115, 116, 101, 110, 105, 110,
                    103, 45, 112, 111, 114, 116]);
                assert(parts@[2]@->BulkString_0 =~= udec_repr(port as int));
            }
        },
        HandshakeStep::Capa => {
            let w1 = vstd::slice::slice_to_vec(&[82u8, 69, 80, 76, 67, 79, 78, 70]);
            let w2 = vstd::slice::slice_to_vec(&[99u8, 97, 112, 97]);
            let w3 = vstd::slice::slice_to_vec(&[112u8, 115, 121, 110, 99]);
            parts.push(RESPDatatypes::BulkString(w1));
            parts.push(RESPDatatypes::BulkString(w2));
            parts.push(RESPDatatypes::BulkString(w3));
            proof {
                assert(parts@[0]@->BulkString_0 =~= seq![82u8, 69, 80, 76, 67, 79, 78, 70]);
                assert(parts@[1]@->BulkString_0 =~= seq![99u8, 97, 112, 97]);
                assert(parts@[2]@->BulkString_0 =~= seq![112u8, 115, 121, 110, 99]);
            }
        },
        HandshakeStep::Psync => {
            let w1 = vstd::slice::slice_to_vec(&[80u8, 83, 89, 78, 67]);
            let w2 = vstd::slice::slice_to_vec(&[63u8]);
            let w3 = vstd::slice::slice_to_vec(&[45u8, 49]);
            parts.push(RESPDatatypes::BulkString(w1));
            parts.push(RESPDatatypes::BulkString(w2));
            parts.push(RESPDatatypes::BulkString(w3));
            proof {
                assert(parts@[0]@->BulkString_0 =~= seq![80u8, 83, 89, 78, 67]);
                assert(parts@[1]@->BulkString_0 =~= seq![63u8]);
                assert(parts@[2]@->BulkString_0 =~= seq![45u8, 49]);
            }
        },
    }
    proof {
        lemma_view_items_index(parts, 0);
        assert(view_items(parts, 0) =~= handshake_words(*step, port));
    }
    RESPDatatypes::Array(parts).encode()
}

/// The reply bytes a healthy PING step expects.
pub fn reply_is_pong(reply: &Vec<u8>) -> (r: bool)
    ensures
        r == (reply@ == spec_encode(SpecResp::SimpleString(seq![80u8, 79, 78, 71]))),
{
    let lit: &[u8] = &[43u8, 80, 79, 78, 71, 13, 10];
    let r = bytes_eq(reply.as_slice(), lit);
    proof {
        assert(spec_encode(SpecResp::SimpleString(seq![80u8, 79, 78, 71])) =~= lit@);
    }
    r
}

/// The reply bytes a healthy REPLCONF step expects.
pub fn reply_is_ok(reply: &Vec<u8>) -> (r: bool)
    ensures
        r == (reply@ == spec_encode(SpecResp::SimpleString(seq![79u8, 75]))),
{
    let lit: &[u8] = &[43u8, 79, 75, 13, 10];
    let r = bytes_eq(reply.as_slice(), lit);
    proof {
        assert(spec_encode(SpecResp::SimpleString(seq![79u8, 75])) =~= lit@);
    }
    r
}

/// The leading bytes of a full-resynchronization reply:
/// `+FULLRESYNC `.
pub open spec fn fullresync_prefix() -> Seq<u8> {
    seq![43u8, 70, 85, 76, 76, 82, 69, 83, 89, 78, 67, 32]
}

/// A reply that announces full resynchronization: the prefix, then a
/// replication id up to the first blank, readable as text.
pub open spec fn fullresync_shape(s: Seq<u8>) -> bool {
    &&& s.len() >= 12
    &&& s.subrange(0, 12) == fullresync_prefix()
    &&& exists|sp: int|
        12 <= sp < s.len() && s[sp] == 32 && (forall|j: int|
            12 <= j < sp ==> ((#[trigger] s[j]) != 32 && s[j] != 13)) && valid_utf8(
            s.subrange(12, sp),
        )
}

/// One candidate split of a full-resynchronization reply.
pub open spec fn fullresync_split_at(s: Seq<u8>, sp: int) -> bool {
    12 <= sp < s.len() && s[sp] == 32 && (forall|j: int|
        12 <= j < sp ==> ((#[trigger] s[j]) != 32 && s[j] != 13))
}

/// When the scan hits the end or a CR first, no split exists.
proof fn lemma_no_split(s: Seq<u8>, d: int)
    requires
        12 <= d <= s.len(),
        forall|j: int| 12 <= j < d ==> ((#[trigger] s[j]) != 32 && s[j] != 13),
        d == s.len() || s[d] == 13,
    ensures
        forall|sp: int| !fullresync_split_at(s, sp),
{
    assert forall|sp: int| !fullresync_split_at(s, sp) by {
        if 12 <= sp < s.len() && s[sp] == 32 {
            if sp < d {
                assert(s[sp] != 32);
            } else {
                assert(sp != d);
                assert(d < sp);
                assert(s[d] == 13);
            }
        }
    }
}

/// A split position is unique: it is the first blank.
proof fn lemma_split_unique(s: Seq<u8>, sp: int, sp2: int)
    requires
        fullresync_split_at(s, sp),
        fullresync_split_at(s, sp2),
    ensures
        sp == sp2,
{
    if sp < sp2 {
        assert(s[sp] != 32);
    }
    if sp2 < sp {
        assert(s[sp2] != 32);
    }
}

/// The first token boundary at or after `from`: everything before it
/// is neither blank nor CR, and it is a blank, a CR or the end.
pub open spec fn token_end_at(s: Seq<u8>, from: int, e: int) -> bool {
    &&& from <= e <= s.len()
    &&& (forall|j: int| from <= j < e ==> ((#[trigger] s[j]) != 32 && s[j] != 13))
    &&& (e == s.len() || s[e] == 32 || s[e] == 13)
}

/// Token boundaries are unique.
proof fn lemma_token_end_unique(s: Seq<u8>, from: int, e: int, e2: int)
    requires
        token_end_at(s, from, e),
        token_end_at(s, from, e2),
    ensures
        e == e2,
{
    if e < e2 {
        assert(s[e] != 32 && s[e] != 13);
    }
    if e2 < e {
        assert(s[e2] != 32 && s[e2] != 13);
    }
}

/// Reads a PSYNC reply: the replication id runs to the first blank
/// after the prefix, and the offset is the decimal token after it,
/// or zero when it does not read as one.
#[verifier::loop_isolation(false)]
pub fn parse_fullresync(reply: &Vec<u8>) -> (r: Option<(String, i32)>)
    ensures
        r is Some <==> fullresync_shape(reply@),
        r matches Some((id, off)) ==> (forall|sp: int|
            #[trigger] fullresync_split_at(reply@, sp) ==> id@ == decode_utf8(
                reply@.subrange(12, sp),
            )),
        r matches Some((id, off)) ==> (forall|sp: int, e: int|
            #[trigger] fullresync_split_at(reply@, sp) && #[trigger] token_end_at(
                reply@,
                sp + 1,
                e,
            ) ==> off == (match parse_i32_spec(reply@.subrange(sp + 1, e)) {
                Some(n) => n,
                None => 0i32,
            })),
{
    if reply.len() < 12 {
        return None;
    }
    let head = copy_range(reply, 0, 12);
    let lit: &[u8] = &[43u8, 70, 85, 76, 76, 82, 69, 83, 89, 78, 67, 32];
    proof {
        assert(head@ =~= reply@.subrange(0, 12));
        assert(lit@ =~= fullresync_prefix());
    }
    if !bytes_eq(head.as_slice(), lit) {
        return None;
    }
    let mut sp: usize = 12;
    let mut found = false;
    while sp < reply.len() && !found
        invariant
            12 <= sp <= reply@.len(),
            forall|j: int| 12 <= j < sp ==> ((#[trigger] reply@[j]) != 32 && reply@[j] != 13),
            found ==> sp < reply@.len() && reply@[sp as int] == 32,
        decreases reply@.len() - sp, if found {
            0int
        } else {
            1int
        },
    {
        let b = reply[sp];
        if b == 32 {
            found = true;
        } else if b == 13 {
            proof {
                lemma_no_split(reply@, sp as int);
            }
            return None;
        } else {
            sp = sp + 1;
        }
    }
    if !found {
        proof {
            lemma_no_split(reply@, sp as int);
        }
        return None;
    }
    let idpart = copy_range(reply, 12, sp);
    proof {
        assert(idpart@ =~= reply@.subrange(12, sp as int));
        assert(fullresync_split_at(reply@, sp as int));
    }
    let id = match bytes_to_string(idpart.as_slice()) {
        Ok(s) => s,
        Err(_) => {
            proof {
                assert forall|sp2: int| !(fullresync_split_at(reply@, sp2) && valid_utf8(
                    reply@.subrange(12, sp2),
                )) by {
                    if fullresync_split_at(reply@, sp2) {
                        lemma_split_unique(reply@, sp as int, sp2);
                    }
                }
            }
            return None;
        },
    };
    let start = sp + 1;
    let mut e: usize = start;
    while e < reply.len() && reply[e] != 32 && reply[e] != 13
        invariant
            start <= e <= reply@.len(),
            forall|j: int| start <= j < e ==> ((#[trigger] reply@[j]) != 32 && reply@[j] != 13),
        decreases reply@.len() - e,
    {
        e = e + 1;
    }
    let off: i32 = match parse_i32_range(reply, start, e) {
        Some(n) => n,
        None => 0,
    };
    proof {
        assert(fullresync_shape(reply@));
        assert(token_end_at(reply@, sp + 1, e as int));
        assert forall|sp2: int| #[trigger]
            fullresync_split_at(reply@, sp2) implies id@ == decode_utf8(
            reply@.subrange(12, sp2),
        ) by {
            lemma_split_unique(reply@, sp as int, sp2);
        }
        assert forall|sp2: int, e2: int| #[trigger]
            fullresync_split_at(reply@, sp2) && #[trigger] token_end_at(
            reply@,
            sp2 + 1,
            e2,
        ) implies off == (match parse_i32_spec(reply@.subrange(sp2 + 1, e2)) {
            Some(n) => n,
            None => 0i32,
        }) by {
            lemma_split_unique(reply@, sp as int, sp2);
            lemma_token_end_unique(reply@, sp2 + 1, e as int, e2);
        }
    }
    Some((id, off))
}


/// What one handshake reply means: the step to run next, the learned
/// replication id and offset when the handshake is complete, or a
/// fatal mismatch.
pub enum HandshakeOutcome {
    Proceed(HandshakeStep),
    Done(String, i32),
    Fatal,
}

/// Checks the reply of one handshake step and names what follows it,
/// in the fixed order PING, REPLCONF listening-port, REPLCONF capa,
/// PSYNC. Any reply other than the expected one is fatal.
pub fn check_handshake_reply(step: &HandshakeStep, reply: &Vec<u8>) -> (r: HandshakeOutcome)
    ensures
        match step {
            HandshakeStep::Ping => if reply@ == spec_encode(
                SpecResp::SimpleString(seq![80u8, 79, 78, 71]),
            ) {
                r matches HandshakeOutcome::Proceed(n) && n is ListeningPort
            } else {
                r is Fatal
            },
            HandshakeStep::ListeningPort => if reply@ == spec_encode(
                SpecResp::SimpleString(seq![79u8, 75]),
            ) {
                r matches HandshakeOutcome::Proceed(n) && n is Capa
            } else {
                r is Fatal
            },
            HandshakeStep::Capa => if reply@ == spec_encode(
                SpecResp::SimpleString(seq![79u8, 75]),
            ) {
                r matches HandshakeOutcome::Proceed(n) && n is Psync
            } else {
                r is Fatal
            },
            HandshakeStep::Psync => if fullresync_shape(reply@) {
                r matches HandshakeOutcome::Done(id, off) && (forall|sp: int|
                    #[trigger] fullresync_split_at(reply@, sp) ==> id@ == decode_utf8(
                        reply@.subrange(12, sp),
                    )) && (forall|sp: int, e: int|
                    #[trigger] fullresync_split_at(reply@, sp) && #[trigger] token_end_at(
                        reply@,
                        sp + 1,
                        e,
                    ) ==> off == (match parse_i32_spec(reply@.subrange(sp + 1, e)) {
                        Some(n) => n,
                        None => 0i32,
                    }))
            } else {
                r is Fatal
            },
        },
{
    match step {
        HandshakeStep::Ping => {
            if reply_is_pong(reply) {
                HandshakeOutcome::Proceed(HandshakeStep::ListeningPort)
            } else {
                HandshakeOutcome::Fatal
            }
        },
        HandshakeStep::ListeningPort => {
            if reply_is_ok(reply) {
                HandshakeOutcome::Proceed(HandshakeStep::Capa)
            } else {
                HandshakeOutcome::Fatal
            }
        },
        HandshakeStep::Capa => {
            if reply_is_ok(reply) {
                HandshakeOutcome::Proceed(HandshakeStep::Psync)
            } else {
                HandshakeOutcome::Fatal
            }
        },
        HandshakeStep::Psync => {
            match parse_fullresync(reply) {
                Some((id, off)) => HandshakeOutcome::Done(id, off),
                None => HandshakeOutcome::Fatal,
            }
        },
    }
}

} // verus!
