//! The replication journal: an ordered queue of write-command bytes
//! with strictly increasing ids and non-decreasing admission
//! instants. Replicas read it through a cursor; a sweeper drops
//! entries older than a retention window.

use vstd::prelude::*;

verus! {

/// One journal entry: an id, the command bytes, and the admission
/// instant in monotonic milliseconds.
pub struct Node {
    pub id: u128,
    pub cmd: Vec<u8>,
    pub ins: u64,
}

/// Ghost mirror of a journal entry.
pub struct NodeV {
    pub id: u128,
    pub cmd: Seq<u8>,
    pub ins: u64,
}

impl View for Node {
    type V = NodeV;

    open spec fn view(&self) -> NodeV {
        NodeV { id: self.id, cmd: self.cmd@, ins: self.ins }
    }
}

/// Relies on `ulid::Ulid::generate` for a fresh 128-bit id; nothing
/// is assumed of its value, the queue orders ids itself.
#[verifier::external_body]
fn generate_ulid() -> (r: u128) {
    ulid::Ulid::generate().0
}

impl Node {
    /// A fresh entry admitted at `now_ms`, under a newly drawn id.
    pub fn new(cmd: Vec<u8>, now_ms: u64) -> (r: Node)
        ensures
            r.cmd@ == cmd@,
            r.ins == now_ms,
    {
        let id = generate_ulid();
        Node { id, cmd, ins: now_ms }
    }

    /// The entry has left the retention window of `retention_ms`
    /// milliseconds as of instant `now_ms`.
    pub fn has_expired(&self, now_ms: u64, retention_ms: u64) -> (r: bool)
        ensures
            r == (self.ins + retention_ms < now_ms),
    {
        now_ms > retention_ms && self.ins < now_ms - retention_ms
    }
}

/// The ghost mirrors of the queue's entries.
pub open spec fn nodes_view(v: Vec<Node>) -> Seq<NodeV> {
    Seq::new(v@.len(), |i: int| v[i]@)
}

/// The ghost mirrors of a vector of command byte strings.
pub open spec fn cmds_view(v: Vec<Vec<u8>>) -> Seq<Seq<u8>> {
    Seq::new(v@.len(), |i: int| v[i]@)
}

/// Ids strictly increase and admission instants never decrease along
/// the queue.
pub open spec fn queue_sorted(s: Seq<NodeV>) -> bool {
    forall|i: int, j: int|
        0 <= i < j < s.len() ==> (#[trigger] s[i]).id < (#[trigger] s[j]).id && s[i].ins
            <= s[j].ins
}

/// What a cursor read returns: nothing from an empty journal;
/// otherwise the commands of the entries strictly after the cursor,
/// in order, and the cursor to use next.
pub open spec fn read_after_post(
    q: Seq<NodeV>,
    id: Option<u128>,
    r: Option<(u128, Vec<Vec<u8>>)>,
) -> bool {
    match r {
        None => q.len() == 0,
        Some((cursor, cmds)) => {
            &&& q.len() > 0
            &&& exists|k: int|
                {
                    &&& 0 <= k <= q.len()
                    &&& (forall|i: int|
                        0 <= i < k ==> (id matches Some(c) && (#[trigger] q[i]).id <= c))
                    &&& (k < q.len() ==> (id matches Some(c) ==> q[k].id > c))
                    &&& cmds_view(cmds) =~= q.subrange(k, q.len() as int).map_values(
                        |n: NodeV| n.cmd,
                    )
                    &&& cursor == if k < q.len() {
                        q.last().id
                    } else {
                        id->Some_0
                    }
                }
        },
    }
}

/// The replication journal.
#[verifier::ext_equal]
pub struct CmdQueue {
    pub queue: Vec<Node>,
}

impl CmdQueue {
    /// The ghost queue.
    pub open spec fn entries(&self) -> Seq<NodeV> {
        nodes_view(self.queue)
    }

    /// The queue's invariant.
    pub open spec fn wf(&self) -> bool {
        queue_sorted(self.entries())
    }

    /// An empty journal.
    pub fn new() -> (r: Self)
        ensures
            r.wf(),
            r.entries().len() == 0,
    {
        let r = CmdQueue { queue: Vec::new() };
        proof {
            assert(r.entries() =~= Seq::<NodeV>::empty());
        }
        r
    }

    /// Appends a command under a fresh id, clamped above the current
    /// tail so ids and instants stay monotonic. Fails only in the
    /// unreachable case that the tail id is already the largest
    /// possible one.
    pub fn add(&mut self, cmd: Vec<u8>, now_ms: u64) -> (added: bool)
        requires
            old(self).wf(),
        ensures
            final(self).wf(),
            added ==> final(self).entries().len() == old(self).entries().len() + 1
                && final(self).entries().last().cmd == cmd@ && (forall|i: int|
                0 <= i < old(self).entries().len() ==> (#[trigger] final(self).entries()[i]) == old(
                    self,
                ).entries()[i]) && final(self).entries().last().ins >= now_ms,
            !added ==> final(self).entries() == old(self).entries() && old(self).entries().len()
                > 0 && old(self).entries().last().id == u128::MAX,
    {
        let ghost before = self.entries();
        let node = Node::new(cmd, now_ms);
        let n = self.queue.len();
        if n == 0 {
            self.queue.push(node);
            proof {
                assert(self.entries() =~= before.push(node@));
            }
            return true;
        }
        let last_id = self.queue[n - 1].id;
        let last_ins = self.queue[n - 1].ins;
        let mut id = node.id;
        let mut ins = node.ins;
        if id <= last_id {
            if last_id == u128::MAX {
                return false;
            }
            id = last_id + 1;
        }
        if ins < last_ins {
            ins = last_ins;
        }
        let fixed = Node { id, cmd: node.cmd, ins };
        self.queue.push(fixed);
        proof {
            assert(self.entries() =~= before.push(fixed@));
            assert(before[n - 1] == self.entries()[n - 1]);
            assert forall|i: int, j: int|
                0 <= i < j < self.entries().len() implies (#[trigger] self.entries()[i]).id < (
            #[trigger] self.entries()[j]).id && self.entries()[i].ins
                <= self.entries()[j].ins by {
                if j == n {
                    if i < n - 1 {
                        assert(before[i].id < before[n - 1].id && before[i].ins <= before[n
                            - 1].ins);
                    }
                } else {
                    assert(self.entries()[i] == before[i]);
                    assert(self.entries()[j] == before[j]);
                }
            }
        }
        true
    }

    /// Reads every entry strictly after the cursor, in order, with
    /// the cursor to use next. An empty journal reads as nothing; a
    /// cursor at or past the tail reads as no commands and stands
    /// still.
    pub fn get_all_cmds_after_id(&self, id: Option<u128>) -> (r: Option<(u128, Vec<Vec<u8>>)>)
        requires
            self.wf(),
        ensures
            read_after_post(self.entries(), id, r),
    {
        let ghost q = self.entries();
        if self.queue.len() == 0 {
            return None;
        }
        let mut start: usize = 0;
        match id {
            Some(c) => {
                while start < self.queue.len() && self.queue[start].id <= c
                    invariant
                        0 <= start <= q.len(),
                        q == self.entries(),
                        q.len() == self.queue@.len(),
                        forall|i: int| 0 <= i < start ==> (#[trigger] q[i]).id <= c,
                    decreases self.queue@.len() - start,
                {
                    start = start + 1;
                }
            },
            None => {},
        }
        let ghost k = start as int;
        let mut cmds: Vec<Vec<u8>> = Vec::new();
        let mut j: usize = start;
        proof {
            assert(cmds_view(cmds) =~= q.subrange(k, k).map_values(|n: NodeV| n.cmd));
        }
        while j < self.queue.len()
            invariant
                start <= j <= self.queue@.len(),
                q == self.entries(),
                q.len() == self.queue@.len(),
                k == start as int,
                cmds_view(cmds) =~= q.subrange(k, j as int).map_values(|n: NodeV| n.cmd),
            decreases self.queue@.len() - j,
        {
            let entry = &self.queue[j];
            let ghost cmds_before = cmds_view(cmds);
            let copy = crate::ascii::copy_range(&entry.cmd, 0, entry.cmd.len());
            proof {
                assert(copy@ =~= entry.cmd@);
                assert(entry@ == q[j as int]);
            }
            cmds.push(copy);
            proof {
                assert(cmds_view(cmds) =~= cmds_before.push(q[j as int].cmd));
                assert(q.subrange(k, j + 1).map_values(|n: NodeV| n.cmd) =~= q.subrange(
                    k,
                    j as int,
                ).map_values(|n: NodeV| n.cmd).push(q[j as int].cmd));
            }
            j = j + 1;
        }
        let cursor: u128 = if start < self.queue.len() {
            self.queue[self.queue.len() - 1].id
        } else {
            match id {
                Some(c) => c,
                None => 0,
            }
        };
        proof {
            if start < self.queue.len() {
                assert(q.last() == self.queue@[self.queue@.len() - 1]@);
            }
        }
        Some((cursor, cmds))
    }

    /// The front entry exists and has left the retention window.
    fn front_expired(&self, now_ms: u64, retention_ms: u64) -> (r: bool)
        ensures
            r == (self.entries().len() > 0 && self.entries()[0].ins + retention_ms < now_ms),
    {
        if self.queue.len() == 0 {
            false
        } else {
            let e = self.queue[0].has_expired(now_ms, retention_ms);
            proof {
                assert(self.entries()[0] == self.queue@[0]@);
            }
            e
        }
    }

    /// Pops entries off the front while they have left the retention
    /// window: afterwards the queue is the suffix from the first
    /// entry still retained.
    pub fn remove_all_expired_node(&mut self, now_ms: u64, retention_ms: u64)
        requires
            old(self).wf(),
        ensures
            final(self).wf(),
            exists|k: int|
                {
                    &&& 0 <= k <= old(self).entries().len()
                    &&& final(self).entries() =~= old(self).entries().skip(k)
                    &&& (forall|i: int|
                        0 <= i < k ==> (#[trigger] old(self).entries()[i]).ins + retention_ms
                            < now_ms)
                    &&& (k < old(self).entries().len() ==> old(self).entries()[k].ins
                        + retention_ms >= now_ms)
                },
    {
        let ghost q0 = old(self).entries();
        let n0 = self.queue.len();
        let mut removed: usize = 0;
        while self.front_expired(now_ms, retention_ms)
            invariant
                q0.len() == n0,
                0 <= removed <= q0.len(),
                self.entries() =~= q0.skip(removed as int),
                forall|i: int| 0 <= i < removed ==> (#[trigger] q0[i]).ins + retention_ms < now_ms,
            decreases q0.len() - removed,
        {
            let ghost before = self.entries();
            proof {
                assert(before.len() > 0);
                assert(removed < q0.len());
                assert(before[0] == q0[removed as int]);
            }
            self.queue.remove(0);
            proof {
                assert(self.entries() =~= before.skip(1));
                assert(before.skip(1) =~= q0.skip(removed + 1));
            }
            removed = removed + 1;
        }
        proof {
            let ghost k = removed as int;
            let qn = self.entries();
            assert(qn =~= q0.skip(k));
            if k < q0.len() {
                assert(qn[0] == q0[k]);
            }
            assert forall|i: int, j: int|
                0 <= i < j < qn.len() implies (#[trigger] qn[i]).id < (#[trigger] qn[j]).id
                && qn[i].ins <= qn[j].ins by {
                assert(qn[i] == q0[i + k]);
                assert(qn[j] == q0[j + k]);
                assert(q0[i + k].id < q0[j + k].id && q0[i + k].ins <= q0[j + k].ins);
            }
        }
    }
}

} // verus!
