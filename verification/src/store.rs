//! The keyspace store: a map from string key to byte value with an
//! optional absolute expiry instant, kept in step with an expiry
//! index. Instants are monotonic milliseconds supplied by the caller;
//! a read observes expiry lazily even before a sweep has run.

use vstd::prelude::*;
use crate::errors::RespError;

verus! {

/// One keyspace entry.
pub struct Entry {
    pub key: String,
    pub value: Vec<u8>,
    pub expiry: Option<u64>,
}

/// Ghost mirror of an entry.
pub struct EntryV {
    pub key: Seq<char>,
    pub value: Seq<u8>,
    pub expiry: Option<u64>,
}

impl View for Entry {
    type V = EntryV;

    open spec fn view(&self) -> EntryV {
        EntryV { key: self.key@, value: self.value@, expiry: self.expiry }
    }
}

/// One expiry-index mark: `key` expires at instant `at`.
pub struct ExpiryMark {
    pub at: u64,
    pub key: String,
}

/// Ghost mirror of an index mark.
pub struct MarkV {
    pub at: u64,
    pub key: Seq<char>,
}

impl View for ExpiryMark {
    type V = MarkV;

    open spec fn view(&self) -> MarkV {
        MarkV { at: self.at, key: self.key@ }
    }
}

/// The ghost mirrors of a vector of entries.
pub open spec fn entries_view(v: Vec<Entry>) -> Seq<EntryV> {
    Seq::new(v@.len(), |i: int| v[i]@)
}

/// The ghost mirrors of a vector of index marks.
pub open spec fn marks_view(v: Vec<ExpiryMark>) -> Seq<MarkV> {
    Seq::new(v@.len(), |i: int| v[i]@)
}

/// First entry of `s` whose key reads `k`.
pub open spec fn spec_lookup(s: Seq<EntryV>, k: Seq<char>) -> Option<EntryV>
    decreases s.len(),
{
    if s.len() == 0 {
        None
    } else if s[0].key == k {
        Some(s[0])
    } else {
        spec_lookup(s.skip(1), k)
    }
}

/// `k` is marked in the index as expiring at `t`.
pub open spec fn index_has(index: Seq<MarkV>, k: Seq<char>, t: u64) -> bool {
    exists|j: int| 0 <= j < index.len() && index[j].at == t && (#[trigger] index[j].key) == k
}

/// An entry that a sweep at instant `now` keeps: one with no expiry
/// or an expiry still ahead.
pub open spec fn keeps(e: EntryV, now: u64) -> bool {
    match e.expiry {
        Some(t) => t > now,
        None => true,
    }
}

/// Keys are pairwise distinct.
pub open spec fn unique_keys(s: Seq<EntryV>) -> bool {
    forall|i: int, j: int| 0 <= i < j < s.len() ==> (#[trigger] s[i].key) != (#[trigger] s[j].key)
}

/// Mark keys are pairwise distinct: a key stands in at most one mark.
pub open spec fn unique_mark_keys(s: Seq<MarkV>) -> bool {
    forall|i: int, j: int| 0 <= i < j < s.len() ==> (#[trigger] s[i].key) != (#[trigger] s[j].key)
}

/// Saturating addition of two instants.
pub open spec fn sat_add(a: u64, b: u64) -> u64 {
    if a + b <= u64::MAX {
        (a + b) as u64
    } else {
        u64::MAX
    }
}

/// The keyspace plus its expiry index and the fenced transaction id.
#[verifier::ext_equal]
pub struct CacheRepository {
    pub repo: Vec<Entry>,
    pub expiry_map: Vec<ExpiryMark>,
    pub curr_transaction_id: Option<String>,
}

impl CacheRepository {
    /// The ghost keyspace.
    pub open spec fn entries(&self) -> Seq<EntryV> {
        entries_view(self.repo)
    }

    /// The ghost expiry index.
    pub open spec fn marks(&self) -> Seq<MarkV> {
        marks_view(self.expiry_map)
    }

    /// Well-formedness: keys are unique; each key stands in at most
    /// one index mark; every mark points at an entry with that exact
    /// expiry; every entry with an expiry is marked at it.
    pub open spec fn wf(&self) -> bool {
        &&& unique_keys(self.entries())
        &&& unique_mark_keys(self.marks())
        &&& (forall|j: int|
            0 <= j < self.marks().len() ==> match spec_lookup(
                self.entries(),
                (#[trigger] self.marks()[j]).key,
            ) {
                Some(e) => e.expiry == Some(self.marks()[j].at),
                None => false,
            })
        &&& (forall|i: int|
            0 <= i < self.entries().len() ==> match (#[trigger] self.entries()[i]).expiry {
                Some(t) => index_has(self.marks(), self.entries()[i].key, t),
                None => true,
            })
    }

    /// An empty store.
    pub fn new() -> (r: Self)
        ensures
            r.wf(),
            r.entries().len() == 0,
            r.marks().len() == 0,
            r.curr_transaction_id is None,
    {
        let r = CacheRepository {
            repo: Vec::new(),
            expiry_map: Vec::new(),
            curr_transaction_id: None,
        };
        proof {
            assert(r.entries() =~= Seq::<EntryV>::empty());
            assert(r.marks() =~= Seq::<MarkV>::empty());
        }
        r
    }

    /// Reads a key at instant `now`: the stored bytes, or nothing
    /// when the key is absent or its expiry has passed.
    pub fn get(&self, key: String, now: u64) -> (r: Option<Vec<u8>>)
        ensures
            match spec_lookup(self.entries(), key@) {
                Some(e) => if keeps(e, now) {
                    r matches Some(v) && v@ == e.value
                } else {
                    r is None
                },
                None => r is None,
            },
    {
        match find_key(&self.repo, &key) {
            Some(i) => {
                let hit = &self.repo[i];
                match hit.expiry {
                    Some(t) => {
                        if t <= now {
                            None
                        } else {
                            Some(crate::ascii::copy_range(&hit.value, 0, hit.value.len()))
                        }
                    },
                    None => Some(crate::ascii::copy_range(&hit.value, 0, hit.value.len())),
                }
            },
            None => None,
        }
    }

    /// Upserts a key without expiry; any previous index mark for the
    /// key is dropped.
    pub fn set(&mut self, key: String, buff: Vec<u8>) -> (r: Result<(), RespError>)
        requires
            old(self).wf(),
        ensures
            r is Ok,
            final(self).wf(),
            spec_lookup(final(self).entries(), key@) == Some(
                EntryV { key: key@, value: buff@, expiry: None },
            ),
            forall|k: Seq<char>|
                k != key@ ==> #[trigger] spec_lookup(final(self).entries(), k) == spec_lookup(
                    old(self).entries(),
                    k,
                ),
            forall|k: Seq<char>, t: u64|
                #[trigger] index_has(final(self).marks(), k, t) <==> (index_has(
                    old(self).marks(),
                    k,
                    t,
                ) && k != key@),
            final(self).curr_transaction_id == old(self).curr_transaction_id,
    {
        let ghost old_entries = self.entries();
        let ghost old_marks = self.marks();
        let ghost keyv = key@;
        self.remove_mark(&key);
        let ghost mid_marks = self.marks();
        self.put_entry(key, buff, None);
        proof {
            assert(self.marks() == mid_marks);
            lemma_wf_after_put(
                old_entries,
                old_marks,
                self.entries(),
                self.marks(),
                keyv,
                None,
            );
        }
        Ok(())
    }

    /// Upserts a key with expiry `now + ttl` milliseconds (saturating)
    /// and marks it in the index, dropping any previous mark.
    pub fn set_with_expiry(&mut self, key: String, buff: Vec<u8>, ttl: u64, now: u64) -> (r: Result<
        (),
        RespError,
    >)
        requires
            old(self).wf(),
        ensures
            r is Ok,
            final(self).wf(),
            spec_lookup(final(self).entries(), key@) == Some(
                EntryV { key: key@, value: buff@, expiry: Some(sat_add(now, ttl)) },
            ),
            forall|k: Seq<char>|
                k != key@ ==> #[trigger] spec_lookup(final(self).entries(), k) == spec_lookup(
                    old(self).entries(),
                    k,
                ),
            forall|k: Seq<char>, t: u64|
                #[trigger] index_has(final(self).marks(), k, t) <==> ((index_has(
                    old(self).marks(),
                    k,
                    t,
                ) && k != key@) || (k == key@ && t == sat_add(now, ttl))),
            final(self).curr_transaction_id == old(self).curr_transaction_id,
    {
        let exp: u64 = if now <= u64::MAX - ttl {
            now + ttl
        } else {
            u64::MAX
        };
        let ghost old_entries = self.entries();
        let ghost old_marks = self.marks();
        let ghost keyv = key@;
        self.remove_mark(&key);
        let key2 = clone_string(&key);
        let ghost mid_marks = self.marks();
        self.put_entry(key, buff, Some(exp));
        let ghost pre_marks = self.marks();
        let ghost newmark = MarkV { at: exp, key: key2@ };
        self.expiry_map.push(ExpiryMark { at: exp, key: key2 });
        proof {
            assert(pre_marks == mid_marks);
            let post = self.marks();
            assert(post =~= pre_marks.push(newmark));
            assert forall|k: Seq<char>, t: u64| #[trigger]
                index_has(post, k, t) <==> ((index_has(old_marks, k, t) && k != keyv) || (k == keyv
                && t == exp)) by {
                if index_has(post, k, t) {
                    let j = choose|j: int|
                        0 <= j < post.len() && post[j].at == t && (#[trigger] post[j].key) == k;
                    if j < pre_marks.len() {
                        assert(pre_marks[j].key == k && pre_marks[j].at == t);
                        assert(index_has(pre_marks, k, t));
                    } else {
                        assert(post[j] == newmark);
                    }
                }
                if index_has(old_marks, k, t) && k != keyv {
                    assert(index_has(pre_marks, k, t));
                    let j = choose|j: int|
                        0 <= j < pre_marks.len() && pre_marks[j].at == t && (
                        #[trigger] pre_marks[j].key) == k;
                    assert(post[j].key == k && post[j].at == t);
                }
                if k == keyv && t == exp {
                    assert(post[pre_marks.len() as int] == newmark);
                    assert(post[pre_marks.len() as int].key == k);
                }
            }
            assert forall|a: int, b: int| 0 <= a < b < post.len() implies (
            #[trigger] post[a].key) != (#[trigger] post[b].key) by {
                if b == pre_marks.len() {
                    assert(post[a] == pre_marks[a]);
                    assert(index_has(pre_marks, pre_marks[a].key, pre_marks[a].at)) by {
                        assert(pre_marks[a].at == pre_marks[a].at && pre_marks[a].key
                            == pre_marks[a].key);
                    }
                    assert(pre_marks[a].key != keyv);
                } else {
                    assert(post[a] == pre_marks[a]);
                    assert(post[b] == pre_marks[b]);
                }
            }
            lemma_wf_after_put(
                old_entries,
                old_marks,
                self.entries(),
                post,
                keyv,
                Some(exp),
            );
        }
        Ok(())
    }

    /// Drops every entry whose expiry is at or before `now`, and
    /// every index mark at or before `now`.
    #[verifier::rlimit(100)]
    pub fn actively_remove_expired_keys(&mut self, now: u64)
        requires
            old(self).wf(),
        ensures
            final(self).wf(),
            forall|k: Seq<char>|
                #[trigger] spec_lookup(final(self).entries(), k) == (match spec_lookup(
                    old(self).entries(),
                    k,
                ) {
                    Some(e) => if keeps(e, now) {
                        Some(e)
                    } else {
                        None
                    },
                    None => None::<EntryV>,
                }),
            forall|k: Seq<char>, t: u64|
                #[trigger] index_has(final(self).marks(), k, t) <==> (index_has(
                    old(self).marks(),
                    k,
                    t,
                ) && t > now),
            final(self).curr_transaction_id == old(self).curr_transaction_id,
    {
        let ghost old_entries = self.entries();
        let ghost old_marks = self.marks();
        let mut kept: Vec<Entry> = Vec::new();
        let mut i: usize = 0;
        proof {
            assert(entries_view(kept) =~= sweep_entries(old_entries.take(0), now));
        }
        while i < self.repo.len()
            invariant
                i <= self.repo@.len(),
                self.entries() == old_entries,
                self.repo@.len() == old_entries.len(),
                entries_view(kept) =~= sweep_entries(old_entries.take(i as int), now),
            decreases self.repo@.len() - i,
        {
            let e = &self.repo[i];
            proof {
                assert(e@ == old_entries[i as int]);
                assert(old_entries.take(i + 1).drop_last() =~= old_entries.take(i as int));
                assert(old_entries.take(i + 1).last() == old_entries[i as int]);
            }
            let keep = match e.expiry {
                Some(t) => t > now,
                None => true,
            };
            if keep {
                let ghost kept_before = entries_view(kept);
                let copy = Entry {
                    key: clone_string(&e.key),
                    value: crate::ascii::copy_range(&e.value, 0, e.value.len()),
                    expiry: e.expiry,
                };
                proof {
                    assert(copy.value@ =~= e.value@);
                    assert(copy@ == old_entries[i as int]);
                }
                kept.push(copy);
                proof {
                    assert(entries_view(kept) =~= kept_before.push(old_entries[i as int]));
                }
            }
            i = i + 1;
        }
        proof {
            assert(old_entries.take(old_entries.len() as int) =~= old_entries);
        }
        let mut marks: Vec<ExpiryMark> = Vec::new();
        let mut j: usize = 0;
        proof {
            assert(marks_view(marks) =~= sweep_marks(old_marks.take(0), now));
        }
        while j < self.expiry_map.len()
            invariant
                j <= self.expiry_map@.len(),
                self.marks() == old_marks,
                self.expiry_map@.len() == old_marks.len(),
                marks_view(marks) =~= sweep_marks(old_marks.take(j as int), now),
            decreases self.expiry_map@.len() - j,
        {
            let m = &self.expiry_map[j];
            proof {
                assert(m@ == old_marks[j as int]);
                assert(old_marks.take(j + 1).drop_last() =~= old_marks.take(j as int));
                assert(old_marks.take(j + 1).last() == old_marks[j as int]);
            }
            if m.at > now {
                let ghost marks_before = marks_view(marks);
                marks.push(ExpiryMark { at: m.at, key: clone_string(&m.key) });
                proof {
                    assert(marks_view(marks) =~= marks_before.push(old_marks[j as int]));
                }
            }
            j = j + 1;
        }
        proof {
            assert(old_marks.take(old_marks.len() as int) =~= old_marks);
        }
        self.repo = kept;
        self.expiry_map = marks;
        proof {
            lemma_sweep_wf(old_entries, old_marks, now, self.entries(), self.marks());
        }
    }

    /// Records the transaction id that fences EXEC.
    pub fn set_transaction(&mut self, id: String)
        ensures
            final(self).curr_transaction_id == Some(id),
            final(self).repo == old(self).repo,
            final(self).expiry_map == old(self).expiry_map,
    {
        self.curr_transaction_id = Some(id);
    }

    /// Clears the recorded transaction id.
    pub fn unset_transaction(&mut self)
        ensures
            final(self).curr_transaction_id is None,
            final(self).repo == old(self).repo,
            final(self).expiry_map == old(self).expiry_map,
    {
        self.curr_transaction_id = None;
    }

    /// Reads the recorded transaction id, if any.
    pub fn get_transaction_id(&self) -> (r: Option<String>)
        ensures
            match self.curr_transaction_id {
                Some(id) => r matches Some(s) && s@ == id@,
                None => r is None,
            },
    {
        match &self.curr_transaction_id {
            Some(id) => Some(clone_string(id)),
            None => None,
        }
    }

    /// Removes the index mark carrying `key`, if one exists.
    fn remove_mark(&mut self, key: &String)
        requires
            old(self).wf(),
        ensures
            final(self).repo == old(self).repo,
            final(self).curr_transaction_id == old(self).curr_transaction_id,
            forall|k: Seq<char>, t: u64|
                #[trigger] index_has(final(self).marks(), k, t) <==> (index_has(
                    old(self).marks(),
                    k,
                    t,
                ) && k != key@),
            unique_mark_keys(final(self).marks()),
    {
        let ghost before = self.marks();
        let mut i: usize = 0;
        while i < self.expiry_map.len()
            invariant
                i <= self.expiry_map@.len(),
                self.marks() == before,
                self.expiry_map@.len() == before.len(),
                old(self).wf(),
                before == old(self).marks(),
                self.repo == old(self).repo,
                self.curr_transaction_id == old(self).curr_transaction_id,
                forall|j: int| 0 <= j < i ==> (#[trigger] before[j].key) != key@,
            decreases self.expiry_map@.len() - i,
        {
            proof {
                assert(self.expiry_map@[i as int]@ == before[i as int]);
            }
            if self.expiry_map[i].key.eq(key) {
                self.expiry_map.remove(i);
                proof {
                    let after = self.marks();
                    assert(after =~= before.subrange(0, i as int) + before.subrange(
                        i + 1,
                        before.len() as int,
                    ));
                    assert forall|k: Seq<char>, t: u64| #[trigger]
                        index_has(after, k, t) <==> (index_has(before, k, t) && k != key@) by {
                        if index_has(after, k, t) {
                            let j = choose|j: int|
                                0 <= j < after.len() && after[j].at == t && (
                                #[trigger] after[j].key) == k;
                            if j < i {
                                assert(before[j].at == t && before[j].key == k);
                                assert(k != key@);
                            } else {
                                assert(before[j + 1].at == t && before[j + 1].key == k);
                                assert(before[i as int].key == key@);
                                assert(k != key@);
                            }
                        }
                        if index_has(before, k, t) && k != key@ {
                            let j = choose|j: int|
                                0 <= j < before.len() && before[j].at == t && (
                                #[trigger] before[j].key) == k;
                            assert(j != i);
                            if j < i {
                                assert(after[j].at == t && after[j].key == k);
                            } else {
                                assert(after[j - 1].at == t && after[j - 1].key == k);
                            }
                        }
                    }
                    assert forall|a: int, b: int| 0 <= a < b < after.len() implies (
                    #[trigger] after[a].key) != (#[trigger] after[b].key) by {
                        let a0: int = if a < i {
                            a
                        } else {
                            a + 1
                        };
                        let b0: int = if b < i {
                            b
                        } else {
                            b + 1
                        };
                        assert(after[a].key == before[a0].key);
                        assert(after[b].key == before[b0].key);
                    }
                }
                return ;
            }
            i = i + 1;
        }
        proof {
            assert forall|k: Seq<char>, t: u64| #[trigger]
                index_has(self.marks(), k, t) implies (index_has(old(self).marks(), k, t) && k
                != key@) by {
                let j = choose|j: int|
                    0 <= j < before.len() && before[j].at == t && (#[trigger] before[j].key) == k;
                assert(before[j].key != key@);
            }
        }
    }

    /// Writes or overwrites the entry for `key`, leaving the index
    /// untouched.
    fn put_entry(&mut self, key: String, buff: Vec<u8>, expiry: Option<u64>)
        requires
            unique_keys(old(self).entries()),
        ensures
            final(self).expiry_map == old(self).expiry_map,
            final(self).curr_transaction_id == old(self).curr_transaction_id,
            unique_keys(final(self).entries()),
            spec_lookup(final(self).entries(), key@) == Some(
                EntryV { key: key@, value: buff@, expiry },
            ),
            forall|k: Seq<char>|
                k != key@ ==> #[trigger] spec_lookup(final(self).entries(), k) == spec_lookup(
                    old(self).entries(),
                    k,
                ),
    {
        let ghost before = self.entries();
        let ghost newv = EntryV { key: key@, value: buff@, expiry };
        match find_key(&self.repo, &key) {
            Some(i) => {
                let entry = Entry { key, value: buff, expiry };
                self.repo[i] = entry;
                proof {
                    assert(self.entries() =~= before.update(i as int, newv));
                    lemma_lookup_update(before, i as int, newv);
                }
            },
            None => {
                let entry = Entry { key, value: buff, expiry };
                self.repo.push(entry);
                proof {
                    assert(self.entries() =~= before.push(newv));
                    lemma_lookup_push(before, newv);
                    assert forall|a: int, b: int| 0 <= a < b < self.entries().len() implies (
                    #[trigger] self.entries()[a].key) != (#[trigger] self.entries()[b].key) by {
                        if b == before.len() {
                            lemma_lookup_index(before, newv.key);
                        }
                    }
                }
            },
        }
    }
}

/// Clones a string, keeping its value.
pub fn clone_string(s: &String) -> (r: String)
    ensures
        r == *s,
{
    s.clone()
}

/// Finds the index of the entry carrying `key`.
fn find_key(repo: &Vec<Entry>, key: &String) -> (r: Option<usize>)
    ensures
        match r {
            Some(i) => i < repo@.len() && entries_view(*repo)[i as int].key == key@ && spec_lookup(
                entries_view(*repo),
                key@,
            ) == Some(entries_view(*repo)[i as int]),
            None => spec_lookup(entries_view(*repo), key@) is None,
        },
{
    let ghost s = entries_view(*repo);
    let mut i: usize = 0;
    while i < repo.len()
        invariant
            i <= repo@.len(),
            s == entries_view(*repo),
            s.len() == repo@.len(),
            forall|j: int| 0 <= j < i ==> (#[trigger] s[j].key) != key@,
        decreases repo@.len() - i,
    {
        proof {
            assert(s[i as int] == repo@[i as int]@);
        }
        if repo[i].key.eq(key) {
            proof {
                lemma_lookup_at(s, key@, i as int);
            }
            return Some(i);
        }
        i = i + 1;
    }
    proof {
        lemma_lookup_none(s, key@);
    }
    None
}

proof fn lemma_lookup_at(s: Seq<EntryV>, k: Seq<char>, i: int)
    requires
        0 <= i < s.len(),
        s[i].key == k,
        forall|j: int| 0 <= j < i ==> (#[trigger] s[j].key) != k,
    ensures
        spec_lookup(s, k) == Some(s[i]),
    decreases i,
{
    if i > 0 {
        assert(forall|j: int| 0 <= j < s.len() - 1 ==> s.skip(1)[j] == s[j + 1]);
        lemma_lookup_at(s.skip(1), k, i - 1);
    }
}

proof fn lemma_lookup_none(s: Seq<EntryV>, k: Seq<char>)
    requires
        forall|j: int| 0 <= j < s.len() ==> (#[trigger] s[j].key) != k,
    ensures
        spec_lookup(s, k) is None,
    decreases s.len(),
{
    if s.len() > 0 {
        assert(forall|j: int| 0 <= j < s.len() - 1 ==> s.skip(1)[j] == s[j + 1]);
        lemma_lookup_none(s.skip(1), k);
    }
}

/// A lookup hit sits at some index carrying the key; a miss means no
/// index carries it.
proof fn lemma_lookup_index(s: Seq<EntryV>, k: Seq<char>)
    ensures
        match spec_lookup(s, k) {
            Some(e) => e.key == k && exists|i: int|
                0 <= i < s.len() && (#[trigger] s[i]) == e && s[i].key == k,
            None => forall|i: int| 0 <= i < s.len() ==> (#[trigger] s[i].key) != k,
        },
    decreases s.len(),
{
    if s.len() > 0 {
        if s[0].key == k {
            assert(spec_lookup(s, k) == Some(s[0]));
            assert(exists|i: int| 0 <= i < s.len() && (#[trigger] s[i]) == s[0] && s[i].key == k)
                by {
                assert(0 <= 0 < s.len() && (#[trigger] s[0]) == s[0] && s[0].key == k);
            }
        } else {
            lemma_lookup_index(s.skip(1), k);
            assert(forall|j: int| 0 <= j < s.len() - 1 ==> s.skip(1)[j] == s[j + 1]);
            match spec_lookup(s.skip(1), k) {
                Some(e) => {
                    let i = choose|i: int|
                        0 <= i < s.skip(1).len() && (#[trigger] s.skip(1)[i]) == e
                            && s.skip(1)[i].key == k;
                    assert(s[i + 1] == e && s[i + 1].key == k);
                },
                None => {
                    assert forall|i2: int| 0 <= i2 < s.len() implies (#[trigger] s[i2].key)
                        != k by {
                        if i2 > 0 {
                            assert(s.skip(1)[i2 - 1] == s[i2]);
                            assert(s.skip(1)[i2 - 1].key != k);
                        }
                    }
                },
            }
        }
    }
}

proof fn lemma_lookup_update(s: Seq<EntryV>, i: int, e: EntryV)
    requires
        0 <= i < s.len(),
        s[i].key == e.key,
        unique_keys(s),
    ensures
        spec_lookup(s.update(i, e), e.key) == Some(e),
        forall|k: Seq<char>|
            k != e.key ==> #[trigger] spec_lookup(s.update(i, e), k) == spec_lookup(s, k),
        unique_keys(s.update(i, e)),
{
    let t = s.update(i, e);
    assert(forall|j: int| 0 <= j < s.len() ==> (#[trigger] t[j].key) == s[j].key);
    assert forall|j: int| 0 <= j < i implies (#[trigger] t[j].key) != e.key by {
        assert(s[j].key != s[i].key);
    }
    lemma_lookup_at(t, e.key, i);
    assert forall|k: Seq<char>| k != e.key implies #[trigger] spec_lookup(t, k) == spec_lookup(
        s,
        k,
    ) by {
        lemma_lookup_index(s, k);
        lemma_lookup_index(t, k);
        match spec_lookup(s, k) {
            Some(se) => {
                let a = choose|a: int| 0 <= a < s.len() && (#[trigger] s[a]) == se && s[a].key == k;
                assert(a != i);
                assert(t[a] == se);
                assert forall|j: int| 0 <= j < a implies (#[trigger] t[j].key) != k by {
                    if j == i {
                    } else {
                        if s[j].key == k {
                            assert(s[j].key == s[a].key);
                            assert(false);
                        }
                    }
                }
                lemma_lookup_at(t, k, a);
            },
            None => {
                match spec_lookup(t, k) {
                    Some(te) => {
                        let b = choose|b: int|
                            0 <= b < t.len() && (#[trigger] t[b]) == te && t[b].key == k;
                        assert(b != i);
                        assert(s[b].key == k);
                        assert(false);
                    },
                    None => {},
                }
            },
        }
    }
}

proof fn lemma_lookup_push(s: Seq<EntryV>, e: EntryV)
    requires
        spec_lookup(s, e.key) is None,
    ensures
        spec_lookup(s.push(e), e.key) == Some(e),
        forall|k: Seq<char>|
            k != e.key ==> #[trigger] spec_lookup(s.push(e), k) == spec_lookup(s, k),
    decreases s.len(),
{
    if s.len() == 0 {
        assert(s.push(e)[0] == e);
        assert forall|k: Seq<char>| k != e.key implies #[trigger] spec_lookup(s.push(e), k)
            == spec_lookup(s, k) by {
            assert(s.push(e).skip(1) =~= Seq::<EntryV>::empty());
            assert(s.push(e)[0].key != k);
            assert(spec_lookup(s.push(e), k) == spec_lookup(s.push(e).skip(1), k));
            assert(spec_lookup(Seq::<EntryV>::empty(), k) is None);
            assert(spec_lookup(s, k) is None);
        }
    } else {
        assert(s.push(e).skip(1) =~= s.skip(1).push(e));
        lemma_lookup_push(s.skip(1), e);
        assert(s.push(e)[0] == s[0]);
        assert forall|k: Seq<char>| k != e.key implies #[trigger] spec_lookup(s.push(e), k)
            == spec_lookup(s, k) by {
            if s[0].key == k {
                assert(spec_lookup(s.push(e), k) == Some(s.push(e)[0]));
                assert(spec_lookup(s, k) == Some(s[0]));
            } else {
                assert(s.push(e).skip(1) =~= s.skip(1).push(e));
                assert(spec_lookup(s.push(e), k) == spec_lookup(s.push(e).skip(1), k));
                assert(spec_lookup(s.push(e).skip(1), k) == spec_lookup(s.skip(1).push(e), k));
                assert(spec_lookup(s.skip(1).push(e), k) == spec_lookup(s.skip(1), k));
                assert(spec_lookup(s, k) == spec_lookup(s.skip(1), k));
            }
        }
    }
}

/// With unique keys, the entry at any index is what a lookup of its
/// key finds.
proof fn lemma_lookup_unique(s: Seq<EntryV>, i: int)
    requires
        unique_keys(s),
        0 <= i < s.len(),
    ensures
        spec_lookup(s, s[i].key) == Some(s[i]),
{
    assert forall|j: int| 0 <= j < i implies (#[trigger] s[j].key) != s[i].key by {
        assert(s[j].key != s[i].key);
    }
    lemma_lookup_at(s, s[i].key, i);
}

/// After an upsert of `key` the store is well-formed again: the
/// index still matches the keyspace on both sides.
proof fn lemma_wf_after_put(
    old_entries: Seq<EntryV>,
    old_marks: Seq<MarkV>,
    new_entries: Seq<EntryV>,
    new_marks: Seq<MarkV>,
    key: Seq<char>,
    mexp: Option<u64>,
)
    requires
        unique_keys(old_entries),
        unique_mark_keys(old_marks),
        forall|j: int|
            0 <= j < old_marks.len() ==> match spec_lookup(
                old_entries,
                (#[trigger] old_marks[j]).key,
            ) {
                Some(e) => e.expiry == Some(old_marks[j].at),
                None => false,
            },
        forall|i: int|
            0 <= i < old_entries.len() ==> match (#[trigger] old_entries[i]).expiry {
                Some(t) => index_has(old_marks, old_entries[i].key, t),
                None => true,
            },
        unique_keys(new_entries),
        unique_mark_keys(new_marks),
        match spec_lookup(new_entries, key) {
            Some(e) => e.key == key && e.expiry == mexp,
            None => false,
        },
        forall|k: Seq<char>|
            k != key ==> #[trigger] spec_lookup(new_entries, k) == spec_lookup(old_entries, k),
        forall|k: Seq<char>, t: u64|
            #[trigger] index_has(new_marks, k, t) <==> ((index_has(old_marks, k, t) && k != key)
                || (k == key && mexp == Some(t))),
    ensures
        forall|j: int|
            0 <= j < new_marks.len() ==> match spec_lookup(
                new_entries,
                (#[trigger] new_marks[j]).key,
            ) {
                Some(e) => e.expiry == Some(new_marks[j].at),
                None => false,
            },
        forall|i: int|
            0 <= i < new_entries.len() ==> match (#[trigger] new_entries[i]).expiry {
                Some(t) => index_has(new_marks, new_entries[i].key, t),
                None => true,
            },
{
    assert forall|j: int| 0 <= j < new_marks.len() implies match spec_lookup(
        new_entries,
        (#[trigger] new_marks[j]).key,
    ) {
        Some(e) => e.expiry == Some(new_marks[j].at),
        None => false,
    } by {
        let m = new_marks[j];
        assert(index_has(new_marks, m.key, m.at));
        if m.key == key {
            assert(mexp == Some(m.at));
        } else {
            assert(index_has(old_marks, m.key, m.at));
            let j0 = choose|j0: int|
                0 <= j0 < old_marks.len() && old_marks[j0].at == m.at && (
                #[trigger] old_marks[j0].key) == m.key;
            assert(match spec_lookup(old_entries, old_marks[j0].key) {
                Some(e) => e.expiry == Some(old_marks[j0].at),
                None => false,
            });
            assert(spec_lookup(new_entries, m.key) == spec_lookup(old_entries, m.key));
        }
    }
    assert forall|i: int| 0 <= i < new_entries.len() implies match (
    #[trigger] new_entries[i]).expiry {
        Some(t) => index_has(new_marks, new_entries[i].key, t),
        None => true,
    } by {
        let e = new_entries[i];
        lemma_lookup_unique(new_entries, i);
        if e.key == key {
            assert(spec_lookup(new_entries, key) == Some(e));
            match e.expiry {
                Some(t) => {
                    assert(mexp == Some(t));
                    assert(index_has(new_marks, key, t));
                },
                None => {},
            }
        } else {
            assert(spec_lookup(old_entries, e.key) == Some(e));
            lemma_lookup_index(old_entries, e.key);
            let oi = choose|oi: int|
                0 <= oi < old_entries.len() && (#[trigger] old_entries[oi]) == e
                    && old_entries[oi].key == e.key;
            assert(match old_entries[oi].expiry {
                Some(t) => index_has(old_marks, old_entries[oi].key, t),
                None => true,
            });
            match e.expiry {
                Some(t) => {
                    assert(index_has(old_marks, e.key, t));
                    assert(index_has(new_marks, e.key, t));
                },
                None => {},
            }
        }
    }
}

/// The entries a sweep keeps, in order.
pub open spec fn sweep_entries(s: Seq<EntryV>, now: u64) -> Seq<EntryV>
    decreases s.len(),
{
    if s.len() == 0 {
        Seq::<EntryV>::empty()
    } else {
        sweep_entries(s.drop_last(), now) + (if keeps(s.last(), now) {
            seq![s.last()]
        } else {
            Seq::<EntryV>::empty()
        })
    }
}

/// The index marks a sweep keeps, in order.
pub open spec fn sweep_marks(s: Seq<MarkV>, now: u64) -> Seq<MarkV>
    decreases s.len(),
{
    if s.len() == 0 {
        Seq::<MarkV>::empty()
    } else {
        sweep_marks(s.drop_last(), now) + (if s.last().at > now {
            seq![s.last()]
        } else {
            Seq::<MarkV>::empty()
        })
    }
}

/// Every kept entry is a surviving old entry, and the other way
/// round.
proof fn lemma_sweep_entries_props(s: Seq<EntryV>, now: u64)
    requires
        unique_keys(s),
    ensures
        forall|j: int|
            0 <= j < sweep_entries(s, now).len() ==> keeps(#[trigger] sweep_entries(s, now)[j], now)
                && exists|i: int| 0 <= i < s.len() && (#[trigger] s[i]) == sweep_entries(s, now)[j],
        forall|i: int|
            0 <= i < s.len() && keeps(#[trigger] s[i], now) ==> exists|j: int|
                0 <= j < sweep_entries(s, now).len() && (#[trigger] sweep_entries(s, now)[j])
                    == s[i],
    decreases s.len(),
{
    if s.len() > 0 {
        assert(unique_keys(s.drop_last())) by {
            assert(forall|j: int| 0 <= j < s.len() - 1 ==> s.drop_last()[j] == s[j]);
        }
        lemma_sweep_entries_props(s.drop_last(), now);
        let t = sweep_entries(s, now);
        let t0 = sweep_entries(s.drop_last(), now);
        assert forall|j: int| 0 <= j < t.len() implies keeps(#[trigger] t[j], now) && exists|i: int|
            0 <= i < s.len() && (#[trigger] s[i]) == t[j] by {
            if j < t0.len() {
                assert(t[j] == t0[j]);
                let i = choose|i: int| 0 <= i < s.drop_last().len() && (#[trigger] s.drop_last()[i])
                    == t0[j];
                assert(s[i] == t[j]);
            } else {
                assert(t[j] == s.last());
                assert(s[s.len() - 1] == t[j]);
            }
        }
        assert forall|i: int| 0 <= i < s.len() && keeps(#[trigger] s[i], now) implies exists|j: int|
            0 <= j < t.len() && (#[trigger] t[j]) == s[i] by {
            if i < s.len() - 1 {
                assert(s.drop_last()[i] == s[i]);
                let j = choose|j: int| 0 <= j < t0.len() && (#[trigger] t0[j]) == s.drop_last()[i];
                assert(t[j] == s[i]);
            } else {
                assert(t[t.len() - 1] == s[i]);
            }
        }
    }
}

/// A sweep of a unique-keyed sequence keeps keys unique, and every
/// kept key comes from the old sequence.
proof fn lemma_sweep_entries_unique(s: Seq<EntryV>, now: u64)
    requires
        unique_keys(s),
    ensures
        unique_keys(sweep_entries(s, now)),
        forall|j: int|
            0 <= j < sweep_entries(s, now).len() ==> exists|i: int|
                0 <= i < s.len() && (#[trigger] sweep_entries(s, now)[j]).key == s[i].key,
    decreases s.len(),
{
    if s.len() == 0 {
    } else {
        assert(unique_keys(s.drop_last())) by {
            assert(forall|j: int| 0 <= j < s.len() - 1 ==> s.drop_last()[j] == s[j]);
        }
        lemma_sweep_entries_unique(s.drop_last(), now);
        let t = sweep_entries(s, now);
        let t0 = sweep_entries(s.drop_last(), now);
        assert(forall|j: int| 0 <= j < s.len() - 1 ==> s.drop_last()[j] == s[j]);
        assert forall|j: int| 0 <= j < t.len() implies exists|i: int|
            0 <= i < s.len() && (#[trigger] t[j]).key == s[i].key by {
            if j < t0.len() {
                assert(t[j] == t0[j]);
                let i = choose|i: int|
                    0 <= i < s.drop_last().len() && (#[trigger] t0[j]).key == s.drop_last()[i].key;
                assert(t[j].key == s[i].key);
            } else {
                assert(t[j] == s.last());
                assert(t[j].key == s[s.len() - 1].key);
            }
        }
        assert forall|a: int| 0 <= a < t0.len() implies (#[trigger] t0[a]).key
            != s.last().key by {
            let i = choose|i: int|
                0 <= i < s.drop_last().len() && (#[trigger] t0[a]).key == s.drop_last()[i].key;
            assert(t0[a].key == s[i].key);
            assert(s[i].key != s[s.len() - 1].key);
        }
        assert forall|a: int, b: int| 0 <= a < b < t.len() implies (#[trigger] t[a].key) != (
        #[trigger] t[b].key) by {
            if b < t0.len() {
                assert(t[a] == t0[a] && t[b] == t0[b]);
            } else {
                assert(t[b] == s.last());
                assert(t[a] == t0[a]);
            }
        }
    }
}

/// A swept index keeps exactly the marks after `now`, and keeps mark
/// keys distinct.
proof fn lemma_sweep_marks_props(s: Seq<MarkV>, now: u64)
    requires
        unique_mark_keys(s),
    ensures
        forall|k: Seq<char>, t: u64|
            #[trigger] index_has(sweep_marks(s, now), k, t) <==> (index_has(s, k, t) && t > now),
        unique_mark_keys(sweep_marks(s, now)),
        forall|j: int|
            0 <= j < sweep_marks(s, now).len() ==> (#[trigger] sweep_marks(s, now)[j]).at > now
                && exists|i: int| 0 <= i < s.len() && (#[trigger] s[i]) == sweep_marks(s, now)[j],
    decreases s.len(),
{
    if s.len() > 0 {
        assert(unique_mark_keys(s.drop_last())) by {
            assert(forall|j: int| 0 <= j < s.len() - 1 ==> s.drop_last()[j] == s[j]);
        }
        lemma_sweep_marks_props(s.drop_last(), now);
        let t = sweep_marks(s, now);
        let t0 = sweep_marks(s.drop_last(), now);
        assert forall|j: int| 0 <= j < t.len() implies (#[trigger] t[j]).at > now && exists|i: int|
            0 <= i < s.len() && (#[trigger] s[i]) == t[j] by {
            if j < t0.len() {
                assert(t[j] == t0[j]);
                let i = choose|i: int| 0 <= i < s.drop_last().len() && (#[trigger] s.drop_last()[i])
                    == t0[j];
                assert(s[i] == t[j]);
            } else {
                assert(t[j] == s.last());
                assert(s[s.len() - 1] == t[j]);
            }
        }
        assert forall|a: int, b: int| 0 <= a < b < t.len() implies (#[trigger] t[a].key) != (
        #[trigger] t[b].key) by {
            let ia = choose|i: int| 0 <= i < s.len() && (#[trigger] s[i]) == t[a];
            let ib = choose|i: int| 0 <= i < s.len() && (#[trigger] s[i]) == t[b];
            if ia == ib {
                if b == t.len() - 1 && t.len() > t0.len() {
                    assert(t[b] == s.last());
                    assert(t[a] == t0[a]);
                    let i0 = choose|i: int|
                        0 <= i < s.drop_last().len() && (#[trigger] s.drop_last()[i]) == t0[a];
                    assert(s[i0].key != s[s.len() - 1].key || i0 == s.len() - 1);
                    assert(t[a].key == s[i0].key);
                    if s[i0].key == s[s.len() - 1].key {
                        assert(i0 < s.len() - 1);
                        assert(false);
                    }
                } else {
                    assert(t[a] == t0[a] && t[b] == t0[b]);
                }
            } else {
                let lo: int = if ia < ib {
                    ia
                } else {
                    ib
                };
                let hi: int = if ia < ib {
                    ib
                } else {
                    ia
                };
                assert(s[lo].key != s[hi].key);
            }
        }
        assert forall|k: Seq<char>, t_at: u64| #[trigger]
            index_has(t, k, t_at) implies (index_has(s, k, t_at) && t_at > now) by {
            let j = choose|j: int|
                0 <= j < t.len() && t[j].at == t_at && (#[trigger] t[j].key) == k;
            let i = choose|i: int| 0 <= i < s.len() && (#[trigger] s[i]) == t[j];
            assert(s[i].at == t_at && s[i].key == k);
        }
        assert forall|k: Seq<char>, t_at: u64|
            index_has(s, k, t_at) && t_at > now implies #[trigger] index_has(t, k, t_at) by {
            let i = choose|i: int|
                0 <= i < s.len() && s[i].at == t_at && (#[trigger] s[i].key) == k;
            if i < s.len() - 1 {
                assert(s.drop_last()[i].at == t_at && s.drop_last()[i].key == k);
                assert(index_has(s.drop_last(), k, t_at));
                assert(index_has(t0, k, t_at));
                let j = choose|j: int|
                    0 <= j < t0.len() && t0[j].at == t_at && (#[trigger] t0[j].key) == k;
                assert(t[j] == t0[j]);
                assert(t[j].at == t_at && t[j].key == k);
            } else {
                assert(t[t.len() - 1] == s.last());
                assert(t[t.len() - 1].at == t_at && t[t.len() - 1].key == k);
            }
        }
    }
}


/// A sweep leaves the store well-formed, with exactly the surviving
/// entries and marks.
#[verifier::spinoff_prover]
#[verifier::rlimit(100)]
proof fn lemma_sweep_wf(
    old_entries: Seq<EntryV>,
    old_marks: Seq<MarkV>,
    now: u64,
    new_entries: Seq<EntryV>,
    new_marks: Seq<MarkV>,
)
    requires
        unique_keys(old_entries),
        unique_mark_keys(old_marks),
        forall|j: int|
            0 <= j < old_marks.len() ==> match spec_lookup(
                old_entries,
                (#[trigger] old_marks[j]).key,
            ) {
                Some(e) => e.expiry == Some(old_marks[j].at),
                None => false,
            },
        forall|i: int|
            0 <= i < old_entries.len() ==> match (#[trigger] old_entries[i]).expiry {
                Some(t) => index_has(old_marks, old_entries[i].key, t),
                None => true,
            },
        new_entries == sweep_entries(old_entries, now),
        new_marks == sweep_marks(old_marks, now),
    ensures
        unique_keys(new_entries),
        unique_mark_keys(new_marks),
        forall|j: int|
            0 <= j < new_marks.len() ==> match spec_lookup(
                new_entries,
                (#[trigger] new_marks[j]).key,
            ) {
                Some(e) => e.expiry == Some(new_marks[j].at),
                None => false,
            },
        forall|i: int|
            0 <= i < new_entries.len() ==> match (#[trigger] new_entries[i]).expiry {
                Some(t) => index_has(new_marks, new_entries[i].key, t),
                None => true,
            },
        forall|k: Seq<char>|
            #[trigger] spec_lookup(new_entries, k) == (match spec_lookup(old_entries, k) {
                Some(e) => if keeps(e, now) {
                    Some(e)
                } else {
                    None
                },
                None => None::<EntryV>,
            }),
        forall|k: Seq<char>, t: u64|
            #[trigger] index_has(new_marks, k, t) <==> (index_has(old_marks, k, t) && t > now),
    decreases 0int,
{
    lemma_sweep_entries_props(old_entries, now);
    lemma_sweep_entries_unique(old_entries, now);
    lemma_sweep_marks_props(old_marks, now);
    assert forall|k: Seq<char>| #[trigger]
        spec_lookup(new_entries, k) == (match spec_lookup(old_entries, k) {
            Some(e) => if keeps(e, now) {
                Some(e)
            } else {
                None
            },
            None => None::<EntryV>,
        }) by {
        lemma_lookup_sweep(old_entries, k, now);
    }
    assert forall|bj: int| 0 <= bj < new_marks.len() implies match spec_lookup(
        new_entries,
        (#[trigger] new_marks[bj]).key,
    ) {
        Some(e) => e.expiry == Some(new_marks[bj].at),
        None => false,
    } by {
        let m = new_marks[bj];
        assert(m.at > now);
        lemma_lookup_sweep(old_entries, m.key, now);
        assert(index_has(new_marks, m.key, m.at));
    }
    assert forall|bi: int| 0 <= bi < new_entries.len() implies match (
    #[trigger] new_entries[bi]).expiry {
        Some(t) => index_has(new_marks, new_entries[bi].key, t),
        None => true,
    } by {
        let e = new_entries[bi];
        let oi = choose|oi: int| 0 <= oi < old_entries.len() && (#[trigger] old_entries[oi]) == e;
        assert(keeps(new_entries[bi], now));
        match e.expiry {
            Some(t) => {
                assert(index_has(old_marks, e.key, t));
                assert(t > now);
            },
            None => {},
        }
    }
}

/// A sweep read from the front: the first entry is kept or dropped,
/// and the rest is the sweep of the rest.
proof fn lemma_sweep_front(s: Seq<EntryV>, now: u64)
    requires
        s.len() > 0,
    ensures
        sweep_entries(s, now) == (if keeps(s[0], now) {
            seq![s[0]]
        } else {
            Seq::<EntryV>::empty()
        }) + sweep_entries(s.skip(1), now),
    decreases s.len(),
{
    let head: Seq<EntryV> = if keeps(s[0], now) {
        seq![s[0]]
    } else {
        Seq::<EntryV>::empty()
    };
    if s.len() == 1 {
        assert(s.drop_last() =~= Seq::<EntryV>::empty());
        assert(s.skip(1) =~= Seq::<EntryV>::empty());
        assert(s.last() == s[0]);
        assert(sweep_entries(s, now) =~= head + sweep_entries(s.skip(1), now));
    } else {
        lemma_sweep_front(s.drop_last(), now);
        assert(s.skip(1).drop_last() =~= s.drop_last().skip(1));
        assert(s.drop_last()[0] == s[0]);
        assert(s.skip(1).last() == s.last());
        let tail_last: Seq<EntryV> = if keeps(s.last(), now) {
            seq![s.last()]
        } else {
            Seq::<EntryV>::empty()
        };
        assert(sweep_entries(s, now) == sweep_entries(s.drop_last(), now) + tail_last);
        assert(sweep_entries(s.drop_last(), now) == head + sweep_entries(s.drop_last().skip(1), now));
        assert(sweep_entries(s.skip(1), now) == sweep_entries(s.drop_last().skip(1), now)
            + tail_last);
        assert((head + sweep_entries(s.drop_last().skip(1), now)) + tail_last =~= head + (
        sweep_entries(s.drop_last().skip(1), now) + tail_last));
    }
}

/// Looking a key up after a sweep finds the entry exactly when it
/// survives.
proof fn lemma_lookup_sweep(s: Seq<EntryV>, k: Seq<char>, now: u64)
    requires
        unique_keys(s),
    ensures
        spec_lookup(sweep_entries(s, now), k) == (match spec_lookup(s, k) {
            Some(e) => if keeps(e, now) {
                Some(e)
            } else {
                None::<EntryV>
            },
            None => None::<EntryV>,
        }),
    decreases s.len(),
{
    if s.len() > 0 {
        lemma_sweep_front(s, now);
        assert(unique_keys(s.skip(1))) by {
            assert(forall|j: int| 0 <= j < s.len() - 1 ==> s.skip(1)[j] == s[j + 1]);
        }
        lemma_lookup_sweep(s.skip(1), k, now);
        let t = sweep_entries(s, now);
        if s[0].key == k {
            if keeps(s[0], now) {
                assert(t[0] == s[0]);
                assert(t.skip(1) =~= sweep_entries(s.skip(1), now));
            } else {
                assert(t =~= sweep_entries(s.skip(1), now));
                assert(spec_lookup(s.skip(1), k) is None) by {
                    assert(forall|j: int| 0 <= j < s.len() - 1 ==> s.skip(1)[j] == s[j + 1]);
                    assert forall|j: int| 0 <= j < s.skip(1).len() implies (
                    #[trigger] s.skip(1)[j].key) != k by {
                        assert(s[0].key == k);
                        assert(s[j + 1].key != s[0].key);
                    }
                    lemma_lookup_none(s.skip(1), k);
                }
            }
        } else {
            if keeps(s[0], now) {
                assert(t[0] == s[0]);
                assert(t.skip(1) =~= sweep_entries(s.skip(1), now));
            } else {
                assert(t =~= sweep_entries(s.skip(1), now));
            }
        }
    }
}


/// What a read at instant `now` observes of key `k`.
pub open spec fn read_result(s: CacheRepository, k: Seq<char>, now: u64) -> Option<Seq<u8>> {
    match spec_lookup(s.entries(), k) {
        Some(e) => if keeps(e, now) {
            Some(e.value)
        } else {
            None
        },
        None => None,
    }
}

/// Law: a key just written without expiry reads back as its value at
/// every instant.
pub proof fn lemma_set_then_get(post: CacheRepository, key: Seq<char>, value: Seq<u8>, now: u64)
    requires
        spec_lookup(post.entries(), key) == Some(EntryV { key, value, expiry: None }),
    ensures
        read_result(post, key, now) == Some(value),
{
}

/// Law: a key written with expiry `e` reads back before `e`, and
/// reads as missing from `e` on, even before any sweep.
pub proof fn lemma_set_px_visibility(
    post: CacheRepository,
    key: Seq<char>,
    value: Seq<u8>,
    e: u64,
    now: u64,
)
    requires
        spec_lookup(post.entries(), key) == Some(EntryV { key, value, expiry: Some(e) }),
    ensures
        now < e ==> read_result(post, key, now) == Some(value),
        now >= e ==> read_result(post, key, now) is None,
{
}

/// Law: a sweep at instant `swept` changes nothing a read at that
/// instant or later can observe.
pub proof fn lemma_sweep_preserves_reads(
    pre: CacheRepository,
    post: CacheRepository,
    swept: u64,
    t: u64,
)
    requires
        forall|k: Seq<char>|
            #[trigger] spec_lookup(post.entries(), k) == (match spec_lookup(pre.entries(), k) {
                Some(e) => if keeps(e, swept) {
                    Some(e)
                } else {
                    None
                },
                None => None::<EntryV>,
            }),
        t >= swept,
    ensures
        forall|k: Seq<char>| #[trigger] read_result(post, k, t) == read_result(pre, k, t),
{
    assert forall|k: Seq<char>| #[trigger]
        read_result(post, k, t) == read_result(pre, k, t) by {
        assert(spec_lookup(post.entries(), k) == (match spec_lookup(pre.entries(), k) {
            Some(e) => if keeps(e, swept) {
                Some(e)
            } else {
                None
            },
            None => None::<EntryV>,
        }));
        match spec_lookup(pre.entries(), k) {
            Some(e) => {
                if !keeps(e, swept) {
                    assert(!keeps(e, t));
                }
            },
            None => {},
        }
    }
}

} // verus!
