//! The store: an in-memory index over an append-only log of mutation
//! records, kept consistent with the log bytes by replay.
//!
//! The store works on the log's bytes; the caller owns the log file, hands
//! the file's current contents to [`KvStore::open`], and appends the bytes
//! returned by [`KvStore::set`] and [`KvStore::remove`] to the file.

use vstd::prelude::*;
use vstd::utf8::encode_utf8;

use crate::codec::{
    can_decode, cmd_fits, decode_record, enc_record, encode_record, lemma_enc_record_len,
    lemma_parses_prefix, lemma_parses_to_step, lemma_prefix_extend, parses_to, push_bytes,
    MAX_STR_BYTES,
};
use crate::records::{lookup, replay_map, replay_ok, CommandModel, KvCommand, KvError};

verus! {

/// One live binding of the in-memory index.
struct Entry {
    key: String,
    value: String,
}

/// Keys never repeat in the index.
spec fn index_keys_unique(idx: Seq<Entry>) -> bool {
    forall|i: int, j: int| 0 <= i < j < idx.len() ==> idx[i].key@ != idx[j].key@
}

/// The index is exactly the graph of the map `m`.
spec fn index_matches(idx: Seq<Entry>, m: Map<Seq<char>, Seq<char>>) -> bool {
    &&& forall|i: int|
        0 <= i < idx.len() ==> m.contains_key(#[trigger] idx[i].key@) && m[idx[i].key@]
            == idx[i].value@
    &&& forall|k: Seq<char>|
        #[trigger] m.contains_key(k) ==> exists|i: int|
            0 <= i < idx.len() && #[trigger] idx[i].key@ == k
}

/// The view of an optional value.
pub open spec fn opt_view(v: Option<String>) -> Option<Seq<char>> {
    match v {
        Some(s) => Some(s@),
        None => None,
    }
}

/// A record sequence that replays cleanly keeps doing so when cut short.
proof fn lemma_replay_ok_take(recs: Seq<CommandModel>, i: int)
    requires
        replay_ok(recs),
        0 <= i <= recs.len(),
    ensures
        replay_ok(recs.take(i)),
    decreases recs.len() - i,
{
    if i == recs.len() {
        assert(recs.take(i) =~= recs);
    } else {
        lemma_replay_ok_take(recs, i + 1);
        assert(recs.take(i + 1).drop_last() =~= recs.take(i));
    }
}

/// Every key live after replaying size-checked records fits the format.
proof fn lemma_replay_key_fits(recs: Seq<CommandModel>, k: Seq<char>)
    requires
        forall|i: int| 0 <= i < recs.len() ==> cmd_fits(#[trigger] recs[i]),
        replay_map(recs).contains_key(k),
    ensures
        encode_utf8(k).len() <= MAX_STR_BYTES,
    decreases recs.len(),
{
    if recs.len() > 0 {
        assert(forall|i: int|
            0 <= i < recs.drop_last().len() ==> #[trigger] recs.drop_last()[i] == recs[i]);
        match recs.last() {
            CommandModel::Put(k2, _) => {
                if k2 != k {
                    lemma_replay_key_fits(recs.drop_last(), k);
                }
            }
            CommandModel::Rm(_) => {
                lemma_replay_key_fits(recs.drop_last(), k);
            }
        }
    }
}

/// When nothing more can be decoded at the cursor, the folded records are
/// the one parse of any fully well-formed log.
proof fn lemma_drain_complete(logv: Seq<u8>, cur: int, hist: Seq<CommandModel>)
    requires
        0 <= cur <= logv.len(),
        parses_to(logv.subrange(0, cur), hist),
        forall|c: CommandModel| !can_decode(logv, cur, c),
    ensures
        forall|recs: Seq<CommandModel>|
            parses_to(logv, recs) && replay_ok(recs) ==> (hist == recs && cur == logv.len()),
{
    assert forall|recs: Seq<CommandModel>|
        parses_to(logv, recs) && replay_ok(recs) implies (hist == recs && cur
        == logv.len()) by {
        lemma_parses_prefix(logv, cur, hist, recs);
        if hist.len() < recs.len() {
            lemma_parses_to_step(logv, recs, hist.len() as int);
            assert(false);
        } else {
            assert(recs.take(recs.len() as int) =~= recs);
        }
    }
}

/// A `Rm` record for a key with no live entry at the cursor rules out any
/// fully well-formed parse of the log.
proof fn lemma_missing_key(logv: Seq<u8>, cur: int, hist: Seq<CommandModel>, c: CommandModel)
    requires
        0 <= cur <= logv.len(),
        parses_to(logv.subrange(0, cur), hist),
        can_decode(logv, cur, c),
        c matches CommandModel::Rm(k) && !replay_map(hist).contains_key(k),
        forall|c2: CommandModel| can_decode(logv, cur, c2) ==> c2 == c,
    ensures
        forall|recs: Seq<CommandModel>| !(parses_to(logv, recs) && replay_ok(recs)),
{
    assert forall|recs: Seq<CommandModel>|
        !(parses_to(logv, recs) && replay_ok(recs)) by {
        if parses_to(logv, recs) && replay_ok(recs) {
            lemma_parses_prefix(logv, cur, hist, recs);
            let j = hist.len() as int;
            if j < recs.len() {
                lemma_parses_to_step(logv, recs, j);
                lemma_replay_ok_take(recs, j + 1);
                assert(recs.take(j + 1).drop_last() =~= hist);
                assert(recs.take(j + 1).last() == recs[j]);
                assert(false);
            } else {
                assert(recs.take(recs.len() as int) =~= recs);
                lemma_enc_record_len(c);
                assert(false);
            }
        }
    }
}

/// A handle on one database directory's log.
pub struct KvStore {
    log: Vec<u8>,
    index: Vec<Entry>,
    cursor: usize,
    history: Ghost<Seq<CommandModel>>,
}

impl KvStore {
    /// The log bytes this handle knows of.
    pub closed spec fn log_view(&self) -> Seq<u8> {
        self.log@
    }

    /// The records already folded into the index, in log order.
    pub closed spec fn folded(&self) -> Seq<CommandModel> {
        self.history@
    }

    /// How many log bytes have been folded into the index.
    pub closed spec fn replayed(&self) -> int {
        self.cursor as int
    }

    /// The store's current contents: the net effect of the folded records.
    pub open spec fn model(&self) -> Map<Seq<char>, Seq<char>> {
        replay_map(self.folded())
    }

    /// No further record can be decoded at the replay cursor.
    pub open spec fn drained(&self) -> bool {
        forall|c: CommandModel| !can_decode(self.log_view(), self.replayed(), c)
    }

    /// Every log byte has been folded into the index.
    pub open spec fn synced(&self) -> bool {
        self.replayed() == self.log_view().len()
    }

    /// The handle's invariant: the folded records are exactly the parse of
    /// the log up to the cursor, they replay cleanly, and the index is the
    /// graph of their net effect.
    pub closed spec fn wf(&self) -> bool {
        &&& self.cursor <= self.log@.len()
        &&& parses_to(self.log@.subrange(0, self.cursor as int), self.history@)
        &&& replay_ok(self.history@)
        &&& index_keys_unique(self.index@)
        &&& index_matches(self.index@, replay_map(self.history@))
    }

    /// A store that has folded every byte of its log has nothing left to
    /// decode.
    pub proof fn lemma_synced_drained(&self)
        requires
            self.synced(),
        ensures
            self.drained(),
    {
        assert forall|c: CommandModel| !can_decode(self.log_view(), self.replayed(), c) by {
            lemma_enc_record_len(c);
        }
    }

    /// Open a handle on a log's current bytes. Nothing is read eagerly: the
    /// index starts empty and replay happens on the first lookup.
    pub fn open(log: Vec<u8>) -> (s: KvStore)
        ensures
            s.wf(),
            s.log_view() == log@,
            s.folded() == Seq::<CommandModel>::empty(),
            s.replayed() == 0,
            s.model() == Map::<Seq<char>, Seq<char>>::empty(),
    {
        let s = KvStore { log, index: Vec::new(), cursor: 0, history: Ghost(Seq::empty()) };
        proof {
            assert(s.log@.subrange(0, 0) =~= Seq::<u8>::empty());
        }
        s
    }

    /// The byte offset up to which the log has been folded into the index.
    pub fn cursor(&self) -> (r: usize)
        ensures
            r as int == self.replayed(),
    {
        self.cursor
    }

    /// The position of a key in the index.
    fn index_find(&self, key: &String) -> (r: Option<usize>)
        ensures
            r matches Some(i) ==> i < self.index@.len() && self.index@[i as int].key@ == key@,
            r is None ==> forall|i: int| 0 <= i < self.index@.len() ==> self.index@[i].key@
                != key@,
    {
        let mut i: usize = 0;
        let len = self.index.len();
        while i < len
            invariant
                i <= len,
                len == self.index@.len(),
                forall|j: int| 0 <= j < i ==> self.index@[j].key@ != key@,
            decreases len - i,
        {
            if self.index[i].key == *key {
                return Some(i);
            }
            i = i + 1;
        }
        None
    }

    /// Insert or overwrite one binding, leaving every other binding as it
    /// was.
    fn index_put(&mut self, key: String, value: String)
        requires
            index_keys_unique(old(self).index@),
        ensures
            index_keys_unique(final(self).index@),
            forall|m: Map<Seq<char>, Seq<char>>|
                index_matches(old(self).index@, m) ==> index_matches(
                    final(self).index@,
                    m.insert(key@, value@),
                ),
            final(self).log == old(self).log,
            final(self).cursor == old(self).cursor,
            final(self).history == old(self).history,
    {
        let ghost k = key@;
        let ghost oi = old(self).index@;
        let found = self.index_find(&key);
        match found {
            Some(i) => {
                self.index.remove(i);
                proof {
                    oi.remove_ensures(i as int);
                }
            }
            None => {}
        }
        let ghost mid = self.index@;
        proof {
            assert forall|j: int| 0 <= j < mid.len() implies #[trigger] mid[j].key@ != k by {
                match found {
                    Some(i) => {
                        if j < i {
                            assert(mid[j] == oi[j]);
                        } else {
                            assert(mid[j] == oi[j + 1]);
                        }
                    }
                    None => {
                        assert(mid[j] == oi[j]);
                    }
                }
            }
        }
        self.index.push(Entry { key, value });
        proof {
            assert forall|a: int, b: int|
                0 <= a < b < self.index@.len() implies self.index@[a].key@
                != self.index@[b].key@ by {
                if b < self.index@.len() - 1 {
                    assert(self.index@[a] == mid[a] && self.index@[b] == mid[b]);
                    match found {
                        Some(i) => {
                            if a < i {
                                assert(mid[a] == oi[a]);
                            } else {
                                assert(mid[a] == oi[a + 1]);
                            }
                            if b < i {
                                assert(mid[b] == oi[b]);
                            } else {
                                assert(mid[b] == oi[b + 1]);
                            }
                        }
                        None => {
                            assert(mid[a] == oi[a] && mid[b] == oi[b]);
                        }
                    }
                } else {
                    assert(self.index@[a] == mid[a] && self.index@[b].key@ == k);
                }
            }
            assert forall|m: Map<Seq<char>, Seq<char>>|
                index_matches(oi, m) implies index_matches(
                self.index@,
                m.insert(k, value@),
            ) by {
                let m2 = m.insert(k, value@);
                assert forall|j: int|
                    0 <= j < self.index@.len() implies m2.contains_key(
                    #[trigger] self.index@[j].key@,
                ) && m2[self.index@[j].key@] == self.index@[j].value@ by {
                    if j == self.index@.len() - 1 {
                    } else {
                        assert(self.index@[j] == mid[j]);
                        match found {
                            Some(i) => {
                                if j < i {
                                    assert(mid[j] == oi[j]);
                                } else {
                                    assert(mid[j] == oi[j + 1]);
                                }
                            }
                            None => {
                                assert(mid[j] == oi[j]);
                            }
                        }
                    }
                }
                assert forall|k2: Seq<char>| #[trigger] m2.contains_key(k2) implies exists|x: int|
                    0 <= x < self.index@.len() && #[trigger] self.index@[x].key@ == k2 by {
                    if k2 == k {
                        assert(self.index@[self.index@.len() - 1].key@ == k2);
                    } else {
                        let x0 = choose|x0: int|
                            0 <= x0 < oi.len() && #[trigger] oi[x0].key@ == k2;
                        match found {
                            Some(i) => {
                                if x0 < i {
                                    assert(mid[x0] == oi[x0]);
                                    assert(self.index@[x0].key@ == k2);
                                } else {
                                    assert(oi[i as int].key@ == k);
                                    assert(x0 != i);
                                    assert(mid[x0 - 1] == oi[x0]);
                                    assert(self.index@[x0 - 1].key@ == k2);
                                }
                            }
                            None => {
                                assert(mid[x0] == oi[x0]);
                                assert(self.index@[x0].key@ == k2);
                            }
                        }
                    }
                }
            }
        }
    }

    /// Delete the binding at a known position, leaving every other binding
    /// as it was.
    fn index_del(&mut self, i: usize)
        requires
            i < old(self).index@.len(),
            index_keys_unique(old(self).index@),
        ensures
            index_keys_unique(final(self).index@),
            forall|m: Map<Seq<char>, Seq<char>>|
                index_matches(old(self).index@, m) ==> index_matches(
                    final(self).index@,
                    m.remove(old(self).index@[i as int].key@),
                ),
            final(self).log == old(self).log,
            final(self).cursor == old(self).cursor,
            final(self).history == old(self).history,
    {
        let ghost oi = old(self).index@;
        let ghost k = old(self).index@[i as int].key@;
        self.index.remove(i);
        proof {
            oi.remove_ensures(i as int);
            assert forall|m: Map<Seq<char>, Seq<char>>|
                index_matches(oi, m) implies index_matches(self.index@, m.remove(k)) by {
                let m2 = m.remove(k);
                assert forall|j: int|
                    0 <= j < self.index@.len() implies m2.contains_key(
                    #[trigger] self.index@[j].key@,
                ) && m2[self.index@[j].key@] == self.index@[j].value@ by {
                    if j < i {
                        assert(self.index@[j] == oi[j]);
                        assert(self.index@[j].key@ != k);
                    } else {
                        assert(self.index@[j] == oi[j + 1]);
                        assert(self.index@[j].key@ != k);
                    }
                }
                assert forall|k2: Seq<char>| #[trigger] m2.contains_key(k2) implies exists|x: int|
                    0 <= x < self.index@.len() && #[trigger] self.index@[x].key@ == k2 by {
                    let x0 = choose|x0: int| 0 <= x0 < oi.len() && #[trigger] oi[x0].key@ == k2;
                    if x0 < i {
                        assert(self.index@[x0].key@ == k2);
                    } else {
                        assert(self.index@[x0 - 1] == oi[x0]);
                    }
                }
            }
        }
    }

    /// Fold one decoded record into the index and advance the cursor past
    /// its bytes.
    #[verifier::rlimit(100)]
    fn apply(&mut self, cmd: KvCommand, end: usize) -> (r: Result<(), KvError>)
        requires
            old(self).wf(),
            can_decode(old(self).log@, old(self).cursor as int, cmd@),
            end as int == old(self).cursor + enc_record(cmd@).len(),
            forall|c2: CommandModel|
                can_decode(old(self).log@, old(self).cursor as int, c2) ==> c2 == cmd@,
        ensures
            final(self).wf(),
            final(self).log@ == old(self).log@,
            r is Ok ==> final(self).history@ == old(self).history@.push(cmd@)
                && final(self).cursor as int == end as int,
            r matches Err(e) ==> e == KvError::MissingKeyValue
                && final(self).history@ == old(self).history@
                && final(self).cursor == old(self).cursor
                && (forall|recs: Seq<CommandModel>|
                    !(parses_to(old(self).log@, recs) && replay_ok(recs))),
    {
        let ghost cv = cmd@;
        let ghost oldh = self.history@;
        let ghost oldcur = self.cursor as int;
        match cmd {
            KvCommand::Put(k, v) => {
                self.index_put(k, v);
                proof {
                    assert(oldh.push(cv).drop_last() =~= oldh);
                    assert(index_matches(self.index@, replay_map(oldh.push(cv))));
                    assert(replay_ok(oldh.push(cv)));
                }
            }
            KvCommand::Rm(k) => {
                let found = self.index_find(&k);
                match found {
                    Some(i) => {
                        proof {
                            assert(replay_map(oldh).contains_key(k@));
                        }
                        self.index_del(i);
                        proof {
                            assert(oldh.push(cv).drop_last() =~= oldh);
                            assert(index_matches(self.index@, replay_map(oldh.push(cv))));
                            assert(replay_ok(oldh.push(cv)));
                        }
                    }
                    None => {
                        proof {
                            lemma_missing_key(self.log@, oldcur, oldh, cv);
                        }
                        return Err(KvError::MissingKeyValue);
                    }
                }
            }
        }
        self.cursor = end;
        proof {
            self.history@ = oldh.push(cv);
            lemma_prefix_extend(self.log@, oldcur, end as int, oldh, cv);
        }
        Ok(())
    }

    /// Fold every record not yet read into the index, stopping cleanly at
    /// the first position where no full record can be decoded.
    #[verifier::rlimit(100)]
    fn replay(&mut self) -> (r: Result<(), KvError>)
        requires
            old(self).wf(),
        ensures
            final(self).wf(),
            final(self).log_view() == old(self).log_view(),
            old(self).folded().is_prefix_of(final(self).folded()),
            r is Ok ==> final(self).drained(),
            r matches Err(e) ==> e == KvError::MissingKeyValue,
            old(self).drained() ==> r is Ok && final(self).folded() == old(self).folded()
                && final(self).replayed() == old(self).replayed(),
            forall|recs: Seq<CommandModel>|
                parses_to(old(self).log_view(), recs) && replay_ok(recs) ==> (r is Ok
                    && final(self).folded() == recs && final(self).synced()),
    {
        loop
            invariant
                self.wf(),
                self.log@ == old(self).log@,
                old(self).history@.is_prefix_of(self.history@),
                old(self).drained() ==> self.history@ == old(self).history@ && self.cursor
                    == old(self).cursor,
            decreases self.log@.len() - self.cursor,
        {
            let step = decode_record(&self.log, self.cursor);
            match step {
                None => {
                    proof {
                        lemma_drain_complete(self.log@, self.cursor as int, self.history@);
                    }
                    return Ok(());
                }
                Some((cmd, end)) => {
                    let ghost h0 = self.history@;
                    proof {
                        lemma_enc_record_len(cmd@);
                        if old(self).drained() {
                            assert(can_decode(old(self).log_view(), old(self).replayed(), cmd@));
                            assert(false);
                        }
                    }
                    match self.apply(cmd, end) {
                        Ok(()) => {
                            proof {
                                assert(self.history@.subrange(0, h0.len() as int) =~= h0);
                                assert(old(self).history@ =~= self.history@.subrange(
                                    0,
                                    old(self).history@.len() as int,
                                ));
                            }
                        }
                        Err(e) => {
                            return Err(e);
                        }
                    }
                }
            }
        }
    }

    /// Look a key up: catch the index up with the log, then consult it.
    pub fn get(&mut self, key: String) -> (r: Result<Option<String>, KvError>)
        requires
            old(self).wf(),
        ensures
            final(self).wf(),
            final(self).log_view() == old(self).log_view(),
            old(self).folded().is_prefix_of(final(self).folded()),
            r matches Err(e) ==> e == KvError::MissingKeyValue,
            r matches Ok(v) ==> final(self).drained() && opt_view(v) == lookup(
                final(self).model(),
                key@,
            ),
            old(self).drained() ==> r is Ok && final(self).folded() == old(self).folded()
                && final(self).replayed() == old(self).replayed(),
            forall|recs: Seq<CommandModel>|
                parses_to(old(self).log_view(), recs) && replay_ok(recs) ==> (r is Ok
                    && final(self).folded() == recs && final(self).synced()),
    {
        match self.replay() {
            Ok(()) => {}
            Err(e) => {
                return Err(e);
            }
        }
        let found = self.index_find(&key);
        match found {
            Some(i) => {
                let v = self.index[i].value.clone();
                Ok(Some(v))
            }
            None => {
                proof {
                    if self.model().contains_key(key@) {
                        let x = choose|x: int|
                            0 <= x < self.index@.len() && #[trigger] self.index@[x].key@ == key@;
                        assert(false);
                    }
                }
                Ok(None)
            }
        }
    }

    /// Append an encoded `Set` record to the log; when the index is caught
    /// up, fold the new binding in at once.
    #[verifier::rlimit(100)]
    fn commit_put(&mut self, key: String, value: String, enc: &Vec<u8>)
        requires
            old(self).wf(),
            enc@ == enc_record(CommandModel::Put(key@, value@)),
            cmd_fits(CommandModel::Put(key@, value@)),
        ensures
            final(self).wf(),
            final(self).log@ == old(self).log@ + enc@,
            old(self).synced() ==> final(self).synced() && final(self).history@ == old(
                self,
            ).history@.push(CommandModel::Put(key@, value@)),
            !old(self).synced() ==> final(self).history@ == old(self).history@,
    {
        let ghost cv = CommandModel::Put(key@, value@);
        let ghost h0 = self.history@;
        let start = self.log.len();
        push_bytes(&mut self.log, enc);
        proof {
            assert(self.log@.subrange(0, self.cursor as int) =~= old(self).log@.subrange(
                0,
                self.cursor as int,
            ));
        }
        if self.cursor == start {
            proof {
                assert(self.log@.subrange(start as int, self.log@.len() as int) =~= enc_record(
                    cv,
                ));
                assert(can_decode(self.log@, start as int, cv));
            }
            self.index_put(key, value);
            proof {
                assert(h0.push(cv).drop_last() =~= h0);
                assert(index_matches(self.index@, replay_map(h0.push(cv))));
                assert(replay_ok(h0.push(cv)));
            }
            self.cursor = self.log.len();
            proof {
                self.history@ = h0.push(cv);
                lemma_prefix_extend(self.log@, start as int, self.log@.len() as int, h0, cv);
            }
        }
    }

    /// Append an encoded `Rm` record to the log; when the index is caught
    /// up, delete the binding at the given position at once.
    #[verifier::rlimit(100)]
    fn commit_rm(&mut self, i: usize, enc: &Vec<u8>, Ghost(k): Ghost<Seq<char>>)
        requires
            old(self).wf(),
            i < old(self).index@.len(),
            old(self).index@[i as int].key@ == k,
            enc@ == enc_record(CommandModel::Rm(k)),
            cmd_fits(CommandModel::Rm(k)),
        ensures
            final(self).wf(),
            final(self).log@ == old(self).log@ + enc@,
            old(self).synced() ==> final(self).synced() && final(self).history@ == old(
                self,
            ).history@.push(CommandModel::Rm(k)),
            !old(self).synced() ==> final(self).history@ == old(self).history@,
    {
        let ghost cv = CommandModel::Rm(k);
        let ghost h0 = self.history@;
        let start = self.log.len();
        push_bytes(&mut self.log, enc);
        proof {
            assert(self.log@.subrange(0, self.cursor as int) =~= old(self).log@.subrange(
                0,
                self.cursor as int,
            ));
        }
        if self.cursor == start {
            proof {
                assert(self.log@.subrange(start as int, self.log@.len() as int) =~= enc_record(
                    cv,
                ));
                assert(can_decode(self.log@, start as int, cv));
                assert(replay_map(h0).contains_key(k));
            }
            let ghost mi = self.index@;
            self.index_del(i);
            proof {
                assert(mi == old(self).index@);
                assert(mi[i as int].key@ == k);
                assert(index_matches(mi, replay_map(h0)));
                assert(index_matches(self.index@, replay_map(h0).remove(k)));
                assert(h0.push(cv).drop_last() =~= h0);
                assert(replay_map(h0.push(cv)) == replay_map(h0).remove(k));
                assert(index_matches(self.index@, replay_map(h0.push(cv))));
                assert(replay_ok(h0.push(cv)));
            }
            self.cursor = self.log.len();
            proof {
                self.history@ = h0.push(cv);
                lemma_prefix_extend(self.log@, start as int, self.log@.len() as int, h0, cv);
            }
        }
    }

    /// Persist a new binding: catch the index up, append the record's bytes
    /// to the log, and fold it in. Returns the appended bytes, which the
    /// caller writes to the end of the log file.
    #[verifier::rlimit(100)]
    pub fn set(&mut self, key: String, value: String) -> (r: Result<Vec<u8>, KvError>)
        requires
            old(self).wf(),
        ensures
            final(self).wf(),
            (r matches Err(e) && e == KvError::RecordTooLarge) <==> !cmd_fits(
                CommandModel::Put(key@, value@),
            ),
            !cmd_fits(CommandModel::Put(key@, value@)) ==> final(self).folded() == old(self).folded() && final(self).log_view() == old(self).log_view(),
            r matches Err(e) ==> final(self).log_view() == old(self).log_view() && (e
                == KvError::RecordTooLarge || e == KvError::MissingKeyValue),
            r matches Ok(b) ==> b@ == enc_record(CommandModel::Put(key@, value@)) && final(self).log_view() == old(self).log_view() + b@,
            old(self).synced() && cmd_fits(CommandModel::Put(key@, value@)) ==> (r is Ok && final(self).synced() && final(self).folded() == old(self).folded().push(
                CommandModel::Put(key@, value@),
            )),
            forall|recs: Seq<CommandModel>|
                parses_to(old(self).log_view(), recs) && replay_ok(recs) && cmd_fits(
                    CommandModel::Put(key@, value@),
                ) ==> (r is Ok && final(self).synced() && final(self).folded() == recs.push(
                    CommandModel::Put(key@, value@),
                )),
    {
        let cmd = KvCommand::Put(key.clone(), value.clone());
        let enc = match encode_record(&cmd) {
            Some(b) => b,
            None => {
                return Err(KvError::RecordTooLarge);
            }
        };
        proof {
            if old(self).synced() {
                old(self).lemma_synced_drained();
            }
        }
        match self.replay() {
            Ok(()) => {}
            Err(e) => {
                return Err(e);
            }
        }
        self.commit_put(key, value, &enc);
        Ok(enc)
    }

    /// Remove a binding: catch the index up, fail with a reported error if
    /// the key has no live value, else append the record's bytes to the log
    /// and fold them in. Returns the appended bytes, which the caller
    /// writes to the end of the log file.
    #[verifier::rlimit(100)]
    pub fn remove(&mut self, key: String) -> (r: Result<Vec<u8>, KvError>)
        requires
            old(self).wf(),
        ensures
            final(self).wf(),
            r matches Err(e) ==> final(self).log_view() == old(self).log_view() && (e
                == KvError::KeyNotFound || e == KvError::MissingKeyValue),
            (r matches Err(e) && e == KvError::KeyNotFound) ==> final(self).drained() && !final(self).model().contains_key(key@),
            r matches Ok(b) ==> b@ == enc_record(CommandModel::Rm(key@)) && final(self).log_view() == old(self).log_view() + b@,
            old(self).synced() ==> ((r matches Err(e) && e == KvError::KeyNotFound) <==> !old(self).model().contains_key(key@)),
            old(self).synced() && old(self).model().contains_key(key@) ==> (r is Ok && final(self).synced() && final(self).folded() == old(self).folded().push(
                CommandModel::Rm(key@),
            )),
            forall|recs: Seq<CommandModel>|
                parses_to(old(self).log_view(), recs) && replay_ok(recs) ==> ((replay_map(recs).contains_key(key@) ==> (r is Ok && final(self).synced() && final(self).folded() == recs.push(CommandModel::Rm(key@)))) && (!replay_map(recs).contains_key(key@) ==> (r matches Err(e) && e == KvError::KeyNotFound && final(self).folded() == recs))),
    {
        proof {
            if old(self).synced() {
                old(self).lemma_synced_drained();
            }
        }
        match self.replay() {
            Ok(()) => {}
            Err(e) => {
                return Err(e);
            }
        }
        let found = self.index_find(&key);
        let i = match found {
            Some(i) => i,
            None => {
                proof {
                    if self.model().contains_key(key@) {
                        let x = choose|x: int|
                            0 <= x < self.index@.len() && #[trigger] self.index@[x].key@ == key@;
                        assert(false);
                    }
                }
                return Err(KvError::KeyNotFound);
            }
        };
        proof {
            assert(replay_map(self.history@).contains_key(key@));
            lemma_replay_key_fits(self.history@, key@);
        }
        let enc = match encode_record(&KvCommand::Rm(key)) {
            Some(b) => b,
            None => {
                proof {
                    assert(false);
                }
                return Err(KvError::RecordTooLarge);
            }
        };
        self.commit_rm(i, &enc, Ghost(key@));
        Ok(enc)
    }
}

} // verus!
