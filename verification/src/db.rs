//! The coordinator: an index that only ever shows what the log holds.
//!
//! The database does no input or output of its own. It is opened on the
//! bytes of a log and rebuilds its index from them. A write then takes two
//! steps. `put` stages the write and hands out the frame that has to reach
//! the log; `commit` is told whether the frame was appended and flushed, and
//! only then makes the write visible. Between the two steps, and after a
//! failed append, `get` answers as if the write had never been asked for.

use crate::kv::KvPair;
use crate::replay::{lemma_apply_push, replay, Write};
use crate::skip_list::{SkipList, DEFAULT_SEED};
use crate::wal::{
    lemma_append_then_read, parse_records, record_fits, record_frame, records_view,
    ends_at_boundary, Wal, WalError,
};
use vstd::prelude::*;

verus! {

/// Why the database could not be opened, or a call on it failed.
#[derive(Clone, Copy, Debug, PartialEq, Eq, Structural)]
pub enum DatabaseError {
    /// The key is not in the database.
    KeyNotFound,
    /// The log could not be read, or the record could not be framed.
    Wal(WalError),
    /// The frame of the staged write did not reach the log.
    AppendFailed,
    /// `commit` was called with no write staged.
    NothingStaged,
}

impl DatabaseError {
    /// The error in words.
    pub open spec fn spec_message(&self) -> Seq<char> {
        match self {
            DatabaseError::KeyNotFound => "Key not found"@,
            DatabaseError::Wal(e) => e.spec_message(),
            DatabaseError::AppendFailed => "Write did not reach the log"@,
            DatabaseError::NothingStaged => "No write is waiting to be committed"@,
        }
    }

    /// The error in words.
    pub fn message(&self) -> (s: String)
        ensures
            s@ == self.spec_message(),
    {
        match self {
            DatabaseError::KeyNotFound => "Key not found".to_owned(),
            DatabaseError::Wal(e) => e.message(),
            DatabaseError::AppendFailed => "Write did not reach the log".to_owned(),
            DatabaseError::NothingStaged => "No write is waiting to be committed".to_owned(),
        }
    }
}

/// The database: the index, the handle of its log, and the write that waits
/// for its frame to reach the log.
pub struct DB {
    wal: Wal,
    sl: SkipList,
    /// The write whose frame was handed out and is not settled yet.
    staged: Option<KvPair>,
    /// The records replayed at opening, then the writes committed since.
    history: Ghost<Seq<Write>>,
}

impl View for DB {
    type V = Map<Seq<u8>, Seq<u8>>;

    /// What `get` answers from: the map from each visible key to its value.
    closed spec fn view(&self) -> Map<Seq<u8>, Seq<u8>> {
        self.sl@
    }
}

impl DB {
    /// The invariant of the database: the index is the replay of the
    /// history. `new` and `with_seed` establish it and every method keeps it.
    pub closed spec fn wf(&self) -> bool {
        &&& self.sl.wf()
        &&& self.sl@ == replay(self.history@)
    }

    /// The records replayed at opening, then the writes committed since, in
    /// order: what the log holds if every committed frame was appended to
    /// it.
    pub closed spec fn history(&self) -> Seq<Write> {
        self.history@
    }

    /// The write that waits for `commit`, if there is one.
    pub closed spec fn staged(&self) -> Option<Write> {
        match self.staged {
            Some(kv) => Some(kv@),
            None => None,
        }
    }

    /// The place where the log of this database is kept.
    pub closed spec fn spec_location(&self) -> Seq<char> {
        self.wal.spec_location()
    }

    /// Opens the database whose log, kept at `location`, holds the bytes
    /// `contents`: replays every record of the log, in order, into an empty
    /// index whose nodes reach level `max_level` at most. A log that cannot
    /// be read opens no database. An empty log opens an empty one.
    pub fn new(location: &str, max_level: usize, contents: &[u8]) -> (r: Result<DB, DatabaseError>)
        requires
            max_level < usize::MAX,
        ensures
            match r {
                Ok(db) => {
                    &&& db.wf()
                    &&& parse_records(contents@) == Ok::<Seq<Write>, WalError>(db.history())
                    &&& db@ == replay(db.history())
                    &&& db.staged() is None
                    &&& db.spec_location() == location@
                },
                Err(e) => parse_records(contents@) matches Err(w) && e == DatabaseError::Wal(w),
            },
    {
        DB::with_seed(location, max_level, DEFAULT_SEED, contents)
    }

    /// Opens the database as `new` does, with an index whose node heights
    /// come from a generator seeded with `seed`.
    pub fn with_seed(location: &str, max_level: usize, seed: u64, contents: &[u8]) -> (r: Result<
        DB,
        DatabaseError,
    >)
        requires
            max_level < usize::MAX,
        ensures
            match r {
                Ok(db) => {
                    &&& db.wf()
                    &&& parse_records(contents@) == Ok::<Seq<Write>, WalError>(db.history())
                    &&& db@ == replay(db.history())
                    &&& db.staged() is None
                    &&& db.spec_location() == location@
                },
                Err(e) => parse_records(contents@) matches Err(w) && e == DatabaseError::Wal(w),
            },
    {
        let wal = Wal::new(location.to_owned());
        let records = match wal.read(contents) {
            Ok(records) => records,
            Err(e) => {
                return Err(DatabaseError::Wal(e));
            },
        };
        let mut sl = SkipList::with_seed(max_level, seed);
        let ghost all = records_view(records@);
        let n = records.len();
        let mut i: usize = 0;
        proof {
            assert(all.take(0) =~= Seq::<Write>::empty());
        }
        while i < n
            invariant
                i <= n,
                n == records@.len(),
                all == records_view(records@),
                sl.wf(),
                sl@ == replay(all.take(i as int)),
            decreases n - i,
        {
            let key = records[i].key.clone();
            let value = records[i].value.clone();
            proof {
                assert(all[i as int] == (key@, value@));
                assert(all.take(i + 1) =~= all.take(i as int).push(all[i as int]));
                lemma_apply_push(Map::empty(), all.take(i as int), all[i as int]);
            }
            let _ = sl.put(key, value);
            i += 1;
        }
        proof {
            assert(all.take(n as int) =~= all);
        }
        Ok(DB { wal, sl, staged: None, history: Ghost(all) })
    }

    /// The place where the log of this database is kept.
    pub fn location(&self) -> (l: &String)
        ensures
            l@ == self.spec_location(),
    {
        self.wal.location()
    }

    /// First step of a write: stages `value` under `key` and returns the
    /// frame that the caller has to append to the log and flush. Nothing
    /// becomes visible. A write staged earlier and never settled is given
    /// up. A record that fits a frame is always staged; one that does not is
    /// refused and stages nothing.
    pub fn put(&mut self, key: Vec<u8>, value: Vec<u8>) -> (r: Result<Vec<u8>, DatabaseError>)
        requires
            old(self).wf(),
        ensures
            final(self).wf(),
            final(self)@ == old(self)@,
            final(self).history() == old(self).history(),
            final(self).spec_location() == old(self).spec_location(),
            record_fits(key@, value@) ==> r is Ok,
            !record_fits(key@, value@) ==> r is Err,
            match r {
                Ok(out) => {
                    &&& out@ == record_frame(key@, value@)
                    &&& final(self).staged() == Some((key@, value@))
                },
                Err(e) => {
                    &&& final(self).staged() == old(self).staged()
                    &&& e == DatabaseError::Wal(WalError::RecordTooLarge)
                },
            },
    {
        let kv = KvPair { key: key.clone(), value: value.clone() };
        match self.wal.append(kv) {
            Ok(out) => {
                self.staged = Some(KvPair::new(key, value));
                Ok(out)
            },
            Err(e) => Err(DatabaseError::Wal(e)),
        }
    }

    /// Second step of a write: settles the staged write. With `appended`
    /// the caller states that the frame handed out by `put` stands at the
    /// end of the log and has been flushed; the write then becomes visible.
    /// Without it the write is given up and the database stays as it was.
    pub fn commit(&mut self, appended: bool) -> (r: Result<(), DatabaseError>)
        requires
            old(self).wf(),
        ensures
            final(self).wf(),
            final(self).staged() is None,
            final(self).spec_location() == old(self).spec_location(),
            match old(self).staged() {
                Some(w) => if appended {
                    &&& r is Ok
                    &&& final(self)@ == old(self)@.insert(w.0, w.1)
                    &&& final(self).history() == old(self).history().push(w)
                } else {
                    &&& r == Err::<(), DatabaseError>(DatabaseError::AppendFailed)
                    &&& final(self)@ == old(self)@
                    &&& final(self).history() == old(self).history()
                },
                None => {
                    &&& r == Err::<(), DatabaseError>(DatabaseError::NothingStaged)
                    &&& final(self)@ == old(self)@
                    &&& final(self).history() == old(self).history()
                },
            },
    {
        match self.staged.take() {
            None => Err(DatabaseError::NothingStaged),
            Some(kv) => {
                if !appended {
                    return Err(DatabaseError::AppendFailed);
                }
                proof {
                    lemma_apply_push(Map::empty(), self.history@, kv@);
                    self.history@ = self.history@.push(kv@);
                }
                match self.sl.put(kv.key, kv.value) {
                    Ok(()) => Ok(()),
                    Err(_) => Err(DatabaseError::KeyNotFound),
                }
            },
        }
    }

    /// Looks `key` up among the visible writes. The log is not touched.
    pub fn get(&self, key: Vec<u8>) -> (r: Result<Vec<u8>, DatabaseError>)
        requires
            self.wf(),
        ensures
            match r {
                Ok(v) => self@.contains_key(key@) && self@[key@] == v@,
                Err(e) => e == DatabaseError::KeyNotFound && !self@.contains_key(key@),
            },
    {
        match self.sl.get(key) {
            Ok(v) => Ok(v),
            Err(_) => Err(DatabaseError::KeyNotFound),
        }
    }
}

/// Two databases with the same history show the same map: a database opened
/// again on the log that an earlier one left behind answers every `get` as
/// the earlier one did.
pub proof fn lemma_reopen_restores(before: DB, reopened: DB)
    requires
        before.wf(),
        reopened.wf(),
        reopened.history() == before.history(),
    ensures
        reopened@ == before@,
{
}

/// The index is always the replay of the history.
pub proof fn lemma_index_is_replay(db: DB)
    requires
        db.wf(),
    ensures
        db@ == replay(db.history()),
{
}

/// A committed write is durable: the log with the frame of the write at its
/// end replays to the map that the write left behind.
pub proof fn lemma_append_is_replayed(log: Seq<u8>, key: Seq<u8>, value: Seq<u8>)
    requires
        ends_at_boundary(log),
        parse_records(log) is Ok,
        record_fits(key, value),
    ensures
        parse_records(log + record_frame(key, value)) is Ok,
        replay(parse_records(log + record_frame(key, value))->Ok_0) == replay(
            parse_records(log)->Ok_0,
        ).insert(key, value),
{
    lemma_append_then_read(log, key, value);
    lemma_apply_push(Map::empty(), parse_records(log)->Ok_0, (key, value));
}

} // verus!
