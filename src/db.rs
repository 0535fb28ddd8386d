use vstd::prelude::*;

use crate::path::{get_at, get_path, path_view, set_at, set_path};
use crate::value::{group_value_lemmas, items_view, Json, Value};
use crate::wal::{
    lemma_record_round_trip, make_record, read_record, record_of, record_parts, strings_view,
};

verus! {

broadcast use vstd::std_specs::vec::group_vec_axioms, vstd::seq::group_seq_axioms, group_value_lemmas;

/// Why an operation on the store failed.
#[derive(Debug, Clone, Copy, PartialEq, Eq, Structural)]
pub enum DbError {
    /// The snapshot or a log record is malformed, the snapshot's root is not
    /// an object, or a log record cannot be applied.
    Parse,
    /// A write ran through a value that is not an object.
    TypePath,
}

/// Applies the log records `records`, in order, to `doc`; `None` as soon as
/// one is malformed or cannot be applied.
pub open spec fn replay(doc: Json, records: Seq<Json>) -> Option<Json>
    decreases records.len(),
{
    if records.len() == 0 {
        Some(doc)
    } else {
        match replay(doc, records.drop_last()) {
            Some(d) => match record_parts(records.last()) {
                Some((p, v)) => set_path(d, p, v),
                None => None,
            },
            None => None,
        }
    }
}

/// The document that opening a store yields from its snapshot and its log:
/// the log replayed onto the snapshot, whose root must be an object.
pub open spec fn recover(snapshot: Json, records: Seq<Json>) -> Option<Json> {
    if snapshot is Object {
        replay(snapshot, records)
    } else {
        None
    }
}

/// A successful write leaves an object at the root.
pub proof fn lemma_set_keeps_object(doc: Json, path: Seq<Seq<char>>, v: Json)
    ensures
        set_path(doc, path, v) is Some ==> set_path(doc, path, v)->Some_0 is Object,
{
}

/// A successful replay onto an object leaves an object.
pub proof fn lemma_replay_keeps_object(doc: Json, records: Seq<Json>)
    requires
        doc is Object,
    ensures
        replay(doc, records) is Some ==> replay(doc, records)->Some_0 is Object,
    decreases records.len(),
{
    if records.len() > 0 {
        lemma_replay_keeps_object(doc, records.drop_last());
        if let Some(d) = replay(doc, records.drop_last()) {
            if let Some((p, v)) = record_parts(records.last()) {
                lemma_set_keeps_object(d, p, v);
            }
        }
    }
}

/// The document store: a tree of values whose root is an object.
pub struct Database {
    data: Value,
}

impl Database {
    /// The root of the document is always an object.
    #[verifier::type_invariant]
    spec fn root_is_object(&self) -> bool {
        self.data@ is Object
    }
}

impl View for Database {
    type V = Json;

    closed spec fn view(&self) -> Json {
        self.data@
    }
}

impl Database {
    /// Opens a store from its snapshot and the records of its log, replaying
    /// the records in order onto the snapshot.
    pub fn open(snapshot: Value, records: &Vec<Value>) -> (r: Result<Database, DbError>)
        ensures
            match recover(snapshot@, items_view(records@)) {
                Some(d) => r is Ok && r->Ok_0@ == d,
                None => r == Err::<Database, DbError>(DbError::Parse),
            },
            r is Ok ==> r->Ok_0@ is Object,
    {
        let ghost recs = items_view(records@);
        proof {
            crate::value::lemma_items_view(records@);
        }
        match snapshot {
            Value::Object(_) => {},
            _ => {
                return Err(DbError::Parse);
            },
        }
        let mut db = Database { data: snapshot };
        let ghost snap = db.data@;
        let mut i: usize = 0;
        assert(recs.take(0).len() == 0);
        while i < records.len()
            invariant
                i <= records.len(),
                recs == items_view(records@),
                recs.len() == records@.len(),
                forall|j: int| 0 <= j < records@.len() ==> #[trigger] recs[j] == records@[j]@,
                snap is Object,
                snap == snapshot@,
                recover(snap, recs) == replay(snap, recs),
                replay(snap, recs.take(i as int)) == Some(db@),
            decreases records.len() - i,
        {
            assert(recs.take(i + 1).drop_last() =~= recs.take(i as int));
            assert(recs.take(i + 1).last() == records@[i as int]@);
            match read_record(&records[i]) {
                Some((path, value)) => {
                    let mut segs: Vec<&str> = Vec::new();
                    let mut j: usize = 0;
                    while j < path.len()
                        invariant
                            j <= path.len(),
                            segs@.len() == j,
                            forall|k: int| 0 <= k < j ==> #[trigger] segs@[k]@ == path@[k]@,
                        decreases path.len() - j,
                    {
                        segs.push(path[j].as_str());
                        j = j + 1;
                    }
                    assert(path_view(segs@) =~= strings_view(path@));
                    let ghost before = db@;
                    if db.silently_set(segs.as_slice(), value).is_err() {
                        assert(record_parts(recs.take(i + 1).last()) == Some((path_view(segs@), value@)));
                        assert(set_path(before, path_view(segs@), value@) is None);
                        assert(replay(snap, recs.take(i + 1)) is None);
                        proof {
                            lemma_replay_none_stays(snap, recs, i as int + 1);
                        }
                        return Err(DbError::Parse);
                    }
                },
                None => {
                    assert(replay(snap, recs.take(i + 1)) is None);
                    proof {
                        lemma_replay_none_stays(snap, recs, i as int + 1);
                    }
                    return Err(DbError::Parse);
                },
            }
            i = i + 1;
        }
        assert(recs.take(i as int) =~= recs);
        proof {
            lemma_replay_keeps_object(snap, recs);
        }
        Ok(db)
    }

    /// The value at `path`; null where the path leads nowhere.
    pub fn get(&self, path: &[&str]) -> (r: &Value)
        ensures
            self@ is Object,
            r@ == get_path(self@, path_view(path@)),
    {
        proof {
            use_type_invariant(self);
        }
        get_at(&self.data, path)
    }

    /// The whole document, as it is to be written to the snapshot.
    pub fn document(&self) -> (r: &Value)
        ensures
            r@ == self@,
            r@ is Object,
    {
        proof {
            use_type_invariant(self);
        }
        &self.data
    }

    /// Writes `value` at `path` in memory only, creating missing
    /// intermediate objects. On failure the document is left as it was.
    fn silently_set(&mut self, path: &[&str], value: Value) -> (r: Result<(), DbError>)
        requires
            path.len() > 0,
        ensures
            final(self)@ is Object,
            match set_path(old(self)@, path_view(path@), value@) {
                Some(d) => r is Ok && final(self)@ == d,
                None => r == Err::<(), DbError>(DbError::TypePath) && final(self)@ == old(self)@,
            },
    {
        proof {
            use_type_invariant(&*self);
        }
        assert(path_view(path@).skip(0) =~= path_view(path@));
        let placeholder: Vec<(String, Value)> = Vec::new();
        proof {
            crate::value::lemma_object_view(placeholder);
        }
        let mut root = Value::Object(placeholder);
        core::mem::swap(&mut root, &mut self.data);
        match set_at(root, path, 0, value) {
            Ok(n) => {
                proof {
                    lemma_set_keeps_object(old(self)@, path_view(path@), value@);
                }
                self.data = n;
                Ok(())
            },
            Err(o) => {
                self.data = o;
                Err(DbError::TypePath)
            },
        }
    }

    /// Writes `value` at `path` and returns the log record to append for it.
    /// A null value removes the key. When the path runs through a value that
    /// is not an object, nothing changes and no record is made.
    pub fn set(&mut self, path: &[&str], value: Value) -> (r: Result<Value, DbError>)
        requires
            path.len() > 0,
        ensures
            final(self)@ is Object,
            match set_path(old(self)@, path_view(path@), value@) {
                Some(d) => {
                    &&& r is Ok
                    &&& final(self)@ == d
                    &&& r->Ok_0@ == record_of(path_view(path@), value@)
                },
                None => r == Err::<Value, DbError>(DbError::TypePath) && final(self)@ == old(self)@,
            },
    {
        let record = make_record(path, value.deep_copy());
        match self.silently_set(path, value) {
            Ok(()) => Ok(record),
            Err(e) => Err(e),
        }
    }
}

/// Once a prefix of the log fails to replay, the whole log does.
pub proof fn lemma_replay_none_stays(doc: Json, records: Seq<Json>, n: int)
    requires
        0 <= n <= records.len(),
        replay(doc, records.take(n)) is None,
    ensures
        replay(doc, records) is None,
    decreases records.len() - n,
{
    if n < records.len() {
        assert(records.take(n + 1).drop_last() =~= records.take(n));
        lemma_replay_none_stays(doc, records, n + 1);
    } else {
        assert(records.take(n) =~= records);
    }
}

/// The document that the writes `writes` produce when made in turn on `doc`,
/// or `None` as soon as one of them fails.
pub open spec fn apply_writes(doc: Json, writes: Seq<(Seq<Seq<char>>, Json)>) -> Option<Json>
    decreases writes.len(),
{
    if writes.len() == 0 {
        Some(doc)
    } else {
        match apply_writes(doc, writes.drop_last()) {
            Some(d) => set_path(d, writes.last().0, writes.last().1),
            None => None,
        }
    }
}

/// The log records that the writes `writes` leave behind, one each, in order.
pub open spec fn records_of(writes: Seq<(Seq<Seq<char>>, Json)>) -> Seq<Json> {
    writes.map_values(|w: (Seq<Seq<char>>, Json)| record_of(w.0, w.1))
}

/// Replay reproduces the writes: when a sequence of writes succeeds on a
/// snapshot, opening the store from that same (stale) snapshot and the log
/// records of those writes yields exactly the document that the writes
/// produced in memory.
pub proof fn lemma_replay_reproduces_writes(
    snapshot: Json,
    writes: Seq<(Seq<Seq<char>>, Json)>,
)
    requires
        snapshot is Object,
        forall|i: int| 0 <= i < writes.len() ==> (#[trigger] writes[i]).0.len() > 0,
        apply_writes(snapshot, writes) is Some,
    ensures
        recover(snapshot, records_of(writes)) == apply_writes(snapshot, writes),
    decreases writes.len(),
{
    if writes.len() > 0 {
        let front = writes.drop_last();
        assert forall|i: int| 0 <= i < front.len() implies (#[trigger] front[i]).0.len() > 0 by {
            assert(front[i] == writes[i]);
        }
        lemma_replay_reproduces_writes(snapshot, front);
        assert(records_of(writes).drop_last() =~= records_of(front));
        let w = writes.last();
        assert(writes[writes.len() - 1] == w);
        lemma_record_round_trip(w.0, w.1);
        assert(records_of(writes).last() == record_of(w.0, w.1));
    } else {
        assert(records_of(writes) =~= Seq::<Json>::empty());
    }
}

} // verus!
