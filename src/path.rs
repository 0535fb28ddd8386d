use vstd::prelude::*;

use crate::value::{entries_view, group_value_lemmas, lemma_object_view, Json, Value};

verus! {

broadcast use vstd::std_specs::vec::group_vec_axioms, vstd::seq::group_seq_axioms, group_value_lemmas;

/// The segments of a path, as character sequences.
pub open spec fn path_view(p: Seq<&str>) -> Seq<Seq<char>> {
    Seq::new(p.len(), |i: int| p[i]@)
}

/// Where key `k` stands among the entries `es`: the last index that holds it,
/// or -1 when no entry does.
pub open spec fn key_index(es: Seq<(Seq<char>, Json)>, k: Seq<char>) -> int
    decreases es.len(),
{
    if es.len() == 0 {
        -1
    } else if es.last().0 == k {
        es.len() - 1
    } else {
        key_index(es.drop_last(), k)
    }
}

/// What reading `path` from `doc` yields: the value found by descending
/// through objects one segment at a time, or null as soon as a segment is
/// missing or the value reached is not an object.
pub open spec fn get_path(doc: Json, path: Seq<Seq<char>>) -> Json
    decreases path.len(),
{
    if path.len() == 0 {
        doc
    } else {
        match doc {
            Json::Object(es) => {
                let i = key_index(es, path[0]);
                if i < 0 {
                    Json::Null
                } else {
                    get_path(es[i].1, path.drop_first())
                }
            },
            _ => Json::Null,
        }
    }
}

/// The entries `es` without any entry that holds key `k`.
pub open spec fn without_key(es: Seq<(Seq<char>, Json)>, k: Seq<char>) -> Seq<(Seq<char>, Json)>
    decreases es.len(),
{
    if es.len() == 0 {
        es
    } else if es.last().0 == k {
        without_key(es.drop_last(), k)
    } else {
        without_key(es.drop_last(), k).push(es.last())
    }
}

/// The entries `es` after storing `v` under key `k`: null removes the key,
/// any other value replaces the entry or is appended as a new one.
pub open spec fn put_entry(es: Seq<(Seq<char>, Json)>, k: Seq<char>, v: Json) -> Seq<
    (Seq<char>, Json),
> {
    let i = key_index(es, k);
    if v == Json::Null {
        without_key(es, k)
    } else if i < 0 {
        es.push((k, v))
    } else {
        es.update(i, (k, v))
    }
}

/// What writing `v` at `path` into `doc` yields, or `None` when the path
/// runs through a value that is not an object. Missing intermediate keys
/// are created as empty objects.
pub open spec fn set_path(doc: Json, path: Seq<Seq<char>>, v: Json) -> Option<Json>
    decreases path.len(),
{
    match doc {
        Json::Object(es) => {
            if path.len() == 0 {
                None
            } else if path.len() == 1 {
                Some(Json::Object(put_entry(es, path[0], v)))
            } else {
                let i = key_index(es, path[0]);
                let child = if i < 0 {
                    Json::Object(Seq::empty())
                } else {
                    es[i].1
                };
                match child {
                    Json::Object(_) => match set_path(child, path.drop_first(), v) {
                        Some(c) => Some(
                            Json::Object(
                                if i < 0 {
                                    es.push((path[0], c))
                                } else {
                                    es.update(i, (path[0], c))
                                },
                            ),
                        ),
                        None => None,
                    },
                    _ => None,
                }
            }
        },
        _ => None,
    }
}

/// Finds the entry that holds `key`.
pub fn find_key(entries: &Vec<(String, Value)>, key: &str) -> (r: Option<usize>)
    ensures
        match r {
            Some(i) => i < entries.len() && i as int == key_index(
                entries_view(entries@),
                key@,
            ),
            None => key_index(entries_view(entries@), key@) == -1,
        },
{
    let ghost ev = entries_view(entries@);
    let k = key.to_owned();
    let mut i: usize = entries.len();
    assert(ev.subrange(0, i as int) =~= ev);
    while i > 0
        invariant
            i <= entries.len(),
            ev == entries_view(entries@),
            k@ == key@,
            key_index(ev, k@) == key_index(ev.subrange(0, i as int), k@),
        decreases i,
    {
        assert(ev.subrange(0, i as int).last() == ev[i - 1]);
        if entries[i - 1].0 == k {
            return Some(i - 1);
        }
        assert(ev.subrange(0, i as int).drop_last() =~= ev.subrange(0, i - 1));
        i = i - 1;
    }
    assert(ev.subrange(0, 0) =~= Seq::<(Seq<char>, Json)>::empty());
    None
}

/// Removes every entry that holds `key`.
pub fn remove_key(entries: &mut Vec<(String, Value)>, key: &str)
    ensures
        entries_view(final(entries)@) == without_key(entries_view(old(entries)@), key@),
{
    let ghost orig = old(entries)@;
    let ghost es = entries_view(orig);
    let k = key.to_owned();
    let mut i: usize = 0;
    let ghost mut m: int = 0;
    proof {
        crate::value::lemma_entries_view(orig);
    }
    assert(es.take(0) =~= Seq::<(Seq<char>, Json)>::empty());
    assert(entries_view(entries@).take(0) =~= Seq::<(Seq<char>, Json)>::empty());
    while i < entries.len()
        invariant
            0 <= i <= m <= orig.len(),
            i <= entries.len(),
            entries.len() - i == orig.len() - m,
            es == entries_view(orig),
            es.len() == orig.len(),
            forall|j: int| 0 <= j < orig.len() ==> #[trigger] es[j] == (orig[j].0@, orig[j].1@),
            k@ == key@,
            entries_view(entries@).take(i as int) == without_key(es.take(m), k@),
            forall|j: int| i <= j < entries.len() ==> #[trigger] entries@[j] == orig[m + (j - i)],
        decreases entries.len() - i,
    {
        proof {
            crate::value::lemma_entries_view(entries@);
        }
        let ghost before = entries_view(entries@);
        assert(es.take(m + 1).drop_last() =~= es.take(m));
        assert(es.take(m + 1).last() == es[m]);
        assert(entries@[i as int] == orig[m]);
        if entries[i].0 == k {
            entries.remove(i);
            proof {
                crate::value::lemma_entries_view(entries@);
            }
            assert(entries_view(entries@).take(i as int) =~= before.take(i as int));
        } else {
            proof {
                crate::value::lemma_entries_view(entries@);
            }
            assert(entries_view(entries@).take(i + 1) =~= before.take(i as int).push(es[m]));
            i = i + 1;
        }
        proof {
            m = m + 1;
        }
    }
    proof {
        crate::value::lemma_entries_view(entries@);
    }
    assert(es.take(m) =~= es);
    assert(entries_view(entries@).take(i as int) =~= entries_view(entries@));
}

/// The index that `key_index` gives is in range, holds the key, and no
/// later entry holds it.
pub proof fn lemma_key_index(es: Seq<(Seq<char>, Json)>, k: Seq<char>)
    ensures
        -1 <= key_index(es, k) < es.len(),
        key_index(es, k) >= 0 ==> es[key_index(es, k)].0 == k,
        forall|j: int| key_index(es, k) < j < es.len() ==> (#[trigger] es[j]).0 != k,
    decreases es.len(),
{
    if es.len() > 0 && es.last().0 != k {
        let front = es.drop_last();
        lemma_key_index(front, k);
        assert forall|j: int| key_index(es, k) < j < es.len() implies (#[trigger] es[j]).0 != k by {
            if j < es.len() - 1 {
                assert(es[j] == front[j]);
            }
        }
    }
}

/// An entry that holds the key, with no later entry holding it, is the one
/// that `key_index` finds.
pub proof fn lemma_key_index_is(es: Seq<(Seq<char>, Json)>, k: Seq<char>, i: int)
    requires
        0 <= i < es.len(),
        es[i].0 == k,
        forall|j: int| i < j < es.len() ==> (#[trigger] es[j]).0 != k,
    ensures
        key_index(es, k) == i,
    decreases es.len(),
{
    if i < es.len() - 1 {
        let front = es.drop_last();
        assert(es[es.len() - 1].0 != k);
        assert forall|j: int| i < j < front.len() implies (#[trigger] front[j]).0 != k by {
            assert(front[j] == es[j]);
        }
        lemma_key_index_is(front, k, i);
    }
}

/// After an entry for `k` is stored at the place `key_index` gives (or
/// appended when there is none), `key_index` finds it there.
pub proof fn lemma_key_index_after_store(es: Seq<(Seq<char>, Json)>, k: Seq<char>, c: Json)
    ensures
        ({
            let i = key_index(es, k);
            let stored = if i < 0 {
                es.push((k, c))
            } else {
                es.update(i, (k, c))
            };
            let at = if i < 0 {
                es.len() as int
            } else {
                i
            };
            key_index(stored, k) == at && stored[at] == (k, c)
        }),
{
    lemma_key_index(es, k);
    let i = key_index(es, k);
    if i < 0 {
        let stored = es.push((k, c));
        assert(stored.drop_last() =~= es);
    } else {
        let stored = es.update(i, (k, c));
        assert forall|j: int| i < j < stored.len() implies (#[trigger] stored[j]).0 != k by {
            assert(stored[j] == es[j]);
        }
        lemma_key_index_is(stored, k, i);
    }
}

/// Once every entry for `k` is removed, `key_index` finds none.
pub proof fn lemma_without_key(es: Seq<(Seq<char>, Json)>, k: Seq<char>)
    ensures
        key_index(without_key(es, k), k) == -1,
    decreases es.len(),
{
    if es.len() > 0 {
        lemma_without_key(es.drop_last(), k);
        let front = without_key(es.drop_last(), k);
        if es.last().0 != k {
            assert(front.push(es.last()).drop_last() =~= front);
        }
    }
}

/// Reading a path right after a successful write there returns the value
/// written; after a write of null (a deletion) it returns null.
pub proof fn lemma_get_after_set(doc: Json, path: Seq<Seq<char>>, v: Json)
    requires
        set_path(doc, path, v) is Some,
    ensures
        get_path(set_path(doc, path, v)->Some_0, path) == v,
    decreases path.len(),
{
    let es = doc->Object_0;
    let k = path[0];
    lemma_key_index(es, k);
    let i = key_index(es, k);
    if path.len() == 1 && v == Json::Null {
        lemma_without_key(es, k);
    } else if path.len() == 1 {
        lemma_key_index_after_store(es, k, v);
        let stored = put_entry(es, k, v);
        assert(set_path(doc, path, v) == Some(Json::Object(stored)));
        let at = key_index(stored, k);
        assert(stored[at] == (k, v));
        assert(get_path(Json::Object(stored), path) == get_path(v, path.drop_first()));
        assert(path.drop_first().len() == 0);
    } else {
        let child = if i < 0 {
            Json::Object(Seq::empty())
        } else {
            es[i].1
        };
        let rest = path.drop_first();
        lemma_get_after_set(child, rest, v);
        let c = set_path(child, rest, v)->Some_0;
        lemma_key_index_after_store(es, k, c);
        let stored = if i < 0 {
            es.push((k, c))
        } else {
            es.update(i, (k, c))
        };
        assert(set_path(doc, path, v) == Some(Json::Object(stored)));
        let at = key_index(stored, k);
        assert(stored[at] == (k, c));
        assert(get_path(Json::Object(stored), path) == get_path(c, rest));
    }
}

/// Reads the value at `path` below `node`; null where the path leads nowhere.
pub fn get_at<'a>(node: &'a Value, path: &[&str]) -> (r: &'a Value)
    ensures
        r@ == get_path(node@, path_view(path@)),
{
    let ghost pv = path_view(path@);
    let mut cur: &'a Value = node;
    let mut i: usize = 0;
    assert(pv.skip(0) =~= pv);
    while i < path.len()
        invariant
            i <= path.len(),
            pv == path_view(path@),
            get_path(node@, pv) == get_path(cur@, pv.skip(i as int)),
        decreases path.len() - i,
    {
        assert(pv.skip(i as int).drop_first() =~= pv.skip(i + 1));
        assert(pv.skip(i as int)[0] == path[i as int]@);
        match cur {
            Value::Object(entries) => {
                proof {
                    lemma_object_view(*entries);
                }
                match find_key(entries, path[i]) {
                    Some(j) => {
                        cur = &entries[j].1;
                    },
                    None => {
                        return &Value::Null;
                    },
                }
            },
            _ => {
                return &Value::Null;
            },
        }
        i = i + 1;
    }
    assert(pv.skip(i as int) =~= Seq::<Seq<char>>::empty());
    cur
}

/// Writes `value` at `path[start..]` below `node`. On success the new node is
/// returned; where the path runs through a value that is not an object, the
/// node comes back unchanged as the error.
pub fn set_at(node: Value, path: &[&str], start: usize, value: Value) -> (r: Result<Value, Value>)
    requires
        start < path.len(),
    ensures
        match set_path(node@, path_view(path@).skip(start as int), value@) {
            Some(n) => r is Ok && r->Ok_0@ == n,
            None => r is Err && r->Err_0@ == node@,
        },
    decreases path.len() - start,
{
    let ghost pv = path_view(path@).skip(start as int);
    let ghost old_node = node@;
    assert(pv[0] == path[start as int]@);
    assert(pv.drop_first() =~= path_view(path@).skip(start + 1));
    match node {
        Value::Object(mut entries) => {
            proof {
                lemma_object_view(entries);
            }
            let ghost es = entries_view(entries@);
            let key = path[start];
            let found = find_key(&entries, key);
            if start + 1 == path.len() {
                match value {
                    Value::Null => {
                        remove_key(&mut entries, key);
                    },
                    _ => {
                        let ghost v = value@;
                        match found {
                            Some(i) => {
                                entries.remove(i);
                                entries.insert(i, (key.to_owned(), value));
                                assert(entries_view(entries@) =~= es.update(i as int, (key@, v)));
                            },
                            None => {
                                entries.push((key.to_owned(), value));
                                assert(entries_view(entries@) =~= es.push((key@, v)));
                            },
                        }
                    },
                }
                proof {
                    lemma_object_view(entries);
                }
                Ok(Value::Object(entries))
            } else {
                match found {
                    Some(i) => {
                        proof {
                            lemma_key_index(es, key@);
                        }
                        let (k, child) = entries.remove(i);
                        let ghost removed = entries@;
                        assert(k@ == key@);
                        match child {
                            Value::Object(_) => {
                                match set_at(child, path, start + 1, value) {
                                    Ok(c) => {
                                        let ghost cv = c@;
                                        entries.insert(i, (k, c));
                                        assert(entries_view(entries@) =~= es.update(
                                            i as int,
                                            (key@, cv),
                                        ));
                                        proof {
                                            lemma_object_view(entries);
                                        }
                                        Ok(Value::Object(entries))
                                    },
                                    Err(c) => {
                                        entries.insert(i, (k, c));
                                        assert(entries_view(entries@) =~= es);
                                        proof {
                                            lemma_object_view(entries);
                                        }
                                        Err(Value::Object(entries))
                                    },
                                }
                            },
                            _ => {
                                entries.insert(i, (k, child));
                                assert(entries_view(entries@) =~= es);
                                proof {
                                    lemma_object_view(entries);
                                }
                                Err(Value::Object(entries))
                            },
                        }
                    },
                    None => {
                        let empty: Vec<(String, Value)> = Vec::new();
                        proof {
                            lemma_object_view(empty);
                        }
                        let fresh = Value::Object(empty);
                        assert(fresh@ == Json::Object(Seq::empty())) by {
                            assert(entries_view(empty@) =~= Seq::empty());
                        }
                        match set_at(fresh, path, start + 1, value) {
                            Ok(c) => {
                                let ghost cv = c@;
                                entries.push((key.to_owned(), c));
                                assert(entries_view(entries@) =~= es.push((key@, cv)));
                                proof {
                                    lemma_object_view(entries);
                                }
                                Ok(Value::Object(entries))
                            },
                            Err(_) => {
                                proof {
                                    lemma_object_view(entries);
                                }
                                Err(Value::Object(entries))
                            },
                        }
                    },
                }
            }
        },
        other => Err(other),
    }
}

} // verus!
