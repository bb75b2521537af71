//! The key store: an in-memory multimap buffering keys at their destination
//! relay until the receiving SAE asks for them by identifier.
//!
//! A record is keyed by `(source SAE, key id)`. Arrivals are idempotent for
//! identical material and rejected for differing material; a read consumes
//! the record.

use crate::errors::RelayServerError;
use crate::keys::{Key, KeyId, KeyIds, KeyReceived, Keys};
use crate::util::str_eq;
use vstd::prelude::*;

verus! {

/// True when the record buffers a key from `from` under identifier `id`.
pub open spec fn rec_matches(r: KeyReceived, from: Seq<char>, id: Seq<char>) -> bool {
    r.from@ == from && r.key_id@ == id
}

/// True when some record matches `(from, id)`.
pub open spec fn has_rec(s: Seq<KeyReceived>, from: Seq<char>, id: Seq<char>) -> bool {
    exists|i: int| 0 <= i < s.len() && rec_matches(s[i], from, id)
}

/// No two records buffer the same `(source, key id)` pair.
pub open spec fn store_wf(s: Seq<KeyReceived>) -> bool {
    forall|i: int, j: int|
        0 <= i < j < s.len() ==> !(s[i].from@ == s[j].from@ && s[i].key_id@ == s[j].key_id@)
}

/// The index of the record matching `(from, id)`; unique under `store_wf`.
pub open spec fn match_idx(s: Seq<KeyReceived>, from: Seq<char>, id: Seq<char>) -> int {
    choose|i: int| 0 <= i < s.len() && rec_matches(s[i], from, id)
}

/// The store after one arrival of `r`: appended when `(source, key id)` is
/// new, untouched otherwise.
pub open spec fn put_rest(s: Seq<KeyReceived>, r: KeyReceived) -> Seq<KeyReceived> {
    if has_rec(s, r.from@, r.key_id@) {
        s
    } else {
        s.push(r)
    }
}

/// Whether an arrival of `r` is accepted: either the pair is new, or the
/// buffered material is identical.
pub open spec fn put_ok(s: Seq<KeyReceived>, r: KeyReceived) -> bool {
    !has_rec(s, r.from@, r.key_id@) || s[match_idx(s, r.from@, r.key_id@)].key@ == r.key@
}

/// The keys handed out for one requested identifier: the matching record's
/// key, or nothing.
pub open spec fn take_one_keys(s: Seq<KeyReceived>, from: Seq<char>, id: Seq<char>) -> Seq<Key> {
    if has_rec(s, from, id) {
        seq![
            (Key {
                key: s[match_idx(s, from, id)].key,
                key_id: s[match_idx(s, from, id)].key_id,
            }),
        ]
    } else {
        Seq::empty()
    }
}

/// The store after one requested identifier: the matching record removed, or
/// the store untouched.
pub open spec fn take_one_rest(s: Seq<KeyReceived>, from: Seq<char>, id: Seq<char>) -> Seq<
    KeyReceived,
> {
    if has_rec(s, from, id) {
        s.remove(match_idx(s, from, id))
    } else {
        s
    }
}

/// The keys handed out for a list of requested identifiers, in request order.
pub open spec fn taken_keys(s: Seq<KeyReceived>, from: Seq<char>, ids: Seq<KeyId>) -> Seq<Key>
    decreases ids.len(),
{
    if ids.len() == 0 {
        Seq::empty()
    } else {
        take_one_keys(s, from, ids[0].key_id@) + taken_keys(
            take_one_rest(s, from, ids[0].key_id@),
            from,
            ids.drop_first(),
        )
    }
}

/// The store left after a list of requested identifiers has been consumed.
pub open spec fn take_rest(s: Seq<KeyReceived>, from: Seq<char>, ids: Seq<KeyId>) -> Seq<
    KeyReceived,
>
    decreases ids.len(),
{
    if ids.len() == 0 {
        s
    } else {
        take_rest(take_one_rest(s, from, ids[0].key_id@), from, ids.drop_first())
    }
}

/// Under `store_wf` a `(from, id)` pair matches at most one index.
proof fn lemma_wf_unique(s: Seq<KeyReceived>, from: Seq<char>, id: Seq<char>, i: int, j: int)
    requires
        store_wf(s),
        0 <= i < s.len(),
        0 <= j < s.len(),
        rec_matches(s[i], from, id),
        rec_matches(s[j], from, id),
    ensures
        i == j,
{
}

/// Removing a record preserves pairwise distinctness of `(source, id)` pairs.
proof fn lemma_wf_remove(s: Seq<KeyReceived>, i: int)
    requires
        store_wf(s),
        0 <= i < s.len(),
    ensures
        store_wf(s.remove(i)),
{
    let t = s.remove(i);
    assert forall|a: int, b: int| 0 <= a < b < t.len() implies !(t[a].from@ == t[b].from@
        && t[a].key_id@ == t[b].key_id@) by {
        let a0 = if a < i {
            a
        } else {
            a + 1
        };
        let b0 = if b < i {
            b
        } else {
            b + 1
        };
        assert(t[a] == s[a0]);
        assert(t[b] == s[b0]);
    }
}

/// Taking one identifier preserves well-formedness and leaves no record for
/// that identifier behind.
pub proof fn lemma_take_one(s: Seq<KeyReceived>, from: Seq<char>, id: Seq<char>)
    requires
        store_wf(s),
    ensures
        store_wf(take_one_rest(s, from, id)),
        !has_rec(take_one_rest(s, from, id), from, id),
{
    if has_rec(s, from, id) {
        let i = match_idx(s, from, id);
        assert(0 <= i < s.len() && rec_matches(s[i], from, id));
        lemma_wf_remove(s, i);
        let t = s.remove(i);
        assert forall|j: int| 0 <= j < t.len() implies !rec_matches(t[j], from, id) by {
            let j0 = if j < i {
                j
            } else {
                j + 1
            };
            assert(t[j] == s[j0]);
            if rec_matches(s[j0], from, id) {
                lemma_wf_unique(s, from, id, i, j0);
            }
        }
    }
}

/// Unrolling a take list at its end: the last identifier is consumed from the
/// store that the earlier identifiers left behind.
pub proof fn lemma_take_snoc(s: Seq<KeyReceived>, from: Seq<char>, ids: Seq<KeyId>, x: KeyId)
    ensures
        taken_keys(s, from, ids.push(x)) == taken_keys(s, from, ids) + take_one_keys(
            take_rest(s, from, ids),
            from,
            x.key_id@,
        ),
        take_rest(s, from, ids.push(x)) == take_one_rest(take_rest(s, from, ids), from, x.key_id@),
    decreases ids.len(),
{
    if ids.len() == 0 {
        assert(ids.push(x)[0] == x);
        assert(ids.push(x).drop_first() =~= Seq::<KeyId>::empty());
        let s1 = take_one_rest(s, from, x.key_id@);
        assert(taken_keys(s1, from, Seq::<KeyId>::empty()) == Seq::<Key>::empty());
        assert(take_rest(s1, from, Seq::<KeyId>::empty()) == s1);
        assert(taken_keys(s, from, ids.push(x)) =~= take_one_keys(s, from, x.key_id@));
        assert(taken_keys(s, from, ids) + take_one_keys(take_rest(s, from, ids), from, x.key_id@)
            =~= take_one_keys(s, from, x.key_id@));
    } else {
        assert(ids.push(x)[0] == ids[0]);
        assert(ids.push(x).drop_first() =~= ids.drop_first().push(x));
        lemma_take_snoc(take_one_rest(s, from, ids[0].key_id@), from, ids.drop_first(), x);
    }
}

/// CONSUME-ON-READ: once an identifier has been taken from a well-formed
/// store, a second request for the same `(source, key id)` yields nothing.
pub proof fn lemma_consume_on_read(s: Seq<KeyReceived>, from: Seq<char>, kid: KeyId)
    requires
        store_wf(s),
    ensures
        !has_rec(take_rest(s, from, seq![kid]), from, kid.key_id@),
        taken_keys(take_rest(s, from, seq![kid]), from, seq![kid]) =~= Seq::<Key>::empty(),
{
    lemma_take_one(s, from, kid.key_id@);
    let s1 = take_one_rest(s, from, kid.key_id@);
    assert(seq![kid][0] == kid);
    assert(seq![kid].drop_first() =~= Seq::<KeyId>::empty());
    assert(take_rest(s1, from, Seq::<KeyId>::empty()) == s1);
    assert(take_rest(s, from, seq![kid]) == s1);
    assert(take_one_keys(s1, from, kid.key_id@) =~= Seq::<Key>::empty());
    let s2 = take_one_rest(s1, from, kid.key_id@);
    assert(s2 == s1);
    assert(taken_keys(s2, from, Seq::<KeyId>::empty()) == Seq::<Key>::empty());
    assert(taken_keys(s1, from, seq![kid]) =~= Seq::<Key>::empty());
}

/// STORE IDEMPOTENCE: a repeated arrival of the identical record leaves a
/// well-formed store unchanged and is still accepted.
pub proof fn lemma_store_idempotent(s: Seq<KeyReceived>, r: KeyReceived)
    requires
        store_wf(s),
    ensures
        store_wf(put_rest(s, r)),
        put_rest(put_rest(s, r), r) == put_rest(s, r),
        put_ok(s, r) ==> put_ok(put_rest(s, r), r),
{
    let t = put_rest(s, r);
    if has_rec(s, r.from@, r.key_id@) {
        assert(t == s);
    } else {
        assert(t == s.push(r));
        let n = s.len() as int;
        assert(rec_matches(t[n], r.from@, r.key_id@));
        assert forall|a: int, b: int| 0 <= a < b < t.len() implies !(t[a].from@ == t[b].from@
            && t[a].key_id@ == t[b].key_id@) by {
            if b < n {
                assert(t[a] == s[a] && t[b] == s[b]);
            } else {
                assert(t[b] == r);
                assert(t[a] == s[a]);
                assert(!rec_matches(s[a], r.from@, r.key_id@));
            }
        }
        assert(has_rec(t, r.from@, r.key_id@));
        let i = match_idx(t, r.from@, r.key_id@);
        lemma_wf_unique(t, r.from@, r.key_id@, i, n);
        assert(t[i].key@ == r.key@);
    }
}

/// Storing a fresh record and then asking for its identifier returns exactly
/// that key.
pub proof fn lemma_put_then_take(s: Seq<KeyReceived>, r: KeyReceived, kid: KeyId)
    requires
        store_wf(s),
        !has_rec(s, r.from@, r.key_id@),
        kid.key_id@ == r.key_id@,
    ensures
        taken_keys(put_rest(s, r), r.from@, seq![kid]) =~= seq![
            (Key { key: r.key, key_id: r.key_id }),
        ],
{
    let t = put_rest(s, r);
    assert(t == s.push(r));
    let n = s.len() as int;
    assert(rec_matches(t[n], r.from@, kid.key_id@));
    lemma_store_idempotent(s, r);
    let i = match_idx(t, r.from@, kid.key_id@);
    lemma_wf_unique(t, r.from@, kid.key_id@, i, n);
    assert(seq![kid][0] == kid);
    assert(take_one_keys(t, r.from@, kid.key_id@) =~= seq![
        (Key { key: r.key, key_id: r.key_id }),
    ]);
    assert(seq![kid].drop_first() =~= Seq::<KeyId>::empty());
    let t1 = take_one_rest(t, r.from@, kid.key_id@);
    assert(taken_keys(t1, r.from@, Seq::<KeyId>::empty()) == Seq::<Key>::empty());
    assert(taken_keys(t, r.from@, seq![kid]) =~= take_one_keys(t, r.from@, kid.key_id@));
}

/// The store after a whole batch of arrivals, in arrival order.
pub open spec fn put_all(s: Seq<KeyReceived>, recs: Seq<KeyReceived>) -> Seq<KeyReceived>
    decreases recs.len(),
{
    if recs.len() == 0 {
        s
    } else {
        put_all(put_rest(s, recs[0]), recs.drop_first())
    }
}

/// A batch whose `(source, key id)` pairs are all new simply appends.
pub proof fn lemma_put_all_appends(s: Seq<KeyReceived>, recs: Seq<KeyReceived>)
    requires
        forall|i: int|
            0 <= i < recs.len() ==> !has_rec(s, (#[trigger] recs[i]).from@, recs[i].key_id@),
        forall|i: int, j: int|
            0 <= i < j < recs.len() ==> !(recs[i].from@ == recs[j].from@ && recs[i].key_id@
                == recs[j].key_id@),
    ensures
        put_all(s, recs) == s + recs,
    decreases recs.len(),
{
    if recs.len() == 0 {
        assert(s + recs =~= s);
    } else {
        let s1 = put_rest(s, recs[0]);
        assert(s1 == s.push(recs[0]));
        let rest = recs.drop_first();
        assert forall|i: int| 0 <= i < rest.len() implies !has_rec(
            s1,
            (#[trigger] rest[i]).from@,
            rest[i].key_id@,
        ) by {
            assert(rest[i] == recs[i + 1]);
            if has_rec(s1, rest[i].from@, rest[i].key_id@) {
                let w = choose|w: int|
                    0 <= w < s1.len() && rec_matches(s1[w], rest[i].from@, rest[i].key_id@);
                if w < s.len() {
                    assert(rec_matches(s[w], recs[i + 1].from@, recs[i + 1].key_id@));
                } else {
                    assert(s1[w] == recs[0]);
                }
            }
        }
        assert forall|i: int, j: int| 0 <= i < j < rest.len() implies !(rest[i].from@
            == rest[j].from@ && rest[i].key_id@ == rest[j].key_id@) by {
            assert(rest[i] == recs[i + 1]);
            assert(rest[j] == recs[j + 1]);
        }
        lemma_put_all_appends(s1, rest);
        assert(s1 + rest =~= s + recs);
    }
}

/// Appending all-new, pairwise-distinct records keeps the store well-formed.
pub proof fn lemma_wf_append(s: Seq<KeyReceived>, recs: Seq<KeyReceived>)
    requires
        store_wf(s),
        forall|i: int|
            0 <= i < recs.len() ==> !has_rec(s, (#[trigger] recs[i]).from@, recs[i].key_id@),
        forall|i: int, j: int|
            0 <= i < j < recs.len() ==> !(recs[i].from@ == recs[j].from@ && recs[i].key_id@
                == recs[j].key_id@),
    ensures
        store_wf(s + recs),
{
    let t = s + recs;
    assert forall|a: int, b: int| 0 <= a < b < t.len() implies !(t[a].from@ == t[b].from@
        && t[a].key_id@ == t[b].key_id@) by {
        if b < s.len() {
            assert(t[a] == s[a] && t[b] == s[b]);
        } else if a < s.len() {
            assert(t[a] == s[a] && t[b] == recs[b - s.len()]);
            if t[a].from@ == t[b].from@ && t[a].key_id@ == t[b].key_id@ {
                assert(rec_matches(s[a], recs[b - s.len()].from@, recs[b - s.len()].key_id@));
            }
        } else {
            assert(t[a] == recs[a - s.len()] && t[b] == recs[b - s.len()]);
        }
    }
}

/// END-TO-END, store side, whole batch: after a delivery of records whose
/// `(source, key id)` pairs are new and pairwise distinct, requesting their
/// identifiers in delivery order returns exactly their keys, in that order.
pub proof fn lemma_take_returns_batch(
    s: Seq<KeyReceived>,
    recs: Seq<KeyReceived>,
    kids: Seq<KeyId>,
    from: Seq<char>,
)
    requires
        store_wf(s),
        kids.len() == recs.len(),
        forall|i: int| 0 <= i < recs.len() ==> (#[trigger] recs[i]).from@ == from,
        forall|i: int| 0 <= i < kids.len() ==> (#[trigger] kids[i]).key_id@ == recs[i].key_id@,
        forall|i: int|
            0 <= i < recs.len() ==> !has_rec(s, (#[trigger] recs[i]).from@, recs[i].key_id@),
        forall|i: int, j: int|
            0 <= i < j < recs.len() ==> !(recs[i].from@ == recs[j].from@ && recs[i].key_id@
                == recs[j].key_id@),
    ensures
        taken_keys(put_all(s, recs), from, kids) == recs.map_values(
            |r: KeyReceived| (Key { key: r.key, key_id: r.key_id }),
        ),
    decreases recs.len(),
{
    lemma_put_all_appends(s, recs);
    lemma_wf_append(s, recs);
    let t = s + recs;
    let expected = recs.map_values(|r: KeyReceived| (Key { key: r.key, key_id: r.key_id }));
    if recs.len() == 0 {
        assert(taken_keys(t, from, kids) == Seq::<Key>::empty());
        assert(expected =~= Seq::<Key>::empty());
    } else {
        let n = s.len() as int;
        assert(t[n] == recs[0]);
        assert(rec_matches(t[n], from, kids[0].key_id@));
        let m = match_idx(t, from, kids[0].key_id@);
        lemma_wf_unique(t, from, kids[0].key_id@, m, n);
        assert(take_one_keys(t, from, kids[0].key_id@) =~= seq![
            (Key { key: recs[0].key, key_id: recs[0].key_id }),
        ]);
        let t1 = take_one_rest(t, from, kids[0].key_id@);
        assert(t1 == t.remove(n));
        assert(t1 =~= s + recs.drop_first());
        assert forall|i: int| 0 <= i < recs.drop_first().len() implies !has_rec(
            s,
            (#[trigger] recs.drop_first()[i]).from@,
            recs.drop_first()[i].key_id@,
        ) by {
            assert(recs.drop_first()[i] == recs[i + 1]);
        }
        assert forall|i: int, j: int| 0 <= i < j < recs.drop_first().len() implies !(
        recs.drop_first()[i].from@ == recs.drop_first()[j].from@ && recs.drop_first()[i].key_id@
            == recs.drop_first()[j].key_id@) by {
            assert(recs.drop_first()[i] == recs[i + 1]);
            assert(recs.drop_first()[j] == recs[j + 1]);
        }
        assert forall|i: int| 0 <= i < kids.drop_first().len() implies (#[trigger] kids.drop_first()[i]).key_id@
            == recs.drop_first()[i].key_id@ by {
            assert(kids.drop_first()[i] == kids[i + 1]);
            assert(recs.drop_first()[i] == recs[i + 1]);
        }
        lemma_take_returns_batch(s, recs.drop_first(), kids.drop_first(), from);
        lemma_put_all_appends(s, recs.drop_first());
        assert(put_all(s, recs.drop_first()) == s + recs.drop_first());
        assert(taken_keys(t1, from, kids.drop_first()) == recs.drop_first().map_values(
            |r: KeyReceived| (Key { key: r.key, key_id: r.key_id }),
        ));
        assert(taken_keys(t, from, kids) == take_one_keys(t, from, kids[0].key_id@) + taken_keys(
            t1,
            from,
            kids.drop_first(),
        ));
        assert(expected =~= seq![(Key { key: recs[0].key, key_id: recs[0].key_id })]
            + recs.drop_first().map_values(
            |r: KeyReceived| (Key { key: r.key, key_id: r.key_id }),
        ));
    }
}

/// The per-destination key store. Records are unique by `(source, key id)`.
pub struct KeyStore {
    records: Vec<KeyReceived>,
}

impl View for KeyStore {
    type V = Seq<KeyReceived>;

    closed spec fn view(&self) -> Seq<KeyReceived> {
        self.records@
    }
}

impl KeyStore {
    /// Records are pairwise distinct by `(source, key id)`.
    pub open spec fn wf(&self) -> bool {
        store_wf(self@)
    }

    pub fn new() -> (r: Self)
        ensures
            r@ == Seq::<KeyReceived>::empty(),
            r.wf(),
    {
        KeyStore { records: Vec::new() }
    }

    /// Position of the first record matching `(from, key_id)`.
    fn find_pos(&self, from: &str, key_id: &str) -> (r: Option<usize>)
        ensures
            match r {
                Some(i) => i < self@.len() && rec_matches(self@[i as int], from@, key_id@),
                None => !has_rec(self@, from@, key_id@),
            },
    {
        let n: usize = self.records.len();
        let mut i: usize = 0;
        while i < n
            invariant
                i <= n,
                n == self@.len(),
                forall|j: int| 0 <= j < i ==> !rec_matches(self@[j], from@, key_id@),
            decreases n - i,
        {
            let rec = &self.records[i];
            if str_eq(rec.from.as_str(), from) && str_eq(rec.key_id.as_str(), key_id) {
                return Some(i);
            }
            i = i + 1;
        }
        None
    }

    /// One arrival: appended when the `(source, key id)` pair is new, ignored
    /// when the identical record is already buffered, and rejected with
    /// `KeysDoNotMatch` when the buffered material differs. The store is
    /// never overwritten.
    pub fn add_key(&mut self, from: String, key_id: String, key: String) -> (r: Result<
        (),
        RelayServerError,
    >)
        requires
            old(self).wf(),
        ensures
            final(self).wf(),
            final(self)@ == put_rest(
                old(self)@,
                (KeyReceived { from: from, key_id: key_id, key: key }),
            ),
            r is Ok <==> put_ok(old(self)@, (KeyReceived { from: from, key_id: key_id, key: key })),
            r is Err ==> (r matches Err(RelayServerError::KeysDoNotMatch)),
    {
        let ghost rec = (KeyReceived { from: from, key_id: key_id, key: key });
        match self.find_pos(from.as_str(), key_id.as_str()) {
            Some(i) => {
                proof {
                    let k = match_idx(self@, rec.from@, rec.key_id@);
                    lemma_wf_unique(self@, rec.from@, rec.key_id@, k, i as int);
                }
                if str_eq(self.records[i].key.as_str(), key.as_str()) {
                    Ok(())
                } else {
                    Err(RelayServerError::KeysDoNotMatch)
                }
            },
            None => {
                proof {
                    lemma_store_idempotent(self@, rec);
                }
                self.records.push(KeyReceived::new(from, key_id, key));
                Ok(())
            },
        }
    }

    /// Consume-on-read lookup: for each requested identifier, in request
    /// order, remove the record buffered from `from` under that identifier
    /// and hand its key out; identifiers with no record are simply absent
    /// from the result.
    pub fn get_key(&mut self, from: &str, key_ids: &KeyIds) -> (r: Keys)
        requires
            old(self).wf(),
        ensures
            final(self).wf(),
            final(self)@ == take_rest(old(self)@, from@, key_ids.key_ids@),
            r.keys@ == taken_keys(old(self)@, from@, key_ids.key_ids@),
    {
        let ghost s0 = self@;
        let n: usize = key_ids.key_ids.len();
        let mut out: Vec<Key> = Vec::new();
        let mut i: usize = 0;
        while i < n
            invariant
                i <= n,
                n == key_ids.key_ids@.len(),
                store_wf(s0),
                self.wf(),
                self@ == take_rest(s0, from@, key_ids.key_ids@.take(i as int)),
                out@ == taken_keys(s0, from@, key_ids.key_ids@.take(i as int)),
            decreases n - i,
        {
            let ghost ids_i = key_ids.key_ids@.take(i as int);
            let kid = &key_ids.key_ids[i];
            proof {
                assert(key_ids.key_ids@.take(i + 1) =~= ids_i.push(key_ids.key_ids@[i as int]));
                lemma_take_snoc(s0, from@, ids_i, key_ids.key_ids@[i as int]);
            }
            match self.find_pos(from, kid.key_id.as_str()) {
                Some(p) => {
                    proof {
                        let k = match_idx(self@, from@, kid.key_id@);
                        lemma_wf_unique(self@, from@, kid.key_id@, k, p as int);
                        lemma_take_one(self@, from@, kid.key_id@);
                    }
                    let rec = self.records.remove(p);
                    out.push(Key { key: rec.key, key_id: rec.key_id });
                },
                None => {},
            }
            i = i + 1;
        }
        proof {
            assert(key_ids.key_ids@.take(n as int) =~= key_ids.key_ids@);
        }
        Keys { keys: out }
    }
}

} // verus!
