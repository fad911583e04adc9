use vstd::prelude::*;

verus! {

use vstd::slice::slice_to_vec;
use vstd::string::StrSliceExecFns;

/// Status code with which the store reports a successful write or delete.
pub const SUCCESS_CODE: i32 = 0;

/// One persisted entry of the flat store: a (key, field) address and the raw
/// bytes stored under it.
pub struct StateEntry {
    pub key: String,
    pub field: String,
    pub value: Vec<u8>,
}

/// The (key, field) address of an entry, as character sequences.
pub open spec fn entry_addr(e: StateEntry) -> (Seq<char>, Seq<char>) {
    (e.key@, e.field@)
}

/// The bytes stored at an address: the mapped value where the address is
/// present, and empty bytes otherwise — empty bytes signal absence.
pub open spec fn stored_bytes(
    m: Map<(Seq<char>, Seq<char>), Seq<u8>>,
    key: Seq<char>,
    field: Seq<char>,
) -> Seq<u8> {
    if m.contains_key((key, field)) {
        m[(key, field)]
    } else {
        Seq::empty()
    }
}

/// `p` is a prefix of `s`.
pub open spec fn is_prefix_of(p: Seq<char>, s: Seq<char>) -> bool {
    p.len() <= s.len() && s.subrange(0, p.len() as int) == p
}

/// What a prefix scan returns: every yielded entry is stored under its
/// address and its key starts with the prefix, and every stored entry whose
/// key starts with the prefix is yielded.
pub open spec fn prefix_scan_matches(
    m: Map<(Seq<char>, Seq<char>), Seq<u8>>,
    prefix: Seq<char>,
    v: Seq<StateEntry>,
) -> bool {
    &&& forall|i: int|
        0 <= i < v.len() ==> #[trigger] m.contains_key(entry_addr(v[i])) && m[entry_addr(v[i])]
            == v[i].value@ && is_prefix_of(prefix, v[i].key@)
    &&& forall|k: Seq<char>, f: Seq<char>|
        #[trigger] m.contains_key((k, f)) && is_prefix_of(prefix, k) ==> exists|i: int|
            0 <= i < v.len() && #[trigger] entry_addr(v[i]) == (k, f)
}

/// The flat transactional state store that the host execution environment
/// exposes: a (key, field)-addressed byte store with prefix iteration. Its
/// contents are modelled as a map from addresses to values; reads may fail,
/// and writes and deletes report failure through a status code, in which
/// case the store is unchanged.
pub trait StateStore {
    /// Validity of the store's own representation.
    spec fn inv(&self) -> bool;

    /// The store's contents.
    spec fn entries(&self) -> Map<(Seq<char>, Seq<char>), Seq<u8>>;

    /// Read the bytes at an address; empty bytes mean the address is absent.
    /// A failing read is an error, not an empty result.
    fn get_state(&self, key: &String, field: &String) -> (r: Result<Vec<u8>, i32>)
        requires
            self.inv(),
        ensures
            r matches Ok(v) ==> v@ == stored_bytes(self.entries(), key@, field@),
    ;

    /// Write the bytes at an address. `SUCCESS_CODE` marks success; any other
    /// code is a failure that leaves the store unchanged.
    fn put_state(&mut self, key: &String, field: &String, value: &[u8]) -> (code: i32)
        requires
            old(self).inv(),
        ensures
            final(self).inv(),
            code == SUCCESS_CODE ==> final(self).entries() == old(self).entries().insert(
                (key@, field@),
                value@,
            ),
            code != SUCCESS_CODE ==> final(self).entries() == old(self).entries(),
    ;

    /// Remove the entry at an address, with the same success-code convention
    /// as `put_state`.
    fn delete_state(&mut self, key: &String, field: &String) -> (code: i32)
        requires
            old(self).inv(),
        ensures
            final(self).inv(),
            code == SUCCESS_CODE ==> final(self).entries() == old(self).entries().remove((key@, field@)),
            code != SUCCESS_CODE ==> final(self).entries() == old(self).entries(),
    ;

    /// Return all stored entries whose key starts with `prefix`; failure is
    /// reported through a status code of its own.
    fn new_iterator_prefix_with_key(&self, prefix: &String) -> (r: Result<Vec<StateEntry>, i32>)
        requires
            self.inv(),
        ensures
            r matches Ok(v) ==> prefix_scan_matches(self.entries(), prefix@, v@),
    ;
}

/// No two items of the sequence share an address.
spec fn seq_wf(items: Seq<StateEntry>) -> bool {
    forall|i: int, j: int|
        0 <= i < j < items.len() ==> #[trigger] entry_addr(items[i]) != #[trigger] entry_addr(
            items[j],
        )
}

/// The map held by a sequence of entries with pairwise distinct addresses.
spec fn seq_contents(items: Seq<StateEntry>) -> Map<(Seq<char>, Seq<char>), Seq<u8>> {
    Map::new(
        |p: (Seq<char>, Seq<char>)|
            exists|i: int| 0 <= i < items.len() && #[trigger] entry_addr(items[i]) == p,
        |p: (Seq<char>, Seq<char>)|
            items[choose|i: int| 0 <= i < items.len() && #[trigger] entry_addr(items[i]) == p].value@,
    )
}

proof fn lemma_seq_contents_at(items: Seq<StateEntry>, i: int)
    requires
        seq_wf(items),
        0 <= i < items.len(),
    ensures
        seq_contents(items).contains_key(entry_addr(items[i])),
        seq_contents(items)[entry_addr(items[i])] == items[i].value@,
{
    let p = entry_addr(items[i]);
    assert(exists|j: int| 0 <= j < items.len() && #[trigger] entry_addr(items[j]) == p);
    let j = choose|j: int| 0 <= j < items.len() && #[trigger] entry_addr(items[j]) == p;
    if j != i {
        assert(entry_addr(items[if i < j {
            i
        } else {
            j
        }]) != entry_addr(items[if i < j {
            j
        } else {
            i
        }]));
    }
}

proof fn lemma_seq_contents_push(items: Seq<StateEntry>, e: StateEntry)
    requires
        seq_wf(items),
        !seq_contents(items).contains_key(entry_addr(e)),
    ensures
        seq_wf(items.push(e)),
        seq_contents(items.push(e)) == seq_contents(items).insert(entry_addr(e), e.value@),
{
    let post = items.push(e);
    let p = entry_addr(e);
    assert forall|i: int, j: int| 0 <= i < j < post.len() implies #[trigger] entry_addr(post[i])
        != #[trigger] entry_addr(post[j]) by {
        if j == items.len() {
            assert(post[j] == e);
            assert(post[i] == items[i]);
            if entry_addr(items[i]) == p {
                assert(exists|k: int|
                    0 <= k < items.len() && #[trigger] entry_addr(items[k]) == p);
            }
        } else {
            assert(post[i] == items[i]);
            assert(post[j] == items[j]);
        }
    }
    assert forall|q: (Seq<char>, Seq<char>)|
        true implies #[trigger] seq_contents(post).contains_key(q) == seq_contents(
        items,
    ).insert(p, e.value@).contains_key(q) by {
        if q == p {
            assert(entry_addr(post[items.len() as int]) == q);
        } else {
            if seq_contents(post).contains_key(q) {
                let i = choose|i: int|
                    0 <= i < post.len() && #[trigger] entry_addr(post[i]) == q;
                assert(post[i] == items[i]);
            }
            if seq_contents(items).contains_key(q) {
                let i = choose|i: int|
                    0 <= i < items.len() && #[trigger] entry_addr(items[i]) == q;
                assert(entry_addr(post[i]) == q);
            }
        }
    }
    assert forall|q: (Seq<char>, Seq<char>)| seq_contents(post).contains_key(q)
        implies #[trigger] seq_contents(post)[q] == seq_contents(items).insert(
        p,
        e.value@,
    )[q] by {
        let i = choose|i: int| 0 <= i < post.len() && #[trigger] entry_addr(post[i]) == q;
        lemma_seq_contents_at(post, i);
        if q == p {
            if i != items.len() {
                assert(post[i] == items[i]);
                assert(exists|k: int|
                    0 <= k < items.len() && #[trigger] entry_addr(items[k]) == p);
            }
            assert(post[items.len() as int] == e);
        } else {
            assert(i != items.len());
            assert(post[i] == items[i]);
            lemma_seq_contents_at(items, i);
        }
    }
    assert(seq_contents(post) =~= seq_contents(items).insert(p, e.value@));
}

proof fn lemma_seq_contents_swap_remove(items: Seq<StateEntry>, idx: int)
    requires
        seq_wf(items),
        0 <= idx < items.len(),
    ensures
        seq_wf(items.update(idx, items.last()).drop_last()),
        seq_contents(items.update(idx, items.last()).drop_last()) == seq_contents(items).remove(
            entry_addr(items[idx]),
        ),
{
    let post = items.update(idx, items.last()).drop_last();
    let p = entry_addr(items[idx]);
    let n = items.len() as int;
    assert(post.len() == n - 1);
    assert forall|a: int| 0 <= a < n - 1 implies post[a] == items[if a == idx {
        n - 1
    } else {
        a
    }] by {}
    assert forall|a: int, b: int| 0 <= a < b < post.len() implies #[trigger] entry_addr(post[a])
        != #[trigger] entry_addr(post[b]) by {
        let oa: int = if a == idx {
            n - 1
        } else {
            a
        };
        let ob: int = if b == idx {
            n - 1
        } else {
            b
        };
        assert(entry_addr(items[if oa < ob {
            oa
        } else {
            ob
        }]) != entry_addr(items[if oa < ob {
            ob
        } else {
            oa
        }]));
    }
    assert forall|q: (Seq<char>, Seq<char>)|
        true implies #[trigger] seq_contents(post).contains_key(q) == seq_contents(items).remove(
        p,
    ).contains_key(q) by {
        if seq_contents(post).contains_key(q) {
            let a = choose|i: int| 0 <= i < post.len() && #[trigger] entry_addr(post[i]) == q;
            let oa: int = if a == idx {
                n - 1
            } else {
                a
            };
            assert(entry_addr(items[oa]) == q);
            if q == p {
                if oa != idx {
                    assert(entry_addr(items[if oa < idx {
                        oa
                    } else {
                        idx
                    }]) != entry_addr(items[if oa < idx {
                        idx
                    } else {
                        oa
                    }]));
                }
            }
        }
        if q != p && seq_contents(items).contains_key(q) {
            let i = choose|i: int| 0 <= i < items.len() && #[trigger] entry_addr(items[i]) == q;
            if i == n - 1 {
                if idx < n - 1 {
                    assert(entry_addr(post[idx]) == q);
                }
            } else if i != idx {
                assert(entry_addr(post[i]) == q);
            }
        }
    }
    assert forall|q: (Seq<char>, Seq<char>)| seq_contents(post).contains_key(q)
        implies #[trigger] seq_contents(post)[q] == seq_contents(items).remove(p)[q] by {
        let a = choose|i: int| 0 <= i < post.len() && #[trigger] entry_addr(post[i]) == q;
        lemma_seq_contents_at(post, a);
        let oa: int = if a == idx {
            n - 1
        } else {
            a
        };
        assert(items[oa] == post[a]);
        lemma_seq_contents_at(items, oa);
    }
    assert(seq_contents(post) =~= seq_contents(items).remove(p));
}

/// Returns whether `p@` is a prefix of `s@`, comparing character by
/// character.
fn str_is_prefix(p: &String, s: &String) -> (r: bool)
    ensures
        r == is_prefix_of(p@, s@),
{
    let pl = p.as_str().unicode_len();
    let sl = s.as_str().unicode_len();
    if pl > sl {
        return false;
    }
    let mut i: usize = 0;
    while i < pl
        invariant
            i <= pl,
            pl == p@.len(),
            sl == s@.len(),
            pl <= sl,
            forall|j: int| 0 <= j < i ==> p@[j] == s@[j],
        decreases pl - i,
    {
        if p.as_str().get_char(i) != s.as_str().get_char(i) {
            proof {
                if is_prefix_of(p@, s@) {
                    assert(p@[i as int] == s@.subrange(0, p@.len() as int)[i as int]);
                }
            }
            return false;
        }
        i += 1;
    }
    proof {
        assert(s@.subrange(0, p@.len() as int) =~= p@);
    }
    true
}

/// An in-memory state store: the same contract as the host store, held in a
/// vector of entries with pairwise distinct addresses. Its operations never
/// fail, which makes it a faithful stand-in for the host in tests.
pub struct MemStore {
    items: Vec<StateEntry>,
}

impl MemStore {
    /// An empty in-memory store.
    pub fn new() -> (r: MemStore)
        ensures
            r.inv(),
            r.entries() == Map::<(Seq<char>, Seq<char>), Seq<u8>>::empty(),
    {
        let r = MemStore { items: Vec::new() };
        proof {
            assert(r.entries() =~= Map::<(Seq<char>, Seq<char>), Seq<u8>>::empty());
        }
        r
    }

    /// Remove the entry at the given address, if one is held.
    fn remove_entry(&mut self, key: &String, field: &String)
        requires
            old(self).inv(),
        ensures
            final(self).inv(),
            final(self).entries() == old(self).entries().remove((key@, field@)),
            !final(self).entries().contains_key((key@, field@)),
    {
        let n = self.items.len();
        let mut idx: usize = 0;
        while idx < n
            invariant
                n == self.items@.len(),
                seq_wf(self.items@),
                *self == *old(self),
                forall|j: int|
                    0 <= j < idx ==> #[trigger] entry_addr(self.items@[j]) != (key@, field@),
            decreases n - idx,
        {
            if self.items[idx].key == *key && self.items[idx].field == *field {
                proof {
                    lemma_seq_contents_swap_remove(self.items@, idx as int);
                }
                let _ = self.items.swap_remove(idx);
                proof {
                    assert(!self.entries().contains_key((key@, field@)));
                }
                return ;
            }
            idx += 1;
        }
        proof {
            if self.entries().contains_key((key@, field@)) {
                let i = choose|i: int|
                    0 <= i < self.items@.len() && #[trigger] entry_addr(self.items@[i]) == (
                    key@,
                    field@,
                );
            }
            assert(self.entries() =~= old(self).entries().remove((key@, field@)));
        }
    }
}

impl StateStore for MemStore {
    closed spec fn inv(&self) -> bool {
        seq_wf(self.items@)
    }

    closed spec fn entries(&self) -> Map<(Seq<char>, Seq<char>), Seq<u8>> {
        seq_contents(self.items@)
    }

    fn get_state(&self, key: &String, field: &String) -> (r: Result<Vec<u8>, i32>) {
        let n = self.items.len();
        let mut idx: usize = 0;
        while idx < n
            invariant
                n == self.items@.len(),
                seq_wf(self.items@),
                forall|j: int|
                    0 <= j < idx ==> #[trigger] entry_addr(self.items@[j]) != (key@, field@),
            decreases n - idx,
        {
            if self.items[idx].key == *key && self.items[idx].field == *field {
                let v = slice_to_vec(self.items[idx].value.as_slice());
                proof {
                    lemma_seq_contents_at(self.items@, idx as int);
                }
                return Ok(v);
            }
            idx += 1;
        }
        proof {
            if self.entries().contains_key((key@, field@)) {
                let i = choose|i: int|
                    0 <= i < self.items@.len() && #[trigger] entry_addr(self.items@[i]) == (
                    key@,
                    field@,
                );
            }
        }
        Ok(Vec::new())
    }

    fn put_state(&mut self, key: &String, field: &String, value: &[u8]) -> (code: i32) {
        self.remove_entry(key, field);
        let e = StateEntry { key: key.clone(), field: field.clone(), value: slice_to_vec(value) };
        proof {
            lemma_seq_contents_push(self.items@, e);
        }
        self.items.push(e);
        proof {
            assert(old(self).entries().remove((key@, field@)).insert((key@, field@), value@)
                =~= old(self).entries().insert((key@, field@), value@));
        }
        SUCCESS_CODE
    }

    fn delete_state(&mut self, key: &String, field: &String) -> (code: i32) {
        self.remove_entry(key, field);
        SUCCESS_CODE
    }

    fn new_iterator_prefix_with_key(&self, prefix: &String) -> (r: Result<Vec<StateEntry>, i32>) {
        let mut out: Vec<StateEntry> = Vec::new();
        let n = self.items.len();
        let mut idx: usize = 0;
        while idx < n
            invariant
                n == self.items@.len(),
                seq_wf(self.items@),
                forall|i: int|
                    0 <= i < out@.len() ==> #[trigger] self.entries().contains_key(
                        entry_addr(out@[i]),
                    ) && self.entries()[entry_addr(out@[i])] == out@[i].value@ && is_prefix_of(
                        prefix@,
                        out@[i].key@,
                    ),
                forall|j: int|
                    0 <= j < idx && is_prefix_of(prefix@, #[trigger] self.items@[j].key@)
                        ==> exists|i: int|
                        0 <= i < out@.len() && #[trigger] entry_addr(out@[i]) == entry_addr(
                            self.items@[j],
                        ),
            decreases n - idx,
        {
            if str_is_prefix(prefix, &self.items[idx].key) {
                let e = StateEntry {
                    key: self.items[idx].key.clone(),
                    field: self.items[idx].field.clone(),
                    value: slice_to_vec(self.items[idx].value.as_slice()),
                };
                proof {
                    lemma_seq_contents_at(self.items@, idx as int);
                    assert(entry_addr(e) == entry_addr(self.items@[idx as int]));
                }
                let ghost prev_out = out@;
                out.push(e);
                proof {
                    assert forall|j: int|
                        0 <= j <= idx && is_prefix_of(
                            prefix@,
                            #[trigger] self.items@[j].key@,
                        ) implies exists|i: int|
                        0 <= i < out@.len() && #[trigger] entry_addr(out@[i]) == entry_addr(
                            self.items@[j],
                        ) by {
                        if j == idx {
                            assert(entry_addr(out@[prev_out.len() as int]) == entry_addr(
                                self.items@[j],
                            ));
                        } else {
                            let i = choose|i: int|
                                0 <= i < prev_out.len() && #[trigger] entry_addr(prev_out[i])
                                    == entry_addr(self.items@[j]);
                            assert(entry_addr(out@[i]) == entry_addr(self.items@[j]));
                        }
                    }
                }
            }
            idx += 1;
        }
        proof {
            assert forall|k: Seq<char>, f: Seq<char>|
                #[trigger] self.entries().contains_key((k, f)) && is_prefix_of(prefix@, k)
                implies exists|i: int|
                0 <= i < out@.len() && #[trigger] entry_addr(out@[i]) == (k, f) by {
                let j = choose|j: int|
                    0 <= j < self.items@.len() && #[trigger] entry_addr(self.items@[j]) == (k, f);
                assert(self.items@[j].key@ == k);
                assert(is_prefix_of(prefix@, self.items@[j].key@));
            }
        }
        Ok(out)
    }
}

} // verus!
