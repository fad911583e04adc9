use vstd::prelude::*;

verus! {

use vstd::bytes::lemma_auto_spec_u64_to_from_le_bytes;
use vstd::string::StringExecFns;
use vstd::utf8::encode_utf8;
use crate::codec::{encode_meta, meta_wf, encode_metadata, decode_metadata,
    lemma_encode_meta_injective};
use crate::hash::{keccak_hex_of, get_hash};
use crate::store::{StateStore, StateEntry, entry_addr, stored_bytes, is_prefix_of,
    prefix_scan_matches, SUCCESS_CODE};

/// How a StoreMap operation fails: the key or the construction parameters
/// were rejected before any store call, the underlying store reported a
/// failure, or the persisted metadata record could not be parsed.
#[derive(Clone, Copy, Debug, PartialEq, Eq, Structural)]
pub enum StoreMapError {
    ValidationError,
    StoreError,
    CorruptMetadata,
}

/// The character sequences of a vector of key segments.
pub open spec fn seg_views(key: Seq<String>) -> Seq<Seq<char>> {
    Seq::new(key.len(), |i: int| key[i]@)
}

/// A composite key is valid for a map when it has exactly `depth` segments,
/// every one of them non-empty.
pub open spec fn valid_key(segs: Seq<Seq<char>>, depth: u64) -> bool {
    segs.len() == depth && (forall|i: int| 0 <= i < segs.len() ==> #[trigger] segs[i].len() != 0)
}

/// The storage key derived from a composite key: the map name followed by
/// the raw segments, joined with no separator.
pub open spec fn joined_key(name: Seq<char>, segs: Seq<Seq<char>>) -> Seq<char>
    decreases segs.len(),
{
    if segs.len() == 0 {
        name
    } else {
        joined_key(name, segs.drop_last()) + segs.last()
    }
}

/// The field identifier derived from a composite key: a chained hash that
/// starts from the digest of the name and, for each segment in order,
/// appends the segment to the previous hex digest and hashes the UTF-8 bytes
/// of that string.
pub open spec fn derived_field(name: Seq<char>, segs: Seq<Seq<char>>) -> Seq<char>
    decreases segs.len(),
{
    if segs.len() == 0 {
        keccak_hex_of(encode_utf8(name))
    } else {
        keccak_hex_of(encode_utf8(derived_field(name, segs.drop_last()) + segs.last()))
    }
}

/// The storage key under which a map's metadata record is persisted: the
/// name followed by the hex digest of the name.
pub open spec fn meta_key(name: Seq<char>) -> Seq<char> {
    name + keccak_hex_of(encode_utf8(name))
}

/// The bytes persisted at the metadata address of `name`: the metadata key,
/// with an empty field.
pub open spec fn meta_stored(m: Map<(Seq<char>, Seq<char>), Seq<u8>>, name: Seq<char>) -> Seq<u8> {
    stored_bytes(m, meta_key(name), Seq::<char>::empty())
}

/// Compute the storage key of the metadata record of `name`.
pub fn metadata_state_key(name: &str) -> (r: String)
    ensures
        r@ == meta_key(name@),
{
    let map_key = get_hash(name.as_bytes());
    let mut state_key = name.to_owned();
    state_key.append(map_key.as_str());
    state_key
}

/// A handle on one nested map: its name and the fixed number of segments of
/// every composite key, bound once by get-or-create construction and
/// immutable thereafter.
#[derive(Debug)]
pub struct StoreMap {
    name: String,
    depth: u64,
}

impl StoreMap {
    /// The map's name.
    pub closed spec fn spec_name(self) -> Seq<char> {
        self.name@
    }

    /// The map's key depth.
    pub closed spec fn spec_depth(self) -> u64 {
        self.depth
    }

    /// The instance invariant: a positive depth and a non-empty name.
    pub open spec fn wf(self) -> bool {
        meta_wf(self.spec_name(), self.spec_depth())
    }

    /// The map's name.
    pub fn name(&self) -> (r: &String)
        ensures
            r@ == self.spec_name(),
    {
        &self.name
    }

    /// The map's key depth.
    pub fn depth(&self) -> (r: u64)
        ensures
            r == self.spec_depth(),
    {
        self.depth
    }

    /// Get-or-create construction. With a positive `depth` and a non-empty
    /// `name`, the metadata record persisted at the metadata key of `name`
    /// is read: bytes found there are parsed and the stored record wins over
    /// the caller's arguments; corrupt bytes are a `CorruptMetadata`
    /// failure; and where nothing is stored, the record `{name, depth}` is
    /// persisted before the handle is returned. Invalid arguments are a
    /// `ValidationError`, and a failing store read or write a `StoreError`;
    /// the store is only changed on the successful first creation.
    pub fn new<S: StateStore>(ctx: &mut S, name: &str, depth: u64) -> (r: Result<
        StoreMap,
        StoreMapError,
    >)
        requires
            old(ctx).inv(),
        ensures
            final(ctx).inv(),
            !meta_wf(name@, depth) <==> r == Err::<StoreMap, StoreMapError>(
                StoreMapError::ValidationError,
            ),
            r matches Ok(m) ==> m.wf() && ({
                let stored = meta_stored(old(ctx).entries(), name@);
                if stored.len() != 0 {
                    final(ctx).entries() == old(ctx).entries() && stored == encode_meta(
                        m.spec_name(),
                        m.spec_depth(),
                    )
                } else {
                    m.spec_name() == name@ && m.spec_depth() == depth && final(ctx).entries()
                        == old(ctx).entries().insert(
                        (meta_key(name@), Seq::<char>::empty()),
                        encode_meta(name@, depth),
                    )
                }
            }),
            r == Err::<StoreMap, StoreMapError>(StoreMapError::CorruptMetadata) ==> ({
                let stored = meta_stored(old(ctx).entries(), name@);
                &&& stored.len() != 0
                &&& final(ctx).entries() == old(ctx).entries()
                &&& forall|n: Seq<char>, d: u64| meta_wf(n, d) ==> stored != encode_meta(n, d)
            }),
            r == Err::<StoreMap, StoreMapError>(StoreMapError::StoreError) ==> final(ctx).entries()
                == old(ctx).entries(),
    {
        if depth == 0 {
            return Err(StoreMapError::ValidationError);
        }
        if name.is_empty() {
            return Err(StoreMapError::ValidationError);
        }
        let state_key = metadata_state_key(name);
        let empty_field = String::new();
        let state_bytes = match ctx.get_state(&state_key, &empty_field) {
            Ok(data) => data,
            Err(_) => {
                return Err(StoreMapError::StoreError);
            },
        };
        if state_bytes.len() != 0 {
            match decode_metadata(state_bytes.as_slice()) {
                Some(parsed) => Ok(StoreMap { name: parsed.0, depth: parsed.1 }),
                None => {
                    proof {
                        assert forall|n: Seq<char>, d: u64| meta_wf(n, d) implies meta_stored(
                            old(ctx).entries(),
                            name@,
                        ) != encode_meta(n, d) by {}
                    }
                    Err(StoreMapError::CorruptMetadata)
                },
            }
        } else {
            let store_map = StoreMap { name: name.to_owned(), depth };
            match store_map.save(ctx, &state_key) {
                Ok(_) => Ok(store_map),
                Err(e) => Err(e),
            }
        }
    }

    /// Read the raw bytes stored under a composite key; empty bytes mean the
    /// key is absent.
    pub fn get<S: StateStore>(&self, ctx: &S, key: &Vec<String>) -> (r: Result<
        Vec<u8>,
        StoreMapError,
    >)
        requires
            self.wf(),
            ctx.inv(),
        ensures
            !valid_key(seg_views(key@), self.spec_depth()) <==> r == Err::<Vec<u8>, StoreMapError>(
                StoreMapError::ValidationError,
            ),
            r matches Ok(v) ==> v@ == stored_bytes(
                ctx.entries(),
                joined_key(self.spec_name(), seg_views(key@)),
                derived_field(self.spec_name(), seg_views(key@)),
            ),
            r != Err::<Vec<u8>, StoreMapError>(StoreMapError::CorruptMetadata),
    {
        if let Some(e) = self.check_depth(key) {
            return Err(e);
        }
        let derived = self.generate_key(key);
        match ctx.get_state(&derived.0, &derived.1) {
            Ok(res) => Ok(res),
            Err(_) => Err(StoreMapError::StoreError),
        }
    }

    /// Write raw bytes under a composite key.
    pub fn set<S: StateStore>(&self, ctx: &mut S, key: &Vec<String>, value: &[u8]) -> (r: Result<
        (),
        StoreMapError,
    >)
        requires
            self.wf(),
            old(ctx).inv(),
        ensures
            final(ctx).inv(),
            !valid_key(seg_views(key@), self.spec_depth()) <==> r == Err::<(), StoreMapError>(
                StoreMapError::ValidationError,
            ),
            r matches Ok(u) ==> final(ctx).entries() == old(ctx).entries().insert(
                (
                    joined_key(self.spec_name(), seg_views(key@)),
                    derived_field(self.spec_name(), seg_views(key@)),
                ),
                value@,
            ),
            r matches Err(e) ==> final(ctx).entries() == old(ctx).entries(),
            r != Err::<(), StoreMapError>(StoreMapError::CorruptMetadata),
    {
        if let Some(e) = self.check_depth(key) {
            return Err(e);
        }
        let derived = self.generate_key(key);
        let re = ctx.put_state(&derived.0, &derived.1, value);
        if re != SUCCESS_CODE {
            return Err(StoreMapError::StoreError);
        }
        Ok(())
    }

    /// Remove the entry stored under a composite key.
    pub fn del<S: StateStore>(&self, ctx: &mut S, key: &Vec<String>) -> (r: Result<
        (),
        StoreMapError,
    >)
        requires
            self.wf(),
            old(ctx).inv(),
        ensures
            final(ctx).inv(),
            !valid_key(seg_views(key@), self.spec_depth()) <==> r == Err::<(), StoreMapError>(
                StoreMapError::ValidationError,
            ),
            r matches Ok(u) ==> final(ctx).entries() == old(ctx).entries().remove(
                (
                    joined_key(self.spec_name(), seg_views(key@)),
                    derived_field(self.spec_name(), seg_views(key@)),
                ),
            ),
            r matches Err(e) ==> final(ctx).entries() == old(ctx).entries(),
            r != Err::<(), StoreMapError>(StoreMapError::CorruptMetadata),
    {
        if let Some(e) = self.check_depth(key) {
            return Err(e);
        }
        let derived = self.generate_key(key);
        if ctx.delete_state(&derived.0, &derived.1) != SUCCESS_CODE {
            return Err(StoreMapError::StoreError);
        }
        Ok(())
    }

    /// Whether a composite key holds a non-empty value. A failing store read
    /// is surfaced as a `StoreError`, never as `false`.
    pub fn exist<S: StateStore>(&self, ctx: &S, key: &Vec<String>) -> (r: Result<
        bool,
        StoreMapError,
    >)
        requires
            self.wf(),
            ctx.inv(),
        ensures
            !valid_key(seg_views(key@), self.spec_depth()) <==> r == Err::<bool, StoreMapError>(
                StoreMapError::ValidationError,
            ),
            r matches Ok(b) ==> b == (stored_bytes(
                ctx.entries(),
                joined_key(self.spec_name(), seg_views(key@)),
                derived_field(self.spec_name(), seg_views(key@)),
            ).len() != 0),
            r != Err::<bool, StoreMapError>(StoreMapError::CorruptMetadata),
    {
        if let Some(e) = self.check_depth(key) {
            return Err(e);
        }
        let derived = self.generate_key(key);
        match ctx.get_state(&derived.0, &derived.1) {
            Ok(data) => {
                if data.len() > 0 {
                    return Ok(true);
                }
            },
            Err(_) => {
                return Err(StoreMapError::StoreError);
            },
        }
        Ok(false)
    }

    /// Request all stored entries whose storage key starts with the
    /// iteration key built from the given segments. The segment list is not
    /// validated against the depth: a shorter list is the normal case and
    /// scans everything under a sub-key.
    pub fn new_iterator_prefix_with_key<S: StateStore>(&self, ctx: &S, key: &Vec<String>) -> (r:
        Result<Vec<StateEntry>, i32>)
        requires
            ctx.inv(),
        ensures
            r matches Ok(v) ==> prefix_scan_matches(
                ctx.entries(),
                joined_key(self.spec_name(), seg_views(key@)),
                v@,
            ),
    {
        let itertor_key = self.generate_itertor_key(key);
        ctx.new_iterator_prefix_with_key(&itertor_key)
    }

    /// Persist this map's metadata record under its metadata key.
    fn save<S: StateStore>(&self, ctx: &mut S, state_key: &String) -> (r: Result<
        (),
        StoreMapError,
    >)
        requires
            old(ctx).inv(),
        ensures
            final(ctx).inv(),
            r matches Ok(u) ==> final(ctx).entries() == old(ctx).entries().insert(
                (state_key@, Seq::<char>::empty()),
                encode_meta(self.spec_name(), self.spec_depth()),
            ),
            r matches Err(e) ==> e == StoreMapError::StoreError && final(ctx).entries() == old(
                ctx,
            ).entries(),
    {
        let store_map_bytes = encode_metadata(self.name.as_str(), self.depth);
        let empty_field = String::new();
        if ctx.put_state(state_key, &empty_field, store_map_bytes.as_slice()) != SUCCESS_CODE {
            return Err(StoreMapError::StoreError);
        }
        Ok(())
    }

    /// Validate a composite key: every segment non-empty and exactly
    /// `depth` segments.
    fn check_depth(&self, key: &Vec<String>) -> (r: Option<StoreMapError>)
        ensures
            r is None <==> valid_key(seg_views(key@), self.spec_depth()),
            r matches Some(e) ==> e == StoreMapError::ValidationError,
    {
        let n = key.len();
        let mut i: usize = 0;
        while i < n
            invariant
                n == key@.len(),
                forall|j: int| 0 <= j < i ==> #[trigger] key@[j]@.len() != 0,
            decreases n - i,
        {
            if key[i].as_str().is_empty() {
                assert(seg_views(key@)[i as int].len() == 0);
                return Some(StoreMapError::ValidationError);
            }
            i += 1;
        }
        if self.depth != n as u64 {
            return Some(StoreMapError::ValidationError);
        }
        assert forall|j: int| 0 <= j < seg_views(key@).len() implies #[trigger] seg_views(
            key@,
        )[j].len() != 0 by {}
        None
    }

    /// Derive the (storage key, field identifier) pair of a composite key.
    fn generate_key(&self, key: &Vec<String>) -> (r: (String, String))
        ensures
            r.0@ == joined_key(self.spec_name(), seg_views(key@)),
            r.1@ == derived_field(self.spec_name(), seg_views(key@)),
    {
        let ghost segs = seg_views(key@);
        let mut field = get_hash(self.name.as_str().as_bytes());
        let n = key.len();
        let mut i: usize = 0;
        while i < n
            invariant
                i <= n,
                n == key@.len(),
                segs == seg_views(key@),
                field@ == derived_field(self.name@, segs.take(i as int)),
            decreases n - i,
        {
            field.append(key[i].as_str());
            proof {
                assert(segs.take(i + 1).drop_last() =~= segs.take(i as int));
                assert(segs.take(i + 1).last() == segs[i as int]);
            }
            field = get_hash(field.as_str().as_bytes());
            i += 1;
        }
        proof {
            assert(segs.take(n as int) =~= segs);
        }
        let gened_key = self.generate_itertor_key(key);
        (gened_key, field)
    }

    /// Build the iteration key of a (possibly partial) segment list: the
    /// name followed by the raw segments, joined with no separator.
    fn generate_itertor_key(&self, key: &Vec<String>) -> (r: String)
        ensures
            r@ == joined_key(self.spec_name(), seg_views(key@)),
    {
        let ghost segs = seg_views(key@);
        let mut gened_key = self.name.clone();
        let n = key.len();
        let mut i: usize = 0;
        while i < n
            invariant
                i <= n,
                n == key@.len(),
                segs == seg_views(key@),
                gened_key@ == joined_key(self.name@, segs.take(i as int)),
            decreases n - i,
        {
            gened_key.append(key[i].as_str());
            proof {
                assert(segs.take(i + 1).drop_last() =~= segs.take(i as int));
                assert(segs.take(i + 1).last() == segs[i as int]);
            }
            i += 1;
        }
        proof {
            assert(segs.take(n as int) =~= segs);
        }
        gened_key
    }
}

/// Get-or-create is an idempotent read-through: once a first creation has
/// persisted the record `{name, depth}` in a store that held no metadata
/// for `name`, the metadata bytes any later construction for `name` reads
/// back are exactly that record's encoding — so the later call returns
/// `{name, depth}` whatever depth argument it passes.
pub proof fn lemma_get_or_create_idempotent(
    m: Map<(Seq<char>, Seq<char>), Seq<u8>>,
    name: Seq<char>,
    depth: u64,
    n2: Seq<char>,
    d2: u64,
)
    requires
        meta_wf(name, depth),
        meta_stored(
            m.insert((meta_key(name), Seq::<char>::empty()), encode_meta(name, depth)),
            name,
        ) == encode_meta(n2, d2),
    ensures
        n2 == name,
        d2 == depth,
        meta_stored(
            m.insert((meta_key(name), Seq::<char>::empty()), encode_meta(name, depth)),
            name,
        ).len() != 0,
{
    let m2 = m.insert((meta_key(name), Seq::<char>::empty()), encode_meta(name, depth));
    assert(m2.contains_key((meta_key(name), Seq::<char>::empty())));
    assert(meta_stored(m2, name) == encode_meta(name, depth));
    lemma_encode_meta_injective(n2, d2, name, depth);
    lemma_auto_spec_u64_to_from_le_bytes();
}

/// Round trip: writing a value under a composite key and then reading the
/// same key back yields exactly that value.
pub proof fn lemma_set_get_round_trip(
    m: Map<(Seq<char>, Seq<char>), Seq<u8>>,
    name: Seq<char>,
    segs: Seq<Seq<char>>,
    value: Seq<u8>,
)
    ensures
        stored_bytes(
            m.insert((joined_key(name, segs), derived_field(name, segs)), value),
            joined_key(name, segs),
            derived_field(name, segs),
        ) == value,
{
}

/// Deleting a composite key leaves empty bytes at its address: a get after
/// the delete returns empty bytes, and an existence check finds nothing.
pub proof fn lemma_delete_get_empty(
    m: Map<(Seq<char>, Seq<char>), Seq<u8>>,
    name: Seq<char>,
    segs: Seq<Seq<char>>,
)
    ensures
        stored_bytes(
            m.remove((joined_key(name, segs), derived_field(name, segs))),
            joined_key(name, segs),
            derived_field(name, segs),
        ) == Seq::<u8>::empty(),
{
}

/// A prefix scan over a leading sub-list of a composite key's segments
/// yields the entry stored under the full key: its storage key extends the
/// iteration key, so the scan's completeness guarantee covers it.
pub proof fn lemma_prefix_scan_covers_sub_keys(
    m: Map<(Seq<char>, Seq<char>), Seq<u8>>,
    name: Seq<char>,
    segs: Seq<Seq<char>>,
    n: int,
    v: Seq<StateEntry>,
)
    requires
        0 <= n <= segs.len(),
        prefix_scan_matches(m, joined_key(name, segs.take(n)), v),
        m.contains_key((joined_key(name, segs), derived_field(name, segs))),
    ensures
        exists|i: int|
            0 <= i < v.len() && #[trigger] entry_addr(v[i]) == (
                joined_key(name, segs),
                derived_field(name, segs),
            ),
{
    lemma_joined_key_prefix(name, segs, n);
}

/// The storage key of a shorter segment list is a prefix of the storage key
/// of any extension of it, so a prefix scan over the shorter list covers
/// every entry stored under the longer one.
pub proof fn lemma_joined_key_prefix(name: Seq<char>, segs: Seq<Seq<char>>, n: int)
    requires
        0 <= n <= segs.len(),
    ensures
        is_prefix_of(joined_key(name, segs.take(n)), joined_key(name, segs)),
    decreases segs.len(),
{
    if n == segs.len() {
        assert(segs.take(n) =~= segs);
        let j = joined_key(name, segs);
        assert(j.subrange(0, j.len() as int) =~= j);
    } else {
        lemma_joined_key_prefix(name, segs.drop_last(), n);
        assert(segs.drop_last().take(n) =~= segs.take(n));
        let p = joined_key(name, segs.take(n));
        let a = joined_key(name, segs.drop_last());
        let j = joined_key(name, segs);
        assert(j == a + segs.last());
        assert(j.subrange(0, p.len() as int) =~= a.subrange(0, p.len() as int));
    }
}

} // verus!
