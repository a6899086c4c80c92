//! The immutable shift table: a minimal perfect hash map from record
//! identifier to shift triple, and the runtime lookup against it.
//!
//! The hash state (seed, displacements and slot order) comes from the `phf`
//! family of crates and is trusted only as far as the contracts below; the
//! lookup itself re-checks the stored key, and its correctness proof rests on
//! the stated perfect-hash property alone.

use vstd::prelude::*;

use crate::grid::spec_key;
use crate::shift::Shift;

verus! {

/// No two keys are the same.
pub open spec fn distinct_keys(ids: Seq<i32>) -> bool {
    forall|i: int, j: int| 0 <= i < j < ids.len() ==> ids[i] != ids[j]
}

/// The position of `id` in `ids` (meaningful when `ids` contains `id` and is
/// duplicate-free).
pub open spec fn idx_of(ids: Seq<i32>, id: i32) -> int {
    choose|i: int| 0 <= i < ids.len() && ids[i] == id
}

/// The mapping that a key column and a value column of equal length stand
/// for: each key maps to the value at its position.
pub open spec fn assoc_map(ids: Seq<i32>, vals: Seq<(Shift, Shift, Shift)>) -> Map<
    i32,
    (Shift, Shift, Shift),
> {
    Map::new(|k: i32| ids.contains(k), |k: i32| vals[idx_of(ids, k)])
}

/// The hash state that `phf_generator::generate_hash` derives from a key
/// column: seed, displacements, and the slot order. The generator seeds its
/// search with a fixed constant, so the state is a function of the keys
/// alone.
pub uninterp spec fn phf_state_of(keys: Seq<i32>) -> (u64, Seq<(u32, u32)>, Seq<usize>);

/// The slot that the phf hash of `key` under `hash_key` and `disps` selects
/// in a table of `len` slots. The hash reads the key's bytes only, so the
/// slot is a function of these arguments alone, on every machine.
pub uninterp spec fn phf_index_of(key: i32, hash_key: u64, disps: Seq<(u32, u32)>, len: usize) -> usize;

/// What makes a hash state a minimal perfect hash for `keys`: one slot per
/// key, and the slot selected by each key's hash holds that key's position.
pub open spec fn phf_state_good(
    keys: Seq<i32>,
    hash_key: u64,
    disps: Seq<(u32, u32)>,
    slots: Seq<usize>,
) -> bool {
    &&& slots.len() == keys.len()
    &&& keys.len() <= 0xFFFF_FFFF
    &&& (keys.len() > 0 ==> 0 < disps.len() <= 0xFFFF_FFFF)
    &&& (forall|j: int| 0 <= j < slots.len() ==> #[trigger] slots[j] < keys.len())
    &&& (forall|i: int|
        0 <= i < keys.len() ==> {
            let p = #[trigger] phf_index_of(keys[i], hash_key, disps, keys.len() as usize);
            p < slots.len() && slots[p as int] == i as usize
        })
}

/// Relies on `phf_generator::generate_hash`: from a fixed seed it searches
/// for and returns a hash state whose `map` holds, at the slot that
/// `phf_shared::hash`/`get_index` select for the `i`-th key, exactly `i` —
/// a minimal perfect hash over the given keys. The search loops forever on a
/// duplicate key, so the keys must be distinct; the result depends on the
/// keys alone.
#[verifier::external_body]
fn generate_hash_state(keys: &Vec<i32>) -> (r: (u64, Vec<(u32, u32)>, Vec<usize>))
    requires
        distinct_keys(keys@),
        keys@.len() <= 0xFFFF_FFFF,
    ensures
        (r.0, r.1@, r.2@) == phf_state_of(keys@),
        phf_state_good(keys@, r.0, r.1@, r.2@),
{
    let state = phf_generator::generate_hash(keys.as_slice());
    (state.key, state.disps, state.map)
}

/// Relies on `phf_shared::hash` and `phf_shared::get_index`: hash the key
/// with the given seed, pick a displacement pair by the bucket hash, and
/// reduce modulo `len`; the result is always below `len` and depends on the
/// arguments alone.
#[verifier::external_body]
fn phf_index(key: i32, hash_key: u64, disps: &Vec<(u32, u32)>, len: usize) -> (r: usize)
    requires
        0 < disps@.len() <= 0xFFFF_FFFF,
        0 < len <= 0xFFFF_FFFF,
    ensures
        r == phf_index_of(key, hash_key, disps@, len),
        r < len,
{
    let hashes = phf_shared::hash(&key, &hash_key);
    phf_shared::get_index(&hashes, disps.as_slice(), len) as usize
}

/// The build artifact: an immutable map from record identifier to shift
/// triple, queried through a minimal perfect hash. Constructed once by the
/// build pipeline and never mutated afterwards.
pub struct ShiftTable {
    keys: Vec<i32>,
    values: Vec<(Shift, Shift, Shift)>,
    hash_key: u64,
    disps: Vec<(u32, u32)>,
    slots: Vec<usize>,
}

impl ShiftTable {
    #[verifier::type_invariant]
    spec fn wf(self) -> bool {
        &&& self.values@.len() == self.keys@.len()
        &&& distinct_keys(self.keys@)
        &&& phf_state_good(self.keys@, self.hash_key, self.disps@, self.slots@)
    }

    /// The identifiers present in the table, in first-insertion order.
    pub closed spec fn keys_seq(self) -> Seq<i32> {
        self.keys@
    }

    /// The shift triples, positionally matching `keys_seq`.
    pub closed spec fn values_seq(self) -> Seq<(Shift, Shift, Shift)> {
        self.values@
    }

    /// The mapping the table stands for.
    pub open spec fn as_map(self) -> Map<i32, (Shift, Shift, Shift)> {
        assoc_map(self.keys_seq(), self.values_seq())
    }

    /// Assemble the table from a duplicate-free key column and its value
    /// column, deriving the perfect hash state for the keys.
    pub(crate) fn from_parts(keys: Vec<i32>, values: Vec<(Shift, Shift, Shift)>) -> (t: ShiftTable)
        requires
            distinct_keys(keys@),
            values@.len() == keys@.len(),
            keys@.len() <= 0xFFFF_FFFF,
        ensures
            t.keys_seq() == keys@,
            t.values_seq() == values@,
    {
        let (hash_key, disps, slots) = generate_hash_state(&keys);
        ShiftTable { keys, values, hash_key, disps, slots }
    }
}

/// Return the shift triple stored for `key`, or `None` when the table has no
/// record with that identifier — never a partial result.
pub fn ostn15_lookup(table: &ShiftTable, key: &i32) -> (r: Option<(Shift, Shift, Shift)>)
    ensures
        r == if table.as_map().dom().contains(*key) {
            Some(table.as_map()[*key])
        } else {
            None::<(Shift, Shift, Shift)>
        },
{
    proof {
        use_type_invariant(&*table);
    }
    if table.keys.len() == 0 {
        proof {
            assert(!table.keys@.contains(*key));
        }
        return None;
    }
    let p = phf_index(*key, table.hash_key, &table.disps, table.keys.len());
    let i = table.slots[p];
    if table.keys[i] == *key {
        proof {
            assert(table.keys@.contains(*key));
            let c = idx_of(table.keys@, *key);
            assert(0 <= c < table.keys@.len() && table.keys@[c] == *key);
            assert(c == i);
        }
        Some(table.values[i])
    } else {
        proof {
            if table.keys@.contains(*key) {
                let c = idx_of(table.keys@, *key);
                assert(0 <= c < table.keys@.len() && table.keys@[c] == *key);
                assert(phf_index_of(table.keys@[c], table.hash_key, table.disps@, table.keys@.len() as usize)
                    == p);
                assert(table.slots@[p as int] == c);
                assert(false);
            }
        }
        None
    }
}

/// Return the triple of adjustments for the grid cell at `tup`, or `None`
/// when the cell lies outside dataset coverage.
pub fn get_shifts(table: &ShiftTable, tup: (i32, i32)) -> (r: Option<(Shift, Shift, Shift)>)
    requires
        i32::MIN <= spec_key(tup.0 as int, tup.1 as int) <= i32::MAX,
    ensures
        ({
            let k = spec_key(tup.0 as int, tup.1 as int) as i32;
            r == if table.as_map().dom().contains(k) {
                Some(table.as_map()[k])
            } else {
                None::<(Shift, Shift, Shift)>
            }
        }),
{
    let key = crate::grid::encode_key(tup.0, tup.1);
    ostn15_lookup(table, &key)
}

} // verus!
