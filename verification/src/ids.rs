//! Stable indicator ids.
//!
//! An indicator's id is not positional: it is the 32-bit FNV-1a hash of the
//! indicator's lowercase name, a pure function of its identity, so adding or
//! removing indicators never renumbers an existing id. A name may instead be
//! pinned to an explicit id (an override), which is only meant for the case
//! of a hash collision. The lowercase name is also the wire identity of a
//! serialised state, whose header reserves a fixed number of bytes for it.
use vstd::prelude::*;

verus! {

/// The FNV-1a 32-bit offset basis: the hash of the empty string.
pub const FNV_OFFSET_BASIS: u32 = 0x811c_9dc5;

/// The FNV 32-bit prime.
pub const FNV_PRIME: u32 = 0x0100_0193;

/// Width in bytes of the name field of a serialised state header.
pub const NAME_FIELD: usize = 32;

/// One FNV-1a step: xor the byte in, then multiply by the prime modulo 2^32.
pub open spec fn fnv_step(hash: u32, b: u8) -> u32 {
    (((hash ^ (b as u32)) as nat * FNV_PRIME as nat) % 0x1_0000_0000nat) as u32
}

/// FNV-1a, 32-bit, of a byte string.
pub open spec fn spec_fnv1a32(s: Seq<u8>) -> u32
    decreases s.len(),
{
    if s.len() == 0 {
        FNV_OFFSET_BASIS
    } else {
        fnv_step(spec_fnv1a32(s.drop_last()), s.last())
    }
}

/// FNV-1a, 32-bit.
pub fn fnv1a32(name: &[u8]) -> (hash: u32)
    ensures
        hash == spec_fnv1a32(name@),
{
    let mut hash: u32 = FNV_OFFSET_BASIS;
    let mut i: usize = 0;
    assert(name@.take(0) =~= Seq::<u8>::empty());
    while i < name.len()
        invariant
            i <= name@.len(),
            hash == spec_fnv1a32(name@.take(i as int)),
        decreases name@.len() - i,
    {
        let b = name[i];
        hash = hash ^ (b as u32);
        hash = hash.wrapping_mul(FNV_PRIME);
        assert(name@.take(i + 1).drop_last() =~= name@.take(i as int));
        i = i + 1;
    }
    assert(name@.take(i as int) =~= name@);
    hash
}

/// FNV-1a folds in every byte of the name, whatever its length: the empty
/// name hashes to the offset basis, and one more byte xors into the hash of
/// the shorter name, which is then multiplied by the FNV prime modulo 2^32.
pub proof fn lemma_fnv1a32_bytes(s: Seq<u8>, b: u8)
    ensures
        spec_fnv1a32(Seq::empty()) == 0x811c_9dc5u32,
        spec_fnv1a32(s.push(b)) == (((spec_fnv1a32(s) ^ (b as u32)) as nat * 16777619nat) % 4294967296nat) as u32,
{
    assert(s.push(b).drop_last() =~= s);
    assert(s.push(b).last() == b);
}

/// ASCII lowercase of one byte; other bytes are left alone.
pub open spec fn lower_byte(b: u8) -> u8 {
    if 65 <= b <= 90 {
        (b + 32) as u8
    } else {
        b
    }
}

/// ASCII lowercase of a byte string.
pub open spec fn lower(s: Seq<u8>) -> Seq<u8> {
    s.map_values(|b: u8| lower_byte(b))
}

/// Lowercasing keeps the length and maps every capital `A`..=`Z` (bytes
/// 65 to 90) to its small letter, 32 above it, leaving every other byte
/// alone.
pub proof fn lemma_lower_bytes(s: Seq<u8>)
    ensures
        lower(s).len() == s.len(),
        forall|i: int| 0 <= i < s.len() && 65 <= s[i] <= 90 ==> #[trigger] lower(s)[i] == s[i] + 32,
        forall|i: int| 0 <= i < s.len() && !(65 <= s[i] <= 90) ==> #[trigger] lower(s)[i] == s[i],
{
}

/// The byte string is ASCII.
pub open spec fn is_ascii(s: Seq<u8>) -> bool {
    forall|i: int| 0 <= i < s.len() ==> #[trigger] s[i] < 128
}

/// Lowercases an ASCII indicator prefix (`ADX` -> `adx`).
pub fn lowercase_name(prefix: &Vec<u8>) -> (name: Vec<u8>)
    ensures
        name@ == lower(prefix@),
{
    let mut name: Vec<u8> = Vec::new();
    let mut i: usize = 0;
    while i < prefix.len()
        invariant
            i <= prefix@.len(),
            name@ == lower(prefix@.take(i as int)),
        decreases prefix@.len() - i,
    {
        let b = prefix[i];
        let l: u8 = if 65 <= b && b <= 90 {
            b + 32
        } else {
            b
        };
        name.push(l);
        assert(lower(prefix@.take(i + 1)) =~= lower(prefix@.take(i as int)).push(lower_byte(b)));
        i = i + 1;
    }
    assert(prefix@.take(i as int) =~= prefix@);
    name
}

/// Equality of byte strings.
pub fn bytes_eq(a: &Vec<u8>, b: &Vec<u8>) -> (r: bool)
    ensures
        r == (a@ == b@),
{
    if a.len() != b.len() {
        return false;
    }
    let mut i: usize = 0;
    while i < a.len()
        invariant
            a@.len() == b@.len(),
            i <= a@.len(),
            forall|k: int| 0 <= k < i ==> a@[k] == b@[k],
        decreases a@.len() - i,
    {
        if a[i] != b[i] {
            return false;
        }
        i = i + 1;
    }
    assert(a@ =~= b@);
    true
}

/// The id pinned to `name` by the overrides, if any. Like a map built from
/// the override list, a later entry for the same name wins.
pub open spec fn pinned_id(overrides: Seq<(Vec<u8>, u32)>, name: Seq<u8>) -> Option<u32>
    decreases overrides.len(),
{
    if overrides.len() == 0 {
        None
    } else if overrides.last().0@ == name {
        Some(overrides.last().1)
    } else {
        pinned_id(overrides.drop_last(), name)
    }
}

/// An override list pins a name exactly when one of its entries names it,
/// and then to the id of the last entry that names it.
pub proof fn lemma_pinned_id_last_wins(overrides: Seq<(Vec<u8>, u32)>, name: Seq<u8>)
    ensures
        pinned_id(overrides, name) is None <==> forall|o: int| 0 <= o < overrides.len() ==> (#[trigger] overrides[o]).0@ != name,
        pinned_id(overrides, name) matches Some(id) ==> exists|o: int| {
            &&& 0 <= o < overrides.len()
            &&& (#[trigger] overrides[o]).0@ == name
            &&& overrides[o].1 == id
            &&& forall|p: int| o < p < overrides.len() ==> (#[trigger] overrides[p]).0@ != name
        },
    decreases overrides.len(),
{
    if overrides.len() > 0 {
        let rest = overrides.drop_last();
        let n = overrides.len() - 1;
        lemma_pinned_id_last_wins(rest, name);
        assert forall|o: int| 0 <= o < n implies overrides[o] == #[trigger] rest[o] by {}
        if overrides.last().0@ == name {
            assert(overrides[n].0@ == name);
        } else {
            if pinned_id(rest, name) is Some {
                let id = pinned_id(rest, name)->Some_0;
                let o = choose|o: int| {
                    &&& 0 <= o < rest.len()
                    &&& (#[trigger] rest[o]).0@ == name
                    &&& rest[o].1 == id
                    &&& forall|p: int| o < p < rest.len() ==> (#[trigger] rest[p]).0@ != name
                };
                assert(overrides[o] == rest[o]);
                assert forall|p: int| o < p < overrides.len() implies (#[trigger] overrides[p]).0@ != name by {
                    if p < n {
                        assert(overrides[p] == rest[p]);
                    }
                }
            } else {
                assert forall|o: int| 0 <= o < overrides.len() implies (#[trigger] overrides[o]).0@ != name by {
                    if o < n {
                        assert(overrides[o] == rest[o]);
                    }
                }
            }
        }
    }
}

/// The id of an indicator with the given lowercase name.
pub open spec fn spec_indicator_id(overrides: Seq<(Vec<u8>, u32)>, name: Seq<u8>) -> u32 {
    match pinned_id(overrides, name) {
        Some(id) => id,
        None => spec_fnv1a32(name),
    }
}

/// The id of the indicator with the given prefix.
pub open spec fn id_of(prefixes: Seq<Vec<u8>>, overrides: Seq<(Vec<u8>, u32)>, i: int) -> u32 {
    spec_indicator_id(overrides, lower(prefixes[i]@))
}

/// The indicator at position `i` passes its checks: its name fits the header
/// field and its id differs from every earlier indicator's id.
pub open spec fn entry_ok(prefixes: Seq<Vec<u8>>, overrides: Seq<(Vec<u8>, u32)>, i: int) -> bool {
    &&& prefixes[i]@.len() <= NAME_FIELD
    &&& forall|j: int| 0 <= j < i ==> #[trigger] id_of(prefixes, overrides, j) != id_of(prefixes, overrides, i)
}

/// Override `o` names one of the listed indicators.
pub open spec fn override_used(prefixes: Seq<Vec<u8>>, overrides: Seq<(Vec<u8>, u32)>, o: int) -> bool {
    exists|i: int| 0 <= i < prefixes.len() && #[trigger] lower(prefixes[i]@) == overrides[o].0@
}

/// Why an indicator list cannot be given ids.
#[derive(Clone, Copy, Debug, PartialEq, Eq, Structural)]
pub enum IdError {
    /// The indicator's name does not fit the header's name field.
    NameTooLong(usize),
    /// The two indicators (earlier one first) would get the same id.
    Collision(usize, usize),
    /// The override names no listed indicator.
    StaleOverride(usize),
}

/// One indicator with its wire name and its id.
pub struct IndicatorIdEntry {
    pub prefix: Vec<u8>,
    pub name: Vec<u8>,
    pub id: u32,
}

/// Looks up the id pinned to `name`, the last matching override winning.
fn pinned_id_exec(overrides: &Vec<(Vec<u8>, u32)>, name: &Vec<u8>) -> (r: Option<u32>)
    ensures
        r == pinned_id(overrides@, name@),
{
    let mut k: usize = overrides.len();
    assert(overrides@.take(k as int) =~= overrides@);
    while k > 0
        invariant
            k <= overrides@.len(),
            pinned_id(overrides@, name@) == pinned_id(overrides@.take(k as int), name@),
        decreases k,
    {
        let ghost pre = overrides@.take(k as int);
        assert(pre.last() == overrides@[k - 1]);
        if bytes_eq(&overrides[k - 1].0, name) {
            return Some(overrides[k - 1].1);
        }
        assert(pre.drop_last() =~= overrides@.take(k - 1));
        k = k - 1;
    }
    None
}

/// Assigns every listed indicator its id, checking that every name fits the
/// header field, that no two indicators share an id, and that every override
/// names a listed indicator. The first failing indicator, in list order, is
/// reported; overrides are checked only once every indicator has passed.
pub fn assign_indicator_ids(prefixes: &Vec<Vec<u8>>, overrides: &Vec<(Vec<u8>, u32)>) -> (r: Result<Vec<IndicatorIdEntry>, IdError>)
    requires
        forall|i: int| 0 <= i < prefixes@.len() ==> is_ascii(#[trigger] prefixes@[i]@),
    ensures
        r is Ok <==> {
            &&& forall|i: int| 0 <= i < prefixes@.len() ==> #[trigger] entry_ok(prefixes@, overrides@, i)
            &&& forall|o: int| 0 <= o < overrides@.len() ==> #[trigger] override_used(prefixes@, overrides@, o)
        },
        r matches Ok(entries) ==> {
            &&& entries@.len() == prefixes@.len()
            &&& forall|i: int| 0 <= i < prefixes@.len() ==> {
                &&& (#[trigger] entries@[i]).prefix@ == prefixes@[i]@
                &&& entries@[i].name@ == lower(prefixes@[i]@)
                &&& entries@[i].id == id_of(prefixes@, overrides@, i)
            }
        },
        r matches Err(IdError::NameTooLong(i)) ==> {
            &&& i < prefixes@.len()
            &&& forall|k: int| 0 <= k < i ==> #[trigger] entry_ok(prefixes@, overrides@, k)
            &&& prefixes@[i as int]@.len() > NAME_FIELD
        },
        r matches Err(IdError::Collision(j, i)) ==> {
            &&& j < i < prefixes@.len()
            &&& forall|k: int| 0 <= k < i ==> #[trigger] entry_ok(prefixes@, overrides@, k)
            &&& prefixes@[i as int]@.len() <= NAME_FIELD
            &&& id_of(prefixes@, overrides@, j as int) == id_of(prefixes@, overrides@, i as int)
        },
        r matches Err(IdError::StaleOverride(o)) ==> {
            &&& o < overrides@.len()
            &&& forall|i: int| 0 <= i < prefixes@.len() ==> #[trigger] entry_ok(prefixes@, overrides@, i)
            &&& forall|p: int| 0 <= p < o ==> #[trigger] override_used(prefixes@, overrides@, p)
            &&& !override_used(prefixes@, overrides@, o as int)
        },
{
    let n = prefixes.len();
    let mut entries: Vec<IndicatorIdEntry> = Vec::new();
    let mut i: usize = 0;
    while i < n
        invariant
            n == prefixes@.len(),
            i <= n,
            entries@.len() == i,
            forall|k: int| 0 <= k < i ==> #[trigger] entry_ok(prefixes@, overrides@, k),
            forall|k: int| 0 <= k < i ==> {
                &&& (#[trigger] entries@[k]).prefix@ == prefixes@[k]@
                &&& entries@[k].name@ == lower(prefixes@[k]@)
                &&& entries@[k].id == id_of(prefixes@, overrides@, k)
            },
        decreases n - i,
    {
        let name = lowercase_name(&prefixes[i]);
        assert(name@.len() == prefixes@[i as int]@.len());
        if name.len() > NAME_FIELD {
            assert(!entry_ok(prefixes@, overrides@, i as int));
            return Err(IdError::NameTooLong(i));
        }
        let id = match pinned_id_exec(overrides, &name) {
            Some(pinned) => pinned,
            None => fnv1a32(name.as_slice()),
        };
        assert(id == id_of(prefixes@, overrides@, i as int));
        let mut j: usize = 0;
        while j < i
            invariant
                i < n,
                n == prefixes@.len(),
                j <= i,
                entries@.len() == i,
                forall|k: int| 0 <= k < i ==> #[trigger] entries@[k].id == id_of(prefixes@, overrides@, k),
                id == id_of(prefixes@, overrides@, i as int),
                forall|k: int| 0 <= k < j ==> #[trigger] id_of(prefixes@, overrides@, k) != id,
                forall|k: int| 0 <= k < i ==> #[trigger] entry_ok(prefixes@, overrides@, k),
                prefixes@[i as int]@.len() <= NAME_FIELD,
            decreases i - j,
        {
            if entries[j].id == id {
                assert(id_of(prefixes@, overrides@, j as int) == id_of(prefixes@, overrides@, i as int));
                assert(!entry_ok(prefixes@, overrides@, i as int));
                return Err(IdError::Collision(j, i));
            }
            j = j + 1;
        }
        let prefix = prefixes[i].clone();
        proof {
            assert(prefix@ =~= prefixes@[i as int]@);
        }
        entries.push(IndicatorIdEntry { prefix, name, id });
        i = i + 1;
    }
    let mut o: usize = 0;
    while o < overrides.len()
        invariant
            n == prefixes@.len(),
            entries@.len() == n,
            forall|k: int| 0 <= k < n ==> #[trigger] entries@[k].name@ == lower(prefixes@[k]@),
            o <= overrides@.len(),
            forall|p: int| 0 <= p < o ==> #[trigger] override_used(prefixes@, overrides@, p),
            forall|q: int| 0 <= q < n ==> #[trigger] entry_ok(prefixes@, overrides@, q),
        decreases overrides@.len() - o,
    {
        let mut found = false;
        let mut k: usize = 0;
        while k < n
            invariant
                n == prefixes@.len(),
                entries@.len() == n,
                forall|q: int| 0 <= q < n ==> #[trigger] entries@[q].name@ == lower(prefixes@[q]@),
                o < overrides@.len(),
                k <= n,
                forall|q: int| 0 <= q < n ==> #[trigger] entry_ok(prefixes@, overrides@, q),
                forall|p: int| 0 <= p < o ==> #[trigger] override_used(prefixes@, overrides@, p),
                found ==> override_used(prefixes@, overrides@, o as int),
                !found ==> forall|q: int| 0 <= q < k ==> #[trigger] lower(prefixes@[q]@) != overrides@[o as int].0@,
            decreases n - k,
        {
            if bytes_eq(&entries[k].name, &overrides[o].0) {
                assert(lower(prefixes@[k as int]@) == overrides@[o as int].0@);
                found = true;
            }
            k = k + 1;
        }
        if !found {
            assert(!override_used(prefixes@, overrides@, o as int));
            return Err(IdError::StaleOverride(o));
        }
        o = o + 1;
    }
    Ok(entries)
}

/// Ids assigned to a list are pairwise distinct.
pub proof fn lemma_ids_distinct(prefixes: Seq<Vec<u8>>, overrides: Seq<(Vec<u8>, u32)>, a: int, b: int)
    requires
        forall|i: int| 0 <= i < prefixes.len() ==> #[trigger] entry_ok(prefixes, overrides, i),
        0 <= a < prefixes.len(),
        0 <= b < prefixes.len(),
        a != b,
    ensures
        id_of(prefixes, overrides, a) != id_of(prefixes, overrides, b),
{
    if a < b {
        assert(entry_ok(prefixes, overrides, b));
        assert(id_of(prefixes, overrides, a) != id_of(prefixes, overrides, b));
    } else {
        assert(entry_ok(prefixes, overrides, a));
        assert(id_of(prefixes, overrides, b) != id_of(prefixes, overrides, a));
    }
}

/// Without overrides, an indicator's id depends on its lowercase name
/// alone: two prefixes that lowercase to the same name get the same id, so
/// an id never depends on where the indicator stands in the list.
pub proof fn lemma_id_is_name_hash(prefixes: Seq<Vec<u8>>, i: int)
    requires
        0 <= i < prefixes.len(),
    ensures
        id_of(prefixes, Seq::empty(), i) == spec_fnv1a32(lower(prefixes[i]@)),
{
}

} // verus!
