//! The index from an address to a place in an arena.
//!
//! The index is a `dashmap` map from the three limbs of an address to a
//! number. What it holds is spoken of as a map from keys to numbers.

use vstd::prelude::*;
use crate::utils::address::Address;

verus! {

/// `dashmap::DashMap`, of which nothing is known here but what the functions
/// below state.
#[verifier::external_type_specification]
#[verifier::external_body]
#[verifier::reject_recursive_types(K)]
#[verifier::reject_recursive_types(V)]
#[verifier::reject_recursive_types(S)]
pub struct ExDashMap<K, V, S>(dashmap::DashMap<K, V, S>);

/// The entries of `index`: each key with its number.
pub uninterp spec fn index_entries(
    index: dashmap::DashMap<(u32, u64, u64), usize, std::hash::RandomState>,
) -> Map<(u32, u64, u64), usize>;

/// The entries of an index that holds nothing.
pub open spec fn no_entries() -> Map<(u32, u64, u64), usize> {
    Map::empty()
}

/// The key of `address`: its three limbs.
pub open spec fn address_key(address: Address) -> (u32, u64, u64) {
    (address.hi, address.mid, address.lo)
}

/// Whether `entries` gives every address of `addresses` its place, and holds
/// nothing else.
pub open spec fn indexes(entries: Map<(u32, u64, u64), usize>, addresses: Seq<Address>) -> bool {
    &&& forall|i: int|
        0 <= i < addresses.len() ==> entries.dom().contains(
            address_key(#[trigger] addresses[i]),
        ) && entries[address_key(addresses[i])] == i
    &&& forall|key: (u32, u64, u64)| #[trigger]
        entries.dom().contains(key) ==> entries[key] < addresses.len() && address_key(
            addresses[entries[key] as int],
        ) == key
}

/// `DashMap::new` of `dashmap`: a map without entries.
#[verifier::external_body]
pub(crate) fn index_new() -> (index: dashmap::DashMap<
    (u32, u64, u64),
    usize,
    std::hash::RandomState,
>)
    ensures
        index_entries(index) == no_entries(),
{
    dashmap::DashMap::new()
}

/// `DashMap::insert` of `dashmap`: the map holds `value` under `key`, in the
/// place of what it held there, and its other entries as before.
#[verifier::external_body]
pub(crate) fn index_insert(
    index: &mut dashmap::DashMap<(u32, u64, u64), usize, std::hash::RandomState>,
    key: (u32, u64, u64),
    value: usize,
)
    ensures
        index_entries(*final(index)) == index_entries(*old(index)).insert(key, value),
{
    index.insert(key, value);
}

/// `DashMap::get` of `dashmap`: the number that the map holds under `key`, if
/// it holds one.
#[verifier::external_body]
pub(crate) fn index_get(
    index: &dashmap::DashMap<(u32, u64, u64), usize, std::hash::RandomState>,
    key: (u32, u64, u64),
) -> (r: Option<usize>)
    ensures
        r == if index_entries(*index).dom().contains(key) {
            Some(index_entries(*index)[key])
        } else {
            None::<usize>
        },
{
    match index.get(&key) {
        Some(entry) => Some(*entry.value()),
        None => None,
    }
}

/// The place of `address` among `addresses`, read from their index.
pub(crate) fn place_of(
    index: &dashmap::DashMap<(u32, u64, u64), usize, std::hash::RandomState>,
    address: Address,
    Ghost(addresses): Ghost<Seq<Address>>,
) -> (r: Option<usize>)
    requires
        indexes(index_entries(*index), addresses),
    ensures
        r is Some == addresses.contains(address),
        r is Some ==> r->0 < addresses.len() && addresses[r->0 as int] == address,
{
    let r = index_get(index, (address.hi, address.mid, address.lo));
    proof {
        if addresses.contains(address) {
            let i = choose|i: int| 0 <= i < addresses.len() && addresses[i] == address;
            assert(index_entries(*index).dom().contains(address_key(addresses[i])));
        }
    }
    r
}

/// Gives `address`, which is new, the place behind the last.
pub(crate) fn place_behind(
    index: &mut dashmap::DashMap<(u32, u64, u64), usize, std::hash::RandomState>,
    address: Address,
    place: usize,
    Ghost(addresses): Ghost<Seq<Address>>,
)
    requires
        indexes(index_entries(*old(index)), addresses),
        !addresses.contains(address),
        place == addresses.len(),
    ensures
        indexes(index_entries(*final(index)), addresses.push(address)),
{
    index_insert(index, (address.hi, address.mid, address.lo), place);
    proof {
        let before = index_entries(*old(index));
        let after = index_entries(*index);
        let more = addresses.push(address);
        assert forall|i: int| 0 <= i < more.len() implies after.dom().contains(
            address_key(#[trigger] more[i]),
        ) && after[address_key(more[i])] == i by {
            if i < addresses.len() {
                assert(more[i] == addresses[i]);
                assert(addresses.contains(addresses[i]));
                assert(before.dom().contains(address_key(addresses[i])));
            }
        }
        assert forall|key: (u32, u64, u64)| #[trigger] after.dom().contains(key) implies after[key]
            < more.len() && address_key(more[after[key] as int]) == key by {
            if key != address_key(address) {
                assert(before.dom().contains(key));
                assert(more[before[key] as int] == addresses[before[key] as int]);
            }
        }
    }
}

} // verus!
