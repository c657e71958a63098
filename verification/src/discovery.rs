use vstd::prelude::*;
use crate::error::ChunkError;
use crate::decimal::decimal_value;
use crate::naming::{
    chunk_name, digits_in, lemma_chunk_name_values_increase, sort_key, sort_key_of,
};

verus! {

/// Whether position `a` comes before position `b` when chunk files are
/// ordered: by key, and by position where the keys are equal.
pub open spec fn precedes(keys: Seq<u64>, a: int, b: int) -> bool {
    keys[a] < keys[b] || (keys[a] == keys[b] && a < b)
}

/// Whether position `p` occurs in `order`.
pub open spec fn occurs(order: Seq<usize>, p: int) -> bool {
    exists|i: int| 0 <= i < order.len() && #[trigger] order[i] == p
}

/// Whether `order` lists the positions of `keys` by ascending key, equal
/// keys in the order in which they stand: every position occurs, and each
/// listed position comes before those listed after it.
pub open spec fn is_stable_order(keys: Seq<u64>, order: Seq<usize>) -> bool {
    &&& order.len() == keys.len()
    &&& forall|i: int| 0 <= i < order.len() ==> (#[trigger] order[i]) < keys.len()
    &&& forall|p: int| 0 <= p < keys.len() ==> #[trigger] occurs(order, p)
    &&& forall|i: int, j: int|
        0 <= i < j < order.len() ==> precedes(keys, #[trigger] order[i] as int, #[trigger] order[j] as int)
}

/// Two orders of the same keys agree up to `upto`.
proof fn lemma_orders_agree(keys: Seq<u64>, first: Seq<usize>, second: Seq<usize>, upto: int)
    requires
        is_stable_order(keys, first),
        is_stable_order(keys, second),
        0 <= upto <= keys.len(),
    ensures
        forall|i: int| 0 <= i < upto ==> first[i] == second[i],
    decreases upto,
{
    if upto > 0 {
        lemma_orders_agree(keys, first, second, upto - 1);
        let i = upto - 1;
        let a = first[i];
        let b = second[i];
        if a != b {
            // Each of the two occurs in the other order. Not before `i`, where
            // the orders agree and hold nothing twice; so both behind `i`,
            // and then each of the two comes before the other.
            assert(occurs(second, a as int));
            let k = choose|k: int| 0 <= k < second.len() && #[trigger] second[k] == a;
            assert(occurs(first, b as int));
            let l = choose|l: int| 0 <= l < first.len() && #[trigger] first[l] == b;
            if k < i {
                assert(precedes(keys, first[k] as int, first[i] as int));
            } else if l < i {
                assert(precedes(keys, second[l] as int, second[i] as int));
            } else {
                assert(precedes(keys, second[i] as int, second[k] as int));
                assert(precedes(keys, first[i] as int, first[l] as int));
            }
        }
    }
}

/// Keys have one stable order only.
pub proof fn lemma_stable_order_unique(keys: Seq<u64>, first: Seq<usize>, second: Seq<usize>)
    requires
        is_stable_order(keys, first),
        is_stable_order(keys, second),
    ensures
        first == second,
{
    lemma_orders_agree(keys, first, second, keys.len() as int);
}

/// The stable order of `keys`.
pub open spec fn stable_order(keys: Seq<u64>) -> Seq<usize> {
    choose|order: Seq<usize>| is_stable_order(keys, order)
}

/// The keys of the file names, name by name.
pub open spec fn name_keys(names: Seq<String>) -> Seq<u64> {
    Seq::new(names.len(), |i: int| sort_key_of(names[i]@) as u64)
}

/// The items of `names` in the order `order`.
pub open spec fn reordered(names: Seq<String>, order: Seq<usize>) -> Seq<String> {
    Seq::new(order.len(), |i: int| names[order[i] as int])
}

/// Whether `listing` holds the chunk files of one source and nothing else,
/// the file of chunk `k` at position `position_of[k]`.
pub open spec fn lists_chunks(
    listing: Seq<String>,
    stem: Seq<char>,
    extension: Seq<char>,
    position_of: Seq<usize>,
) -> bool {
    &&& position_of.len() == listing.len()
    &&& forall|k: int|
        0 <= k < position_of.len() ==> (#[trigger] position_of[k]) < listing.len()
            && listing[position_of[k] as int]@ == chunk_name(stem, k as nat, extension)
    &&& forall|p: int| 0 <= p < listing.len() ==> #[trigger] occurs(position_of, p)
}

/// In whatever order a directory lists the chunk files of one source, they
/// are merged in the order of their chunks, as long as the digits of the
/// last chunk file's name write a number within 64 bits.
pub proof fn lemma_discovery_recovers_order(
    listing: Seq<String>,
    stem: Seq<char>,
    extension: Seq<char>,
    position_of: Seq<usize>,
)
    requires
        lists_chunks(listing, stem, extension, position_of),
        listing.len() > 0 ==> decimal_value(
            digits_in(chunk_name(stem, (listing.len() - 1) as nat, extension)),
        ) <= u64::MAX,
    ensures
        stable_order(name_keys(listing)) == position_of,
        forall|k: int|
            0 <= k < listing.len() ==> (#[trigger] reordered(
                listing,
                stable_order(name_keys(listing)),
            )[k])@ == chunk_name(stem, k as nat, extension),
{
    let keys = name_keys(listing);
    let last = (listing.len() - 1) as nat;
    assert forall|k: int| 0 <= k < listing.len() implies keys[(#[trigger] position_of[k]) as int]
        == decimal_value(digits_in(chunk_name(stem, k as nat, extension))) by {
        if k < last {
            lemma_chunk_name_values_increase(stem, extension, k as nat, last);
        }
    }
    assert forall|i: int, j: int| 0 <= i < j < position_of.len() implies precedes(
        keys,
        #[trigger] position_of[i] as int,
        #[trigger] position_of[j] as int,
    ) by {
        lemma_chunk_name_values_increase(stem, extension, i as nat, j as nat);
    }
    assert(is_stable_order(keys, position_of));
    lemma_stable_order_unique(keys, position_of, stable_order(keys));
}

/// Orders positions by their keys, positions with equal keys as they
/// stand.
fn order_by_key(keys: &Vec<u64>) -> (order: Vec<usize>)
    ensures
        is_stable_order(keys@, order@),
        order@ == stable_order(keys@),
{
    let count = keys.len();
    let mut order: Vec<usize> = Vec::new();
    let mut next: usize = 0;
    while next < count
        invariant
            next <= count,
            count == keys@.len(),
            order@.len() == next,
            forall|i: int| 0 <= i < order@.len() ==> (#[trigger] order@[i]) < next,
            forall|p: int| 0 <= p < next ==> #[trigger] occurs(order@, p),
            forall|i: int, j: int|
                0 <= i < j < order@.len() ==> precedes(
                    keys@,
                    #[trigger] order@[i] as int,
                    #[trigger] order@[j] as int,
                ),
        decreases count - next,
    {
        let key = keys[next];
        let mut slot: usize = 0;
        while slot < order.len() && keys[order[slot]] <= key
            invariant
                slot <= order@.len(),
                order@.len() == next,
                next < count,
                count == keys@.len(),
                key == keys@[next as int],
                forall|i: int| 0 <= i < order@.len() ==> (#[trigger] order@[i]) < next,
                forall|i: int| 0 <= i < slot ==> keys@[(#[trigger] order@[i]) as int] <= key,
            decreases order@.len() - slot,
        {
            slot = slot + 1;
        }
        let ghost before = order@;
        order.insert(slot, next);
        proof {
            let after = order@;
            assert forall|p: int| 0 <= p < next + 1 implies #[trigger] occurs(after, p) by {
                if p == next {
                    assert(after[slot as int] == p);
                } else {
                    assert(occurs(before, p));
                    let i = choose|i: int| 0 <= i < before.len() && #[trigger] before[i] == p;
                    if i < slot {
                        assert(after[i] == p);
                    } else {
                        assert(after[i + 1] == p);
                    }
                }
            }
            assert forall|i: int, j: int| 0 <= i < j < after.len() implies precedes(
                keys@,
                #[trigger] after[i] as int,
                #[trigger] after[j] as int,
            ) by {
                // What stood before the slot has a key no larger than the new
                // one and an earlier position; what stood at the slot or behind
                // it has a larger key.
                if i == slot && slot + 1 < j {
                    assert(precedes(keys@, before[slot as int] as int, before[j - 1] as int));
                }
            }
        }
        next = next + 1;
    }
    proof {
        lemma_stable_order_unique(keys@, order@, stable_order(keys@));
    }
    order
}

/// Computes the key of each file name.
fn sort_keys(names: &Vec<String>) -> (keys: Vec<u64>)
    ensures
        keys@ == name_keys(names@),
{
    let mut keys: Vec<u64> = Vec::new();
    let mut i: usize = 0;
    while i < names.len()
        invariant
            i <= names@.len(),
            keys@ == name_keys(names@).take(i as int),
        decreases names@.len() - i,
    {
        let key = sort_key(names[i].as_str());
        keys.push(key);
        i = i + 1;
    }
    keys
}

/// The order in which the chunk files of a directory are merged, as
/// positions in the listing `names`: by ascending key, files with equal keys
/// as the listing has them. Every file of the listing counts as a chunk.
pub fn chunk_order(names: &Vec<String>) -> (order: Vec<usize>)
    ensures
        is_stable_order(name_keys(names@), order@),
        order@ == stable_order(name_keys(names@)),
{
    let keys = sort_keys(names);
    order_by_key(&keys)
}

/// The chunk files of a directory in the order in which they are merged:
/// the names of the listing by ascending key, names with equal keys as the
/// listing has them. Every file of the listing counts as a chunk.
pub fn get_chunks(names: Vec<String>) -> (chunks: Vec<String>)
    ensures
        is_stable_order(name_keys(names@), stable_order(name_keys(names@))),
        chunks@ == reordered(names@, stable_order(name_keys(names@))),
{
    let order = chunk_order(&names);
    let mut chunks: Vec<String> = Vec::new();
    let mut i: usize = 0;
    while i < order.len()
        invariant
            i <= order@.len(),
            is_stable_order(name_keys(names@), order@),
            chunks@ == reordered(names@, order@).take(i as int),
        decreases order@.len() - i,
    {
        let name = names[order[i]].clone();
        chunks.push(name);
        i = i + 1;
    }
    chunks
}

/// The order in which to merge the chunk files of a directory, or
/// `NotFound` where the directory holds no file.
pub fn merge_order(names: &Vec<String>) -> (result: Result<Vec<usize>, ChunkError>)
    ensures
        names@.len() == 0 ==> result == Err::<Vec<usize>, ChunkError>(ChunkError::NotFound),
        names@.len() > 0 ==> result is Ok,
        result matches Ok(order) ==> is_stable_order(name_keys(names@), order@) && order@
            == stable_order(name_keys(names@)),
{
    if names.len() == 0 {
        Err(ChunkError::NotFound)
    } else {
        Ok(chunk_order(names))
    }
}

} // verus!
