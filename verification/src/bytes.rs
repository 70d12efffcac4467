//! Fixed-size views of byte strings: big-endian numbers, arrays and sets of
//! arrays.
use vstd::prelude::*;

verus! {

/// The big-endian number in the two bytes at `at`.
pub open spec fn be16(bytes: Seq<u8>, at: int) -> int {
    bytes[at] * 0x100 + bytes[at + 1]
}

/// The big-endian number in the three bytes at `at`.
pub open spec fn be24(bytes: Seq<u8>, at: int) -> int {
    bytes[at] * 0x1_0000 + bytes[at + 1] * 0x100 + bytes[at + 2]
}

/// The big-endian number in the four bytes at `at`.
pub open spec fn be32(bytes: Seq<u8>, at: int) -> int {
    bytes[at] * 0x100_0000 + be24(bytes, at + 1)
}

/// Two bytes that hold `n`, most significant first.
pub open spec fn be16_bytes(n: int) -> Seq<u8> {
    seq![(n / 0x100) as u8, (n % 0x100) as u8]
}

/// Three bytes that hold `n`, most significant first.
pub open spec fn be24_bytes(n: int) -> Seq<u8> {
    seq![(n / 0x1_0000) as u8, (n / 0x100 % 0x100) as u8, (n % 0x100) as u8]
}

/// Four bytes that hold `n`, most significant first.
pub open spec fn be32_bytes(n: int) -> Seq<u8> {
    seq![
        (n / 0x100_0000) as u8,
        (n / 0x1_0000 % 0x100) as u8,
        (n / 0x100 % 0x100) as u8,
        (n % 0x100) as u8,
    ]
}

/// What an optional byte vector holds.
pub open spec fn bytes_view(bytes: Option<Vec<u8>>) -> Option<Seq<u8>> {
    match bytes {
        Some(bytes) => Some(bytes@),
        None => None,
    }
}

/// Reads the big-endian number in the two bytes at `at`.
pub fn read_be16(bytes: &[u8], at: usize) -> (n: u16)
    requires
        at + 2 <= bytes@.len(),
    ensures
        n == be16(bytes@, at as int),
{
    let high: u16 = bytes[at] as u16;
    let low: u16 = bytes[at + 1] as u16;
    high * 0x100 + low
}

/// Reads the big-endian number in the four bytes at `at`.
pub fn read_be32(bytes: &[u8], at: usize) -> (n: u32)
    requires
        at + 4 <= bytes@.len(),
    ensures
        n == be32(bytes@, at as int),
{
    assert(bytes.len() == bytes@.len());
    let high: u32 = read_be16(bytes, at) as u32;
    let low: u32 = read_be16(bytes, at + 2) as u32;
    high * 0x1_0000 + low
}

/// Copies a slice into an array of the same length.
pub fn to_array<const N: usize>(bytes: &[u8]) -> (array: [u8; N])
    requires
        bytes@.len() == N,
    ensures
        array@ == bytes@,
{
    let mut array: [u8; N] = [0u8; N];
    let mut i: usize = 0;
    while i < N
        invariant
            i <= N,
            bytes@.len() == N,
            forall|j: int| 0 <= j < i ==> array@[j] == bytes@[j],
        decreases N - i,
    {
        array[i] = bytes[i];
        i += 1;
    }
    assert(array@ =~= bytes@);
    array
}

/// Whether two slices hold the same bytes.
pub fn bytes_equal(a: &[u8], b: &[u8]) -> (equal: bool)
    ensures
        equal == (a@ == b@),
{
    if a.len() != b.len() {
        return false;
    }
    let mut i: usize = 0;
    while i < a.len()
        invariant
            i <= a@.len(),
            a@.len() == b@.len(),
            forall|j: int| 0 <= j < i ==> a@[j] == b@[j],
        decreases a@.len() - i,
    {
        if a[i] != b[i] {
            return false;
        }
        i += 1;
    }
    assert(a@ =~= b@);
    true
}

/// The byte strings in a list of arrays, in order.
pub open spec fn array_views<const N: usize>(items: Seq<[u8; N]>) -> Seq<Seq<u8>> {
    items.map_values(|item: [u8; N]| item@)
}

/// Whether `items` holds `item`.
pub fn contains_array<const N: usize>(items: &Vec<[u8; N]>, item: &[u8; N]) -> (found: bool)
    ensures
        found == array_views(items@).contains(item@),
{
    let mut i: usize = 0;
    while i < items.len()
        invariant
            i <= items@.len(),
            forall|j: int| 0 <= j < i ==> items@[j]@ != item@,
        decreases items@.len() - i,
    {
        if bytes_equal(items[i].as_slice(), item.as_slice()) {
            assert(array_views(items@)[i as int] == item@);
            return true;
        }
        i += 1;
    }
    assert forall|j: int| 0 <= j < array_views(items@).len() implies array_views(items@)[j]
        != item@ by {
        assert(array_views(items@)[j] == items@[j]@);
    }
    false
}

/// Adds `item` to `items` unless it is there already.
pub fn insert_array<const N: usize>(items: &mut Vec<[u8; N]>, item: [u8; N])
    requires
        array_views(old(items)@).no_duplicates(),
    ensures
        array_views(final(items)@).no_duplicates(),
        array_views(final(items)@).to_set() == array_views(old(items)@).to_set().insert(item@),
{
    let ghost before = array_views(items@);
    if contains_array(items, &item) {
        assert(before.to_set() =~= before.to_set().insert(item@));
        return;
    }
    items.push(item);
    let ghost after = array_views(items@);
    assert(after =~= before.push(item@));
    assert forall|x: Seq<u8>|
        after.to_set().contains(x) == before.to_set().insert(item@).contains(x) by {
        if before.contains(x) {
            let k = before.index_of(x);
            assert(after[k] == x);
        }
        if x == item@ {
            assert(after[before.len() as int] == x);
        }
    }
    assert(after.to_set() =~= before.to_set().insert(item@));
}

} // verus!
