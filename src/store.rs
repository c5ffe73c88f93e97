use vstd::prelude::*;

verus! {

/// Byte `i` (0 = most significant) of the 8-byte big-endian form of `k`.
pub open spec fn be_byte(k: u64, i: int) -> u8 {
    ((k >> ((56 - 8 * i) as u64)) & 0xff) as u8
}

/// The 8-byte big-endian form of `k`: the form in which log keys are stored,
/// so that the store's byte order of keys is their numeric order.
pub open spec fn be_bytes(k: u64) -> Seq<u8> {
    Seq::new(8, |i: int| be_byte(k, i))
}

/// The number whose 8-byte big-endian form is `b[0..8]`.
pub open spec fn be_value(b: Seq<u8>) -> u64 {
    ((b[0] as u64) << 56) | ((b[1] as u64) << 48) | ((b[2] as u64) << 40) | ((b[3] as u64) << 32)
        | ((b[4] as u64) << 24) | ((b[5] as u64) << 16) | ((b[6] as u64) << 8) | (b[7] as u64)
}

/// The bytes under which the log record with key `key` is stored.
pub fn store_key(key: u64) -> (r: Vec<u8>)
    ensures
        r@ == be_bytes(key),
{
    let mut r: Vec<u8> = Vec::new();
    let mut i: u64 = 0;
    while i < 8
        invariant
            i <= 8,
            r@.len() == i,
            forall|j: int| 0 <= j < i ==> #[trigger] r@[j] == be_byte(key, j),
        decreases 8 - i,
    {
        let shift: u64 = 56 - 8 * i;
        r.push(((key >> shift) & 0xff) as u8);
        i = i + 1;
    }
    proof {
        assert(r@ =~= be_bytes(key));
    }
    r
}

/// The key that stored bytes `bytes` stand for, if they are the 8-byte form
/// of a key.
pub fn key_from_store(bytes: &[u8]) -> (r: Option<u64>)
    ensures
        r is Some <==> bytes@.len() == 8,
        r is Some ==> r->Some_0 == be_value(bytes@),
{
    if bytes.len() != 8 {
        return None;
    }
    let v: u64 = ((bytes[0] as u64) << 56) | ((bytes[1] as u64) << 48) | ((bytes[2] as u64) << 40)
        | ((bytes[3] as u64) << 32) | ((bytes[4] as u64) << 24) | ((bytes[5] as u64) << 16)
        | ((bytes[6] as u64) << 8) | (bytes[7] as u64);
    Some(v)
}

/// Reading back the stored form of a key gives the key.
pub proof fn lemma_store_key_round_trip(k: u64)
    ensures
        be_value(be_bytes(k)) == k,
{
    let b = be_bytes(k);
    assert(b[0] == ((k >> 56u64) & 0xff) as u8);
    assert(b[1] == ((k >> 48u64) & 0xff) as u8);
    assert(b[2] == ((k >> 40u64) & 0xff) as u8);
    assert(b[3] == ((k >> 32u64) & 0xff) as u8);
    assert(b[4] == ((k >> 24u64) & 0xff) as u8);
    assert(b[5] == ((k >> 16u64) & 0xff) as u8);
    assert(b[6] == ((k >> 8u64) & 0xff) as u8);
    assert(b[7] == ((k >> 0u64) & 0xff) as u8);
    assert(((((k >> 56u64) & 0xff) as u8 as u64) << 56) | ((((k >> 48u64) & 0xff) as u8 as u64) << 48)
        | ((((k >> 40u64) & 0xff) as u8 as u64) << 40) | ((((k >> 32u64) & 0xff) as u8 as u64) << 32)
        | ((((k >> 24u64) & 0xff) as u8 as u64) << 24) | ((((k >> 16u64) & 0xff) as u8 as u64) << 16)
        | ((((k >> 8u64) & 0xff) as u8 as u64) << 8) | (((k >> 0u64) & 0xff) as u8 as u64) == k) by (bit_vector);
}

/// The first key that a reopened log may hand out, given keys found in the
/// store: one past the highest of them (0 when there are none). A store that
/// holds the largest key gives the largest key, and the log then stores no
/// more.
pub open spec fn first_free(keys: Seq<u64>) -> u64
    decreases keys.len(),
{
    if keys.len() == 0 {
        0
    } else {
        let rest = first_free(keys.drop_last());
        let k = keys.last();
        let c: u64 = if k == u64::MAX { u64::MAX } else { (k + 1) as u64 };
        if c > rest { c } else { rest }
    }
}

/// The first key that a log reopened over a store holding `keys` may hand
/// out, so that no new record overwrites a stored one.
pub fn first_free_key(keys: &Vec<u64>) -> (r: u64)
    ensures
        r == first_free(keys@),
        forall|i: int| 0 <= i < keys@.len() ==> keys@[i] < r || keys@[i] == u64::MAX,
{
    let mut r: u64 = 0;
    let mut i: usize = 0;
    while i < keys.len()
        invariant
            i <= keys@.len(),
            r == first_free(keys@.subrange(0, i as int)),
            forall|j: int| 0 <= j < i ==> keys@[j] < r || keys@[j] == u64::MAX,
        decreases keys@.len() - i,
    {
        let k = keys[i];
        let c: u64 = if k == u64::MAX { u64::MAX } else { k + 1 };
        if c > r {
            r = c;
        }
        proof {
            let sub1 = keys@.subrange(0, i as int + 1);
            assert(sub1.drop_last() == keys@.subrange(0, i as int));
            assert(sub1.last() == k);
        }
        i = i + 1;
    }
    proof {
        assert(keys@.subrange(0, keys@.len() as int) == keys@);
    }
    r
}

/// True when `a` comes before `b` in byte-wise lexicographic order: they
/// agree up to some position, where `a` holds the smaller byte.
pub open spec fn bytes_before(a: Seq<u8>, b: Seq<u8>) -> bool {
    exists|i: int|
        0 <= i < a.len() && i < b.len() && a.subrange(0, i) == b.subrange(0, i) && #[trigger] a[i] < b[i]
}

spec fn shift_of(i: int) -> u64 {
    (56 - 8 * i) as u64
}

proof fn lemma_prefix_step(a: u64, b: u64, i: int)
    requires
        1 <= i < 8,
        (a >> shift_of(i - 1)) == (b >> shift_of(i - 1)),
    ensures
        ((a >> shift_of(i)) >> 8u64) == ((b >> shift_of(i)) >> 8u64),
{
    assert(shift_of(i - 1) == 64 - 8 * i);
    assert(shift_of(i) == 56 - 8 * i);
if i == 1 {
        assert((a >> 56u64) == (b >> 56u64) ==> ((a >> 48u64) >> 8u64) == ((b >> 48u64) >> 8u64)) by (bit_vector);
    } else if i == 2 {
        assert((a >> 48u64) == (b >> 48u64) ==> ((a >> 40u64) >> 8u64) == ((b >> 40u64) >> 8u64)) by (bit_vector);
    } else if i == 3 {
        assert((a >> 40u64) == (b >> 40u64) ==> ((a >> 32u64) >> 8u64) == ((b >> 32u64) >> 8u64)) by (bit_vector);
    } else if i == 4 {
        assert((a >> 32u64) == (b >> 32u64) ==> ((a >> 24u64) >> 8u64) == ((b >> 24u64) >> 8u64)) by (bit_vector);
    } else if i == 5 {
        assert((a >> 24u64) == (b >> 24u64) ==> ((a >> 16u64) >> 8u64) == ((b >> 16u64) >> 8u64)) by (bit_vector);
    } else if i == 6 {
        assert((a >> 16u64) == (b >> 16u64) ==> ((a >> 8u64) >> 8u64) == ((b >> 8u64) >> 8u64)) by (bit_vector);
    } else if i == 7 {
        assert((a >> 8u64) == (b >> 8u64) ==> ((a >> 0u64) >> 8u64) == ((b >> 0u64) >> 8u64)) by (bit_vector);
    }
}

proof fn lemma_prefix_monotone(a: u64, b: u64, i: int)
    requires
        0 <= i < 8,
        a <= b,
    ensures
        (a >> shift_of(i)) <= (b >> shift_of(i)),
{
    assert(shift_of(i) == 56 - 8 * i);
if i == 0 {
        assert(a <= b ==> (a >> 56u64) <= (b >> 56u64)) by (bit_vector);
    } else if i == 1 {
        assert(a <= b ==> (a >> 48u64) <= (b >> 48u64)) by (bit_vector);
    } else if i == 2 {
        assert(a <= b ==> (a >> 40u64) <= (b >> 40u64)) by (bit_vector);
    } else if i == 3 {
        assert(a <= b ==> (a >> 32u64) <= (b >> 32u64)) by (bit_vector);
    } else if i == 4 {
        assert(a <= b ==> (a >> 24u64) <= (b >> 24u64)) by (bit_vector);
    } else if i == 5 {
        assert(a <= b ==> (a >> 16u64) <= (b >> 16u64)) by (bit_vector);
    } else if i == 6 {
        assert(a <= b ==> (a >> 8u64) <= (b >> 8u64)) by (bit_vector);
    } else if i == 7 {
        assert(a <= b ==> (a >> 0u64) <= (b >> 0u64)) by (bit_vector);
    }
}

proof fn first_difference(k1: u64, k2: u64, i: int) -> (r: int)
    requires
        k1 != k2,
        0 <= i < 8,
        forall|j: int| 0 <= j < i ==> (k1 >> shift_of(j)) == (k2 >> shift_of(j)),
    ensures
        i <= r < 8,
        (k1 >> shift_of(r)) != (k2 >> shift_of(r)),
        forall|j: int| 0 <= j < r ==> (k1 >> shift_of(j)) == (k2 >> shift_of(j)),
    decreases 8 - i,
{
    if (k1 >> shift_of(i)) != (k2 >> shift_of(i)) {
        i
    } else if i == 7 {
        assert(shift_of(7) == 0);
        assert(k1 >> 0u64 == k1 && k2 >> 0u64 == k2) by (bit_vector);
        i
    } else {
        first_difference(k1, k2, i + 1)
    }
}

/// Stored keys sort as the keys do: a smaller key has stored bytes that come
/// first in byte-wise order, so a store that walks its keys in byte order
/// walks the log in write order.
pub proof fn lemma_store_key_order(k1: u64, k2: u64)
    requires
        k1 < k2,
    ensures
        bytes_before(be_bytes(k1), be_bytes(k2)),
{
    let r = first_difference(k1, k2, 0);
    let b1 = be_bytes(k1);
    let b2 = be_bytes(k2);
    let x = k1 >> shift_of(r);
    let y = k2 >> shift_of(r);
    lemma_prefix_monotone(k1, k2, r);
    assert(x < y);
    if r > 0 {
        lemma_prefix_step(k1, k2, r);
    } else {
        assert(shift_of(0) == 56);
        assert((k1 >> 56u64) >> 8u64 == 0 && (k2 >> 56u64) >> 8u64 == 0) by (bit_vector);
    }
    assert((x >> 8u64) == (y >> 8u64) && x < y ==> (x & 0xff) < (y & 0xff)) by (bit_vector);
    assert((x & 0xff) < 256 && (y & 0xff) < 256) by (bit_vector);
    assert(b1[r] < b2[r]);
    assert forall|j: int| 0 <= j < r implies b1[j] == b2[j] by {
        assert((k1 >> shift_of(j)) == (k2 >> shift_of(j)));
    }
    assert(b1.subrange(0, r) =~= b2.subrange(0, r));
}

} // verus!
