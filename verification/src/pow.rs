//! The proof of work: the hashed message, the leading-zero count, the
//! validity check of a nonce and the nonce search.

use vstd::prelude::*;
use vstd::bytes::{spec_u64_to_le_bytes, u64_to_le_bytes};
use vstd::std_specs::bits::{axiom_u8_leading_zeros, u8_leading_zeros};
use vstd::utf8::encode_utf8;

use crate::id::{u128_be_bytes, EntityId};
use crate::miner::MineRequest;

verus! {

/// What BLAKE3 (default mode, 32-byte output) gives for the byte string `input`.
pub uninterp spec fn blake3_digest(input: Seq<u8>) -> Seq<u8>;

/// Calls `blake3::hash(input)` and returns the 32 bytes of the hash.
///
/// The contract claims only that the output is the BLAKE3 digest of exactly the
/// bytes passed in (a function of the input alone). blake3 documents
/// `Hasher::new().update(a).update(b).finalize()` as equal to `hash(a ‖ b)`.
#[verifier::external_body]
fn blake3_hash(input: &[u8]) -> (out: [u8; 32])
    ensures
        out@ == blake3_digest(input@),
{
    *blake3::hash(input).as_bytes()
}

/// The bytes that are hashed for a proof of work:
/// seed (UTF-8) ‖ tick (little endian) ‖ resource id ‖ agent id ‖ nonce (little endian).
pub open spec fn pow_message(
    seed: Seq<char>,
    tick: u64,
    resource_id: EntityId,
    agent_id: EntityId,
    nonce: u64,
) -> Seq<u8> {
    encode_utf8(seed) + spec_u64_to_le_bytes(tick) + resource_id.spec_bytes()
        + agent_id.spec_bytes() + spec_u64_to_le_bytes(nonce)
}

/// The hash of a nonce for a request.
pub open spec fn pow_digest(request: MineRequest, nonce: u64) -> Seq<u8> {
    blake3_digest(
        pow_message(request.seed@, request.tick, request.resource_id, request.agent_id, nonce),
    )
}

/// Number of leading zero bits of a byte string read as one big-endian bit string.
pub open spec fn spec_leading_zero_bits(bytes: Seq<u8>) -> nat
    decreases bytes.len(),
{
    if bytes.len() == 0 {
        0
    } else if u8_leading_zeros(bytes[0]) < 8 {
        u8_leading_zeros(bytes[0]) as nat
    } else {
        8 + spec_leading_zero_bits(bytes.drop_first())
    }
}

/// A nonce is valid for a request when its hash starts with at least
/// `target_bits` zero bits.
pub open spec fn nonce_is_valid(request: MineRequest, nonce: u64) -> bool {
    spec_leading_zero_bits(pow_digest(request, nonce)) >= request.target_bits
}

/// The end (exclusive) of the nonce range searched from `start` with `batch` tries.
pub open spec fn search_end(start: u64, batch: u64) -> int {
    if start + batch > u64::MAX {
        u64::MAX as int
    } else {
        start + batch
    }
}

proof fn lemma_leading_zero_bits_bound(bytes: Seq<u8>)
    ensures
        spec_leading_zero_bits(bytes) <= 8 * bytes.len(),
        spec_leading_zero_bits(bytes) == 8 * bytes.len() <==> forall|i: int|
            0 <= i < bytes.len() ==> bytes[i] == 0,
    decreases bytes.len(),
{
    broadcast use axiom_u8_leading_zeros;

    if bytes.len() > 0 {
        let rest = bytes.drop_first();
        lemma_leading_zero_bits_bound(rest);
        if u8_leading_zeros(bytes[0]) < 8 {
            assert(bytes[0] != 0);
        } else {
            assert forall|i: int| 0 <= i < bytes.len() && (forall|j: int| 0 <= j < rest.len() ==> rest[j] == 0) implies bytes[i] == 0 by {
                if i > 0 {
                    assert(bytes[i] == rest[i - 1]);
                }
            }
            if !(forall|j: int| 0 <= j < rest.len() ==> rest[j] == 0) {
                let j = choose|j: int| 0 <= j < rest.len() && rest[j] != 0;
                assert(bytes[j + 1] == rest[j]);
            }
        }
    }
}

proof fn lemma_leading_zero_bits_step(bytes: Seq<u8>, i: int)
    requires
        0 <= i < bytes.len(),
    ensures
        spec_leading_zero_bits(bytes.subrange(i, bytes.len() as int)) == if u8_leading_zeros(bytes[i]) < 8 {
            u8_leading_zeros(bytes[i]) as nat
        } else {
            8 + spec_leading_zero_bits(bytes.subrange(i + 1, bytes.len() as int))
        },
{
    let s = bytes.subrange(i, bytes.len() as int);
    assert(s.drop_first() =~= bytes.subrange(i + 1, bytes.len() as int));
}

proof fn lemma_byte_leading_zeros(b: u8, k: u8)
    requires
        0 < k < 8,
    ensures
        (u8_leading_zeros(b) >= k) == (b >> ((8 - k) as u8) == 0),
{
    broadcast use axiom_u8_leading_zeros;

    let lz = u8_leading_zeros(b) as u8;
    let s: u8 = (8 - k) as u8;
    if lz >= k {
        let s1: u8 = (8 - lz) as u8;
        assert(b >> s1 == 0);
        assert(s1 <= s);
        assert(s1 <= s && b >> s1 == 0 ==> b >> s == 0) by (bit_vector);
    } else {
        let t: u8 = (7 - lz) as u8;
        assert((b >> t) & 1u8 != 0u8);
        assert(t >= s);
        assert(t >= s && t < 8 && b >> s == 0 ==> (b >> t) & 1u8 == 0u8) by (bit_vector);
    }
}

/// What the count means: a byte string has at least `k` leading zero bits
/// exactly when its first `k / 8` bytes are zero and, when `k` is not a whole
/// number of bytes, the next byte keeps its top `k % 8` bits at zero.
pub proof fn law_leading_zero_bits_meaning(bytes: Seq<u8>, k: nat)
    requires
        k <= 8 * bytes.len(),
    ensures
        (spec_leading_zero_bits(bytes) >= k) == ((forall|i: int| 0 <= i < k / 8 ==> #[trigger] bytes[i] == 0)
            && (k % 8 == 0 || bytes[(k / 8) as int] >> ((8 - k % 8) as u8) == 0)),
    decreases bytes.len(),
{
    broadcast use axiom_u8_leading_zeros;

    if bytes.len() > 0 {
        let b = bytes[0];
        let rest = bytes.drop_first();
        if k < 8 {
            if k > 0 {
                lemma_byte_leading_zeros(b, k as u8);
                if u8_leading_zeros(b) == 8 {
                    assert(b == 0);
                    let sh: u8 = (8 - k % 8) as u8;
                    assert(b >> sh == 0) by (bit_vector)
                        requires
                            b == 0,
                    ;
                }
            }
        } else {
            let k2 = (k - 8) as nat;
            law_leading_zero_bits_meaning(rest, k2);
            assert(k2 / 8 == k / 8 - 1);
            assert(k2 % 8 == k % 8);
            if b == 0 {
                assert(u8_leading_zeros(b) == 8);
                assert((forall|i: int| 0 <= i < k / 8 ==> #[trigger] bytes[i] == 0) == (forall|i: int|
                    0 <= i < k2 / 8 ==> #[trigger] rest[i] == 0)) by {
                    if forall|i: int| 0 <= i < k2 / 8 ==> #[trigger] rest[i] == 0 {
                        assert forall|i: int| 0 <= i < k / 8 implies #[trigger] bytes[i] == 0 by {
                            if i > 0 {
                                assert(bytes[i] == rest[i - 1]);
                            }
                        }
                    }
                    if forall|i: int| 0 <= i < k / 8 ==> #[trigger] bytes[i] == 0 {
                        assert forall|i: int| 0 <= i < k2 / 8 implies #[trigger] rest[i] == 0 by {
                            assert(bytes[i + 1] == rest[i]);
                        }
                    }
                }
                if k % 8 != 0 {
                    assert(bytes[(k / 8) as int] == rest[(k2 / 8) as int]);
                }
            } else {
                assert(u8_leading_zeros(b) < 8);
                assert(bytes[0] != 0);
            }
        }
    }
}

/// Counts the leading zero bits of `bytes`, read as one big-endian bit string.
pub fn leading_zero_bits(bytes: &[u8]) -> (count: u8)
    requires
        spec_leading_zero_bits(bytes@) < 256,
    ensures
        count == spec_leading_zero_bits(bytes@),
{
    let mut count: u8 = 0;
    let mut i: usize = 0;
    assert(bytes@.subrange(0, bytes@.len() as int) =~= bytes@);
    while i < bytes.len()
        invariant
            i <= bytes@.len(),
            count + spec_leading_zero_bits(bytes@.subrange(i as int, bytes@.len() as int))
                == spec_leading_zero_bits(bytes@),
            spec_leading_zero_bits(bytes@) < 256,
        decreases bytes.len() - i,
    {
        proof {
            broadcast use axiom_u8_leading_zeros;
            lemma_leading_zero_bits_step(bytes@, i as int);
        }
        let lz = bytes[i].leading_zeros() as u8;
        count = count + lz;
        if lz < 8 {
            return count;
        }
        i = i + 1;
    }
    count
}

fn append_bytes(out: &mut Vec<u8>, bytes: &[u8])
    ensures
        final(out)@ == old(out)@ + bytes@,
{
    let mut i: usize = 0;
    while i < bytes.len()
        invariant
            i <= bytes@.len(),
            out@ == old(out)@ + bytes@.subrange(0, i as int),
        decreases bytes.len() - i,
    {
        out.push(bytes[i]);
        i = i + 1;
        assert(out@ =~= old(out)@ + bytes@.subrange(0, i as int));
    }
    assert(bytes@.subrange(0, bytes@.len() as int) =~= bytes@);
}

/// Hashes seed ‖ tick ‖ resource id ‖ agent id ‖ nonce with BLAKE3.
fn pow_hash(seed: &str, tick: u64, resource_id: EntityId, agent_id: EntityId, nonce: u64) -> (hash: [u8; 32])
    ensures
        hash@ == blake3_digest(pow_message(seed@, tick, resource_id, agent_id, nonce)),
{
    let mut message: Vec<u8> = Vec::new();
    append_bytes(&mut message, seed.as_bytes());
    let tick_bytes = u64_to_le_bytes(tick);
    append_bytes(&mut message, tick_bytes.as_slice());
    let resource_bytes = resource_id.as_bytes();
    append_bytes(&mut message, &resource_bytes);
    let agent_bytes = agent_id.as_bytes();
    append_bytes(&mut message, &agent_bytes);
    let nonce_bytes = u64_to_le_bytes(nonce);
    append_bytes(&mut message, nonce_bytes.as_slice());
    assert(message@ =~= pow_message(seed@, tick, resource_id, agent_id, nonce));
    blake3_hash(message.as_slice())
}

fn is_all_zero(bytes: &[u8]) -> (zero: bool)
    ensures
        zero == forall|i: int| 0 <= i < bytes@.len() ==> bytes@[i] == 0,
{
    let mut i: usize = 0;
    while i < bytes.len()
        invariant
            i <= bytes@.len(),
            forall|j: int| 0 <= j < i ==> bytes@[j] == 0,
        decreases bytes.len() - i,
    {
        if bytes[i] != 0 {
            return false;
        }
        i = i + 1;
    }
    true
}

/// Checks that `nonce` gives a hash with at least `target_bits` leading zero bits.
///
/// The hash is BLAKE3 over seed ‖ tick (LE) ‖ resource_id (bytes) ‖ agent_id (bytes) ‖ nonce (LE).
/// A hash of 32 zero bytes has 256 leading zero bits and meets every target.
pub fn pow_valid(mine_request: &MineRequest, nonce: u64) -> (valid: bool)
    ensures
        valid == nonce_is_valid(*mine_request, nonce),
{
    let hash = pow_hash(
        mine_request.seed.as_str(),
        mine_request.tick,
        mine_request.resource_id,
        mine_request.agent_id,
        nonce,
    );
    proof {
        lemma_leading_zero_bits_bound(hash@);
    }
    if is_all_zero(&hash) {
        true
    } else {
        leading_zero_bits(&hash) >= mine_request.target_bits
    }
}

/// What a search of `batch` nonces from `start` gives: the first valid nonce of
/// the range, or `None` when the range holds none.
pub open spec fn search_outcome(request: MineRequest, start: u64, batch: u64, found: Option<u64>) -> bool {
    match found {
        Some(nonce) => {
            &&& start <= nonce < search_end(start, batch)
            &&& nonce_is_valid(request, nonce)
            &&& forall|n: u64| start <= n < nonce ==> !nonce_is_valid(request, n)
        },
        None => forall|n: u64| start <= n < search_end(start, batch) ==> !nonce_is_valid(request, n),
    }
}

/// A nonce that a search returns passes the validity check.
pub proof fn law_found_nonce_is_valid(request: MineRequest, start: u64, batch: u64, nonce: u64)
    requires
        search_outcome(request, start, batch, Some(nonce)),
    ensures
        nonce_is_valid(request, nonce),
{
}

/// A search gives one outcome only: two searches of the same range agree.
pub proof fn law_search_deterministic(
    request: MineRequest,
    start: u64,
    batch: u64,
    first: Option<u64>,
    second: Option<u64>,
)
    requires
        search_outcome(request, start, batch, first),
        search_outcome(request, start, batch, second),
    ensures
        first == second,
{
    match (first, second) {
        (Some(a), Some(b)) => {
            if a < b {
                assert(!nonce_is_valid(request, a));
            } else if b < a {
                assert(!nonce_is_valid(request, b));
            }
        },
        (Some(a), None) => {
            assert(!nonce_is_valid(request, a));
        },
        (None, Some(b)) => {
            assert(!nonce_is_valid(request, b));
        },
        (None, None) => {},
    }
}

/// Searching a range in two consecutive batches gives what one search of the
/// whole range gives: when the first batch finds nothing, the second batch's
/// outcome is the outcome of the whole range.
pub proof fn law_search_in_batches(
    request: MineRequest,
    start: u64,
    first_batch: u64,
    second_batch: u64,
    second: Option<u64>,
)
    requires
        start + first_batch + second_batch <= u64::MAX,
        search_outcome(request, start, first_batch, None),
        search_outcome(request, (start + first_batch) as u64, second_batch, second),
    ensures
        search_outcome(request, start, (first_batch + second_batch) as u64, second),
{
}

/// Lowering the target keeps a nonce valid: a nonce valid for `request` is
/// valid for every request that differs only by a smaller target.
pub proof fn law_lower_target_keeps_valid(request: MineRequest, easier: MineRequest, nonce: u64)
    requires
        nonce_is_valid(request, nonce),
        easier.seed@ == request.seed@,
        easier.tick == request.tick,
        easier.resource_id == request.resource_id,
        easier.agent_id == request.agent_id,
        easier.target_bits <= request.target_bits,
    ensures
        nonce_is_valid(easier, nonce),
{
}

#[verifier::spinoff_prover]
proof fn lemma_u128_be_bytes_injective(a: u128, b: u128)
    requires
        u128_be_bytes(a) == u128_be_bytes(b),
    ensures
        a == b,
{
    let x = u128_be_bytes(a);
    let y = u128_be_bytes(b);
    assert(x[0] == y[0] && x[1] == y[1] && x[2] == y[2] && x[3] == y[3]);
    assert(x[4] == y[4] && x[5] == y[5] && x[6] == y[6] && x[7] == y[7]);
    assert(x[8] == y[8] && x[9] == y[9] && x[10] == y[10] && x[11] == y[11]);
    assert(x[12] == y[12] && x[13] == y[13] && x[14] == y[14] && x[15] == y[15]);
    assert(a == b) by (bit_vector)
        requires
            ((a >> 120u128) & 0xff) as u8 == ((b >> 120u128) & 0xff) as u8,
            ((a >> 112u128) & 0xff) as u8 == ((b >> 112u128) & 0xff) as u8,
            ((a >> 104u128) & 0xff) as u8 == ((b >> 104u128) & 0xff) as u8,
            ((a >> 96u128) & 0xff) as u8 == ((b >> 96u128) & 0xff) as u8,
            ((a >> 88u128) & 0xff) as u8 == ((b >> 88u128) & 0xff) as u8,
            ((a >> 80u128) & 0xff) as u8 == ((b >> 80u128) & 0xff) as u8,
            ((a >> 72u128) & 0xff) as u8 == ((b >> 72u128) & 0xff) as u8,
            ((a >> 64u128) & 0xff) as u8 == ((b >> 64u128) & 0xff) as u8,
            ((a >> 56u128) & 0xff) as u8 == ((b >> 56u128) & 0xff) as u8,
            ((a >> 48u128) & 0xff) as u8 == ((b >> 48u128) & 0xff) as u8,
            ((a >> 40u128) & 0xff) as u8 == ((b >> 40u128) & 0xff) as u8,
            ((a >> 32u128) & 0xff) as u8 == ((b >> 32u128) & 0xff) as u8,
            ((a >> 24u128) & 0xff) as u8 == ((b >> 24u128) & 0xff) as u8,
            ((a >> 16u128) & 0xff) as u8 == ((b >> 16u128) & 0xff) as u8,
            ((a >> 8u128) & 0xff) as u8 == ((b >> 8u128) & 0xff) as u8,
            ((a >> 0u128) & 0xff) as u8 == ((b >> 0u128) & 0xff) as u8,
    ;
}

/// The hashed message holds the whole request, in order: the seed's UTF-8
/// bytes in full (whatever its length), then the tick and the nonce's
/// little-endian bytes around the two identifiers; it is 48 bytes longer than
/// the seed's encoding, and each part reads back as the value it came from.
pub proof fn law_message_layout(
    seed: Seq<char>,
    tick: u64,
    resource_id: EntityId,
    agent_id: EntityId,
    nonce: u64,
)
    ensures
        ({
            let m = pow_message(seed, tick, resource_id, agent_id, nonce);
            let k = encode_utf8(seed).len() as int;
            &&& m.len() == k + 48
            &&& vstd::utf8::decode_utf8(m.subrange(0, k)) == seed
            &&& vstd::bytes::spec_u64_from_le_bytes(m.subrange(k, k + 8)) == tick
            &&& m.subrange(k + 8, k + 24) == u128_be_bytes(resource_id.value)
            &&& m.subrange(k + 24, k + 40) == u128_be_bytes(agent_id.value)
            &&& vstd::bytes::spec_u64_from_le_bytes(m.subrange(k + 40, k + 48)) == nonce
        }),
{
    vstd::bytes::lemma_auto_spec_u64_to_from_le_bytes();
    vstd::utf8::encode_utf8_decode_utf8(seed);
    let e = encode_utf8(seed);
    let t = spec_u64_to_le_bytes(tick);
    let r = resource_id.spec_bytes();
    let a = agent_id.spec_bytes();
    let n = spec_u64_to_le_bytes(nonce);
    let m = pow_message(seed, tick, resource_id, agent_id, nonce);
    let k = e.len() as int;
    assert(m == e + t + r + a + n);
    assert(m.subrange(0, k) =~= e);
    assert(m.subrange(k, k + 8) =~= t);
    assert(m.subrange(k + 8, k + 24) =~= r);
    assert(m.subrange(k + 24, k + 40) =~= a);
    assert(m.subrange(k + 40, k + 48) =~= n);
}

/// Two nonce checks hash the same message only for the same seed, tick,
/// identifiers and nonce: every part of the request reaches the hash.
pub proof fn law_message_injective(
    seed: Seq<char>,
    tick: u64,
    resource_id: EntityId,
    agent_id: EntityId,
    nonce: u64,
    seed2: Seq<char>,
    tick2: u64,
    resource_id2: EntityId,
    agent_id2: EntityId,
    nonce2: u64,
)
    requires
        pow_message(seed, tick, resource_id, agent_id, nonce) == pow_message(
            seed2,
            tick2,
            resource_id2,
            agent_id2,
            nonce2,
        ),
    ensures
        seed == seed2,
        tick == tick2,
        resource_id == resource_id2,
        agent_id == agent_id2,
        nonce == nonce2,
{
    law_message_layout(seed, tick, resource_id, agent_id, nonce);
    law_message_layout(seed2, tick2, resource_id2, agent_id2, nonce2);
    let m = pow_message(seed, tick, resource_id, agent_id, nonce);
    let k = encode_utf8(seed).len() as int;
    assert(encode_utf8(seed2).len() == k);
    lemma_u128_be_bytes_injective(resource_id.value, resource_id2.value);
    lemma_u128_be_bytes_injective(agent_id.value, agent_id2.value);
}

/// Tries `batch_size` consecutive nonces from `start_nonce` (the range ends at
/// `u64::MAX` at the latest) and returns the first valid one.
pub fn pow_search(request: &MineRequest, start_nonce: u64, batch_size: u64) -> (found: Option<u64>)
    ensures
        search_outcome(*request, start_nonce, batch_size, found),
{
    let end = start_nonce.saturating_add(batch_size);
    let mut nonce = start_nonce;
    while nonce < end
        invariant
            start_nonce <= nonce <= end,
            end == search_end(start_nonce, batch_size),
            forall|n: u64| start_nonce <= n < nonce ==> !nonce_is_valid(*request, n),
        decreases end - nonce,
    {
        if pow_valid(request, nonce) {
            return Some(nonce);
        }
        nonce = nonce + 1;
    }
    None
}

} // verus!
