//! Deterministic fingerprinting of states.
//!
//! A state is a nested unordered mapping: entity name, then resource name,
//! then a 64-bit amount. Its fingerprint is the bitwise XOR of one 64-bit
//! hash per (entity name, resource name, amount) triple, each computed by
//! an FNV-style byte fold. XOR is commutative and associative, so the
//! fingerprint is a function of the multiset of triples alone: no iteration
//! or insertion order can influence it, which
//! [`lemma_state_hash_order_independent`] states and proves.

use vstd::prelude::*;
use vstd::seq_lib::group_to_multiset_ensures;
use vstd::string::StringSliceAdditionalSpecFns;

verus! {

/// FNV-1a 64-bit offset basis.
pub const FNV_OFFSET: u64 = 0xcbf2_9ce4_8422_2325;

/// FNV-1a 64-bit prime.
pub const FNV_PRIME: u64 = 0x0000_0100_0000_01b3;

/// One FNV-style round: fold a 64-bit symbol into the accumulator.
pub open spec fn mix(h: u64, x: u64) -> u64 {
    vstd::wrapping::u64_specs::wrapping_mul(h ^ x, FNV_PRIME)
}

/// Executable form of [`mix`].
pub fn mix_exec(h: u64, x: u64) -> (r: u64)
    ensures
        r == mix(h, x),
{
    (h ^ x).wrapping_mul(FNV_PRIME)
}

/// Fold a byte sequence into the accumulator, front to back.
pub open spec fn mix_bytes(h: u64, bs: Seq<u8>) -> u64
    decreases bs.len(),
{
    if bs.len() == 0 {
        h
    } else {
        mix_bytes(mix(h, bs[0] as u64), bs.drop_first())
    }
}

/// Folding one more byte is one more round.
pub proof fn lemma_mix_bytes_push(h: u64, bs: Seq<u8>, b: u8)
    ensures
        mix_bytes(h, bs.push(b)) == mix(mix_bytes(h, bs), b as u64),
    decreases bs.len(),
{
    if bs.len() == 0 {
        assert(bs.push(b).drop_first() =~= Seq::<u8>::empty());
        assert(bs.push(b)[0] == b);
        assert(mix_bytes(h, bs.push(b)) == mix_bytes(mix(h, b as u64), Seq::<u8>::empty()));
    } else {
        assert(bs.push(b).drop_first() =~= bs.drop_first().push(b));
        lemma_mix_bytes_push(mix(h, bs[0] as u64), bs.drop_first(), b);
    }
}

/// The hash of a name: an FNV-style fold over its UTF-8 bytes.
pub open spec fn str_hash(s: Seq<char>) -> u64 {
    mix_bytes(FNV_OFFSET, vstd::utf8::encode_utf8(s))
}

/// Computes [`str_hash`] of a string slice.
#[verifier::loop_isolation(false)]
pub fn hash_str(s: &str) -> (h: u64)
    ensures
        h == str_hash(s@),
{
    let bytes = s.as_bytes();
    let mut h: u64 = FNV_OFFSET;
    let mut i: usize = 0;
    assert(bytes@.take(0) =~= Seq::<u8>::empty());
    while i < bytes.len()
        invariant
            i <= bytes@.len(),
            bytes@ == s.spec_bytes(),
            h == mix_bytes(FNV_OFFSET, bytes@.take(i as int)),
        decreases bytes@.len() - i,
    {
        proof {
            lemma_mix_bytes_push(FNV_OFFSET, bytes@.take(i as int), bytes@[i as int]);
            assert(bytes@.take(i + 1) =~= bytes@.take(i as int).push(bytes@[i as int]));
        }
        h = mix_exec(h, bytes[i] as u64);
        i = i + 1;
    }
    assert(bytes@.take(bytes@.len() as int) =~= bytes@);
    h
}

/// The hash of one (entity name, resource name, amount) triple.
pub open spec fn triple_hash(entity: Seq<char>, resource: Seq<char>, amount: u64) -> u64 {
    mix(mix(mix(FNV_OFFSET, str_hash(entity)), str_hash(resource)), amount)
}

/// Computes [`triple_hash`] from string slices and an amount pattern.
pub fn hash_triple(entity: &str, resource: &str, amount: u64) -> (h: u64)
    ensures
        h == triple_hash(entity@, resource@, amount),
{
    mix_exec(mix_exec(mix_exec(FNV_OFFSET, hash_str(entity)), hash_str(resource)), amount)
}

/// The XOR of all entries of `s`; zero for an empty sequence.
pub open spec fn xor_all(s: Seq<u64>) -> u64
    decreases s.len(),
{
    if s.len() == 0 {
        0u64
    } else {
        s[0] ^ xor_all(s.drop_first())
    }
}

/// XOR-folding one more entry.
pub proof fn lemma_xor_all_push(s: Seq<u64>, x: u64)
    ensures
        xor_all(s.push(x)) == xor_all(s) ^ x,
    decreases s.len(),
{
    if s.len() == 0 {
        assert(s.push(x).drop_first() =~= Seq::<u64>::empty());
        assert(s.push(x)[0] == x);
        assert(xor_all(s.push(x)) == x ^ xor_all(Seq::<u64>::empty()));
        assert(x ^ 0u64 == 0u64 ^ x) by (bit_vector);
        assert(0u64 ^ x == x) by (bit_vector);
    } else {
        assert(s.push(x).drop_first() =~= s.drop_first().push(x));
        lemma_xor_all_push(s.drop_first(), x);
        let a = s[0];
        let b = xor_all(s.drop_first());
        assert(a ^ (b ^ x) == (a ^ b) ^ x) by (bit_vector);
    }
}

/// Removing the entry at `i` takes its bits back out of the fold.
pub proof fn lemma_xor_all_remove(s: Seq<u64>, i: int)
    requires
        0 <= i < s.len(),
    ensures
        xor_all(s) == s[i] ^ xor_all(s.remove(i)),
    decreases i,
{
    if i == 0 {
        assert(s.remove(0) =~= s.drop_first());
    } else {
        assert(s.remove(i).drop_first() =~= s.drop_first().remove(i - 1));
        lemma_xor_all_remove(s.drop_first(), i - 1);
        let a = s[0];
        let b = s[i];
        let c = xor_all(s.drop_first().remove(i - 1));
        assert(a ^ (b ^ c) == b ^ (a ^ c)) by (bit_vector);
    }
}

/// The fold depends only on the multiset of entries, not on their order.
pub proof fn lemma_xor_all_multiset(a: Seq<u64>, b: Seq<u64>)
    requires
        a.to_multiset() == b.to_multiset(),
    ensures
        xor_all(a) == xor_all(b),
    decreases a.len(),
{
    broadcast use group_to_multiset_ensures;

    a.to_multiset_ensures();
    b.to_multiset_ensures();
    if a.len() == 0 {
        assert(b.len() == 0);
    } else {
        let x = a[0];
        assert(a.contains(x));
        assert(b.to_multiset().count(x) > 0);
        assert(b.contains(x));
        let j = choose|j: int| 0 <= j < b.len() && b[j] == x;
        assert(a.remove(0).to_multiset() == a.to_multiset().remove(x));
        assert(b.remove(j).to_multiset() == b.to_multiset().remove(x));
        assert(a.remove(0) =~= a.drop_first());
        lemma_xor_all_multiset(a.drop_first(), b.remove(j));
        lemma_xor_all_remove(b, j);
    }
}

/// The per-triple hashes contributed by one entity's resources.
pub open spec fn entity_triples(entity: Seq<char>, rs: Seq<(Seq<char>, u64)>) -> Seq<u64> {
    rs.map_values(|p: (Seq<char>, u64)| triple_hash(entity, p.0, p.1))
}

/// The per-triple hashes of a whole state view, entity by entity.
pub open spec fn state_triples(sv: Seq<(Seq<char>, Seq<(Seq<char>, u64)>)>) -> Seq<u64>
    decreases sv.len(),
{
    if sv.len() == 0 {
        Seq::empty()
    } else {
        entity_triples(sv[0].0, sv[0].1) + state_triples(sv.drop_first())
    }
}

/// One more entity contributes its triples at the end.
pub proof fn lemma_state_triples_push(
    sv: Seq<(Seq<char>, Seq<(Seq<char>, u64)>)>,
    e: (Seq<char>, Seq<(Seq<char>, u64)>),
)
    ensures
        state_triples(sv.push(e)) == state_triples(sv) + entity_triples(e.0, e.1),
    decreases sv.len(),
{
    if sv.len() == 0 {
        assert(sv.push(e).drop_first() =~= Seq::<(Seq<char>, Seq<(Seq<char>, u64)>)>::empty());
        assert(sv.push(e)[0] == e);
        assert(state_triples(sv.push(e)) == entity_triples(e.0, e.1) + state_triples(
            Seq::<(Seq<char>, Seq<(Seq<char>, u64)>)>::empty(),
        ));
        assert(state_triples(sv.push(e)) =~= state_triples(sv) + entity_triples(e.0, e.1));
    } else {
        assert(sv.push(e).drop_first() =~= sv.drop_first().push(e));
        lemma_state_triples_push(sv.drop_first(), e);
        assert(entity_triples(sv[0].0, sv[0].1) + (state_triples(sv.drop_first())
            + entity_triples(e.0, e.1)) =~= (entity_triples(sv[0].0, sv[0].1) + state_triples(
            sv.drop_first(),
        )) + entity_triples(e.0, e.1));
    }
}

/// The fingerprint of a state view: the XOR of all its triple hashes.
pub open spec fn state_hash_of(sv: Seq<(Seq<char>, Seq<(Seq<char>, u64)>)>) -> u64 {
    xor_all(state_triples(sv))
}

/// Hash determinism: two state views that hold the same multiset of
/// (entity name, resource name, amount) triples have the same fingerprint,
/// whatever order their entities and resources stand in.
pub proof fn lemma_state_hash_order_independent(
    a: Seq<(Seq<char>, Seq<(Seq<char>, u64)>)>,
    b: Seq<(Seq<char>, Seq<(Seq<char>, u64)>)>,
)
    requires
        state_triples(a).to_multiset() == state_triples(b).to_multiset(),
    ensures
        state_hash_of(a) == state_hash_of(b),
{
    lemma_xor_all_multiset(state_triples(a), state_triples(b));
}

} // verus!
