use vstd::prelude::*;

use crate::config::pairs_view;
use siphasher::sip::SipHasher13;
use vstd::string::StrSliceExecFns;
use vstd::string::StringExecFns;
use vstd::utf8::encode_utf8;

verus! {

/// What SipHash-1-3 returns for a 128-bit key and a byte stream: a pure
/// function of the two key halves and the bytes alone.
pub uninterp spec fn sip13_of(k0: u64, k1: u64, data: Seq<u8>) -> u64;

/// Relies on siphasher's `SipHasher13::new_with_keys` and
/// `SipHasher13::hash`: the SipHash-1-3 digest of a byte array under a
/// 128-bit key, a deterministic function of the keys and the bytes.
#[verifier::external_body]
fn sip13_digest(k0: u64, k1: u64, data: &[u8]) -> (r: u64)
    ensures
        r == sip13_of(k0, k1, data@),
{
    SipHasher13::new_with_keys(k0, k1).hash(data)
}

/// The byte stream hashed for one string piece: its UTF-8 bytes followed
/// by a terminator octet, which keeps adjacent pieces apart.
pub open spec fn piece_bytes(s: Seq<char>) -> Seq<u8> {
    encode_utf8(s) + seq![0xFFu8]
}

/// The byte stream hashed for a bucket key: the policy identifier
/// followed by each captured name and value, in capture order.
pub open spec fn key_material(
    policy_id: Seq<char>,
    captured: Seq<(Seq<char>, Seq<char>)>,
) -> Seq<u8>
    decreases captured.len(),
{
    if captured.len() == 0 {
        piece_bytes(policy_id)
    } else {
        key_material(policy_id, captured.drop_last()) + piece_bytes(captured.last().0)
            + piece_bytes(captured.last().1)
    }
}

/// The bucket-key fingerprint: the keyed digest of the key material.
pub open spec fn key_of(
    k0: u64,
    k1: u64,
    policy_id: Seq<char>,
    captured: Seq<(Seq<char>, Seq<char>)>,
) -> u64 {
    sip13_of(k0, k1, key_material(policy_id, captured))
}

/// The seed an optional secret denotes: the secret, or the fixed default.
pub open spec fn seed_of(secret: Option<Seq<char>>) -> Seq<char> {
    match secret {
        Some(s) => s,
        None => "fluxgate::default-secret"@,
    }
}

/// The first keying constant derived from a seed.
pub open spec fn k0_of_seed(seed: Seq<char>) -> u64 {
    sip13_of(0, 0, encode_utf8(seed))
}

/// The second keying constant: derived from the seed under a domain
/// separating suffix, so the two constants are independent digests.
pub open spec fn k1_of_seed(seed: Seq<char>) -> u64 {
    sip13_of(0, 0, encode_utf8(seed + "::secondary"@))
}

/// Derives an engine's two 64-bit keying constants from its optional
/// secret and computes per-bucket key fingerprints. The same secret
/// always yields the same keying material, and the same policy
/// identifier and captured values always yield the same key under it.
#[derive(Debug)]
pub struct KeyBuilder {
    pub k0: u64,
    pub k1: u64,
}

fn push_piece(buf: &mut Vec<u8>, s: &str)
    ensures
        final(buf)@ == old(buf)@ + piece_bytes(s@),
{
    buf.extend_from_slice(s.as_bytes());
    buf.push(0xFF);
    proof {
        assert(buf@ =~= old(buf)@ + piece_bytes(s@));
    }
}

impl KeyBuilder {
    /// Derive the keying constants from an optional secret string; a
    /// fixed default seed stands in when none is given.
    pub fn new(secret: Option<&str>) -> (r: KeyBuilder)
        ensures
            r.k0 == k0_of_seed(seed_of(match secret {
                Some(s) => Some(s@),
                None => None,
            })),
            r.k1 == k1_of_seed(seed_of(match secret {
                Some(s) => Some(s@),
                None => None,
            })),
    {
        let seed: &str = match secret {
            Some(s) => s,
            None => "fluxgate::default-secret",
        };
        let k0 = sip13_digest(0, 0, seed.as_bytes());
        let secondary = seed.to_owned().concat("::secondary");
        let k1 = sip13_digest(0, 0, secondary.as_str().as_bytes());
        KeyBuilder { k0, k1 }
    }

    /// The bucket key for a policy identifier and its captured values:
    /// the keyed digest of the identifier and each captured name and
    /// value in order. Identical inputs under the same keying constants
    /// always produce the identical key.
    pub fn build_key(&self, policy_id: &str, captured: &Vec<(String, String)>) -> (r: u64)
        ensures
            r == key_of(self.k0, self.k1, policy_id@, pairs_view(captured@)),
    {
        let ghost cv = pairs_view(captured@);
        let mut buf: Vec<u8> = Vec::new();
        push_piece(&mut buf, policy_id);
        proof {
            assert(cv.take(0) =~= Seq::<(Seq<char>, Seq<char>)>::empty());
        }
        let mut i: usize = 0;
        while i < captured.len()
            invariant
                0 <= i <= captured@.len(),
                cv == pairs_view(captured@),
                buf@ == key_material(policy_id@, cv.take(i as int)),
            decreases captured@.len() - i,
        {
            proof {
                assert(cv[i as int] == (captured@[i as int].0@, captured@[i as int].1@));
            }
            push_piece(&mut buf, captured[i].0.as_str());
            push_piece(&mut buf, captured[i].1.as_str());
            proof {
                let t = cv.take(i + 1);
                assert(t.drop_last() =~= cv.take(i as int));
                assert(t.last() == cv[i as int]);
                assert(buf@ =~= key_material(policy_id@, cv.take(i as int)) + piece_bytes(
                    cv[i as int].0,
                ) + piece_bytes(cv[i as int].1));
            }
            i += 1;
        }
        proof {
            assert(cv.take(i as int) =~= cv);
        }
        sip13_digest(self.k0, self.k1, buf.as_slice())
    }
}

/// Key determinism: the bucket key is a function of the keying constants,
/// the policy identifier and the captured values alone, so identical
/// inputs under the same constants always land on the same bucket.
pub proof fn lemma_key_determinism(
    k0: u64,
    k1: u64,
    id1: Seq<char>,
    cap1: Seq<(Seq<char>, Seq<char>)>,
    id2: Seq<char>,
    cap2: Seq<(Seq<char>, Seq<char>)>,
)
    requires
        id1 == id2,
        cap1 == cap2,
    ensures
        key_of(k0, k1, id1, cap1) == key_of(k0, k1, id2, cap2),
{
}

} // verus!
