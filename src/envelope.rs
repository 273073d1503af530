use vstd::bytes::{spec_u64_from_le_bytes, spec_u64_to_le_bytes, u64_from_le_bytes, u64_to_le_bytes};
use vstd::prelude::*;
use vstd::slice::slice_subrange;

verus! {

/// Length of the initialization vector, in bytes.
pub const IV_LEN: usize = 16;

/// Length of the ciphertext length prefix, in bytes.
pub const LEN_PREFIX: usize = 8;

/// The encryption envelope: a ciphertext and the random IV it was made with.
pub struct EncryptedData {
    pub ciphertext: Vec<u8>,
    pub iv: [u8; 16],
}

/// The on-disk form of an envelope: the ciphertext length as a little-endian
/// 64-bit integer, the ciphertext, then the 16 IV bytes.
pub open spec fn envelope_bytes(ciphertext: Seq<u8>, iv: Seq<u8>) -> Seq<u8> {
    spec_u64_to_le_bytes(ciphertext.len() as u64) + ciphertext + iv
}

/// The (ciphertext, IV) pair that `bytes` is the on-disk form of, if any.
pub open spec fn envelope_parts(bytes: Seq<u8>) -> Option<(Seq<u8>, Seq<u8>)> {
    if exists|c: Seq<u8>, iv: Seq<u8>|
        iv.len() == IV_LEN && c.len() <= u64::MAX && #[trigger] envelope_bytes(c, iv) == bytes {
        let (c, iv) = choose|c: Seq<u8>, iv: Seq<u8>|
            iv.len() == IV_LEN && c.len() <= u64::MAX && #[trigger] envelope_bytes(c, iv) == bytes;
        Some((c, iv))
    } else {
        None
    }
}

/// The on-disk form is decoded uniquely.
pub proof fn lemma_envelope_bytes_injective(c1: Seq<u8>, iv1: Seq<u8>, c2: Seq<u8>, iv2: Seq<u8>)
    requires
        iv1.len() == IV_LEN,
        iv2.len() == IV_LEN,
        c1.len() <= u64::MAX,
        c2.len() <= u64::MAX,
        envelope_bytes(c1, iv1) == envelope_bytes(c2, iv2),
    ensures
        c1 == c2,
        iv1 == iv2,
{
    let b = envelope_bytes(c1, iv1);
    vstd::bytes::lemma_auto_spec_u64_to_from_le_bytes();
    let prefix1 = spec_u64_to_le_bytes(c1.len() as u64);
    let prefix2 = spec_u64_to_le_bytes(c2.len() as u64);
    assert(b.subrange(0, 8) == prefix1);
    assert(envelope_bytes(c2, iv2).subrange(0, 8) == prefix2);
    assert(spec_u64_from_le_bytes(prefix1) == c1.len() as u64);
    assert(c1.len() == c2.len());
    assert(b.subrange(8, 8 + c1.len() as int) == c1);
    assert(envelope_bytes(c2, iv2).subrange(8, 8 + c2.len() as int) == c2);
    assert(b.subrange(8 + c1.len() as int, b.len() as int) == iv1);
    assert(envelope_bytes(c2, iv2).subrange(8 + c2.len() as int, b.len() as int) == iv2);
}

/// Encoding an envelope and decoding the bytes gives the envelope back.
pub proof fn lemma_envelope_round_trip(c: Seq<u8>, iv: Seq<u8>)
    requires
        iv.len() == IV_LEN,
        c.len() <= u64::MAX,
    ensures
        envelope_parts(envelope_bytes(c, iv)) == Some((c, iv)),
{
    let b = envelope_bytes(c, iv);
    assert(iv.len() == IV_LEN && c.len() <= u64::MAX && envelope_bytes(c, iv) == b);
    let (c2, iv2) = choose|c2: Seq<u8>, iv2: Seq<u8>|
        iv2.len() == IV_LEN && c2.len() <= u64::MAX && #[trigger] envelope_bytes(c2, iv2) == b;
    lemma_envelope_bytes_injective(c, iv, c2, iv2);
}

/// Serializes an envelope to its on-disk form.
pub fn encode_envelope(e: &EncryptedData) -> (r: Vec<u8>)
    ensures
        r@ == envelope_bytes(e.ciphertext@, e.iv@),
{
    let mut out = u64_to_le_bytes(e.ciphertext.len() as u64);
    let ghost prefix = out@;
    let mut i: usize = 0;
    while i < e.ciphertext.len()
        invariant
            i <= e.ciphertext@.len(),
            out@ == prefix + e.ciphertext@.subrange(0, i as int),
        decreases e.ciphertext@.len() - i,
    {
        out.push(e.ciphertext[i]);
        i = i + 1;
        assert(e.ciphertext@.subrange(0, i as int) == e.ciphertext@.subrange(0, i - 1) + seq![e.ciphertext@[i - 1]]);
    }
    assert(e.ciphertext@.subrange(0, i as int) == e.ciphertext@);
    let ghost body = out@;
    let mut j: usize = 0;
    while j < IV_LEN
        invariant
            j <= IV_LEN,
            e.iv@.len() == IV_LEN,
            out@ == body + e.iv@.subrange(0, j as int),
        decreases IV_LEN - j,
    {
        out.push(e.iv[j]);
        j = j + 1;
        assert(e.iv@.subrange(0, j as int) == e.iv@.subrange(0, j - 1) + seq![e.iv@[j - 1]]);
    }
    assert(e.iv@.subrange(0, IV_LEN as int) == e.iv@);
    out
}

/// Parses the on-disk form of an envelope. Fails with `MalformedVaultFile`
/// exactly when `bytes` is not the on-disk form of any envelope.
pub fn decode_envelope(bytes: &[u8]) -> (r: Result<EncryptedData, crate::error::VaultError>)
    ensures
        match r {
            Ok(e) => envelope_parts(bytes@) == Some((e.ciphertext@, e.iv@)),
            Err(err) => envelope_parts(bytes@) is None && err == crate::error::VaultError::MalformedVaultFile,
        },
{
    proof {
        vstd::bytes::lemma_auto_spec_u64_to_from_le_bytes();
    }
    if bytes.len() < LEN_PREFIX + IV_LEN {
        proof { lemma_short_input_has_no_envelope(bytes@); }
        return Err(crate::error::VaultError::MalformedVaultFile);
    }
    let n = u64_from_le_bytes(slice_subrange(bytes, 0, LEN_PREFIX));
    if n as u128 != (bytes.len() - LEN_PREFIX - IV_LEN) as u128 {
        proof { lemma_length_mismatch_has_no_envelope(bytes@); }
        return Err(crate::error::VaultError::MalformedVaultFile);
    }
    let len = n as usize;
    assert(bytes@.len() == bytes.len());
    let mut ciphertext: Vec<u8> = Vec::new();
    let mut i: usize = 0;
    while i < len
        invariant
            LEN_PREFIX + len + IV_LEN == bytes@.len(),
            bytes@.len() <= usize::MAX,
            i <= len,
            ciphertext@ == bytes@.subrange(LEN_PREFIX as int, LEN_PREFIX + i),
        decreases len - i,
    {
        ciphertext.push(bytes[LEN_PREFIX + i]);
        i = i + 1;
    }
    let mut iv = [0u8; 16];
    let mut j: usize = 0;
    while j < IV_LEN
        invariant
            LEN_PREFIX + len + IV_LEN == bytes@.len(),
            bytes@.len() <= usize::MAX,
            j <= IV_LEN,
            forall|k: int| 0 <= k < j ==> iv@[k] == bytes@[LEN_PREFIX + len + k],
        decreases IV_LEN - j,
    {
        iv[j] = bytes[LEN_PREFIX + len + j];
        j = j + 1;
    }
    let ghost c = ciphertext@;
    proof {
        assert(iv@ == bytes@.subrange(LEN_PREFIX + len, bytes@.len() as int));
        assert(bytes@.subrange(0, 8) == spec_u64_to_le_bytes(c.len() as u64));
        assert(bytes@ == envelope_bytes(c, iv@));
        lemma_envelope_round_trip(c, iv@);
    }
    Ok(EncryptedData { ciphertext, iv })
}

proof fn lemma_short_input_has_no_envelope(bytes: Seq<u8>)
    requires
        bytes.len() < LEN_PREFIX + IV_LEN,
    ensures
        envelope_parts(bytes) is None,
{
    vstd::bytes::lemma_auto_spec_u64_to_from_le_bytes();
    assert forall|c: Seq<u8>, iv: Seq<u8>| iv.len() == IV_LEN && c.len() <= u64::MAX implies
        #[trigger] envelope_bytes(c, iv) != bytes by {
        assert(envelope_bytes(c, iv).len() == 8 + c.len() + 16);
    }
}

proof fn lemma_length_mismatch_has_no_envelope(bytes: Seq<u8>)
    requires
        bytes.len() >= LEN_PREFIX + IV_LEN,
        spec_u64_from_le_bytes(bytes.subrange(0, 8)) as int != bytes.len() - LEN_PREFIX - IV_LEN,
    ensures
        envelope_parts(bytes) is None,
{
    vstd::bytes::lemma_auto_spec_u64_to_from_le_bytes();
    assert forall|c: Seq<u8>, iv: Seq<u8>| iv.len() == IV_LEN && c.len() <= u64::MAX implies
        #[trigger] envelope_bytes(c, iv) != bytes by {
        if envelope_bytes(c, iv) == bytes {
            assert(bytes.subrange(0, 8) == spec_u64_to_le_bytes(c.len() as u64));
            assert(bytes.len() == 8 + c.len() + 16);
        }
    }
}

} // verus!
