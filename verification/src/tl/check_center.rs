//! Page signatures: compute, verify, and read back the signed address.
//!
//! A signature is 128 bytes: the checksum of the page in bytes 0..4, the
//! marker `33 33 AA AA` in bytes 119..123, the logical address of the page in
//! bytes 123..127 (both big-endian), and the scheme tag in byte 127.

use vstd::prelude::*;
use crate::error::FlashError;
use crate::util::crc32::{crc32c, checksum};
use crate::util::page::{be32, be_byte, to_be_bytes, from_be_bytes, lemma_be32_round_trip};

verus! {

/// Bytes in one signature.
pub const SIGN_SIZE: usize = 128;

/// The scheme that protects a page.
#[derive(Clone, Copy, Debug, PartialEq, Eq, Structural)]
pub enum CheckType {
    /// Tag `0x00`: CRC-32C, detection only.
    Crc32,
    /// Tag `0x01`: error correction; reserved.
    Ecc,
}

/// The CRC signature of a page with checksum `crc` at logical address `lpa`.
pub open spec fn crc_signature(crc: u32, lpa: u32) -> Seq<u8> {
    Seq::new(
        128,
        |i: int|
            if 0 <= i < 4 {
                be_byte(crc, i)
            } else if i == 119 || i == 120 {
                0x33u8
            } else if i == 121 || i == 122 {
                0xaau8
            } else if 123 <= i < 127 {
                be_byte(lpa, i - 123)
            } else {
                0u8
            },
    )
}

/// The checksum that a signature stores.
pub open spec fn stored_crc(sig: Seq<u8>) -> u32 {
    be32(sig[0], sig[1], sig[2], sig[3])
}

/// The logical address that a signature stores.
pub open spec fn stored_lpa(sig: Seq<u8>) -> u32 {
    be32(sig[123], sig[124], sig[125], sig[126])
}

/// The scheme that a signature's tag names.
pub open spec fn stored_scheme(sig: Seq<u8>) -> CheckType {
    if sig[127] == 0u8 {
        CheckType::Crc32
    } else {
        CheckType::Ecc
    }
}

/// Whether `sig` is a CRC signature whose checksum is that of `data`.
pub open spec fn crc_verifies(data: Seq<u8>, sig: Seq<u8>) -> bool {
    crc32c(data) == stored_crc(sig)
}

/// The signature centre. It holds no state.
pub struct CheckCenter;

impl CheckCenter {
    /// Verifies `data` against the signature `sa`. For a CRC signature the
    /// answer is whether the checksums agree, the scheme, and no repaired
    /// page; a signature tagged otherwise is refused.
    pub fn check(data: &[u8; 4096], sa: &Vec<u8>) -> (r: Result<
        (bool, CheckType, Option<[u8; 4096]>),
        FlashError,
    >)
        requires
            sa@.len() == 128,
        ensures
            stored_scheme(sa@) == CheckType::Crc32 ==> r == Ok::<
                (bool, CheckType, Option<[u8; 4096]>),
                FlashError,
            >((crc_verifies(data@, sa@), CheckType::Crc32, None)),
            stored_scheme(sa@) == CheckType::Ecc ==> r == Err::<
                (bool, CheckType, Option<[u8; 4096]>),
                FlashError,
            >(FlashError::UnimplementedScheme),
    {
        if sa[127] == 0x00 {
            let signature: u32 = from_be_bytes(sa[0], sa[1], sa[2], sa[3]);
            let ret = CheckCenter::check_crc_32(data, signature);
            Ok((ret.0, CheckType::Crc32, ret.1))
        } else {
            Err(FlashError::UnimplementedScheme)
        }
    }

    /// Signs `data`, stored at logical address `address`, under `sign_type`.
    pub fn sign(data: &[u8; 4096], address: u32, sign_type: CheckType) -> (r: Result<
        Vec<u8>,
        FlashError,
    >)
        ensures
            sign_type == CheckType::Crc32 ==> r is Ok && r->Ok_0@ == crc_signature(
                crc32c(data@),
                address,
            ),
            sign_type == CheckType::Ecc ==> r is Err && r->Err_0 == FlashError::UnimplementedScheme,
    {
        match sign_type {
            CheckType::Crc32 => Ok(CheckCenter::sign_crc_32(data, address)),
            CheckType::Ecc => Err(FlashError::UnimplementedScheme),
        }
    }

    /// The logical address that `signature` stores.
    pub fn extract_address(signature: &Vec<u8>) -> (lpa: u32)
        requires
            signature@.len() == 128,
        ensures
            lpa == stored_lpa(signature@),
    {
        from_be_bytes(signature[123], signature[124], signature[125], signature[126])
    }

    fn check_crc_32(data: &[u8; 4096], signature: u32) -> (r: (bool, Option<[u8; 4096]>))
        ensures
            r.0 == (crc32c(data@) == signature),
            r.1 is None,
    {
        let check_sum: u32 = checksum(data.as_slice());
        (check_sum == signature, None)
    }

    fn sign_crc_32(data: &[u8; 4096], address: u32) -> (sa: Vec<u8>)
        ensures
            sa@ == crc_signature(crc32c(data@), address),
    {
        let check_sum: u32 = checksum(data.as_slice());
        let mut sa: Vec<u8> = Vec::new();
        let mut i: usize = 0;
        while i < 128
            invariant
                i <= 128,
                sa@.len() == i,
                forall|j: int| 0 <= j < i ==> sa@[j] == 0u8,
            decreases 128 - i,
        {
            sa.push(0);
            i = i + 1;
        }
        let c = to_be_bytes(check_sum);
        sa[0] = c.0;
        sa[1] = c.1;
        sa[2] = c.2;
        sa[3] = c.3;
        sa[119] = 0x33;
        sa[120] = 0x33;
        sa[121] = 0xaa;
        sa[122] = 0xaa;
        let a = to_be_bytes(address);
        sa[123] = a.0;
        sa[124] = a.1;
        sa[125] = a.2;
        sa[126] = a.3;
        sa[127] = 0x00;
        assert(sa@ =~= crc_signature(crc32c(data@), address));
        sa
    }
}

/// The address read back from a CRC signature is the address that was signed.
pub proof fn lemma_sign_then_extract(data: Seq<u8>, lpa: u32)
    ensures
        stored_lpa(crc_signature(crc32c(data), lpa)) == lpa,
{
    lemma_be32_round_trip(lpa);
}

/// A CRC signature carries the CRC tag and verifies the page it was made for.
pub proof fn lemma_sign_then_check(data: Seq<u8>, lpa: u32)
    ensures
        stored_scheme(crc_signature(crc32c(data), lpa)) == CheckType::Crc32,
        crc_verifies(data, crc_signature(crc32c(data), lpa)),
{
    lemma_be32_round_trip(crc32c(data));
}

} // verus!
