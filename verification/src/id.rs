//! The fingerprint of a captured stack.

use vstd::prelude::*;

verus! {

/// Fingerprint of a captured stack: the CRC-64 (ECMA-182) of its instruction
/// pointers.
#[derive(Clone, Copy, Debug, PartialEq, Eq, Hash, Structural)]
pub struct Id(pub u64);

/// The byte of `ip` that lies `shift` bits above its least significant bit.
pub open spec fn octet(ip: u64, shift: u64) -> u8 {
    ((ip >> shift) & 0xff) as u8
}

/// The eight bytes of `ip`, most significant first.
pub open spec fn be_bytes(ip: u64) -> Seq<u8> {
    seq![
        octet(ip, 56),
        octet(ip, 48),
        octet(ip, 40),
        octet(ip, 32),
        octet(ip, 24),
        octet(ip, 16),
        octet(ip, 8),
        octet(ip, 0),
    ]
}

/// The bytes that a trace is fingerprinted over: the big-endian bytes of its
/// instruction pointers in capture order.
pub open spec fn trace_bytes(ips: Seq<u64>) -> Seq<u8>
    decreases ips.len(),
{
    if ips.len() == 0 {
        Seq::empty()
    } else {
        trace_bytes(ips.drop_last()) + be_bytes(ips.last())
    }
}

/// The CRC-64 of `bytes` under the ECMA-182 parameters of the `crc` crate's
/// catalogue (`CRC_64_ECMA_182`).
pub uninterp spec fn crc64_ecma_182(bytes: Seq<u8>) -> u64;

/// `crc::Crc::<u64>::checksum` with the algorithm `crc::CRC_64_ECMA_182`:
/// the checksum is a function of the bytes alone.
#[verifier::external_body]
fn checksum(bytes: &[u8]) -> (crc: u64)
    ensures
        crc == crc64_ecma_182(bytes@),
{
    crc::Crc::<u64>::new(&crc::CRC_64_ECMA_182).checksum(bytes)
}

/// Extracts the byte of `ip` that lies `shift` bits above its least
/// significant bit.
fn octet_of(ip: u64, shift: u64) -> (byte: u8)
    requires
        shift < 64,
    ensures
        byte == octet(ip, shift),
{
    let part: u64 = (ip >> shift) & 0xff;
    assert(part < 256) by (bit_vector)
        requires
            part == (ip >> shift) & 0xff,
    ;
    part as u8
}

/// Appends the big-endian bytes of `ip` to `bytes`.
fn put_be(bytes: &mut Vec<u8>, ip: u64)
    ensures
        final(bytes)@ == old(bytes)@ + be_bytes(ip),
{
    bytes.push(octet_of(ip, 56));
    bytes.push(octet_of(ip, 48));
    bytes.push(octet_of(ip, 40));
    bytes.push(octet_of(ip, 32));
    bytes.push(octet_of(ip, 24));
    bytes.push(octet_of(ip, 16));
    bytes.push(octet_of(ip, 8));
    bytes.push(octet_of(ip, 0));
    assert(bytes@ =~= old(bytes)@ + be_bytes(ip));
}

impl Id {
    /// Fingerprints the trace `ips`.
    pub fn new(ips: &[u64]) -> (id: Id)
        ensures
            id.0 == crc64_ecma_182(trace_bytes(ips@)),
    {
        let mut bytes: Vec<u8> = Vec::new();
        let mut i: usize = 0;
        while i < ips.len()
            invariant
                i <= ips@.len(),
                bytes@ == trace_bytes(ips@.take(i as int)),
            decreases ips@.len() - i,
        {
            put_be(&mut bytes, ips[i]);
            assert(ips@.take(i + 1).drop_last() =~= ips@.take(i as int));
            i += 1;
        }
        assert(ips@.take(i as int) =~= ips@);
        Id(checksum(bytes.as_slice()))
    }
}

} // verus!
