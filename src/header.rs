use vstd::prelude::*;

use crate::error::DnsError;
use crate::traits::Serializable;
use crate::wire::{be16, lemma_be16_read, lemma_read_be16, read_u16, u16_at};

verus! {

/// The fixed 12-byte header of a DNS message.
///
/// The flag fields hold one bit each, `OPCODE` and `RCODE` four bits, and `Z`
/// three bits; encoding keeps only the low bits of a wider value (see
/// [`flags_hi`]).
#[allow(non_snake_case)]
#[derive(Clone, Copy, Debug, PartialEq, Eq, Structural)]
pub struct Header {
    pub ID: u16,
    pub QR: u8,
    pub OPCODE: u8,
    pub AA: u8,
    pub TC: u8,
    pub RD: u8,
    pub RA: u8,
    pub Z: u8,
    pub RCODE: u8,
    pub QDCOUNT: u16,
    pub ANCOUNT: u16,
    pub NSCOUNT: u16,
    pub ARCOUNT: u16,
}

/// The header with every field zero.
pub open spec fn zero_header() -> Header {
    Header {
        ID: 0,
        QR: 0,
        OPCODE: 0,
        AA: 0,
        TC: 0,
        RD: 0,
        RA: 0,
        Z: 0,
        RCODE: 0,
        QDCOUNT: 0,
        ANCOUNT: 0,
        NSCOUNT: 0,
        ARCOUNT: 0,
    }
}

/// The third header byte: `QR | OPCODE | AA | TC | RD`, each cut to its width
/// and shifted to its place. A value wider than its field is silently truncated
/// to its low bits.
pub open spec fn flags_hi(h: Header) -> u8 {
    ((h.QR & 1) << 7u8) | ((h.OPCODE & 0xF) << 3u8) | ((h.AA & 1) << 2u8) | ((h.TC & 1) << 1u8)
        | (h.RD & 1)
}

/// The fourth header byte: `RA | Z | RCODE`, packed as in [`flags_hi`].
pub open spec fn flags_lo(h: Header) -> u8 {
    ((h.RA & 1) << 7u8) | ((h.Z & 7) << 4u8) | (h.RCODE & 0xF)
}

/// The wire form of a header.
pub open spec fn header_bytes(h: Header) -> Seq<u8> {
    be16(h.ID) + seq![flags_hi(h), flags_lo(h)] + be16(h.QDCOUNT) + be16(h.ANCOUNT) + be16(
        h.NSCOUNT,
    ) + be16(h.ARCOUNT)
}

/// The header that the first 12 bytes of `b` hold.
pub open spec fn header_of(b: Seq<u8>) -> Header {
    Header {
        ID: u16_at(b, 0),
        QR: (b[2] & 0x80) >> 7u8,
        OPCODE: (b[2] & 0x78) >> 3u8,
        AA: (b[2] & 0x04) >> 2u8,
        TC: (b[2] & 0x02) >> 1u8,
        RD: b[2] & 0x01,
        RA: (b[3] & 0x80) >> 7u8,
        Z: (b[3] & 0x70) >> 4u8,
        RCODE: b[3] & 0x0F,
        QDCOUNT: u16_at(b, 4),
        ANCOUNT: u16_at(b, 6),
        NSCOUNT: u16_at(b, 8),
        ARCOUNT: u16_at(b, 10),
    }
}

/// Every field of `h` fits in its width on the wire.
pub open spec fn fields_fit(h: Header) -> bool {
    &&& h.QR < 2
    &&& h.OPCODE < 16
    &&& h.AA < 2
    &&& h.TC < 2
    &&& h.RD < 2
    &&& h.RA < 2
    &&& h.Z < 8
    &&& h.RCODE < 16
}

impl Default for Header {
    fn default() -> (h: Header)
        ensures
            h == zero_header(),
    {
        Header {
            ID: 0,
            QR: 0,
            OPCODE: 0,
            AA: 0,
            TC: 0,
            RD: 0,
            RA: 0,
            Z: 0,
            RCODE: 0,
            QDCOUNT: 0,
            ANCOUNT: 0,
            NSCOUNT: 0,
            ARCOUNT: 0,
        }
    }
}

/// Decodes the header at the start of `bytes`, which must hold at least 12 bytes.
pub fn decode_header(bytes: &[u8]) -> (h: Header)
    requires
        bytes@.len() >= 12,
    ensures
        h == header_of(bytes@),
{
    let hi = bytes[2];
    let lo = bytes[3];
    Header {
        ID: read_u16(bytes, 0),
        QR: (hi & 0x80) >> 7,
        OPCODE: (hi & 0x78) >> 3,
        AA: (hi & 0x04) >> 2,
        TC: (hi & 0x02) >> 1,
        RD: hi & 0x01,
        RA: (lo & 0x80) >> 7,
        Z: (lo & 0x70) >> 4,
        RCODE: lo & 0x0F,
        QDCOUNT: read_u16(bytes, 4),
        ANCOUNT: read_u16(bytes, 6),
        NSCOUNT: read_u16(bytes, 8),
        ARCOUNT: read_u16(bytes, 10),
    }
}

/// Encodes a header into its 12 wire bytes.
pub fn encode_header(h: &Header) -> (r: [u8; 12])
    ensures
        r@ == header_bytes(*h),
{
    let hi: u8 = ((h.QR & 1) << 7) | ((h.OPCODE & 0xF) << 3) | ((h.AA & 1) << 2) | ((h.TC & 1)
        << 1) | (h.RD & 1);
    let lo: u8 = ((h.RA & 1) << 7) | ((h.Z & 7) << 4) | (h.RCODE & 0xF);
    let r: [u8; 12] = [
        (h.ID / 256) as u8,
        (h.ID % 256) as u8,
        hi,
        lo,
        (h.QDCOUNT / 256) as u8,
        (h.QDCOUNT % 256) as u8,
        (h.ANCOUNT / 256) as u8,
        (h.ANCOUNT % 256) as u8,
        (h.NSCOUNT / 256) as u8,
        (h.NSCOUNT % 256) as u8,
        (h.ARCOUNT / 256) as u8,
        (h.ARCOUNT % 256) as u8,
    ];
    assert(r@ =~= header_bytes(*h));
    r
}

impl Header {
    /// Decodes the first 12 bytes of `bytes` into `self`.
    /// Fails, leaving `self` unchanged, when fewer than 12 bytes are given.
    pub fn parse_header(&mut self, bytes: &[u8]) -> (r: Result<(), &'static str>)
        ensures
            bytes@.len() < 12 ==> r is Err && *final(self) == *old(self),
            bytes@.len() >= 12 ==> r is Ok && *final(self) == header_of(bytes@),
    {
        if bytes.len() < 12 {
            return Err("Header size must be at least 12 bytes");
        }
        *self = decode_header(bytes);
        Ok(())
    }

    /// The 12 wire bytes of this header; never fails.
    pub fn create_header_as_array_of_bytes(&mut self) -> (r: Result<[u8; 12], &'static str>)
        ensures
            *final(self) == *old(self),
            r matches Ok(b) && b@ == header_bytes(*old(self)),
    {
        Ok(encode_header(self))
    }
}

impl Serializable for Header {
    open spec fn encoding(&self) -> Seq<u8> {
        header_bytes(*self)
    }

    fn serialize(&mut self) -> (r: Result<Vec<u8>, DnsError>) {
        let bytes = encode_header(self);
        let mut out: Vec<u8> = Vec::new();
        crate::wire::push_all(&mut out, &bytes);
        Ok(out)
    }
}

} // verus!

verus! {

/// Decoding the 12 header bytes at the start of a buffer and encoding the result
/// gives back those bytes exactly, whatever they hold.
pub proof fn lemma_header_decode_encode(b: Seq<u8>)
    requires
        b.len() >= 12,
    ensures
        header_bytes(header_of(b)) == b.subrange(0, 12),
{
    let h = header_of(b);
    let x = b[2];
    let y = b[3];
    assert((((((x & 0x80) >> 7u8) & 1) << 7u8) | ((((x & 0x78) >> 3u8) & 0xF) << 3u8) | ((((x
        & 0x04) >> 2u8) & 1) << 2u8) | ((((x & 0x02) >> 1u8) & 1) << 1u8) | ((x & 0x01) & 1)) == x)
        by (bit_vector);
    assert((((((y & 0x80) >> 7u8) & 1) << 7u8) | ((((y & 0x70) >> 4u8) & 7) << 4u8) | ((y & 0x0F)
        & 0xF)) == y) by (bit_vector);
    lemma_read_be16(b, 0);
    lemma_read_be16(b, 4);
    lemma_read_be16(b, 6);
    lemma_read_be16(b, 8);
    lemma_read_be16(b, 10);
    assert(header_bytes(h) =~= b.subrange(0, 12));
}

/// Encoding a header whose fields fit their widths and decoding the bytes gives
/// back the same header.
pub proof fn lemma_header_encode_decode(h: Header)
    requires
        fields_fit(h),
    ensures
        header_of(header_bytes(h)) == h,
{
    let b = header_bytes(h);
    let (qr, op, aa, tc, rd, ra, z, rc) = (h.QR, h.OPCODE, h.AA, h.TC, h.RD, h.RA, h.Z, h.RCODE);
    let x = flags_hi(h);
    let y = flags_lo(h);
    assert(qr < 2 && op < 16 && aa < 2 && tc < 2 && rd < 2 ==> {
        let x = ((qr & 1) << 7u8) | ((op & 0xF) << 3u8) | ((aa & 1) << 2u8) | ((tc & 1) << 1u8)
            | (rd & 1);
        &&& (x & 0x80) >> 7u8 == qr
        &&& (x & 0x78) >> 3u8 == op
        &&& (x & 0x04) >> 2u8 == aa
        &&& (x & 0x02) >> 1u8 == tc
        &&& x & 0x01 == rd
    }) by (bit_vector);
    assert(ra < 2 && z < 8 && rc < 16 ==> {
        let y = ((ra & 1) << 7u8) | ((z & 7) << 4u8) | (rc & 0xF);
        &&& (y & 0x80) >> 7u8 == ra
        &&& (y & 0x70) >> 4u8 == z
        &&& y & 0x0F == rc
    }) by (bit_vector);
    assert(b[2] == x && b[3] == y);
    lemma_be16_read(h.ID);
    lemma_be16_read(h.QDCOUNT);
    lemma_be16_read(h.ANCOUNT);
    lemma_be16_read(h.NSCOUNT);
    lemma_be16_read(h.ARCOUNT);
    assert(b.subrange(4, 6) =~= be16(h.QDCOUNT));
    assert(b.subrange(6, 8) =~= be16(h.ANCOUNT));
    assert(b.subrange(8, 10) =~= be16(h.NSCOUNT));
    assert(b.subrange(10, 12) =~= be16(h.ARCOUNT));
    assert(u16_at(b, 4) == u16_at(be16(h.QDCOUNT), 0));
    assert(u16_at(b, 6) == u16_at(be16(h.ANCOUNT), 0));
    assert(u16_at(b, 8) == u16_at(be16(h.NSCOUNT), 0));
    assert(u16_at(b, 10) == u16_at(be16(h.ARCOUNT), 0));
}

} // verus!
