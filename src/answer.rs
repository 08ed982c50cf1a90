use vstd::prelude::*;

use crate::error::DnsError;
use crate::name::{is_wire_name, lemma_wire_name_decodes, name_from};
use crate::traits::Serializable;
use crate::wire::{
    be16, be32, lemma_be16_read, lemma_be32_read, push_all, push_u16, push_u32, u16_at, u32_at,
};

verus! {

/// A resource record of the answer section: name in wire form, type, class,
/// time to live in seconds, the RDATA length and the RDATA bytes.
///
/// `Length` should equal the length of `Data`; it is written as it stands.
#[allow(non_snake_case)]
#[derive(Clone, Debug)]
pub struct Answer {
    pub name: Vec<u8>,
    pub q_type: u16,
    pub q_class: u16,
    pub TTL: u32,
    pub Length: u16,
    pub Data: Vec<u8>,
}

/// What an [`Answer`] holds.
pub struct AnswerView {
    pub name: Seq<u8>,
    pub q_type: u16,
    pub q_class: u16,
    pub ttl: u32,
    pub length: u16,
    pub data: Seq<u8>,
}

impl View for Answer {
    type V = AnswerView;

    open spec fn view(&self) -> AnswerView {
        AnswerView {
            name: self.name@,
            q_type: self.q_type,
            q_class: self.q_class,
            ttl: self.TTL,
            length: self.Length,
            data: self.Data@,
        }
    }
}

/// The RDATA length field agrees with the RDATA.
pub open spec fn length_matches(a: AnswerView) -> bool {
    a.length == a.data.len()
}

/// The answer has an uncompressed name and its RDATA length field agrees with
/// its RDATA, as every answer that decoding returns has.
pub open spec fn well_formed_answer(a: AnswerView) -> bool {
    is_wire_name(a.name) && length_matches(a)
}

/// The wire form of an answer: name, type, class, TTL, RDATA length and RDATA,
/// the integers big-endian.
pub open spec fn answer_bytes(a: AnswerView) -> Seq<u8> {
    a.name + be16(a.q_type) + be16(a.q_class) + be32(a.ttl) + be16(a.length) + a.data
}

/// The answer record that begins at `pos` of `buf`, and the offset just past it.
pub open spec fn answer_at(buf: Seq<u8>, pos: int) -> Option<(AnswerView, int)> {
    match name_from(buf, pos) {
        Some((n, e)) => if e + 10 > buf.len() {
            None
        } else {
            let len = u16_at(buf, e + 8);
            if e + 10 + len > buf.len() {
                None
            } else {
                Some(
                    (
                        AnswerView {
                            name: n,
                            q_type: u16_at(buf, e),
                            q_class: u16_at(buf, e + 2),
                            ttl: u32_at(buf, e + 4),
                            length: len,
                            data: buf.subrange(e + 10, e + 10 + len),
                        },
                        e + 10 + len,
                    ),
                )
            }
        },
        None => None,
    }
}

impl Default for Answer {
    fn default() -> (a: Answer)
        ensures
            a@.name.len() == 0,
            a.q_type == 0,
            a.q_class == 0,
            a.TTL == 0,
            a.Length == 0,
            a@.data.len() == 0,
    {
        Answer { name: Vec::new(), q_type: 0, q_class: 0, TTL: 0, Length: 0, Data: Vec::new() }
    }
}

/// Appends the wire form of `a`, whatever its `Length` field holds.
pub fn write_answer(out: &mut Vec<u8>, a: &Answer)
    ensures
        final(out)@ == old(out)@ + answer_bytes(a@),
{
    push_all(out, &a.name);
    push_u16(out, a.q_type);
    push_u16(out, a.q_class);
    push_u32(out, a.TTL);
    push_u16(out, a.Length);
    push_all(out, &a.Data);
    assert(final(out)@ =~= old(out)@ + answer_bytes(a@));
}

/// A copy of `a`, field by field.
pub fn copy_answer(a: &Answer) -> (r: Answer)
    ensures
        r@ == a@,
{
    let mut name: Vec<u8> = Vec::new();
    push_all(&mut name, &a.name);
    let mut data: Vec<u8> = Vec::new();
    push_all(&mut data, &a.Data);
    assert(name@ =~= a.name@);
    assert(data@ =~= a.Data@);
    Answer { name, q_type: a.q_type, q_class: a.q_class, TTL: a.TTL, Length: a.Length, Data: data }
}

impl Answer {
    /// The wire form of this answer, its `Length` field written as it stands;
    /// never fails.
    pub fn create_answer_as_array_of_bytes(&mut self) -> (r: Result<Vec<u8>, &'static str>)
        ensures
            *final(self) == *old(self),
            r matches Ok(b) && b@ == answer_bytes(old(self)@),
    {
        let mut bytes: Vec<u8> = Vec::new();
        write_answer(&mut bytes, self);
        assert(bytes@ =~= answer_bytes(self@));
        Ok(bytes)
    }
}

impl Serializable for Answer {
    open spec fn encoding(&self) -> Seq<u8> {
        answer_bytes(self@)
    }

    fn serialize(&mut self) -> (r: Result<Vec<u8>, DnsError>) {
        let mut bytes: Vec<u8> = Vec::new();
        write_answer(&mut bytes, self);
        assert(bytes@ =~= answer_bytes(self@));
        Ok(bytes)
    }
}

} // verus!

verus! {

/// An answer whose name is in uncompressed wire form and whose RDATA length
/// field agrees with its RDATA, written at `pos` of any buffer, decodes to the
/// same answer and ends right after its last byte.
pub proof fn lemma_answer_round_trip(a: AnswerView, buf: Seq<u8>, pos: int)
    requires
        is_wire_name(a.name),
        length_matches(a),
        0 <= pos,
        pos + answer_bytes(a).len() <= buf.len(),
        buf.subrange(pos, pos + answer_bytes(a).len()) == answer_bytes(a),
    ensures
        answer_at(buf, pos) == Some((a, pos + answer_bytes(a).len())),
{
    let w = answer_bytes(a);
    let n = a.name.len() as int;
    assert forall|k: int| 0 <= k < w.len() implies buf[pos + k] == w[k] by {
        assert(buf.subrange(pos, pos + w.len())[k] == buf[pos + k]);
    }
    assert(buf.subrange(pos, pos + n) =~= a.name);
    lemma_wire_name_decodes(buf, buf.len(), pos, a.name);
    assert(w.subrange(n, n + 2) =~= be16(a.q_type));
    assert(w.subrange(n + 2, n + 4) =~= be16(a.q_class));
    assert(w.subrange(n + 4, n + 8) =~= be32(a.ttl));
    assert(w.subrange(n + 8, n + 10) =~= be16(a.length));
    assert(w.subrange(n + 10, w.len() as int) =~= a.data);
    assert(buf.subrange(pos + n, pos + n + 2) =~= w.subrange(n, n + 2));
    assert(buf.subrange(pos + n + 2, pos + n + 4) =~= w.subrange(n + 2, n + 4));
    assert(buf.subrange(pos + n + 4, pos + n + 8) =~= w.subrange(n + 4, n + 8));
    assert(buf.subrange(pos + n + 8, pos + n + 10) =~= w.subrange(n + 8, n + 10));
    lemma_be16_read(a.q_type);
    lemma_be16_read(a.q_class);
    lemma_be32_read(a.ttl);
    lemma_be16_read(a.length);
    assert(u16_at(buf, pos + n) == u16_at(be16(a.q_type), 0));
    assert(u16_at(buf, pos + n + 2) == u16_at(be16(a.q_class), 0));
    assert(u32_at(buf, pos + n + 4) == u32_at(be32(a.ttl), 0));
    assert(u16_at(buf, pos + n + 8) == u16_at(be16(a.length), 0));
    assert(buf.subrange(pos + n + 10, pos + n + 10 + a.length) =~= w.subrange(
        n + 10,
        w.len() as int,
    ));
}

} // verus!
