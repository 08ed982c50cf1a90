use vstd::prelude::*;

use crate::error::DnsError;
use crate::name::{is_wire_name, lemma_wire_name_decodes, name_from};
use crate::traits::Serializable;
use crate::wire::{be16, lemma_be16_read, push_all, push_u16, u16_at};

verus! {

/// A question: a name in wire form, a record type and a class.
#[derive(Clone, Debug)]
pub struct Question {
    pub name: Vec<u8>,
    pub q_type: u16,
    pub q_class: u16,
}

/// What a [`Question`] holds.
pub struct QuestionView {
    pub name: Seq<u8>,
    pub q_type: u16,
    pub q_class: u16,
}

impl View for Question {
    type V = QuestionView;

    open spec fn view(&self) -> QuestionView {
        QuestionView { name: self.name@, q_type: self.q_type, q_class: self.q_class }
    }
}

/// The wire form of a question: its name bytes, then type and class big-endian.
pub open spec fn question_bytes(q: QuestionView) -> Seq<u8> {
    q.name + be16(q.q_type) + be16(q.q_class)
}

/// The question that begins at `pos` of `buf`, and the offset just past it.
pub open spec fn question_at(buf: Seq<u8>, pos: int) -> Option<(QuestionView, int)> {
    match name_from(buf, pos) {
        Some((n, e)) => if e + 4 <= buf.len() {
            Some(
                (
                    QuestionView { name: n, q_type: u16_at(buf, e), q_class: u16_at(buf, e + 2) },
                    e + 4,
                ),
            )
        } else {
            None
        },
        None => None,
    }
}

impl Default for Question {
    fn default() -> (q: Question)
        ensures
            q@.name.len() == 0,
            q.q_type == 0,
            q.q_class == 0,
    {
        Question { name: Vec::new(), q_type: 0, q_class: 0 }
    }
}

/// Appends the wire form of `q`.
pub fn write_question(out: &mut Vec<u8>, q: &Question)
    ensures
        final(out)@ == old(out)@ + question_bytes(q@),
{
    push_all(out, &q.name);
    push_u16(out, q.q_type);
    push_u16(out, q.q_class);
    assert(final(out)@ =~= old(out)@ + question_bytes(q@));
}

/// A copy of `q`, field by field.
pub fn copy_question(q: &Question) -> (r: Question)
    ensures
        r@ == q@,
{
    let mut name: Vec<u8> = Vec::new();
    push_all(&mut name, &q.name);
    assert(name@ =~= q.name@);
    Question { name, q_type: q.q_type, q_class: q.q_class }
}

impl Question {
    /// The wire form of this question; never fails.
    pub fn create_question_as_array_of_bytes(&mut self) -> (r: Result<Vec<u8>, &'static str>)
        ensures
            *final(self) == *old(self),
            r matches Ok(b) && b@ == question_bytes(old(self)@),
    {
        let mut bytes: Vec<u8> = Vec::new();
        write_question(&mut bytes, self);
        assert(bytes@ =~= question_bytes(self@));
        Ok(bytes)
    }
}

impl Serializable for Question {
    open spec fn encoding(&self) -> Seq<u8> {
        question_bytes(self@)
    }

    fn serialize(&mut self) -> (r: Result<Vec<u8>, DnsError>) {
        let mut bytes: Vec<u8> = Vec::new();
        write_question(&mut bytes, self);
        assert(bytes@ =~= question_bytes(self@));
        Ok(bytes)
    }
}

/// A question whose name is in uncompressed wire form, written at `pos` of any
/// buffer, decodes to the same name, type and class, and ends right after its
/// last byte.
pub proof fn lemma_question_round_trip(q: QuestionView, buf: Seq<u8>, pos: int)
    requires
        is_wire_name(q.name),
        0 <= pos,
        pos + question_bytes(q).len() <= buf.len(),
        buf.subrange(pos, pos + question_bytes(q).len()) == question_bytes(q),
    ensures
        question_at(buf, pos) == Some((q, pos + question_bytes(q).len())),
{
    let w = question_bytes(q);
    let n = q.name.len() as int;
    assert forall|k: int| 0 <= k < w.len() implies buf[pos + k] == w[k] by {
        assert(buf.subrange(pos, pos + w.len())[k] == buf[pos + k]);
    }
    assert(buf.subrange(pos, pos + n) =~= w.subrange(0, n));
    assert(w.subrange(0, n) =~= q.name);
    lemma_wire_name_decodes(buf, buf.len(), pos, q.name);
    assert(w.subrange(n, n + 2) =~= be16(q.q_type));
    assert(w.subrange(n + 2, n + 4) =~= be16(q.q_class));
    assert(buf.subrange(pos + n, pos + n + 2) =~= w.subrange(n, n + 2));
    assert(buf.subrange(pos + n + 2, pos + n + 4) =~= w.subrange(n + 2, n + 4));
    lemma_be16_read(q.q_type);
    lemma_be16_read(q.q_class);
    assert(u16_at(buf, pos + n) == u16_at(be16(q.q_type), 0));
    assert(u16_at(buf, pos + n + 2) == u16_at(be16(q.q_class), 0));
}

} // verus!
