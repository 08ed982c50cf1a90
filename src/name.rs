use vstd::prelude::*;
use vstd::set_lib::{lemma_int_range, lemma_len_subset, set_int_range};

use crate::error::DnsError;
use crate::wire::{push_all, push_range};

verus! {

/// The longest label: its length byte has the two high bits clear.
pub const MAX_LABEL_LEN: u8 = 63;

/// The offset that a compression pointer with bytes `hi`, `lo` refers to:
/// the low 14 bits of the pair.
pub open spec fn pointer_target(hi: u8, lo: u8) -> int {
    (hi as int - 0xC0) * 256 + lo as int
}

/// The target of the pointer whose first byte is at `p` of `buf`.
pub open spec fn pointer_at(buf: Seq<u8>, p: int) -> int {
    pointer_target(buf[p], buf[p + 1])
}

/// `s` stands at offset `pos` of `buf`.
pub open spec fn holds_at(buf: Seq<u8>, pos: int, s: Seq<u8>) -> bool {
    0 <= pos && pos + s.len() <= buf.len() && buf.subrange(pos, pos + s.len()) == s
}

/// `n` is a name in uncompressed wire form: length-prefixed labels of 1 to 63
/// bytes each, ended by a single zero byte.
pub open spec fn is_wire_name(n: Seq<u8>) -> bool
    decreases n.len(),
{
    if n.len() == 0 {
        false
    } else if n[0] == 0 {
        n.len() == 1
    } else {
        &&& n[0] <= MAX_LABEL_LEN
        &&& n[0] + 1 < n.len()
        &&& is_wire_name(n.subrange(n[0] + 1, n.len() as int))
    }
}

/// `l` is a sequence of whole length-prefixed labels of 1 to 63 bytes, with no
/// terminating zero.
pub open spec fn is_label_run(l: Seq<u8>) -> bool
    decreases l.len(),
{
    if l.len() == 0 {
        true
    } else {
        &&& 1 <= l[0] <= MAX_LABEL_LEN
        &&& l[0] + 1 <= l.len()
        &&& is_label_run(l.subrange(l[0] + 1, l.len() as int))
    }
}

/// Decoding a name from offset `pos` of `buf`, following at most `hops`
/// compression pointers: the name's uncompressed wire bytes and the offset just
/// past it, or `None` where the bytes are malformed or more pointers are met.
///
/// A length byte of 0 ends the name; 1 to 63 is a label of that many bytes; a
/// byte of `0xC0` or more and the next byte form a pointer, which ends the name
/// and stands for the name at its target, wherever in `buf` that lies. Length
/// bytes 64 to 191 are malformed.
pub open spec fn name_at(buf: Seq<u8>, hops: nat, pos: int) -> Option<(Seq<u8>, int)>
    decreases hops, buf.len() - pos,
{
    if pos < 0 || pos >= buf.len() {
        None
    } else if buf[pos] == 0 {
        Some((seq![0u8], pos + 1))
    } else if buf[pos] >= 0xC0 {
        if pos + 1 >= buf.len() || hops == 0 {
            None
        } else {
            match name_at(buf, (hops - 1) as nat, pointer_at(buf, pos)) {
                Some((n, _)) => Some((n, pos + 2)),
                None => None,
            }
        }
    } else if buf[pos] <= MAX_LABEL_LEN {
        let end = pos + 1 + buf[pos];
        if end > buf.len() {
            None
        } else {
            match name_at(buf, hops, end) {
                Some((n, e)) => Some((buf.subrange(pos, end) + n, e)),
                None => None,
            }
        }
    } else {
        None
    }
}

/// The positions of the pointers that [`name_at`] follows, in order.
pub open spec fn pointers_followed(buf: Seq<u8>, hops: nat, pos: int) -> Seq<int>
    decreases hops, buf.len() - pos,
{
    if pos < 0 || pos >= buf.len() || buf[pos] == 0 {
        Seq::empty()
    } else if buf[pos] >= 0xC0 {
        if pos + 1 >= buf.len() || hops == 0 {
            Seq::empty()
        } else {
            seq![pos] + pointers_followed(buf, (hops - 1) as nat, pointer_at(buf, pos))
        }
    } else if buf[pos] <= MAX_LABEL_LEN {
        let end = pos + 1 + buf[pos];
        if end > buf.len() {
            Seq::empty()
        } else {
            pointers_followed(buf, hops, end)
        }
    } else {
        Seq::empty()
    }
}

/// The name that begins at offset `pos` of `buf`. A pointer chain that has not
/// ended after as many pointers as `buf` has bytes has met a pointer twice and
/// would never end, so that many suffice for every name that decodes at all
/// (see [`lemma_budget_suffices`]).
pub open spec fn name_from(buf: Seq<u8>, pos: int) -> Option<(Seq<u8>, int)> {
    name_at(buf, buf.len(), pos)
}

/// The name bytes of a successful decoding.
pub open spec fn decoded(r: Option<(Seq<u8>, int)>) -> Seq<u8> {
    match r {
        Some((n, _)) => n,
        None => Seq::empty(),
    }
}

/// The end offset of a successful decoding.
pub open spec fn decoded_end(r: Option<(Seq<u8>, int)>) -> int {
    match r {
        Some((_, e)) => e,
        None => 0,
    }
}

/// The result of a decoding whose first part, `prefix`, is already read: the
/// rest comes from `rest`, and the end is `end` where a pointer has fixed it.
pub open spec fn after_prefix(
    prefix: Seq<u8>,
    rest: Option<(Seq<u8>, int)>,
    end: Option<usize>,
) -> Option<(Seq<u8>, int)> {
    match rest {
        Some((n, e)) => Some(
            (
                prefix + n,
                match end {
                    Some(fixed) => fixed as int,
                    None => e,
                },
            ),
        ),
        None => None,
    }
}

/// Decodes the name that begins at `offset` of `bytes`, following compression
/// pointers to any offset of `bytes`. Returns its uncompressed wire bytes and
/// the offset just past it in `bytes` (past the first pointer, where it has
/// one). A chain of pointers that does not end is rejected.
pub fn parse_name(bytes: &[u8], offset: usize) -> (r: Result<(Vec<u8>, usize), DnsError>)
    ensures
        match name_from(bytes@, offset as int) {
            Some((n, e)) => r matches Ok((v, end)) && v@ == n && end == e,
            None => r matches Err(DnsError::Parse(_)),
        },
{
    let mut result: Vec<u8> = Vec::new();
    let mut pos: usize = offset;
    let mut hops: usize = bytes.len();
    let mut end: Option<usize> = None;
    assert(after_prefix(result@, name_from(bytes@, offset as int), end) == name_from(
        bytes@,
        offset as int,
    )) by {
        match name_from(bytes@, offset as int) {
            Some((n, e)) => {
                assert(result@ + n =~= n);
            },
            None => {},
        }
    }
    loop
        invariant
            hops <= bytes@.len(),
            name_from(bytes@, offset as int) == after_prefix(
                result@,
                name_at(bytes@, hops as nat, pos as int),
                end,
            ),
        decreases hops, bytes@.len() - pos,
    {
        if pos >= bytes.len() {
            return Err(DnsError::parse("Ran out of bytes while parsing name"));
        }
        let len = bytes[pos];
        if len == 0 {
            let ghost before = result@;
            result.push(0);
            assert(result@ =~= before + seq![0u8]);
            let stop = match end {
                Some(e) => e,
                None => pos + 1,
            };
            return Ok((result, stop));
        } else if len >= 0xC0 {
            if pos + 1 >= bytes.len() {
                return Err(DnsError::parse("Not enough bytes for name pointer"));
            }
            if hops == 0 {
                return Err(DnsError::parse("Name pointers form a cycle"));
            }
            let target: usize = ((len - 0xC0) as usize) * 256 + (bytes[pos + 1] as usize);
            if end.is_none() {
                end = Some(pos + 2);
            }
            hops = hops - 1;
            pos = target;
        } else if len <= MAX_LABEL_LEN {
            let n = len as usize;
            if n > bytes.len() - (pos + 1) {
                return Err(DnsError::parse("Label extends past end of buffer"));
            }
            let ghost before = result@;
            push_range(&mut result, bytes, pos, pos + 1 + n);
            proof {
                let next = pos + 1 + n;
                match name_at(bytes@, hops as nat, next as int) {
                    Some((m, e)) => {
                        assert(before + (bytes@.subrange(pos as int, next as int) + m) =~= result@
                            + m);
                    },
                    None => {},
                }
            }
            pos = pos + 1 + n;
        } else {
            return Err(DnsError::parse("Label length byte has reserved high bits"));
        }
    }
}

} // verus!

verus! {

/// Whatever a successful decoding returns is a name in uncompressed wire form,
/// and it ends after the offset it began at and within the buffer.
pub proof fn lemma_decoded_name_is_wire(buf: Seq<u8>, hops: nat, pos: int)
    requires
        name_at(buf, hops, pos) is Some,
    ensures
        is_wire_name(decoded(name_at(buf, hops, pos))),
        pos < decoded_end(name_at(buf, hops, pos)) <= buf.len(),
    decreases hops, buf.len() - pos,
{
    if buf[pos] == 0 {
    } else if buf[pos] >= 0xC0 {
        lemma_decoded_name_is_wire(buf, (hops - 1) as nat, pointer_at(buf, pos));
    } else {
        let end = pos + 1 + buf[pos];
        lemma_decoded_name_is_wire(buf, hops, end);
        let n = decoded(name_at(buf, hops, end));
        let full = buf.subrange(pos, end) + n;
        assert(full.subrange(full[0] + 1, full.len() as int) =~= n);
    }
}

/// A name in uncompressed wire form, found at `pos` of any buffer, decodes to
/// itself and ends right after its last byte, following no pointer.
pub proof fn lemma_wire_name_decodes(buf: Seq<u8>, hops: nat, pos: int, n: Seq<u8>)
    requires
        is_wire_name(n),
        holds_at(buf, pos, n),
    ensures
        name_at(buf, hops, pos) == Some((n, pos + n.len())),
    decreases n.len(),
{
    assert(buf[pos] == buf.subrange(pos, pos + n.len())[0]);
    if n[0] == 0 {
        assert(n =~= seq![0u8]);
    } else {
        let k = n[0] as int;
        let rest = n.subrange(k + 1, n.len() as int);
        assert(buf.subrange(pos + k + 1, pos + k + 1 + rest.len()) =~= rest);
        lemma_wire_name_decodes(buf, hops, pos + k + 1, rest);
        assert(buf.subrange(pos, pos + k + 1) + rest =~= n);
    }
}

/// A run of labels followed by a name is a name.
pub proof fn lemma_label_run_append(l: Seq<u8>, n: Seq<u8>)
    requires
        is_label_run(l),
        is_wire_name(n),
    ensures
        is_wire_name(l + n),
    decreases l.len(),
{
    if l.len() == 0 {
        assert(l + n =~= n);
    } else {
        let k = l[0] as int;
        let rest = l.subrange(k + 1, l.len() as int);
        lemma_label_run_append(rest, n);
        assert((l + n).subrange(k + 1, (l + n).len() as int) =~= rest + n);
    }
}

/// A larger pointer budget changes nothing about a decoding that succeeds.
proof fn lemma_budget_monotone(buf: Seq<u8>, hops: nat, pos: int, more: nat)
    requires
        name_at(buf, hops, pos) is Some,
        hops <= more,
    ensures
        name_at(buf, more, pos) == name_at(buf, hops, pos),
        pointers_followed(buf, more, pos) == pointers_followed(buf, hops, pos),
    decreases hops, buf.len() - pos,
{
    if buf[pos] == 0 {
    } else if buf[pos] >= 0xC0 {
        lemma_budget_monotone(
            buf,
            (hops - 1) as nat,
            pointer_at(buf, pos),
            (more - 1) as nat,
        );
    } else {
        lemma_budget_monotone(buf, hops, pos + 1 + buf[pos], more);
    }
}

/// A successful decoding follows no more pointers than its budget, and a budget
/// of exactly the pointers it follows gives the same result.
proof fn lemma_budget_used(buf: Seq<u8>, hops: nat, pos: int)
    requires
        name_at(buf, hops, pos) is Some,
    ensures
        pointers_followed(buf, hops, pos).len() <= hops,
        name_at(buf, pointers_followed(buf, hops, pos).len(), pos) == name_at(buf, hops, pos),
    decreases hops, buf.len() - pos,
{
    if buf[pos] == 0 {
    } else if buf[pos] >= 0xC0 {
        let t = pointer_at(buf, pos);
        lemma_budget_used(buf, (hops - 1) as nat, t);
    } else {
        lemma_budget_used(buf, hops, pos + 1 + buf[pos]);
    }
}

/// After the `k`-th pointer of a successful decoding, decoding goes on from that
/// pointer's target with `k + 1` fewer pointers to spend, and follows the rest
/// of the pointers.
proof fn lemma_pointer_suffix(buf: Seq<u8>, hops: nat, pos: int, k: int)
    requires
        name_at(buf, hops, pos) is Some,
        0 <= k < pointers_followed(buf, hops, pos).len(),
    ensures
        ({
            let ps = pointers_followed(buf, hops, pos);
            let t = pointer_at(buf, ps[k]);
            &&& 0 <= ps[k]
            &&& ps[k] + 1 < buf.len()
            &&& k + 1 <= hops
            &&& name_at(buf, (hops - k - 1) as nat, t) is Some
            &&& pointers_followed(buf, (hops - k - 1) as nat, t) == ps.subrange(
                k + 1,
                ps.len() as int,
            )
        }),
    decreases hops, buf.len() - pos,
{
    let ps = pointers_followed(buf, hops, pos);
    if buf[pos] >= 0xC0 {
        let t = pointer_at(buf, pos);
        let rest = pointers_followed(buf, (hops - 1) as nat, t);
        assert(ps == seq![pos] + rest);
        if k == 0 {
            assert(ps.subrange(1, ps.len() as int) =~= rest);
        } else {
            lemma_pointer_suffix(buf, (hops - 1) as nat, t, k - 1);
            assert(ps[k] == rest[k - 1]);
            assert(ps.subrange(k + 1, ps.len() as int) =~= rest.subrange(k, rest.len() as int));
        }
    } else {
        lemma_pointer_suffix(buf, hops, pos + 1 + buf[pos], k);
    }
}

/// A decoding that succeeds meets no pointer twice.
proof fn lemma_pointers_distinct(buf: Seq<u8>, hops: nat, pos: int)
    requires
        name_at(buf, hops, pos) is Some,
    ensures
        pointers_followed(buf, hops, pos).no_duplicates(),
{
    let ps = pointers_followed(buf, hops, pos);
    assert forall|i: int, j: int| 0 <= i < ps.len() && 0 <= j < ps.len() && i != j implies ps[i]
        != ps[j] by {
        if ps[i] == ps[j] {
            let (a, b) = if i < j {
                (i, j)
            } else {
                (j, i)
            };
            lemma_pointer_suffix(buf, hops, pos, a);
            lemma_pointer_suffix(buf, hops, pos, b);
            let t = pointer_at(buf, ps[a]);
            let ha = (hops - a - 1) as nat;
            let hb = (hops - b - 1) as nat;
            assert(pointer_at(buf, ps[b]) == t);
            lemma_budget_monotone(buf, hb, t, ha);
            assert(ps.subrange(a + 1, ps.len() as int).len() != ps.subrange(
                b + 1,
                ps.len() as int,
            ).len());
        }
    }
}

/// A decoding that succeeds with any budget succeeds, with the same result,
/// with one pointer fewer than the buffer has bytes.
pub proof fn lemma_budget_suffices(buf: Seq<u8>, hops: nat, pos: int)
    requires
        name_at(buf, hops, pos) is Some,
    ensures
        buf.len() >= 1,
        name_at(buf, (buf.len() - 1) as nat, pos) == name_at(buf, hops, pos),
{
    let ps = pointers_followed(buf, hops, pos);
    lemma_pointers_distinct(buf, hops, pos);
    assert forall|x: int| ps.to_set().contains(x) implies set_int_range(
        0,
        buf.len() - 1,
    ).contains(x) by {
        let k = choose|k: int| 0 <= k < ps.len() && ps[k] == x;
        lemma_pointer_suffix(buf, hops, pos, k);
    }
    lemma_int_range(0, buf.len() - 1);
    lemma_len_subset(ps.to_set(), set_int_range(0, buf.len() - 1));
    ps.unique_seq_to_set();
    lemma_budget_used(buf, hops, pos);
    lemma_budget_monotone(buf, ps.len(), pos, (buf.len() - 1) as nat);
}

/// A run of labels at `pos`, followed by a pointer whose target decodes within
/// `hops - 1` pointers, decodes to the labels followed by the name at the
/// target, and ends just past the pointer.
proof fn lemma_label_run_then_pointer(buf: Seq<u8>, hops: nat, pos: int, l: Seq<u8>)
    requires
        is_label_run(l),
        holds_at(buf, pos, l),
        pos + l.len() + 2 <= buf.len(),
        buf[pos + l.len()] >= 0xC0,
        hops >= 1,
        name_at(buf, (hops - 1) as nat, pointer_at(buf, pos + l.len())) is Some,
    ensures
        name_at(buf, hops, pos) == Some(
            (
                l + decoded(name_at(buf, (hops - 1) as nat, pointer_at(buf, pos + l.len()))),
                pos + l.len() + 2,
            ),
        ),
    decreases l.len(),
{
    let n = decoded(name_at(buf, (hops - 1) as nat, pointer_at(buf, pos + l.len())));
    if l.len() == 0 {
        assert(l + n =~= n);
    } else {
        assert(buf[pos] == buf.subrange(pos, pos + l.len())[0]);
        let k = l[0] as int;
        let rest = l.subrange(k + 1, l.len() as int);
        assert(buf.subrange(pos + k + 1, pos + k + 1 + rest.len()) =~= rest);
        lemma_label_run_then_pointer(buf, hops, pos + k + 1, rest);
        assert(buf.subrange(pos, pos + k + 1) + (rest + n) =~= l + n);
    }
}

/// A name written as a run of labels and then a compression pointer, to any
/// offset whose name decodes, decodes to the labels followed by the name at the
/// pointer's target; the same bytes as the name written out in full decodes to,
/// wherever that full form stands.
pub proof fn lemma_compressed_name_expands(
    buf: Seq<u8>,
    pos: int,
    labels: Seq<u8>,
    full_buf: Seq<u8>,
    full_pos: int,
)
    requires
        is_label_run(labels),
        holds_at(buf, pos, labels),
        pos + labels.len() + 2 <= buf.len(),
        buf[pos + labels.len()] >= 0xC0,
        name_from(buf, pointer_at(buf, pos + labels.len())) is Some,
        holds_at(
            full_buf,
            full_pos,
            labels + decoded(name_from(buf, pointer_at(buf, pos + labels.len()))),
        ),
    ensures
        ({
            let full = labels + decoded(name_from(buf, pointer_at(buf, pos + labels.len())));
            &&& name_from(buf, pos) == Some((full, pos + labels.len() + 2))
            &&& name_from(full_buf, full_pos) == Some((full, full_pos + full.len()))
        }),
{
    let target = pointer_at(buf, pos + labels.len());
    lemma_budget_suffices(buf, buf.len(), target);
    lemma_label_run_then_pointer(buf, buf.len(), pos, labels);
    lemma_decoded_name_is_wire(buf, buf.len(), target);
    let n = decoded(name_from(buf, target));
    lemma_label_run_append(labels, n);
    lemma_wire_name_decodes(full_buf, full_buf.len(), full_pos, labels + n);
}

} // verus!
