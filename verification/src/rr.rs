//! Decoder for the binary resource records returned by the external
//! name-resolution service, and an encoder used to state and exercise
//! the decoder's round-trip behaviour.
//!
//! A name is a run of length-prefixed labels closed by a zero-length
//! label; the decoder joins the labels with `.`. Compression pointers
//! are not interpreted: a pointer byte is read as an ordinary length,
//! a documented limitation of this decoder.

use vstd::arithmetic::div_mod::{lemma_div_denominator, lemma_fundamental_div_mod};
use vstd::prelude::*;

use crate::bytes::deep;

verus! {

/// ASCII dot, the separator between the labels of a decoded name.
pub const DOT: u8 = 46;

/// Failure of the record decoder: a length field, a fixed-width field
/// or the payload ran past the end of the buffer.
#[derive(Clone, Copy, Debug, PartialEq, Eq, Structural)]
pub enum DecodeError {
    Truncated,
}

/// One decoded resource record.
#[derive(Debug, PartialEq, Eq)]
pub struct ResourceRecord {
    /// Dotted name, as raw bytes.
    pub name: Vec<u8>,
    /// Record type.
    pub rtype: u16,
    /// Record class.
    pub class: u16,
    /// Time to live.
    pub ttl: u32,
    /// Raw payload bytes.
    pub payload: Vec<u8>,
}

/// Mathematical parser of a name: the number of bytes consumed and the
/// dotted name, or `None` when the input is truncated.
pub open spec fn spec_parse_name(input: Seq<u8>) -> Option<(int, Seq<u8>)>
    decreases input.len(),
{
    if input.len() == 0 {
        None
    } else {
        let l = input[0] as int;
        if l == 0 {
            Some((1, Seq::<u8>::empty()))
        } else if 1 + l <= input.len() {
            let label = input.subrange(1, 1 + l);
            match spec_parse_name(input.skip(1 + l)) {
                None => None,
                Some((c, rest)) => Some(
                    (
                        1 + l + c,
                        if rest.len() == 0 {
                            label
                        } else {
                            label + seq![DOT] + rest
                        },
                    ),
                ),
            }
        } else {
            None
        }
    }
}

/// Big-endian 16-bit value at offset `i`.
pub open spec fn spec_be_u16_at(s: Seq<u8>, i: int) -> int {
    s[i] as int * 0x100 + s[i + 1] as int
}

/// Big-endian 32-bit value at offset `i`.
pub open spec fn spec_be_u32_at(s: Seq<u8>, i: int) -> int {
    s[i] as int * 0x1000000 + s[i + 1] as int * 0x10000 + s[i + 2] as int * 0x100 + s[i
        + 3] as int
}

/// Mathematical parser of a whole resource record: bytes consumed,
/// dotted name, type, class, ttl and payload, or `None` when any field
/// is truncated.
pub open spec fn spec_parse_rr(input: Seq<u8>) -> Option<(int, Seq<u8>, int, int, int, Seq<u8>)> {
    match spec_parse_name(input) {
        None => None,
        Some((c, name)) => if c + 10 <= input.len() {
            let rdlen = spec_be_u16_at(input, c + 8);
            if c + 10 + rdlen <= input.len() {
                Some(
                    (
                        c + 10 + rdlen,
                        name,
                        spec_be_u16_at(input, c),
                        spec_be_u16_at(input, c + 2),
                        spec_be_u32_at(input, c + 4),
                        input.subrange(c + 10, c + 10 + rdlen),
                    ),
                )
            } else {
                None
            }
        } else {
            None
        },
    }
}

/// Reads the labels starting at `pos` and returns the position after
/// the closing zero label together with the dotted name.
fn parse_name_from(input: &[u8], pos: usize) -> (r: Result<(usize, Vec<u8>), DecodeError>)
    requires
        pos <= input@.len(),
    ensures
        match r {
            Ok((end, name)) => {
                &&& spec_parse_name(input@.skip(pos as int)) == Some(
                    (end - pos, name@),
                )
                &&& pos < end <= input@.len()
            },
            Err(e) => spec_parse_name(input@.skip(pos as int)) is None && e
                == DecodeError::Truncated,
        },
    decreases input@.len() - pos,
{
    proof {
        assert(input@.skip(pos as int).len() == input@.len() - pos);
    }
    if pos >= input.len() {
        return Err(DecodeError::Truncated);
    }
    let l = input[pos];
    proof {
        assert(input@.skip(pos as int)[0] == input@[pos as int]);
    }
    if l == 0 {
        return Ok((pos + 1, Vec::new()));
    }
    if (l as usize) > input.len() - (pos + 1) {
        return Err(DecodeError::Truncated);
    }
    let label_end = pos + 1 + (l as usize);
    let mut name: Vec<u8> = Vec::new();
    let mut i = pos + 1;
    while i < label_end
        invariant
            pos + 1 <= i <= label_end <= input@.len(),
            name@.len() == i - (pos + 1),
            forall|k: int| 0 <= k < name@.len() ==> name@[k] == input@[pos + 1 + k],
        decreases label_end - i,
    {
        name.push(input[i]);
        i = i + 1;
    }
    proof {
        assert(name@ =~= input@.subrange(pos + 1, label_end as int));
        assert(input@.skip(pos as int).subrange(1, 1 + l as int) =~= input@.subrange(
            pos + 1,
            label_end as int,
        ));
        assert(input@.skip(pos as int).skip(1 + l as int) =~= input@.skip(label_end as int));
    }
    match parse_name_from(input, label_end) {
        Err(e) => Err(e),
        Ok((end, tail)) => {
            if tail.len() > 0 {
                name.push(DOT);
                let mut j: usize = 0;
                let ghost pre = name@;
                while j < tail.len()
                    invariant
                        j <= tail@.len(),
                        name@.len() == pre.len() + j,
                        name@ == pre + tail@.subrange(0, j as int),
                    decreases tail@.len() - j,
                {
                    name.push(tail[j]);
                    proof {
                        assert(pre + tail@.subrange(0, j as int) + seq![tail@[j as int]] =~= pre
                            + tail@.subrange(0, j + 1));
                    }
                    j = j + 1;
                }
                proof {
                    assert(tail@.subrange(0, tail@.len() as int) =~= tail@);
                }
            }
            Ok((end, name))
        },
    }
}

/// Decodes a dotted name from the start of `input`: the number of bytes
/// consumed and the name, exactly as `spec_parse_name` describes, or a
/// decode error exactly when `spec_parse_name` yields none.
pub fn parse_name(input: &[u8]) -> (r: Result<(usize, Vec<u8>), DecodeError>)
    ensures
        match r {
            Ok((consumed, name)) => spec_parse_name(input@) == Some(
                (consumed as int, name@),
            ) && 0 < consumed <= input@.len(),
            Err(e) => spec_parse_name(input@) is None && e == DecodeError::Truncated,
        },
{
    proof {
        assert(input@.skip(0) =~= input@);
    }
    parse_name_from(input, 0)
}

/// Big-endian 16-bit read.
fn read_be_u16(input: &[u8], i: usize) -> (r: u16)
    requires
        i + 2 <= input@.len(),
    ensures
        r as int == spec_be_u16_at(input@, i as int),
{
    (input[i] as u16) * 0x100 + (input[i + 1] as u16)
}

/// Big-endian 32-bit read.
fn read_be_u32(input: &[u8], i: usize) -> (r: u32)
    requires
        i + 4 <= input@.len(),
    ensures
        r as int == spec_be_u32_at(input@, i as int),
{
    (input[i] as u32) * 0x1000000 + (input[i + 1] as u32) * 0x10000 + (input[i + 2] as u32) * 0x100
        + (input[i + 3] as u32)
}

/// Decodes one resource record from the start of `input`: a name, a
/// 16-bit type, a 16-bit class, a 32-bit ttl, a 16-bit payload length
/// and exactly that many payload bytes. Succeeds with the consumed
/// length and the record exactly when `spec_parse_rr` yields them, and
/// reports a decode error exactly when any field is truncated.
pub fn parse_rr(input: &[u8]) -> (r: Result<(usize, ResourceRecord), DecodeError>)
    ensures
        match r {
            Ok((consumed, rr)) => spec_parse_rr(input@) == Some(
                (
                    consumed as int,
                    rr.name@,
                    rr.rtype as int,
                    rr.class as int,
                    rr.ttl as int,
                    rr.payload@,
                ),
            ) && consumed <= input@.len(),
            Err(e) => spec_parse_rr(input@) is None && e == DecodeError::Truncated,
        },
{
    let (name_end, name) = match parse_name(input) {
        Ok(v) => v,
        Err(e) => {
            return Err(e);
        },
    };
    if input.len() - name_end < 10 {
        return Err(DecodeError::Truncated);
    }
    let rtype = read_be_u16(input, name_end);
    let class = read_be_u16(input, name_end + 2);
    let ttl = read_be_u32(input, name_end + 4);
    let rdlen = read_be_u16(input, name_end + 8) as usize;
    if input.len() - (name_end + 10) < rdlen {
        return Err(DecodeError::Truncated);
    }
    let payload = crate::bytes::copy_bytes(&input[name_end + 10..name_end + 10 + rdlen]);
    Ok(
        (
            name_end + 10 + rdlen,
            ResourceRecord { name, rtype, class, ttl, payload },
        ),
    )
}

/// True when the record in `data` decodes.
pub open spec fn spec_rr_ok(data: Seq<u8>) -> bool {
    spec_parse_rr(data) is Some
}

/// True when every label is non-empty and fits in one length byte.
pub open spec fn valid_labels(labels: Seq<Seq<u8>>) -> bool {
    forall|i: int| 0 <= i < labels.len() ==> 1 <= (#[trigger] labels[i]).len() <= 255
}

/// The dotted form of a label sequence.
pub open spec fn spec_dotted(labels: Seq<Seq<u8>>) -> Seq<u8>
    decreases labels.len(),
{
    if labels.len() == 0 {
        Seq::empty()
    } else if labels.len() == 1 {
        labels[0]
    } else {
        labels[0] + seq![DOT] + spec_dotted(labels.skip(1))
    }
}

/// The wire form of a label run: each label prefixed by its length.
pub open spec fn spec_encode_labels(labels: Seq<Seq<u8>>) -> Seq<u8>
    decreases labels.len(),
{
    if labels.len() == 0 {
        Seq::empty()
    } else {
        seq![labels[0].len() as u8] + labels[0] + spec_encode_labels(labels.skip(1))
    }
}

/// The wire form of a whole name: the label run closed by a zero byte.
pub open spec fn spec_encode_name(labels: Seq<Seq<u8>>) -> Seq<u8> {
    spec_encode_labels(labels) + seq![0u8]
}

/// Big-endian bytes of a 16-bit value.
pub open spec fn spec_u16_be(x: u16) -> Seq<u8> {
    seq![(x as int / 0x100) as u8, (x as int % 0x100) as u8]
}

/// Big-endian bytes of a 32-bit value.
pub open spec fn spec_u32_be(x: u32) -> Seq<u8> {
    seq![
        (x as int / 0x1000000) as u8,
        ((x as int / 0x10000) % 0x100) as u8,
        ((x as int / 0x100) % 0x100) as u8,
        (x as int % 0x100) as u8,
    ]
}

/// The wire form of a whole resource record.
pub open spec fn spec_encode_rr(
    labels: Seq<Seq<u8>>,
    rtype: u16,
    class: u16,
    ttl: u32,
    payload: Seq<u8>,
) -> Seq<u8> {
    spec_encode_name(labels) + spec_u16_be(rtype) + spec_u16_be(class) + spec_u32_be(ttl)
        + spec_u16_be(payload.len() as u16) + payload
}

/// Appending one label to a run extends its wire form at the end.
proof fn lemma_encode_labels_snoc(labels: Seq<Seq<u8>>, x: Seq<u8>)
    ensures
        spec_encode_labels(labels.push(x)) == spec_encode_labels(labels) + seq![x.len() as u8] + x,
    decreases labels.len(),
{
    if labels.len() == 0 {
        assert(labels.push(x).skip(1) =~= Seq::<Seq<u8>>::empty());
        assert(spec_encode_labels(Seq::<Seq<u8>>::empty()) == Seq::<u8>::empty());
        assert(labels.push(x)[0] == x);
        assert(spec_encode_labels(labels.push(x)) =~= spec_encode_labels(labels) + seq![
            x.len() as u8,
        ] + x);
    } else {
        lemma_encode_labels_snoc(labels.skip(1), x);
        assert(labels.push(x).skip(1) =~= labels.skip(1).push(x));
        assert(labels.push(x)[0] == labels[0]);
        assert(spec_encode_labels(labels.push(x)) =~= spec_encode_labels(labels) + seq![
            x.len() as u8,
        ] + x);
    }
}

/// Encodes a name from its labels.
pub fn encode_name(labels: &Vec<Vec<u8>>) -> (r: Vec<u8>)
    requires
        valid_labels(deep(labels@)),
    ensures
        r@ == spec_encode_name(deep(labels@)),
{
    let mut out: Vec<u8> = Vec::new();
    let mut i: usize = 0;
    while i < labels.len()
        invariant
            i <= labels@.len(),
            valid_labels(deep(labels@)),
            out@ == spec_encode_labels(deep(labels@).take(i as int)),
        decreases labels@.len() - i,
    {
        let label = &labels[i];
        proof {
            assert(deep(labels@)[i as int] == labels@[i as int]@);
        }
        out.push(label.len() as u8);
        let mut j: usize = 0;
        let ghost pre = out@;
        while j < label.len()
            invariant
                j <= label@.len(),
                out@.len() == pre.len() + j,
                out@ == pre + label@.subrange(0, j as int),
            decreases label@.len() - j,
        {
            out.push(label[j]);
            proof {
                assert(pre + label@.subrange(0, j as int) + seq![label@[j as int]] =~= pre
                    + label@.subrange(0, j + 1));
            }
            j = j + 1;
        }
        proof {
            assert(label@.subrange(0, label@.len() as int) =~= label@);
            lemma_encode_labels_snoc(deep(labels@).take(i as int), label@);
            assert(deep(labels@).take(i as int).push(label@) =~= deep(labels@).take(i + 1));
        }
        i = i + 1;
    }
    proof {
        assert(deep(labels@).take(labels@.len() as int) =~= deep(labels@));
    }
    out.push(0);
    out
}

/// Appends the big-endian bytes of a 16-bit value.
fn push_u16_be(out: &mut Vec<u8>, x: u16)
    ensures
        final(out)@ == old(out)@ + spec_u16_be(x),
{
    out.push((x / 0x100) as u8);
    out.push((x % 0x100) as u8);
    proof {
        assert(out@ =~= old(out)@ + spec_u16_be(x));
    }
}

/// Appends the big-endian bytes of a 32-bit value.
fn push_u32_be(out: &mut Vec<u8>, x: u32)
    ensures
        final(out)@ == old(out)@ + spec_u32_be(x),
{
    out.push((x / 0x1000000) as u8);
    out.push(((x / 0x10000) % 0x100) as u8);
    out.push(((x / 0x100) % 0x100) as u8);
    out.push((x % 0x100) as u8);
    proof {
        assert(out@ =~= old(out)@ + spec_u32_be(x));
    }
}

/// Encodes a whole resource record from its parts.
pub fn encode_rr(
    labels: &Vec<Vec<u8>>,
    rtype: u16,
    class: u16,
    ttl: u32,
    payload: &Vec<u8>,
) -> (r: Vec<u8>)
    requires
        valid_labels(deep(labels@)),
        payload@.len() <= 0xFFFF,
    ensures
        r@ == spec_encode_rr(deep(labels@), rtype, class, ttl, payload@),
{
    let mut out = encode_name(labels);
    push_u16_be(&mut out, rtype);
    push_u16_be(&mut out, class);
    push_u32_be(&mut out, ttl);
    push_u16_be(&mut out, payload.len() as u16);
    let mut j: usize = 0;
    let ghost pre = out@;
    while j < payload.len()
        invariant
            j <= payload@.len(),
            out@.len() == pre.len() + j,
            out@ == pre + payload@.subrange(0, j as int),
        decreases payload@.len() - j,
    {
        out.push(payload[j]);
        proof {
            assert(pre + payload@.subrange(0, j as int) + seq![payload@[j as int]] =~= pre
                + payload@.subrange(0, j + 1));
        }
        j = j + 1;
    }
    proof {
        assert(payload@.subrange(0, payload@.len() as int) =~= payload@);
        assert(out@ =~= spec_encode_rr(deep(labels@), rtype, class, ttl, payload@));
    }
    out
}

/// A non-empty valid label run has a non-empty dotted form.
proof fn lemma_dotted_nonempty(labels: Seq<Seq<u8>>)
    requires
        valid_labels(labels),
        labels.len() >= 1,
    ensures
        spec_dotted(labels).len() >= 1,
{
    assert(labels[0].len() >= 1);
}

/// Parsing an encoded name consumes exactly the encoding and yields the
/// dotted form of the labels, whatever follows the encoding.
pub proof fn lemma_parse_name_encode(labels: Seq<Seq<u8>>, rest: Seq<u8>)
    requires
        valid_labels(labels),
    ensures
        spec_parse_name(spec_encode_name(labels) + rest) == Some(
            (spec_encode_name(labels).len() as int, spec_dotted(labels)),
        ),
    decreases labels.len(),
{
    let input = spec_encode_name(labels) + rest;
    if labels.len() == 0 {
        assert(input[0] == 0);
        assert(spec_dotted(labels) =~= Seq::<u8>::empty());
    } else {
        let l = labels[0].len() as int;
        assert(input[0] == labels[0].len() as u8);
        assert(input[0] as int == l);
        assert(valid_labels(labels.skip(1))) by {
            assert forall|i: int| 0 <= i < labels.skip(1).len() implies 1 <= (#[trigger] labels.skip(
                1,
            )[i]).len() <= 255 by {
                assert(labels.skip(1)[i] == labels[i + 1]);
            }
        }
        assert(input.len() >= 1 + l + 1);
        assert(input.subrange(1, 1 + l) =~= labels[0]);
        assert(input.skip(1 + l) =~= spec_encode_name(labels.skip(1)) + rest);
        lemma_parse_name_encode(labels.skip(1), rest);
        if labels.len() == 1 {
            assert(labels.skip(1).len() == 0);
            assert(spec_dotted(labels) == labels[0]);
        } else {
            lemma_dotted_nonempty(labels.skip(1));
        }
        assert(spec_encode_name(labels).len() == 1 + l + spec_encode_name(labels.skip(1)).len());
    }
}

/// Reassembling a 16-bit value from its big-endian bytes gives it back.
proof fn lemma_u16_be_value(s: Seq<u8>, i: int, x: u16)
    requires
        0 <= i,
        i + 2 <= s.len(),
        s[i] == spec_u16_be(x)[0],
        s[i + 1] == spec_u16_be(x)[1],
    ensures
        spec_be_u16_at(s, i) == x as int,
{
    lemma_fundamental_div_mod(x as int, 0x100);
    assert(0 <= x as int / 0x100 < 0x100) by {
        lemma_div_bound_u16(x);
    }
}

/// Bounds of the high byte of a 16-bit value.
proof fn lemma_div_bound_u16(x: u16)
    ensures
        0 <= x as int / 0x100 < 0x100,
{
    assert(0 <= x as int / 0x100 < 0x100) by (nonlinear_arith)
        requires
            0 <= x as int <= 0xFFFF,
    ;
}

/// Bounds of the bytes of a 32-bit value.
proof fn lemma_div_bounds_u32(x: u32)
    ensures
        0 <= x as int / 0x1000000 < 0x100,
        0 <= (x as int / 0x10000) % 0x100 < 0x100,
        0 <= (x as int / 0x100) % 0x100 < 0x100,
{
    assert(0 <= x as int / 0x1000000 < 0x100 && 0 <= (x as int / 0x10000) % 0x100 < 0x100 && 0 <= (
    x as int / 0x100) % 0x100 < 0x100) by (nonlinear_arith)
        requires
            0 <= x as int <= 0xFFFFFFFF,
    ;
}

/// Reassembling a 32-bit value from its big-endian bytes gives it back.
proof fn lemma_u32_be_value(s: Seq<u8>, i: int, x: u32)
    requires
        0 <= i,
        i + 4 <= s.len(),
        s[i] == spec_u32_be(x)[0],
        s[i + 1] == spec_u32_be(x)[1],
        s[i + 2] == spec_u32_be(x)[2],
        s[i + 3] == spec_u32_be(x)[3],
    ensures
        spec_be_u32_at(s, i) == x as int,
{
    let v = x as int;
    lemma_div_bounds_u32(x);
    lemma_fundamental_div_mod(v, 0x100);
    lemma_fundamental_div_mod(v / 0x100, 0x100);
    lemma_fundamental_div_mod(v / 0x10000, 0x100);
    lemma_div_denominator(v, 0x100, 0x100);
    lemma_div_denominator(v, 0x10000, 0x100);
    assert(v / 0x100 / 0x100 == v / 0x10000);
    assert(v / 0x10000 / 0x100 == v / 0x1000000);
}

/// Round trip of the record codec: decoding an encoded record yields
/// exactly the dotted name, type, class, ttl and payload it was built
/// from, and consumes the whole encoding.
pub proof fn lemma_rr_round_trip(
    labels: Seq<Seq<u8>>,
    rtype: u16,
    class: u16,
    ttl: u32,
    payload: Seq<u8>,
)
    requires
        valid_labels(labels),
        payload.len() <= 0xFFFF,
    ensures
        spec_parse_rr(spec_encode_rr(labels, rtype, class, ttl, payload)) == Some(
            (
                spec_encode_rr(labels, rtype, class, ttl, payload).len() as int,
                spec_dotted(labels),
                rtype as int,
                class as int,
                ttl as int,
                payload,
            ),
        ),
{
    let enc = spec_encode_name(labels);
    let rest = spec_u16_be(rtype) + spec_u16_be(class) + spec_u32_be(ttl) + spec_u16_be(
        payload.len() as u16,
    ) + payload;
    let input = spec_encode_rr(labels, rtype, class, ttl, payload);
    assert(input =~= enc + rest);
    lemma_parse_name_encode(labels, rest);
    let c = enc.len() as int;
    assert forall|k: int| 0 <= k < rest.len() implies input[c + k] == rest[k] by {}
    lemma_u16_be_value(input, c, rtype);
    lemma_u16_be_value(input, c + 2, class);
    lemma_u32_be_value(input, c + 4, ttl);
    lemma_u16_be_value(input, c + 8, payload.len() as u16);
    assert(spec_be_u16_at(input, c + 8) == payload.len());
    assert(input.subrange(c + 10, c + 10 + payload.len() as int) =~= payload);
}

/// A record whose declared payload length exceeds the bytes that follow
/// it does not decode: the parser reports truncation rather than read
/// past the end of the buffer.
pub proof fn lemma_truncated_payload(
    labels: Seq<Seq<u8>>,
    rtype: u16,
    class: u16,
    ttl: u32,
    declared: u16,
    payload: Seq<u8>,
)
    requires
        valid_labels(labels),
        payload.len() < declared as int,
    ensures
        spec_parse_rr(
            spec_encode_name(labels) + spec_u16_be(rtype) + spec_u16_be(class) + spec_u32_be(ttl)
                + spec_u16_be(declared) + payload,
        ) is None,
{
    let enc = spec_encode_name(labels);
    let rest = spec_u16_be(rtype) + spec_u16_be(class) + spec_u32_be(ttl) + spec_u16_be(declared)
        + payload;
    let input = enc + rest;
    assert(enc + spec_u16_be(rtype) + spec_u16_be(class) + spec_u32_be(ttl) + spec_u16_be(declared)
        + payload =~= input);
    lemma_parse_name_encode(labels, rest);
    let c = enc.len() as int;
    assert forall|k: int| 0 <= k < rest.len() implies input[c + k] == rest[k] by {}
    lemma_u16_be_value(input, c + 8, declared);
    assert(input.len() == c + 10 + payload.len());
}

} // verus!
