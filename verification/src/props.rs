//! Mapping of auxiliary text records to structured sink properties.
//!
//! Each record is a `key=value` byte string. The first record carrying
//! a given key decides that property; unknown values fall back to a
//! safe default where one exists, and otherwise leave the property
//! unset.

use vstd::prelude::*;

use crate::bytes::{csv_contains, deep, has_prefix, is_csv_element, strip_prefix_bytes};

verus! {

/// Transport of the audio stream.
#[derive(Clone, Copy, Debug, PartialEq, Eq, Structural)]
pub enum Transport {
    /// The value list names `UDP`.
    Udp,
    /// The value list names `TCP` and not `UDP`.
    Tcp,
}

/// Encryption type of the audio stream.
#[derive(Clone, Copy, Debug, PartialEq, Eq, Structural)]
pub enum EncryptionType {
    /// The value list names `1`.
    Rsa,
    /// The value list names `4` and not `1`.
    AuthSetup,
    /// Any other value list: the safe default, serialized as `none`.
    NoEncryption,
}

/// Audio codec of the stream.
#[derive(Clone, Copy, Debug, PartialEq, Eq, Structural)]
pub enum Codec {
    /// The value list names `3`.
    AacEld,
    /// The value list names `2` (and not `3`).
    Aac,
    /// The value list names `1` (and neither `3` nor `2`).
    Alac,
    /// The value list names `0` (and none of `3`, `2`, `1`).
    Pcm,
}

/// The key prefix `am=` of the display name.
pub open spec fn am_prefix() -> Seq<u8> {
    seq![97u8, 109u8, 61u8]
}

/// The key prefix `tp=` of the transport.
pub open spec fn tp_prefix() -> Seq<u8> {
    seq![116u8, 112u8, 61u8]
}

/// The key prefix `et=` of the encryption type.
pub open spec fn et_prefix() -> Seq<u8> {
    seq![101u8, 116u8, 61u8]
}

/// The key prefix `cn=` of the audio codec.
pub open spec fn cn_prefix() -> Seq<u8> {
    seq![99u8, 110u8, 61u8]
}

/// The value name `UDP`.
pub open spec fn udp_name() -> Seq<u8> {
    seq![85u8, 68u8, 80u8]
}

/// The value name `TCP`.
pub open spec fn tcp_name() -> Seq<u8> {
    seq![84u8, 67u8, 80u8]
}

/// The default display name `<unnamed>`.
pub open spec fn unnamed_name() -> Seq<u8> {
    seq![60u8, 117u8, 110u8, 110u8, 97u8, 109u8, 101u8, 100u8, 62u8]
}

/// The value of the first record carrying `prefix`, or `None` when no
/// record does.
pub open spec fn spec_first_value(records: Seq<Seq<u8>>, prefix: Seq<u8>) -> Option<Seq<u8>>
    decreases records.len(),
{
    if records.len() == 0 {
        None
    } else if has_prefix(records[0], prefix) {
        Some(records[0].skip(prefix.len() as int))
    } else {
        spec_first_value(records.skip(1), prefix)
    }
}

/// The display name the records give, or `<unnamed>`.
pub open spec fn spec_display_name(records: Seq<Seq<u8>>) -> Seq<u8> {
    match spec_first_value(records, am_prefix()) {
        Some(v) => v,
        None => unnamed_name(),
    }
}

/// The transport the records give: `UDP` wins over `TCP`; an unknown
/// value leaves the transport unset.
pub open spec fn spec_transport(records: Seq<Seq<u8>>) -> Option<Transport> {
    match spec_first_value(records, tp_prefix()) {
        None => None,
        Some(l) => if is_csv_element(l, udp_name()) {
            Some(Transport::Udp)
        } else if is_csv_element(l, tcp_name()) {
            Some(Transport::Tcp)
        } else {
            None
        },
    }
}

/// The encryption type the records give: `1` wins over `4`; an unknown
/// value falls back to the `none` marker.
pub open spec fn spec_encryption(records: Seq<Seq<u8>>) -> Option<EncryptionType> {
    match spec_first_value(records, et_prefix()) {
        None => None,
        Some(l) => Some(
            if is_csv_element(l, seq![49u8]) {
                EncryptionType::Rsa
            } else if is_csv_element(l, seq![52u8]) {
                EncryptionType::AuthSetup
            } else {
                EncryptionType::NoEncryption
            },
        ),
    }
}

/// The codec the records give, `3` before `2` before `1` before `0`;
/// an unknown value leaves the codec unset.
pub open spec fn spec_codec(records: Seq<Seq<u8>>) -> Option<Codec> {
    match spec_first_value(records, cn_prefix()) {
        None => None,
        Some(l) => if is_csv_element(l, seq![51u8]) {
            Some(Codec::AacEld)
        } else if is_csv_element(l, seq![50u8]) {
            Some(Codec::Aac)
        } else if is_csv_element(l, seq![49u8]) {
            Some(Codec::Alac)
        } else if is_csv_element(l, seq![48u8]) {
            Some(Codec::Pcm)
        } else {
            None
        },
    }
}

/// Builds a three-byte key prefix `<a><b>=`.
fn key_prefix(a: u8, b: u8) -> (v: Vec<u8>)
    ensures
        v@ == seq![a, b, 61u8],
{
    let mut v: Vec<u8> = Vec::new();
    v.push(a);
    v.push(b);
    v.push(61);
    proof {
        assert(v@ =~= seq![a, b, 61u8]);
    }
    v
}

/// Builds a one-byte value name.
fn one_byte(a: u8) -> (v: Vec<u8>)
    ensures
        v@ == seq![a],
{
    let mut v: Vec<u8> = Vec::new();
    v.push(a);
    proof {
        assert(v@ =~= seq![a]);
    }
    v
}

/// Finds the value of the first record carrying `prefix`.
pub fn find_first_value(records: &Vec<Vec<u8>>, prefix: &[u8]) -> (r: Option<Vec<u8>>)
    ensures
        match r {
            Some(v) => spec_first_value(deep(records@), prefix@) == Some(v@),
            None => spec_first_value(deep(records@), prefix@) is None,
        },
{
    let mut i: usize = 0;
    proof {
        assert(deep(records@).skip(0) =~= deep(records@));
    }
    while i < records.len()
        invariant
            i <= records@.len(),
            spec_first_value(deep(records@), prefix@) == spec_first_value(
                deep(records@).skip(i as int),
                prefix@,
            ),
        decreases records@.len() - i,
    {
        proof {
            assert(deep(records@)[i as int] == records@[i as int]@);
            assert(deep(records@).skip(i as int)[0] == deep(records@)[i as int]);
        }
        match strip_prefix_bytes(records[i].as_slice(), prefix) {
            Some(v) => {
                return Some(v);
            },
            None => {
                proof {
                    assert(deep(records@).skip(i as int).skip(1) =~= deep(records@).skip(i + 1));
                }
            },
        }
        i = i + 1;
    }
    proof {
        assert(deep(records@).skip(records@.len() as int) =~= Seq::<Seq<u8>>::empty());
    }
    None
}

/// The structured properties of one endpoint's auxiliary text.
pub struct SinkProperties {
    /// Display name, `<unnamed>` when the records give none.
    pub display_name: Vec<u8>,
    /// Transport, unset on an unknown value.
    pub transport: Option<Transport>,
    /// Encryption type, `none` marker on an unknown value.
    pub encryption: Option<EncryptionType>,
    /// Codec, unset on an unknown value.
    pub codec: Option<Codec>,
}

/// Maps the auxiliary text records of one endpoint to structured sink
/// properties, by the fixed decoding rules of the keys `am`, `tp`,
/// `et` and `cn`; the first record carrying a key decides.
pub fn parse_properties(records: &Vec<Vec<u8>>) -> (r: SinkProperties)
    ensures
        r.display_name@ == spec_display_name(deep(records@)),
        r.transport == spec_transport(deep(records@)),
        r.encryption == spec_encryption(deep(records@)),
        r.codec == spec_codec(deep(records@)),
{
    let display_name: Vec<u8> = match find_first_value(records, key_prefix(97, 109).as_slice()) {
        Some(v) => v,
        None => {
            let mut d: Vec<u8> = Vec::new();
            d.push(60);
            d.push(117);
            d.push(110);
            d.push(110);
            d.push(97);
            d.push(109);
            d.push(101);
            d.push(100);
            d.push(62);
            proof {
                assert(d@ =~= unnamed_name());
            }
            d
        },
    };
    let transport: Option<Transport> = match find_first_value(
        records,
        key_prefix(116, 112).as_slice(),
    ) {
        None => None,
        Some(l) => {
            let mut udp: Vec<u8> = Vec::new();
            udp.push(85);
            udp.push(68);
            udp.push(80);
            let mut tcp: Vec<u8> = Vec::new();
            tcp.push(84);
            tcp.push(67);
            tcp.push(80);
            proof {
                assert(udp@ =~= udp_name());
                assert(tcp@ =~= tcp_name());
            }
            if csv_contains(l.as_slice(), udp.as_slice()) {
                Some(Transport::Udp)
            } else if csv_contains(l.as_slice(), tcp.as_slice()) {
                Some(Transport::Tcp)
            } else {
                None
            }
        },
    };
    let encryption: Option<EncryptionType> = match find_first_value(
        records,
        key_prefix(101, 116).as_slice(),
    ) {
        None => None,
        Some(l) => {
            if csv_contains(l.as_slice(), one_byte(49).as_slice()) {
                Some(EncryptionType::Rsa)
            } else if csv_contains(l.as_slice(), one_byte(52).as_slice()) {
                Some(EncryptionType::AuthSetup)
            } else {
                Some(EncryptionType::NoEncryption)
            }
        },
    };
    let codec: Option<Codec> = match find_first_value(records, key_prefix(99, 110).as_slice()) {
        None => None,
        Some(l) => {
            if csv_contains(l.as_slice(), one_byte(51).as_slice()) {
                Some(Codec::AacEld)
            } else if csv_contains(l.as_slice(), one_byte(50).as_slice()) {
                Some(Codec::Aac)
            } else if csv_contains(l.as_slice(), one_byte(49).as_slice()) {
                Some(Codec::Alac)
            } else if csv_contains(l.as_slice(), one_byte(48).as_slice()) {
                Some(Codec::Pcm)
            } else {
                None
            }
        },
    };
    SinkProperties { display_name, transport, encryption, codec }
}

} // verus!
