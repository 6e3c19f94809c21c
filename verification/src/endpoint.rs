//! Endpoint resolution: turning the address tuples of a resolved
//! service into socket addresses, with the family-specific
//! normalization the downstream sink needs.
//!
//! A link-local IPv6 address is only valid within the scope of one
//! interface, so for such an address the interface index the tuple was
//! received on is embedded as the scope identifier of the socket
//! address; any other IPv6 address carries scope identifier zero, and
//! an IPv4 address has no scope concept at all.

use vstd::prelude::*;

use crate::bytes::{copy_byte_lists, copy_bytes, deep, eq_bytes};
use crate::presence::TYPE_PTR;
use crate::rr::{spec_parse_name, spec_parse_rr, spec_rr_ok, DecodeError};

verus! {

/// Address family number of IPv4 at the resolver service.
pub const AF_INET4: i32 = 2;

/// Address family number of IPv6 at the resolver service.
pub const AF_INET6: i32 = 10;

/// A resolved socket address. Only an IPv6 address carries a scope
/// identifier; IPv4 has no scope concept.
pub enum SocketAddress {
    /// Four address bytes and a port.
    V4 { addr: Vec<u8>, port: u16 },
    /// Sixteen address bytes, a port and a scope identifier.
    V6 { addr: Vec<u8>, port: u16, scope_id: u32 },
}

impl SocketAddress {
    /// The address holds exactly as many bytes as its family asks.
    pub open spec fn wf(&self) -> bool {
        match self {
            SocketAddress::V4 { addr, .. } => addr@.len() == 4,
            SocketAddress::V6 { addr, .. } => addr@.len() == 16,
        }
    }
}

impl SocketAddress {
    /// A fresh copy holding the same address.
    pub fn duplicate(&self) -> (r: SocketAddress)
        ensures
            r@ == self@,
            r.wf() == self.wf(),
    {
        match self {
            SocketAddress::V4 { addr, port } => SocketAddress::V4 {
                addr: copy_bytes(addr.as_slice()),
                port: *port,
            },
            SocketAddress::V6 { addr, port, scope_id } => SocketAddress::V6 {
                addr: copy_bytes(addr.as_slice()),
                port: *port,
                scope_id: *scope_id,
            },
        }
    }
}

impl View for SocketAddress {
    type V = (bool, Seq<u8>, int, int);

    open spec fn view(&self) -> (bool, Seq<u8>, int, int) {
        match self {
            SocketAddress::V4 { addr, port } => (false, addr@, *port as int, 0),
            SocketAddress::V6 { addr, port, scope_id } => (
                true,
                addr@,
                *port as int,
                *scope_id as int,
            ),
        }
    }
}

/// Equality of two socket addresses: family, address bytes, port, and
/// for IPv6 the scope identifier.
pub fn socket_address_eq(a: &SocketAddress, b: &SocketAddress) -> (r: bool)
    ensures
        r == (a@ == b@),
{
    match (a, b) {
        (
            SocketAddress::V4 { addr: aa, port: ap },
            SocketAddress::V4 { addr: ba, port: bp },
        ) => *ap == *bp && eq_bytes(aa.as_slice(), ba.as_slice()),
        (
            SocketAddress::V6 { addr: aa, port: ap, scope_id: asc },
            SocketAddress::V6 { addr: ba, port: bp, scope_id: bsc },
        ) => *ap == *bp && *asc == *bsc && eq_bytes(aa.as_slice(), ba.as_slice()),
        _ => false,
    }
}

/// True when sixteen address bytes denote a link-local unicast IPv6
/// address: the leading ten bits are 1111111010.
pub open spec fn spec_is_link_local(a: Seq<u8>) -> bool {
    a.len() == 16 && a[0] == 0xfe && a[1] & 0xc0 == 0x80
}

/// Decides whether sixteen address bytes denote a link-local unicast
/// address.
fn is_link_local16(addr: &Vec<u8>) -> (r: bool)
    requires
        addr@.len() == 16,
    ensures
        r == spec_is_link_local(addr@),
{
    addr[0] == 0xfe && addr[1] & 0xc0 == 0x80
}

/// The socket address an address tuple denotes, if its family and byte
/// count agree: IPv6 with sixteen bytes, carrying the interface index
/// as scope identifier exactly when the address is link-local unicast,
/// or IPv4 with four bytes and no scope.
pub open spec fn spec_make_socket_address(
    interface_index: i32,
    family: i32,
    address: Seq<u8>,
    port: u16,
) -> Option<(bool, Seq<u8>, int, int)> {
    if family == AF_INET6 && address.len() == 16 {
        Some(
            (
                true,
                address,
                port as int,
                if spec_is_link_local(address) {
                    (interface_index as u32) as int
                } else {
                    0
                },
            ),
        )
    } else if family == AF_INET4 && address.len() == 4 {
        Some((false, address, port as int, 0))
    } else {
        None
    }
}

/// Builds the socket address of one resolved address tuple, or reports
/// an unusable family and byte-count combination.
pub fn make_socket_address(
    interface_index: i32,
    family: i32,
    address: &Vec<u8>,
    port: u16,
) -> (r: Option<SocketAddress>)
    ensures
        match r {
            Some(sa) => sa.wf() && spec_make_socket_address(interface_index, family, address@, port)
                == Some(sa@),
            None => spec_make_socket_address(interface_index, family, address@, port) is None,
        },
{
    if family == AF_INET6 && address.len() == 16 {
        let scope_id: u32 = if is_link_local16(address) {
            interface_index as u32
        } else {
            0
        };
        Some(
            SocketAddress::V6 { addr: copy_bytes(address.as_slice()), port, scope_id },
        )
    } else if family == AF_INET4 && address.len() == 4 {
        Some(SocketAddress::V4 { addr: copy_bytes(address.as_slice()), port })
    } else {
        None
    }
}

/// Scope-id normalization, stated on its own: a resolved IPv6 socket
/// address carries the interface index as scope identifier exactly when
/// its address is link-local unicast, and zero otherwise; a resolved
/// IPv4 socket address never carries a scope identifier.
pub proof fn lemma_scope_id(interface_index: i32, family: i32, address: Seq<u8>, port: u16)
    ensures
        spec_make_socket_address(interface_index, family, address, port) matches Some(v) ==> (v.0
            ==> v.3 == if spec_is_link_local(address) {
            (interface_index as u32) as int
        } else {
            0
        }) && (!v.0 ==> v.3 == 0),
{
}

/// Failure of decoding one pointer record of a resolution cycle.
#[derive(Clone, Copy, Debug, PartialEq, Eq, Structural)]
pub enum PtrRecordError {
    /// The response element or the decoded record is not of pointer
    /// type.
    NotPtr,
    /// The record or the domain name in its payload failed to decode.
    Decode(DecodeError),
}

/// True when the record in `data` decodes with pointer type.
pub open spec fn spec_rr_type_ptr(data: Seq<u8>) -> bool {
    match spec_parse_rr(data) {
        Some((c, name, rtype, class, ttl, payload)) => rtype == TYPE_PTR as int,
        None => false,
    }
}

/// The target domain the pointer record in `data` points at.
pub open spec fn spec_ptr_domain(data: Seq<u8>) -> Option<Seq<u8>> {
    match spec_parse_rr(data) {
        None => None,
        Some((c, name, rtype, class, ttl, payload)) => if rtype == TYPE_PTR as int {
            match spec_parse_name(payload) {
                None => None,
                Some((c2, domain)) => Some(domain),
            }
        } else {
            None
        },
    }
}

/// Extracts the target domain from one response element of the
/// resolver loop's own browse query. Only the pointer type is checked
/// here; the class is not.
pub fn decode_ptr_target(rtype: u16, data: &[u8]) -> (r: Result<Vec<u8>, PtrRecordError>)
    ensures
        match r {
            Ok(d) => rtype == TYPE_PTR && spec_ptr_domain(data@) == Some(d@),
            Err(e) => match e {
                PtrRecordError::NotPtr => spec_rr_ok(data@) && (rtype != TYPE_PTR
                    || !spec_rr_type_ptr(data@)),
                PtrRecordError::Decode(de) => de == DecodeError::Truncated && (!spec_rr_ok(data@)
                    || (rtype == TYPE_PTR && spec_rr_type_ptr(data@) && spec_ptr_domain(
                    data@,
                ) is None)),
            },
        },
{
    let (_, record) = match crate::rr::parse_rr(data) {
        Ok(v) => v,
        Err(de) => {
            return Err(PtrRecordError::Decode(de));
        },
    };
    if rtype != TYPE_PTR || record.rtype != TYPE_PTR {
        return Err(PtrRecordError::NotPtr);
    }
    let (_, domain) = match crate::rr::parse_name(record.payload.as_slice()) {
        Ok(v) => v,
        Err(de) => {
            return Err(PtrRecordError::Decode(de));
        },
    };
    Ok(domain)
}

/// One address tuple of a resolved service.
pub struct AddressRecord {
    /// Interface the address was resolved on.
    pub interface_index: i32,
    /// Address family number.
    pub family: i32,
    /// Raw address bytes.
    pub address: Vec<u8>,
}

/// One discovery event: a reachable endpoint of a resolved service,
/// carrying the auxiliary text records of the service.
pub struct DiscoveredEndpoint {
    /// Hostname of the service record.
    pub hostname: Vec<u8>,
    /// Resolved socket address.
    pub socket_address: SocketAddress,
    /// Auxiliary text records, in the order they were returned.
    pub auxiliary_text: Vec<Vec<u8>>,
}

/// The socket addresses of the usable tuples among `addrs`, in order;
/// tuples with an unusable family and byte-count combination are
/// skipped.
pub open spec fn spec_endpoint_sockets(port: u16, addrs: Seq<AddressRecord>) -> Seq<
    (bool, Seq<u8>, int, int),
>
    decreases addrs.len(),
{
    if addrs.len() == 0 {
        Seq::empty()
    } else {
        let rest = spec_endpoint_sockets(port, addrs.drop_last());
        match spec_make_socket_address(
            addrs.last().interface_index,
            addrs.last().family,
            addrs.last().address@,
            port,
        ) {
            Some(v) => rest.push(v),
            None => rest,
        }
    }
}

/// Builds one discovery event per usable address tuple of a resolved
/// service, each carrying the hostname and the full text-record list;
/// tuples of an unusable family and byte-count combination yield no
/// event.
pub fn endpoints_for_service(
    hostname: &Vec<u8>,
    port: u16,
    addresses: &Vec<AddressRecord>,
    auxiliary_text: &Vec<Vec<u8>>,
) -> (r: Vec<DiscoveredEndpoint>)
    ensures
        r@.len() == spec_endpoint_sockets(port, addresses@).len(),
        forall|i: int|
            0 <= i < r@.len() ==> {
                &&& (#[trigger] r@[i]).socket_address.wf()
                &&& r@[i].socket_address@ == spec_endpoint_sockets(port, addresses@)[i]
                &&& r@[i].hostname@ == hostname@
                &&& deep(r@[i].auxiliary_text@) == deep(auxiliary_text@)
            },
{
    let mut out: Vec<DiscoveredEndpoint> = Vec::new();
    let mut i: usize = 0;
    while i < addresses.len()
        invariant
            i <= addresses@.len(),
            out@.len() == spec_endpoint_sockets(port, addresses@.take(i as int)).len(),
            forall|k: int|
                0 <= k < out@.len() ==> {
                    &&& (#[trigger] out@[k]).socket_address.wf()
                    &&& out@[k].socket_address@ == spec_endpoint_sockets(
                        port,
                        addresses@.take(i as int),
                    )[k]
                    &&& out@[k].hostname@ == hostname@
                    &&& deep(out@[k].auxiliary_text@) == deep(auxiliary_text@)
                },
        decreases addresses@.len() - i,
    {
        let a = &addresses[i];
        proof {
            assert(addresses@.take(i + 1).drop_last() =~= addresses@.take(i as int));
            assert(addresses@.take(i + 1).last() == addresses@[i as int]);
        }
        match make_socket_address(a.interface_index, a.family, &a.address, port) {
            Some(sa) => {
                out.push(
                    DiscoveredEndpoint {
                        hostname: copy_bytes(hostname.as_slice()),
                        socket_address: sa,
                        auxiliary_text: copy_byte_lists(auxiliary_text),
                    },
                );
            },
            None => {},
        }
        i = i + 1;
    }
    proof {
        assert(addresses@.take(addresses@.len() as int) =~= addresses@);
    }
    out
}

} // verus!
