//! Endpoint/tunnel registry: consumer-side deduplication of discovery
//! events and composition of the property set handed to the external
//! sink-creation mechanism.
//!
//! The registry is owned by a single consumer. For each incoming
//! endpoint it decides whether a sink is owed: endpoints are
//! deduplicated by `(hostname, socket address)`, and two endpoints
//! with the same key never both yield a sink request.

use vstd::prelude::*;

use crate::bytes::{copy_bytes, deep, eq_bytes};
use crate::endpoint::{socket_address_eq, DiscoveredEndpoint, SocketAddress};
use crate::props::{
    parse_properties, spec_codec, spec_display_name, spec_encryption, spec_transport, Codec,
    EncryptionType, Transport,
};

verus! {

/// Deduplication identity of an endpoint.
pub struct TunnelKey {
    /// Hostname of the service record.
    pub hostname: Vec<u8>,
    /// Resolved socket address.
    pub socket_address: SocketAddress,
}

impl View for TunnelKey {
    type V = (Seq<u8>, (bool, Seq<u8>, int, int));

    open spec fn view(&self) -> (Seq<u8>, (bool, Seq<u8>, int, int)) {
        (self.hostname@, self.socket_address@)
    }
}

/// Equality of two deduplication keys.
pub fn tunnel_key_eq(a: &TunnelKey, b: &TunnelKey) -> (r: bool)
    ensures
        r == (a@ == b@),
{
    eq_bytes(a.hostname.as_slice(), b.hostname.as_slice()) && socket_address_eq(
        &a.socket_address,
        &b.socket_address,
    )
}

/// The bytes of the display-name suffix ` (IPv4)`.
pub open spec fn ipv4_suffix() -> Seq<u8> {
    seq![32u8, 40u8, 73u8, 80u8, 118u8, 52u8, 41u8]
}

/// The display name handed to the sink: the one the records give, with
/// the ` (IPv4)` suffix appended when the address is IPv4.
pub open spec fn spec_request_name(records: Seq<Seq<u8>>, is_v6: bool) -> Seq<u8> {
    if is_v6 {
        spec_display_name(records)
    } else {
        spec_display_name(records) + ipv4_suffix()
    }
}

/// Everything the external sink module is handed for one endpoint.
pub struct SinkRequest {
    /// Resolved socket address, carrying address, family and port.
    pub socket_address: SocketAddress,
    /// Hostname of the service record.
    pub hostname: Vec<u8>,
    /// Display name, suffixed for IPv4.
    pub display_name: Vec<u8>,
    /// Transport, when the records name a known one.
    pub transport: Option<Transport>,
    /// Encryption type, when the records carry one.
    pub encryption: Option<EncryptionType>,
    /// Codec, when the records name a known one.
    pub codec: Option<Codec>,
}

/// True when `req` is composed from `ep` by the fixed rules: same
/// address and hostname, the mapped properties of the auxiliary text,
/// and the display name suffixed for IPv4.
pub open spec fn request_matches(req: SinkRequest, ep: DiscoveredEndpoint) -> bool {
    &&& req.socket_address@ == ep.socket_address@
    &&& req.hostname@ == ep.hostname@
    &&& req.display_name@ == spec_request_name(deep(ep.auxiliary_text@), ep.socket_address@.0)
    &&& req.transport == spec_transport(deep(ep.auxiliary_text@))
    &&& req.encryption == spec_encryption(deep(ep.auxiliary_text@))
    &&& req.codec == spec_codec(deep(ep.auxiliary_text@))
}

/// True when `s` holds the key `x`.
pub open spec fn keys_contain(
    s: Seq<(Seq<u8>, (bool, Seq<u8>, int, int))>,
    x: (Seq<u8>, (bool, Seq<u8>, int, int)),
) -> bool {
    exists|i: int| 0 <= i < s.len() && s[i] == x
}

/// How one registry step treats one key: an already known key creates
/// nothing and leaves the registry as it is; a new key creates exactly
/// one sink and is remembered.
pub open spec fn registry_step(
    pre: Seq<(Seq<u8>, (bool, Seq<u8>, int, int))>,
    key: (Seq<u8>, (bool, Seq<u8>, int, int)),
    post: Seq<(Seq<u8>, (bool, Seq<u8>, int, int))>,
    created: bool,
) -> bool {
    if keys_contain(pre, key) {
        !created && post == pre
    } else {
        created && post == pre.push(key)
    }
}

/// The registry of created tunnels, keyed by deduplication identity.
pub struct Registry {
    /// Keys of every sink requested so far.
    pub keys: Vec<TunnelKey>,
}

impl View for Registry {
    type V = Seq<(Seq<u8>, (bool, Seq<u8>, int, int))>;

    open spec fn view(&self) -> Seq<(Seq<u8>, (bool, Seq<u8>, int, int))> {
        self.keys@.map_values(|k: TunnelKey| k@)
    }
}

impl Registry {
    /// An empty registry.
    pub fn new() -> (r: Registry)
        ensures
            r@ == Seq::<(Seq<u8>, (bool, Seq<u8>, int, int))>::empty(),
    {
        let r = Registry { keys: Vec::new() };
        proof {
            assert(r@ =~= Seq::<(Seq<u8>, (bool, Seq<u8>, int, int))>::empty());
        }
        r
    }

    /// Takes one discovery event: when its key is new, remembers it and
    /// returns the composed sink request; when the key is already
    /// known, discards the event silently.
    pub fn process(&mut self, ep: &DiscoveredEndpoint) -> (r: Option<SinkRequest>)
        ensures
            registry_step(old(self)@, (ep.hostname@, ep.socket_address@), final(self)@, r is Some),
            r matches Some(req) ==> request_matches(req, *ep),
    {
        let key = TunnelKey {
            hostname: copy_bytes(ep.hostname.as_slice()),
            socket_address: ep.socket_address.duplicate(),
        };
        let mut i: usize = 0;
        while i < self.keys.len()
            invariant
                i <= self.keys@.len(),
                key@ == (ep.hostname@, ep.socket_address@),
                forall|k: int| 0 <= k < i ==> (#[trigger] self.keys@[k])@ != key@,
            decreases self.keys@.len() - i,
        {
            if tunnel_key_eq(&self.keys[i], &key) {
                proof {
                    assert(self@[i as int] == key@);
                }
                return None;
            }
            i = i + 1;
        }
        proof {
            if keys_contain(self@, key@) {
                let k = choose|k: int| 0 <= k < self@.len() && self@[k] == key@;
                assert(self.keys@[k]@ == key@);
                assert(false);
            }
        }
        let props = parse_properties(&ep.auxiliary_text);
        let mut display_name = props.display_name;
        let is_v4 = match &ep.socket_address {
            SocketAddress::V4 { .. } => true,
            SocketAddress::V6 { .. } => false,
        };
        if is_v4 {
            let ghost base = display_name@;
            display_name.push(32);
            display_name.push(40);
            display_name.push(73);
            display_name.push(80);
            display_name.push(118);
            display_name.push(52);
            display_name.push(41);
            proof {
                assert(display_name@ =~= base + ipv4_suffix());
            }
        }
        let request = SinkRequest {
            socket_address: ep.socket_address.duplicate(),
            hostname: copy_bytes(ep.hostname.as_slice()),
            display_name,
            transport: props.transport,
            encryption: props.encryption,
            codec: props.codec,
        };
        let ghost pre = self@;
        self.keys.push(key);
        proof {
            assert(self@ =~= pre.push((ep.hostname@, ep.socket_address@)));
        }
        Some(request)
    }
}

/// A key a registry holds stays held across any further step, whatever
/// key that step treats.
pub proof fn lemma_registry_monotone(
    pre: Seq<(Seq<u8>, (bool, Seq<u8>, int, int))>,
    key: (Seq<u8>, (bool, Seq<u8>, int, int)),
    post: Seq<(Seq<u8>, (bool, Seq<u8>, int, int))>,
    created: bool,
    x: (Seq<u8>, (bool, Seq<u8>, int, int)),
)
    requires
        registry_step(pre, key, post, created),
        keys_contain(pre, x),
    ensures
        keys_contain(post, x),
{
    let i = choose|i: int| 0 <= i < pre.len() && pre[i] == x;
    if !keys_contain(pre, key) {
        assert(post[i] == x);
    }
}

/// Deduplication: of two endpoints with the same key, at most one
/// yields a sink request: after the first is processed the key is
/// known, so the second, whenever it follows, creates nothing. The
/// first creates exactly when the key was unknown before it.
pub proof fn lemma_dedup(
    pre: Seq<(Seq<u8>, (bool, Seq<u8>, int, int))>,
    key: (Seq<u8>, (bool, Seq<u8>, int, int)),
    mid: Seq<(Seq<u8>, (bool, Seq<u8>, int, int))>,
    post: Seq<(Seq<u8>, (bool, Seq<u8>, int, int))>,
    created_first: bool,
    created_second: bool,
)
    requires
        registry_step(pre, key, mid, created_first),
        registry_step(mid, key, post, created_second),
    ensures
        !created_second,
        created_first == !keys_contain(pre, key),
{
    if !keys_contain(pre, key) {
        assert(mid[pre.len() as int] == key);
    }
    assert(keys_contain(mid, key));
}

} // verus!
