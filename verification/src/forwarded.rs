//! Decoding of the `Forwarded` (RFC 7239) and `X-Forwarded-For` headers
//! into the nodes that reverse proxies report. Address text is kept as
//! written in the header; `classify_address` says how it is to be read.
use vstd::prelude::*;
use vstd::utf8::{decode_utf8, valid_utf8};
use crate::util::bytes_equal;
use crate::header_parser::{
    all_string, class_run_end, elements, full_string, in_class, spec_elements_at,
    spec_full_string, spec_values_list_at, str_from_utf8, values_list, CharClass, ParseError,
    elements_view, values_view, rest_after,
};

verus! {

/// Why an address in a header was refused.
#[derive(Clone, Copy, Debug, PartialEq, Eq)]
pub enum AddrError {
    InvalidlyQuoted,
    InvalidAddress,
    InvalidIdentity,
    InvalidString,
    ParserError(ParseError),
    SocketInsteadIp,
}

/// A header value that cannot be decoded.
#[derive(Clone, Copy, Debug, PartialEq, Eq)]
pub struct HeaderError;

/// An obfuscated identifier (`_hidden`).
#[derive(Clone, Debug, PartialEq, Eq)]
pub struct Obfuscated(pub String);

/// A host name.
#[derive(Clone, Debug, PartialEq, Eq)]
pub struct Host(pub String);

/// A protocol name.
#[derive(Clone, Debug, PartialEq, Eq)]
pub struct Protocol(pub String);

impl Obfuscated {
    pub fn as_str(&self) -> (r: &str)
        ensures
            r@ == self.0@,
    {
        self.0.as_str()
    }
}

impl Host {
    pub fn as_str(&self) -> (r: &str)
        ensures
            r@ == self.0@,
    {
        self.0.as_str()
    }
}

impl Protocol {
    pub fn as_str(&self) -> (r: &str)
        ensures
            r@ == self.0@,
    {
        self.0.as_str()
    }
}

/// The node a proxy saw: unknown, obfuscated or an address.
#[derive(Clone, Debug, PartialEq, Eq)]
pub enum NodeName {
    Unknown,
    Obfuscated(Obfuscated),
    Addr(String),
}

/// A node port: a number or an obfuscated string.
#[derive(Clone, Debug, PartialEq, Eq)]
pub enum Port {
    Real(u16),
    Obfuscated(Obfuscated),
}

#[derive(Clone, Debug, PartialEq, Eq)]
pub struct NodeIdentifier {
    pub name: NodeName,
    pub port: Option<Port>,
}

/// One hop of a `Forwarded` header.
#[derive(Clone, Debug, PartialEq, Eq)]
pub struct ForwardNode {
    pub fwd_for: Option<NodeIdentifier>,
    pub fwd_by: Option<NodeIdentifier>,
    pub fwd_host: Option<Host>,
    pub fwd_protocol: Option<Protocol>,
}

/// Abstract value of a `NodeName`.
pub enum NodeNameV {
    Unknown,
    Obfuscated(Seq<char>),
    Addr(Seq<char>),
}

/// Abstract value of a `Port`.
pub enum PortV {
    Real(u16),
    Obfuscated(Seq<char>),
}

/// Abstract value of a `NodeIdentifier`.
pub struct NodeIdV {
    pub name: NodeNameV,
    pub port: Option<PortV>,
}

/// Abstract value of a `ForwardNode`.
pub struct ForwardNodeV {
    pub fwd_for: Option<NodeIdV>,
    pub fwd_by: Option<NodeIdV>,
    pub fwd_host: Option<Seq<char>>,
    pub fwd_protocol: Option<Seq<char>>,
}

impl View for NodeName {
    type V = NodeNameV;

    open spec fn view(&self) -> NodeNameV {
        match self {
            NodeName::Unknown => NodeNameV::Unknown,
            NodeName::Obfuscated(o) => NodeNameV::Obfuscated(o.0@),
            NodeName::Addr(a) => NodeNameV::Addr(a@),
        }
    }
}

impl View for Port {
    type V = PortV;

    open spec fn view(&self) -> PortV {
        match self {
            Port::Real(p) => PortV::Real(*p),
            Port::Obfuscated(o) => PortV::Obfuscated(o.0@),
        }
    }
}

pub open spec fn port_opt_view(p: Option<Port>) -> Option<PortV> {
    match p {
        Some(p) => Some(p@),
        None => None,
    }
}

impl View for NodeIdentifier {
    type V = NodeIdV;

    open spec fn view(&self) -> NodeIdV {
        NodeIdV { name: self.name@, port: port_opt_view(self.port) }
    }
}

pub open spec fn id_opt_view(i: Option<NodeIdentifier>) -> Option<NodeIdV> {
    match i {
        Some(i) => Some(i@),
        None => None,
    }
}

impl View for ForwardNode {
    type V = ForwardNodeV;

    open spec fn view(&self) -> ForwardNodeV {
        ForwardNodeV {
            fwd_for: id_opt_view(self.fwd_for),
            fwd_by: id_opt_view(self.fwd_by),
            fwd_host: match self.fwd_host {
                Some(h) => Some(h.0@),
                None => None,
            },
            fwd_protocol: match self.fwd_protocol {
                Some(p) => Some(p.0@),
                None => None,
            },
        }
    }
}


impl NodeIdentifier {
    /// The address text of the node, where it is an address.
    pub fn ip(&self) -> (r: Option<&String>)
        ensures
            match self.name {
                NodeName::Addr(a) => r matches Some(x) && x@ == a@,
                _ => r is None,
            },
    {
        match &self.name {
            NodeName::Addr(a) => Some(a),
            _ => None,
        }
    }

    /// The numeric port of the node, where it has one.
    pub fn port(&self) -> (r: Option<u16>)
        ensures
            match self.port {
                Some(Port::Real(p)) => r == Some(p),
                _ => r is None,
            },
    {
        match &self.port {
            Some(Port::Real(p)) => Some(*p),
            _ => None,
        }
    }
}

// ---------------------------------------------------------------------
// address text

/// How the text of an address is read with the std address parsers.
#[derive(Clone, Debug, PartialEq, Eq)]
pub enum AddressForm {
    /// `[v6]`: the inner text is an IPv6 address.
    BracketedIpv6(String),
    /// `[v6]:port`: the whole text is an IPv6 socket address.
    SocketV6(String),
    /// anything else: an address, or else an address with a port.
    IpOrSocket(String),
}

pub enum AddressFormV {
    BracketedIpv6(Seq<char>),
    SocketV6(Seq<char>),
    IpOrSocket(Seq<char>),
}

impl View for AddressForm {
    type V = AddressFormV;

    open spec fn view(&self) -> AddressFormV {
        match self {
            AddressForm::BracketedIpv6(s) => AddressFormV::BracketedIpv6(s@),
            AddressForm::SocketV6(s) => AddressFormV::SocketV6(s@),
            AddressForm::IpOrSocket(s) => AddressFormV::IpOrSocket(s@),
        }
    }
}

pub open spec fn spec_classify_address(s: Seq<char>) -> AddressFormV {
    if s.len() > 0 && s[0] == '[' {
        if s[s.len() - 1] == ']' {
            AddressFormV::BracketedIpv6(s.subrange(1, s.len() - 1))
        } else {
            AddressFormV::SocketV6(s)
        }
    } else {
        AddressFormV::IpOrSocket(s)
    }
}

/// Which std parser reads the address text `s`.
pub fn classify_address(s: &str) -> (r: AddressForm)
    ensures
        r@ == spec_classify_address(s@),
{
    let n = s.unicode_len();
    if n > 0 && s.get_char(0) == '[' {
        if s.get_char(n - 1) == ']' {
            AddressForm::BracketedIpv6(s.substring_char(1, n - 1).to_owned())
        } else {
            AddressForm::SocketV6(s.to_owned())
        }
    } else {
        AddressForm::IpOrSocket(s.to_owned())
    }
}

// ---------------------------------------------------------------------
// Forwarded

pub open spec fn spec_ascii_lower_byte(c: u8) -> u8 {
    if 0x41 <= c && c <= 0x5a {
        (c + 0x20) as u8
    } else {
        c
    }
}

pub open spec fn spec_ascii_lower(s: Seq<u8>) -> Seq<u8> {
    s.map_values(|c: u8| spec_ascii_lower_byte(c))
}

/// `s` with ASCII capitals made small.
pub fn ascii_lower(s: &[u8]) -> (r: Vec<u8>)
    ensures
        r@ == spec_ascii_lower(s@),
{
    let mut out: Vec<u8> = Vec::new();
    let mut i: usize = 0;
    while i < s.len()
        invariant
            i <= s@.len(),
            out@ =~= spec_ascii_lower(s@.subrange(0, i as int)),
        decreases s@.len() - i,
    {
        let c = s[i];
        let l = if c >= 0x41 && c <= 0x5a {
            c + 0x20
        } else {
            c
        };
        out.push(l);
        proof {
            assert(s@.subrange(0, i + 1) =~= s@.subrange(0, i as int).push(c));
        }
        i += 1;
    }
    proof {
        assert(s@.subrange(0, s@.len() as int) =~= s@);
    }
    out
}

pub open spec fn key_for() -> Seq<u8> {
    seq![0x66u8, 0x6f, 0x72]
}

pub open spec fn key_host() -> Seq<u8> {
    seq![0x68u8, 0x6f, 0x73, 0x74]
}

pub open spec fn key_proto() -> Seq<u8> {
    seq![0x70u8, 0x72, 0x6f, 0x74, 0x6f]
}

pub open spec fn word_unknown() -> Seq<u8> {
    seq![0x75u8, 0x6e, 0x6b, 0x6e, 0x6f, 0x77, 0x6e]
}

/// The node that a `for` value names: `_obfuscated`, `unknown` (in any
/// case), or address text.
pub open spec fn spec_for_id(v: Seq<u8>) -> Option<NodeIdV> {
    if v.len() > 0 && v[0] == 0x5f {
        match spec_full_string(CharClass::Obfuscated, v) {
            Some(o) => Some(NodeIdV { name: NodeNameV::Obfuscated(o), port: None }),
            None => None,
        }
    } else if spec_ascii_lower(v) == word_unknown() {
        Some(NodeIdV { name: NodeNameV::Unknown, port: None })
    } else if valid_utf8(v) {
        Some(NodeIdV { name: NodeNameV::Addr(decode_utf8(v)), port: None })
    } else {
        None
    }
}

pub open spec fn empty_node_v() -> ForwardNodeV {
    ForwardNodeV { fwd_for: None, fwd_by: None, fwd_host: None, fwd_protocol: None }
}

/// One `key=value` pair applied to a node: `for`, `host` and `proto` (in any
/// case) may each be set once; `by` and other keys are ignored.
pub open spec fn spec_apply_pair(node: ForwardNodeV, k: Seq<u8>, v: Seq<u8>) -> Option<ForwardNodeV> {
    let lk = spec_ascii_lower(k);
    if lk == key_for() {
        match spec_for_id(v) {
            None => None,
            Some(id) => if node.fwd_for is Some {
                None
            } else {
                Some(
                    ForwardNodeV {
                        fwd_for: Some(id),
                        fwd_by: node.fwd_by,
                        fwd_host: node.fwd_host,
                        fwd_protocol: node.fwd_protocol,
                    },
                )
            },
        }
    } else if lk == key_host() {
        match spec_full_string(CharClass::Host, v) {
            None => None,
            Some(h) => if node.fwd_host is Some {
                None
            } else {
                Some(
                    ForwardNodeV {
                        fwd_for: node.fwd_for,
                        fwd_by: node.fwd_by,
                        fwd_host: Some(h),
                        fwd_protocol: node.fwd_protocol,
                    },
                )
            },
        }
    } else if lk == key_proto() {
        match spec_full_string(CharClass::Scheme, v) {
            None => None,
            Some(p) => if node.fwd_protocol is Some {
                None
            } else {
                Some(
                    ForwardNodeV {
                        fwd_for: node.fwd_for,
                        fwd_by: node.fwd_by,
                        fwd_host: node.fwd_host,
                        fwd_protocol: Some(p),
                    },
                )
            },
        }
    } else {
        Some(node)
    }
}

/// The pairs of one element applied in order to an empty node.
pub open spec fn spec_apply_pairs(node: ForwardNodeV, ps: Seq<(Seq<u8>, Seq<u8>)>) -> Option<
    ForwardNodeV,
>
    decreases ps.len(),
{
    if ps.len() == 0 {
        Some(node)
    } else {
        match spec_apply_pair(node, ps[0].0, ps[0].1) {
            None => None,
            Some(n) => spec_apply_pairs(n, ps.drop_first()),
        }
    }
}

pub open spec fn concat_nodes(xs: Seq<ForwardNodeV>, r: Option<Seq<ForwardNodeV>>) -> Option<
    Seq<ForwardNodeV>,
> {
    match r {
        Some(ys) => Some(xs + ys),
        None => None,
    }
}

/// One node per element.
pub open spec fn spec_nodes_of_elements(es: Seq<Seq<(Seq<u8>, Seq<u8>)>>) -> Option<
    Seq<ForwardNodeV>,
>
    decreases es.len(),
{
    if es.len() == 0 {
        Some(Seq::empty())
    } else {
        match spec_apply_pairs(empty_node_v(), es[0]) {
            None => None,
            Some(n) => concat_nodes(seq![n], spec_nodes_of_elements(es.drop_first())),
        }
    }
}

/// The nodes of all header values, each of which must parse whole.
pub open spec fn spec_nodes_of_values(vals: Seq<Seq<u8>>) -> Option<Seq<ForwardNodeV>>
    decreases vals.len(),
{
    if vals.len() == 0 {
        Some(Seq::empty())
    } else {
        match spec_elements_at(vals[0], 0) {
            Err(_) => None,
            Ok((e, es)) => if e != vals[0].len() {
                None
            } else {
                match spec_nodes_of_elements(es) {
                    None => None,
                    Some(ns) => concat_nodes(ns, spec_nodes_of_values(vals.drop_first())),
                }
            },
        }
    }
}

/// The `Forwarded` header of the given values, where one can be decoded.
pub open spec fn spec_decode_forwarded(vals: Seq<Seq<u8>>) -> Option<Seq<ForwardNodeV>> {
    match spec_nodes_of_values(vals) {
        Some(ns) => if ns.len() > 0 {
            Some(ns)
        } else {
            None
        },
        None => None,
    }
}

pub open spec fn values_of(vals: Seq<Vec<u8>>) -> Seq<Seq<u8>> {
    vals.map_values(|v: Vec<u8>| v@)
}

pub open spec fn nodes_view(ns: Seq<ForwardNode>) -> Seq<ForwardNodeV> {
    ns.map_values(|n: ForwardNode| n@)
}

fn empty_node() -> (r: ForwardNode)
    ensures
        r@ == empty_node_v(),
{
    ForwardNode { fwd_for: None, fwd_by: None, fwd_host: None, fwd_protocol: None }
}

fn for_id(v: &[u8]) -> (r: Option<NodeIdentifier>)
    ensures
        id_opt_view(r) == spec_for_id(v@),
{
    if v.len() > 0 && v[0] == 0x5f {
        match full_string(v, CharClass::Obfuscated) {
            Ok(o) => Some(NodeIdentifier { name: NodeName::Obfuscated(Obfuscated(o)), port: None }),
            Err(_) => None,
        }
    } else if bytes_equal(ascii_lower(v).as_slice(), vec![0x75u8, 0x6e, 0x6b, 0x6e, 0x6f, 0x77, 0x6e].as_slice()) {
        Some(NodeIdentifier { name: NodeName::Unknown, port: None })
    } else {
        match all_string(v) {
            Ok(n) => Some(NodeIdentifier { name: NodeName::Addr(n.to_owned()), port: None }),
            Err(_) => None,
        }
    }
}

fn apply_pair(node: ForwardNode, k: &[u8], v: &[u8]) -> (r: Option<ForwardNode>)
    ensures
        match spec_apply_pair(node@, k@, v@) {
            Some(n) => r matches Some(x) && x@ == n,
            None => r is None,
        },
{
    let lk = ascii_lower(k);
    if bytes_equal(lk.as_slice(), vec![0x66u8, 0x6f, 0x72].as_slice()) {
        match for_id(v) {
            None => None,
            Some(id) => if node.fwd_for.is_some() {
                None
            } else {
                Some(
                    ForwardNode {
                        fwd_for: Some(id),
                        fwd_by: node.fwd_by,
                        fwd_host: node.fwd_host,
                        fwd_protocol: node.fwd_protocol,
                    },
                )
            },
        }
    } else if bytes_equal(lk.as_slice(), vec![0x68u8, 0x6f, 0x73, 0x74].as_slice()) {
        match full_string(v, CharClass::Host) {
            Err(_) => None,
            Ok(h) => if node.fwd_host.is_some() {
                None
            } else {
                Some(
                    ForwardNode {
                        fwd_for: node.fwd_for,
                        fwd_by: node.fwd_by,
                        fwd_host: Some(Host(h)),
                        fwd_protocol: node.fwd_protocol,
                    },
                )
            },
        }
    } else if bytes_equal(lk.as_slice(), vec![0x70u8, 0x72, 0x6f, 0x74, 0x6f].as_slice()) {
        match full_string(v, CharClass::Scheme) {
            Err(_) => None,
            Ok(p) => if node.fwd_protocol.is_some() {
                None
            } else {
                Some(
                    ForwardNode {
                        fwd_for: node.fwd_for,
                        fwd_by: node.fwd_by,
                        fwd_host: node.fwd_host,
                        fwd_protocol: Some(Protocol(p)),
                    },
                )
            },
        }
    } else {
        Some(node)
    }
}

fn node_of_pairs(ps: &Vec<(Vec<u8>, Vec<u8>)>) -> (r: Option<ForwardNode>)
    ensures
        match spec_apply_pairs(empty_node_v(), crate::header_parser::pairs_view(ps@)) {
            Some(n) => r matches Some(x) && x@ == n,
            None => r is None,
        },
{
    let ghost all = crate::header_parser::pairs_view(ps@);
    let mut node = empty_node();
    let mut i: usize = 0;
    proof {
        assert(all.subrange(0, all.len() as int) =~= all);
    }
    while i < ps.len()
        invariant
            i <= ps@.len(),
            all == crate::header_parser::pairs_view(ps@),
            spec_apply_pairs(empty_node_v(), all) == spec_apply_pairs(
                node@,
                all.subrange(i as int, all.len() as int),
            ),
        decreases ps@.len() - i,
    {
        proof {
            let rest = all.subrange(i as int, all.len() as int);
            assert(rest[0] == all[i as int]);
            assert(rest.drop_first() =~= all.subrange(i + 1, all.len() as int));
        }
        let (k, v) = &ps[i];
        match apply_pair(node, k.as_slice(), v.as_slice()) {
            None => return None,
            Some(n) => {
                node = n;
            },
        }
        i += 1;
    }
    proof {
        assert(all.subrange(i as int, all.len() as int) =~= Seq::<(Seq<u8>, Seq<u8>)>::empty());
    }
    Some(node)
}

proof fn lemma_concat_nodes_assoc(a: Seq<ForwardNodeV>, b: Seq<ForwardNodeV>, r: Option<Seq<ForwardNodeV>>)
    ensures
        concat_nodes(a, concat_nodes(b, r)) == concat_nodes(a + b, r),
{
    if let Some(ys) = r {
        assert(a + (b + ys) =~= (a + b) + ys);
    }
}

/// Appends the nodes of `es` to `out`; false where an element is refused.
fn push_nodes_of_elements(out: &mut Vec<ForwardNode>, es: &Vec<Vec<(Vec<u8>, Vec<u8>)>>) -> (ok: bool)
    ensures
        ok == (spec_nodes_of_elements(elements_view(es@)) is Some),
        ok ==> Some(nodes_view(final(out)@)) == concat_nodes(
            nodes_view(old(out)@),
            spec_nodes_of_elements(elements_view(es@)),
        ),
{
    let ghost all = elements_view(es@);
    let ghost start = nodes_view(out@);
    let mut i: usize = 0;
    proof {
        assert(all.subrange(0, all.len() as int) =~= all);
        assert(start + Seq::<ForwardNodeV>::empty() =~= start);
        assert(nodes_view(out@) =~= start + Seq::<ForwardNodeV>::empty());
    }
    while i < es.len()
        invariant
            i <= es@.len(),
            all == elements_view(es@),
            start == nodes_view(old(out)@),
            exists|done: Seq<ForwardNodeV>|
                #![trigger start + done]
                nodes_view(out@) == start + done && concat_nodes(
                    Seq::empty(),
                    spec_nodes_of_elements(all),
                ) == concat_nodes(done, spec_nodes_of_elements(all.subrange(i as int, all.len() as int))),
        decreases es@.len() - i,
    {
        let ghost done = choose|done: Seq<ForwardNodeV>|
            #![trigger start + done]
            nodes_view(out@) == start + done && concat_nodes(
                Seq::empty(),
                spec_nodes_of_elements(all),
            ) == concat_nodes(done, spec_nodes_of_elements(all.subrange(i as int, all.len() as int)));
        proof {
            let rest = all.subrange(i as int, all.len() as int);
            assert(rest[0] == all[i as int]);
            assert(rest.drop_first() =~= all.subrange(i + 1, all.len() as int));
            assert(all[i as int] == crate::header_parser::pairs_view(es@[i as int]@));
        }
        match node_of_pairs(&es[i]) {
            None => {
                proof {
                    if let Some(ys) = spec_nodes_of_elements(all) {
                        assert(Seq::<ForwardNodeV>::empty() + ys =~= ys);
                    }
                }
                return false;
            },
            Some(n) => {
                proof {
                    lemma_concat_nodes_assoc(done, seq![n@], spec_nodes_of_elements(all.subrange(i + 1, all.len() as int)));
                    assert(nodes_view(out@.push(n)) =~= nodes_view(out@).push(n@));
                    assert(start + (done + seq![n@]) =~= (start + done).push(n@));
                }
                out.push(n);
                i += 1;
            },
        }
    }
    proof {
        assert(all.subrange(i as int, all.len() as int) =~= Seq::<Seq<(Seq<u8>, Seq<u8>)>>::empty());
        let done = choose|done: Seq<ForwardNodeV>|
            #![trigger start + done]
            nodes_view(out@) == start + done && concat_nodes(
                Seq::empty(),
                spec_nodes_of_elements(all),
            ) == concat_nodes(done, spec_nodes_of_elements(all.subrange(i as int, all.len() as int)));
        assert(done + Seq::<ForwardNodeV>::empty() =~= done);
        if let Some(ys) = spec_nodes_of_elements(all) {
            assert(Seq::<ForwardNodeV>::empty() + ys =~= ys);
        }
    }
    true
}

/// A decoded `Forwarded` header: the nodes in the order the proxies added them.
pub struct Forwarded {
    nodes: Vec<ForwardNode>,
}

impl Forwarded {
    pub closed spec fn nodes_v(&self) -> Seq<ForwardNodeV> {
        nodes_view(self.nodes@)
    }

    /// The nodes of the header.
    pub fn nodes(&self) -> (r: &Vec<ForwardNode>)
        ensures
            nodes_view(r@) == self.nodes_v(),
    {
        &self.nodes
    }

    /// Decodes the values of all `Forwarded` headers of a request.
    pub fn decode(values: &Vec<Vec<u8>>) -> (r: Result<Forwarded, HeaderError>)
        ensures
            match spec_decode_forwarded(values_of(values@)) {
                Some(ns) => r matches Ok(f) && f.nodes_v() == ns,
                None => r is Err,
            },
    {
        let ghost all = values_of(values@);
        let mut nodes: Vec<ForwardNode> = Vec::new();
        let mut i: usize = 0;
        proof {
            assert(all.subrange(0, all.len() as int) =~= all);
            assert(nodes_view(nodes@) =~= Seq::<ForwardNodeV>::empty());
            if let Some(ys) = spec_nodes_of_values(all) {
                assert(Seq::<ForwardNodeV>::empty() + ys =~= ys);
            }
        }
        while i < values.len()
            invariant
                i <= values@.len(),
                all == values_of(values@),
                spec_nodes_of_values(all) == concat_nodes(
                    nodes_view(nodes@),
                    spec_nodes_of_values(all.subrange(i as int, all.len() as int)),
                ),
            decreases values@.len() - i,
        {
            let ghost rest_vals = all.subrange(i as int, all.len() as int);
            proof {
                assert(rest_vals[0] == all[i as int]);
                assert(rest_vals.drop_first() =~= all.subrange(i + 1, all.len() as int));
                assert(all[i as int] == values@[i as int]@);
            }
            let v = values[i].as_slice();
            proof {
                crate::header_parser::lemma_element_bounds(v@, 0);
                if let Ok((e, el)) = crate::header_parser::spec_element_at(v@, 0) {
                    crate::header_parser::lemma_elements_tail_bounds(v@, e);
                }
            }
            let (left, es) = match elements(v) {
                Ok(x) => x,
                Err(_) => return Err(HeaderError),
            };
            if left.len() != 0 {
                return Err(HeaderError);
            }
            let ghost before = nodes_view(nodes@);
            let ok = push_nodes_of_elements(&mut nodes, &es);
            if !ok {
                return Err(HeaderError);
            }
            proof {
                lemma_concat_nodes_assoc(
                    before,
                    spec_nodes_of_elements(elements_view(es@)).unwrap(),
                    spec_nodes_of_values(all.subrange(i + 1, all.len() as int)),
                );
            }
            i += 1;
        }
        proof {
            assert(all.subrange(i as int, all.len() as int) =~= Seq::<Seq<u8>>::empty());
            assert(nodes_view(nodes@) + Seq::<ForwardNodeV>::empty() =~= nodes_view(nodes@));
        }
        if nodes.len() == 0 {
            return Err(HeaderError);
        }
        Ok(Forwarded { nodes })
    }

    /// The address text of the client: the `for` of the first node.
    pub fn client(&self) -> (r: Option<&String>)
        ensures
            match first_for(self.nodes_v()) {
                Some(NodeIdV { name: NodeNameV::Addr(a), port: _ }) => r matches Some(x) && x@ == a,
                _ => r is None,
            },
    {
        if self.nodes.len() == 0 {
            return None;
        }
        match &self.nodes[0].fwd_for {
            Some(id) => id.ip(),
            None => None,
        }
    }

    /// The numeric port of the client, where the first node has one.
    pub fn client_port(&self) -> (r: Option<u16>)
        ensures
            match first_for(self.nodes_v()) {
                Some(NodeIdV { name: _, port: Some(PortV::Real(p)) }) => r == Some(p),
                _ => r is None,
            },
    {
        if self.nodes.len() == 0 {
            return None;
        }
        match &self.nodes[0].fwd_for {
            Some(id) => id.port(),
            None => None,
        }
    }

    /// The protocol the client used, where the first node has one.
    pub fn client_protocol(&self) -> (r: Option<&Protocol>)
        ensures
            match first_protocol(self.nodes_v()) {
                Some(p) => r matches Some(x) && x.0@ == p,
                None => r is None,
            },
    {
        if self.nodes.len() == 0 {
            return None;
        }
        self.nodes[0].fwd_protocol.as_ref()
    }
}

pub open spec fn first_for(ns: Seq<ForwardNodeV>) -> Option<NodeIdV> {
    if ns.len() == 0 {
        None
    } else {
        ns[0].fwd_for
    }
}

pub open spec fn first_protocol(ns: Seq<ForwardNodeV>) -> Option<Seq<char>> {
    if ns.len() == 0 {
        None
    } else {
        ns[0].fwd_protocol
    }
}


// ---------------------------------------------------------------------
// X-Forwarded-For

pub open spec fn concat_texts(xs: Seq<Seq<char>>, r: Option<Seq<Seq<char>>>) -> Option<
    Seq<Seq<char>>,
> {
    match r {
        Some(ys) => Some(xs + ys),
        None => None,
    }
}

/// The address texts of the parts of one value, each of which must be UTF-8.
pub open spec fn spec_texts_of_parts(parts: Seq<Seq<u8>>) -> Option<Seq<Seq<char>>>
    decreases parts.len(),
{
    if parts.len() == 0 {
        Some(Seq::empty())
    } else if valid_utf8(parts[0]) {
        concat_texts(seq![decode_utf8(parts[0])], spec_texts_of_parts(parts.drop_first()))
    } else {
        None
    }
}

/// The address texts of all values; what follows a value list is ignored.
pub open spec fn spec_texts_of_values(vals: Seq<Seq<u8>>) -> Option<Seq<Seq<char>>>
    decreases vals.len(),
{
    if vals.len() == 0 {
        Some(Seq::empty())
    } else {
        match spec_values_list_at(vals[0], 0) {
            Err(_) => None,
            Ok((e, parts)) => match spec_texts_of_parts(parts) {
                None => None,
                Some(ts) => concat_texts(ts, spec_texts_of_values(vals.drop_first())),
            },
        }
    }
}

/// The `X-Forwarded-For` header of the given values, where one can be decoded.
pub open spec fn spec_decode_x_forwarded_for(vals: Seq<Seq<u8>>) -> Option<Seq<Seq<char>>> {
    match spec_texts_of_values(vals) {
        Some(ts) => if ts.len() > 0 {
            Some(ts)
        } else {
            None
        },
        None => None,
    }
}

pub open spec fn texts_view(ts: Seq<String>) -> Seq<Seq<char>> {
    ts.map_values(|t: String| t@)
}

proof fn lemma_concat_texts_assoc(a: Seq<Seq<char>>, b: Seq<Seq<char>>, r: Option<Seq<Seq<char>>>)
    ensures
        concat_texts(a, concat_texts(b, r)) == concat_texts(a + b, r),
{
    if let Some(ys) = r {
        assert(a + (b + ys) =~= (a + b) + ys);
    }
}

/// Appends the texts of `parts` to `out`; false where one is not UTF-8.
fn push_texts_of_parts(out: &mut Vec<String>, parts: &Vec<Vec<u8>>) -> (ok: bool)
    ensures
        ok == (spec_texts_of_parts(values_view(parts@)) is Some),
        ok ==> Some(texts_view(final(out)@)) == concat_texts(
            texts_view(old(out)@),
            spec_texts_of_parts(values_view(parts@)),
        ),
{
    let ghost all = values_view(parts@);
    let ghost start = texts_view(out@);
    let mut i: usize = 0;
    proof {
        assert(all.subrange(0, all.len() as int) =~= all);
        assert(start + Seq::<Seq<char>>::empty() =~= start);
    }
    while i < parts.len()
        invariant
            i <= parts@.len(),
            all == values_view(parts@),
            start == texts_view(old(out)@),
            exists|done: Seq<Seq<char>>|
                #![trigger start + done]
                texts_view(out@) == start + done && concat_texts(
                    Seq::empty(),
                    spec_texts_of_parts(all),
                ) == concat_texts(done, spec_texts_of_parts(all.subrange(i as int, all.len() as int))),
        decreases parts@.len() - i,
    {
        let ghost done = choose|done: Seq<Seq<char>>|
            #![trigger start + done]
            texts_view(out@) == start + done && concat_texts(
                Seq::empty(),
                spec_texts_of_parts(all),
            ) == concat_texts(done, spec_texts_of_parts(all.subrange(i as int, all.len() as int)));
        proof {
            let rest = all.subrange(i as int, all.len() as int);
            assert(rest[0] == all[i as int]);
            assert(rest.drop_first() =~= all.subrange(i + 1, all.len() as int));
        }
        match str_from_utf8(parts[i].as_slice()) {
            None => {
                proof {
                    if let Some(ys) = spec_texts_of_parts(all) {
                        assert(Seq::<Seq<char>>::empty() + ys =~= ys);
                    }
                }
                return false;
            },
            Some(t) => {
                let t = t.to_owned();
                proof {
                    lemma_concat_texts_assoc(done, seq![t@], spec_texts_of_parts(all.subrange(i + 1, all.len() as int)));
                    assert(texts_view(out@.push(t)) =~= texts_view(out@).push(t@));
                    assert(start + (done + seq![t@]) =~= (start + done).push(t@));
                }
                out.push(t);
                i += 1;
            },
        }
    }
    proof {
        assert(all.subrange(i as int, all.len() as int) =~= Seq::<Seq<u8>>::empty());
        let done = choose|done: Seq<Seq<char>>|
            #![trigger start + done]
            texts_view(out@) == start + done && concat_texts(
                Seq::empty(),
                spec_texts_of_parts(all),
            ) == concat_texts(done, spec_texts_of_parts(all.subrange(i as int, all.len() as int)));
        assert(done + Seq::<Seq<char>>::empty() =~= done);
        if let Some(ys) = spec_texts_of_parts(all) {
            assert(Seq::<Seq<char>>::empty() + ys =~= ys);
        }
    }
    true
}

/// A decoded `X-Forwarded-For` header: the client first, then the proxies.
pub struct XForwardedFor {
    ips: Vec<String>,
}

impl XForwardedFor {
    #[verifier::type_invariant]
    spec fn has_client(&self) -> bool {
        self.ips@.len() > 0
    }

    pub closed spec fn ips_v(&self) -> Seq<Seq<char>> {
        texts_view(self.ips@)
    }

    /// Decodes the values of all `X-Forwarded-For` headers of a request.
    pub fn decode(values: &Vec<Vec<u8>>) -> (r: Result<XForwardedFor, HeaderError>)
        ensures
            match spec_decode_x_forwarded_for(values_of(values@)) {
                Some(ts) => r matches Ok(x) && x.ips_v() == ts,
                None => r is Err,
            },
    {
        let ghost all = values_of(values@);
        let mut ips: Vec<String> = Vec::new();
        let mut i: usize = 0;
        proof {
            assert(all.subrange(0, all.len() as int) =~= all);
            assert(texts_view(ips@) =~= Seq::<Seq<char>>::empty());
            if let Some(ys) = spec_texts_of_values(all) {
                assert(Seq::<Seq<char>>::empty() + ys =~= ys);
            }
        }
        while i < values.len()
            invariant
                i <= values@.len(),
                all == values_of(values@),
                spec_texts_of_values(all) == concat_texts(
                    texts_view(ips@),
                    spec_texts_of_values(all.subrange(i as int, all.len() as int)),
                ),
            decreases values@.len() - i,
        {
            let ghost rest_vals = all.subrange(i as int, all.len() as int);
            proof {
                assert(rest_vals[0] == all[i as int]);
                assert(rest_vals.drop_first() =~= all.subrange(i + 1, all.len() as int));
                assert(all[i as int] == values@[i as int]@);
            }
            let v = values[i].as_slice();
            let (_left, parts) = match values_list(v) {
                Ok(x) => x,
                Err(_) => return Err(HeaderError),
            };
            let ghost before = texts_view(ips@);
            let ok = push_texts_of_parts(&mut ips, &parts);
            if !ok {
                return Err(HeaderError);
            }
            proof {
                lemma_concat_texts_assoc(
                    before,
                    spec_texts_of_parts(values_view(parts@)).unwrap(),
                    spec_texts_of_values(all.subrange(i + 1, all.len() as int)),
                );
            }
            i += 1;
        }
        proof {
            assert(all.subrange(i as int, all.len() as int) =~= Seq::<Seq<u8>>::empty());
            assert(texts_view(ips@) + Seq::<Seq<char>>::empty() =~= texts_view(ips@));
        }
        if ips.len() == 0 {
            return Err(HeaderError);
        }
        Ok(XForwardedFor { ips })
    }

    /// The address text of the client: the first address.
    pub fn client(&self) -> (r: &String)
        ensures
            r@ == self.ips_v()[0],
    {
        proof {
            use_type_invariant(self);
        }
        &self.ips[0]
    }

    /// The address texts of the proxies: all but the first.
    pub fn proxies(&self) -> (r: &[String])
        ensures
            texts_view(r@) == self.ips_v().drop_first(),
    {
        proof {
            use_type_invariant(self);
        }
        let r = &self.ips[1..self.ips.len()];
        proof {
            assert(texts_view(r@) =~= self.ips_v().drop_first());
        }
        r
    }

    /// The header value: the addresses joined by `", "`.
    pub fn encode(&self) -> (r: String)
        ensures
            r@ == join_texts(self.ips_v(), seq![',', ' ']),
    {
        let sep = ", ";
        proof {
            reveal_strlit(", ");
            assert(sep@ =~= seq![',', ' ']);
        }
        join_strings(&self.ips, sep)
    }
}

/// `parts` joined by `sep`.
pub open spec fn join_texts(parts: Seq<Seq<char>>, sep: Seq<char>) -> Seq<char>
    decreases parts.len(),
{
    if parts.len() == 0 {
        Seq::empty()
    } else if parts.len() == 1 {
        parts[0]
    } else {
        join_texts(parts.drop_last(), sep) + sep + parts.last()
    }
}

/// Joins `parts` with `sep` between neighbours.
pub fn join_strings(parts: &Vec<String>, sep: &str) -> (r: String)
    ensures
        r@ == join_texts(texts_view(parts@), sep@),
{
    let ghost all = texts_view(parts@);
    let mut out = String::new();
    let mut i: usize = 0;
    while i < parts.len()
        invariant
            i <= parts@.len(),
            all == texts_view(parts@),
            out@ == join_texts(all.subrange(0, i as int), sep@),
        decreases parts@.len() - i,
    {
        proof {
            let pre = all.subrange(0, i + 1);
            assert(pre.drop_last() =~= all.subrange(0, i as int));
            assert(pre.last() == all[i as int]);
        }
        if i > 0 {
            out.append(sep);
        }
        out.append(parts[i].as_str());
        proof {
            if i == 0 {
                assert(Seq::<char>::empty() + all[0] =~= all[0]);
            }
        }
        i += 1;
    }
    proof {
        assert(all.subrange(0, all.len() as int) =~= all);
    }
    out
}

} // verus!
