//! The gateway negotiation message: its fields, the four shapes that are built,
//! and its DER form, decoded incrementally from a growing byte buffer.

use bytes::BytesMut;
use vstd::prelude::*;
use vstd::utf8::*;

verus! {

pub const BASE_VERSION: u64 = 3389;
/// The negotiation revision that this library speaks.
pub const VERSION_1: u64 = BASE_VERSION + 1;

/// Largest length that a DER header may carry.
pub const MAX_LEN: usize = 0x0FFF_FFFF;

pub const TAG_INTEGER: u8 = 0x02;
pub const TAG_OCTET_STRING: u8 = 0x04;
pub const TAG_UTF8_STRING: u8 = 0x0C;
pub const TAG_SEQUENCE: u8 = 0x30;
/// Tag of an explicit context-specific field with index 0; index `n` adds `n`.
pub const TAG_CONTEXT: u8 = 0xA0;

// ---------------------------------------------------------------------------
// Big-endian numbers
// ---------------------------------------------------------------------------

pub open spec fn pow256(k: nat) -> nat
    decreases k,
{
    if k == 0 {
        1
    } else {
        256 * pow256((k - 1) as nat)
    }
}

/// The `i`-th byte of `n`, counting from the least significant one.
pub open spec fn digit(n: nat, i: nat) -> u8 {
    ((n / pow256(i)) % 256) as u8
}

/// The last `k` bytes of `n`, most significant first.
pub open spec fn be_bytes(n: nat, k: nat) -> Seq<u8> {
    Seq::new(k, |j: int| digit(n, (k - 1 - j) as nat))
}

/// The number that bytes spell, most significant first.
pub open spec fn be_value(s: Seq<u8>) -> nat
    decreases s.len(),
{
    if s.len() == 0 {
        0
    } else {
        be_value(s.drop_last()) * 256 + s.last() as nat
    }
}

/// Fewest bytes that hold `n` (at least one).
pub open spec fn byte_len(n: nat) -> nat
    decreases n,
{
    if n < 256 {
        1
    } else {
        1 + byte_len(n / 256)
    }
}

// ---------------------------------------------------------------------------
// DER encoding
// ---------------------------------------------------------------------------

/// Smallest value that a long-form length of `k` bytes may carry.
pub open spec fn len_floor(k: nat) -> nat {
    if k == 1 {
        0x80
    } else {
        pow256((k - 1) as nat)
    }
}

/// The DER length octets of `n`: one byte below 0x80, else 0x80 plus the
/// number of bytes, followed by those bytes.
pub open spec fn len_bytes(n: nat) -> Seq<u8> {
    if n < 0x80 {
        seq![n as u8]
    } else {
        let k = byte_len(n);
        seq![(0x80 + k) as u8] + be_bytes(n, k)
    }
}

pub open spec fn tlv(tag: u8, content: Seq<u8>) -> Seq<u8> {
    seq![tag] + len_bytes(content.len()) + content
}

pub open spec fn context_tag(n: u8) -> u8 {
    (TAG_CONTEXT + n) as u8
}

/// Content octets of an unsigned INTEGER: the fewest big-endian bytes, with a
/// leading zero when the first one has its top bit set.
pub open spec fn uint_content(v: nat) -> Seq<u8> {
    let b = be_bytes(v, byte_len(v));
    if b[0] >= 0x80 {
        seq![0u8] + b
    } else {
        b
    }
}

pub open spec fn der_uint(v: nat) -> Seq<u8> {
    tlv(TAG_INTEGER, uint_content(v))
}

pub open spec fn der_utf8(s: Seq<char>) -> Seq<u8> {
    tlv(TAG_UTF8_STRING, encode_utf8(s))
}

pub open spec fn der_octets(b: Seq<u8>) -> Seq<u8> {
    tlv(TAG_OCTET_STRING, b)
}

pub open spec fn der_octets_list(bs: Seq<Seq<u8>>) -> Seq<u8>
    decreases bs.len(),
{
    if bs.len() == 0 {
        seq![]
    } else {
        der_octets_list(bs.drop_last()) + der_octets(bs.last())
    }
}

/// An optional field: absent fields are left out entirely.
pub open spec fn opt_field(n: u8, v: Option<Seq<u8>>) -> Seq<u8> {
    match v {
        Some(e) => tlv(context_tag(n), e),
        None => seq![],
    }
}

pub open spec fn opt_uint(n: u8, v: Option<nat>) -> Seq<u8> {
    match v {
        Some(x) => opt_field(n, Some(der_uint(x))),
        None => seq![],
    }
}

pub open spec fn opt_utf8(n: u8, v: Option<Seq<char>>) -> Seq<u8> {
    match v {
        Some(x) => opt_field(n, Some(der_utf8(x))),
        None => seq![],
    }
}

/// Field index of each member of the message.
pub const FIELD_VERSION: u8 = 0;
pub const FIELD_ERROR: u8 = 1;
pub const FIELD_DESTINATION: u8 = 2;
pub const FIELD_PROXY_AUTH: u8 = 3;
pub const FIELD_SERVER_AUTH: u8 = 4;
pub const FIELD_PRECONNECTION_BLOB: u8 = 5;
pub const FIELD_X224: u8 = 6;
pub const FIELD_CERT_CHAIN: u8 = 7;
pub const FIELD_SERVER_ADDR: u8 = 9;

/// Error sub-message of the negotiation.
#[derive(Clone, Debug, PartialEq, Eq)]
pub struct RDCleanPathErr {
    pub error_code: u16,
    pub http_status_code: Option<u16>,
    pub wsa_last_error: Option<u16>,
    pub tls_alert_code: Option<u8>,
}

pub open spec fn opt_nat_u16(v: Option<u16>) -> Option<nat> {
    match v {
        Some(x) => Some(x as nat),
        None => None,
    }
}

pub open spec fn opt_nat_u8(v: Option<u8>) -> Option<nat> {
    match v {
        Some(x) => Some(x as nat),
        None => None,
    }
}

pub open spec fn err_fields(e: RDCleanPathErr) -> Seq<u8> {
    opt_uint(0, Some(e.error_code as nat)) + opt_uint(1, opt_nat_u16(e.http_status_code)) + opt_uint(
        2,
        opt_nat_u16(e.wsa_last_error),
    ) + opt_uint(3, opt_nat_u8(e.tls_alert_code))
}

pub open spec fn der_err(e: RDCleanPathErr) -> Seq<u8> {
    tlv(TAG_SEQUENCE, err_fields(e))
}

/// Abstract value of a negotiation message: strings as characters, byte
/// strings as byte sequences.
pub struct PduView {
    pub version: u64,
    pub error: Option<RDCleanPathErr>,
    pub destination: Option<Seq<char>>,
    pub proxy_auth: Option<Seq<char>>,
    pub server_auth: Option<Seq<char>>,
    pub preconnection_blob: Option<Seq<char>>,
    pub x224_connection_pdu: Option<Seq<u8>>,
    pub server_cert_chain: Option<Seq<Seq<u8>>>,
    pub server_addr: Option<Seq<char>>,
}

pub open spec fn opt_err(n: u8, v: Option<RDCleanPathErr>) -> Seq<u8> {
    match v {
        Some(e) => opt_field(n, Some(der_err(e))),
        None => seq![],
    }
}

pub open spec fn opt_octets(n: u8, v: Option<Seq<u8>>) -> Seq<u8> {
    match v {
        Some(b) => opt_field(n, Some(der_octets(b))),
        None => seq![],
    }
}

pub open spec fn opt_chain(n: u8, v: Option<Seq<Seq<u8>>>) -> Seq<u8> {
    match v {
        Some(bs) => opt_field(n, Some(tlv(TAG_SEQUENCE, der_octets_list(bs)))),
        None => seq![],
    }
}

pub open spec fn pdu_fields(m: PduView) -> Seq<u8> {
    opt_uint(FIELD_VERSION, Some(m.version as nat)) + opt_err(FIELD_ERROR, m.error) + opt_utf8(
        FIELD_DESTINATION,
        m.destination,
    ) + opt_utf8(FIELD_PROXY_AUTH, m.proxy_auth) + opt_utf8(FIELD_SERVER_AUTH, m.server_auth)
        + opt_utf8(FIELD_PRECONNECTION_BLOB, m.preconnection_blob) + opt_octets(
        FIELD_X224,
        m.x224_connection_pdu,
    ) + opt_chain(FIELD_CERT_CHAIN, m.server_cert_chain) + opt_utf8(FIELD_SERVER_ADDR, m.server_addr)
}

/// The DER form of a message: a SEQUENCE of its present fields.
pub open spec fn pdu_der(m: PduView) -> Seq<u8> {
    tlv(TAG_SEQUENCE, pdu_fields(m))
}

/// A message can be encoded when its DER content fits a DER length.
pub open spec fn encodable(m: PduView) -> bool {
    pdu_fields(m).len() <= MAX_LEN
}


/// Failure of the negotiation codec.
#[derive(Clone, Copy, Debug, PartialEq, Eq)]
pub enum CodecError {
    /// The bytes do not form a negotiation message.
    Malformed,
    /// A value is too long for a DER length.
    Overlength,
}

/// The negotiation message. Every field is optional on the wire; the
/// constructors build the four shapes that are exchanged.
#[derive(Clone, Debug, PartialEq, Eq)]
pub struct RDCleanPathPdu {
    pub version: u64,
    pub error: Option<RDCleanPathErr>,
    pub destination: Option<String>,
    pub proxy_auth: Option<String>,
    pub server_auth: Option<String>,
    pub preconnection_blob: Option<String>,
    pub x224_connection_pdu: Option<Vec<u8>>,
    pub server_cert_chain: Option<Vec<Vec<u8>>>,
    /// IPv4 or IPv6 address of the server, as resolved by the gateway.
    pub server_addr: Option<String>,
}

pub open spec fn opt_str_view(s: Option<String>) -> Option<Seq<char>> {
    match s {
        Some(x) => Some(x@),
        None => None,
    }
}

pub open spec fn chain_view(c: Vec<Vec<u8>>) -> Seq<Seq<u8>> {
    c@.map_values(|b: Vec<u8>| b@)
}

impl View for RDCleanPathPdu {
    type V = PduView;

    open spec fn view(&self) -> PduView {
        PduView {
            version: self.version,
            error: self.error,
            destination: opt_str_view(self.destination),
            proxy_auth: opt_str_view(self.proxy_auth),
            server_auth: opt_str_view(self.server_auth),
            preconnection_blob: opt_str_view(self.preconnection_blob),
            x224_connection_pdu: match self.x224_connection_pdu {
                Some(b) => Some(b@),
                None => None,
            },
            server_cert_chain: match self.server_cert_chain {
                Some(c) => Some(chain_view(c)),
                None => None,
            },
            server_addr: opt_str_view(self.server_addr),
        }
    }
}

/// A message with only the version set.
pub open spec fn empty_view() -> PduView {
    PduView {
        version: VERSION_1,
        error: None,
        destination: None,
        proxy_auth: None,
        server_auth: None,
        preconnection_blob: None,
        x224_connection_pdu: None,
        server_cert_chain: None,
        server_addr: None,
    }
}

/// The request shape: destination, proxy credentials, X.224 payload and an
/// optional preconnection blob.
pub open spec fn request_view(
    x224: Seq<u8>,
    destination: Seq<char>,
    proxy_auth: Seq<char>,
    pcb: Option<Seq<char>>,
) -> PduView {
    PduView {
        destination: Some(destination),
        proxy_auth: Some(proxy_auth),
        preconnection_blob: pcb,
        x224_connection_pdu: Some(x224),
        ..empty_view()
    }
}

/// The response shape: X.224 payload, server certificate chain and address.
pub open spec fn response_view(server_addr: Seq<char>, x224: Seq<u8>, chain: Seq<Seq<u8>>) -> PduView {
    PduView {
        x224_connection_pdu: Some(x224),
        server_cert_chain: Some(chain),
        server_addr: Some(server_addr),
        ..empty_view()
    }
}

/// The error shape: error code 1 and at most one detail.
pub open spec fn error_view(http: Option<u16>, wsa: Option<u16>, tls: Option<u8>) -> PduView {
    PduView {
        error: Some(
            RDCleanPathErr {
                error_code: 1,
                http_status_code: http,
                wsa_last_error: wsa,
                tls_alert_code: tls,
            },
        ),
        ..empty_view()
    }
}

/// At most one of the error details is set.
pub open spec fn one_detail(e: RDCleanPathErr) -> bool {
    &&& e.http_status_code is Some ==> e.wsa_last_error is None && e.tls_alert_code is None
    &&& e.wsa_last_error is Some ==> e.tls_alert_code is None
}

/// One of the four shapes that the constructors build: a request, a
/// response, or an error with code 1 and at most one detail.
pub open spec fn well_shaped(m: PduView) -> bool {
    let request = m.error is None && m.destination is Some && m.proxy_auth is Some
        && m.server_auth is None && m.x224_connection_pdu is Some && m.server_cert_chain is None
        && m.server_addr is None;
    let response = m.error is None && m.destination is None && m.proxy_auth is None
        && m.server_auth is None && m.preconnection_blob is None && m.x224_connection_pdu is Some
        && m.server_cert_chain is Some && m.server_addr is Some;
    let error = m.error matches Some(e) && e.error_code == 1 && one_detail(e) && m.destination is None
        && m.proxy_auth is None && m.server_auth is None && m.preconnection_blob is None
        && m.x224_connection_pdu is None && m.server_cert_chain is None && m.server_addr is None;
    m.version == VERSION_1 && (request || response || error)
}

// ---------------------------------------------------------------------------
// Encoding
// ---------------------------------------------------------------------------

fn push_all(out: &mut Vec<u8>, b: &[u8])
    ensures
        final(out)@ == old(out)@ + b@,
{
    let mut i: usize = 0;
    while i < b.len()
        invariant
            i <= b@.len(),
            out@ == old(out)@ + b@.take(i as int),
        decreases b@.len() - i,
    {
        out.push(b[i]);
        assert(b@.take(i + 1) =~= b@.take(i as int).push(b@[i as int]));
        i = i + 1;
    }
    assert(b@.take(i as int) =~= b@);
}

proof fn lemma_pow256_step(i: nat)
    ensures
        pow256(i + 1) == pow256(i) * 256,
        pow256(i) > 0,
    decreases i,
{
    if i > 0 {
        lemma_pow256_step((i - 1) as nat);
    }
}

/// The fewest big-endian bytes of `v`.
fn be_bytes_min(v: u64) -> (r: Vec<u8>)
    ensures
        r@ == be_bytes(v as nat, byte_len(v as nat)),
        r@.len() >= 1,
{
    let mut le: Vec<u8> = Vec::new();
    let mut n: u64 = v;
    proof {
        lemma_pow256_step(0);
        assert(pow256(0) == 1);
        assert(v as nat / 1 == v as nat);
    }
    while n >= 256
        invariant
            n as nat == v as nat / pow256(le@.len()),
            le@ =~= Seq::new(le@.len(), |j: int| digit(v as nat, j as nat)),
            le@.len() + byte_len(n as nat) == byte_len(v as nat),
        decreases n,
    {
        let ghost i = le@.len();
        proof {
            lemma_pow256_step(i);
            vstd::arithmetic::div_mod::lemma_div_denominator(v as int, pow256(i) as int, 256);
        }
        le.push((n % 256) as u8);
        n = n / 256;
    }
    le.push(n as u8);
    let k = le.len();
    assert(k == byte_len(v as nat));
    let mut out: Vec<u8> = Vec::new();
    let mut j: usize = k;
    while j > 0
        invariant
            j <= k,
            k == le@.len(),
            le@ =~= Seq::new(k as nat, |t: int| digit(v as nat, t as nat)),
            out@ =~= be_bytes(v as nat, k as nat).take((k - j) as int),
        decreases j,
    {
        j = j - 1;
        out.push(le[j]);
    }
    out
}

/// Appends the DER length octets of `n`.
fn push_len(out: &mut Vec<u8>, n: usize)
    ensures
        final(out)@ == old(out)@ + len_bytes(n as nat),
{
    if n < 0x80 {
        out.push(n as u8);
        assert(final(out)@ =~= old(out)@ + len_bytes(n as nat));
    } else {
        let b = be_bytes_min(n as u64);
        proof {
            lemma_pow256_eight();
            lemma_byte_len_bound(n as nat, 8);
        }
        out.push((0x80 + b.len()) as u8);
        push_all(out, b.as_slice());
        assert(final(out)@ =~= old(out)@ + len_bytes(n as nat));
    }
}

proof fn lemma_byte_len_bound(n: nat, k: nat)
    requires
        n < pow256(k),
        k >= 1,
    ensures
        byte_len(n) <= k,
        n < pow256(byte_len(n)),
    decreases n,
{
    lemma_pow256_step(0);
    lemma_pow256_step((k - 1) as nat);
    if n >= 256 {
        let p = pow256((k - 1) as nat);
        vstd::arithmetic::div_mod::lemma_fundamental_div_mod(n as int, 256);
        assert(n / 256 < p) by (nonlinear_arith)
            requires
                n < 256 * p,
                n == 256 * (n / 256) + n % 256,
                n % 256 >= 0,
        ;
        assert(k >= 2) by {
            if k == 1 {
                assert(p == 1);
            }
        }
        lemma_byte_len_bound(n / 256, (k - 1) as nat);
        let q = pow256(byte_len(n / 256));
        lemma_pow256_step(byte_len(n / 256));
        assert(n < 256 * q) by (nonlinear_arith)
            requires
                n / 256 < q,
                n == 256 * (n / 256) + n % 256,
                n % 256 < 256,
        ;
    }
}

/// Every 64-bit value has at most eight bytes.
proof fn lemma_pow256_eight()
    ensures
        pow256(0) == 1,
        pow256(1) == 0x100,
        pow256(2) == 0x1_0000,
        pow256(3) == 0x100_0000,
        pow256(4) == 0x1_0000_0000,
        pow256(8) == 0x1_0000_0000_0000_0000,
{
    lemma_pow256_step(0);
    lemma_pow256_step(1);
    lemma_pow256_step(2);
    lemma_pow256_step(3);
    lemma_pow256_step(4);
    lemma_pow256_step(5);
    lemma_pow256_step(6);
    lemma_pow256_step(7);
}

/// The TLV of `content` under `tag`.
fn encode_tlv(tag: u8, content: &[u8]) -> (r: Vec<u8>)
    ensures
        r@ == tlv(tag, content@),
{
    let mut out: Vec<u8> = Vec::new();
    out.push(tag);
    push_len(&mut out, content.len());
    push_all(&mut out, content);
    assert(out@ =~= tlv(tag, content@));
    out
}

fn encode_uint(v: u64) -> (r: Vec<u8>)
    ensures
        r@ == der_uint(v as nat),
{
    let b = be_bytes_min(v);
    let mut c: Vec<u8> = Vec::new();
    if b[0] >= 0x80 {
        c.push(0);
    }
    push_all(&mut c, b.as_slice());
    assert(c@ =~= uint_content(v as nat));
    encode_tlv(TAG_INTEGER, c.as_slice())
}

fn encode_utf8_string(s: &String) -> (r: Vec<u8>)
    ensures
        r@ == der_utf8(s@),
{
    encode_tlv(TAG_UTF8_STRING, s.as_str().as_bytes())
}

/// Appends the explicit field `n` around `inner`.
fn push_field(out: &mut Vec<u8>, n: u8, inner: &[u8])
    requires
        n <= 9,
    ensures
        final(out)@ == old(out)@ + opt_field(n, Some(inner@)),
{
    let t = encode_tlv(TAG_CONTEXT + n, inner);
    push_all(out, t.as_slice());
}

fn push_opt_utf8(out: &mut Vec<u8>, n: u8, s: &Option<String>)
    requires
        n <= 9,
    ensures
        final(out)@ == old(out)@ + opt_utf8(n, opt_str_view(*s)),
{
    match s {
        Some(x) => {
            let e = encode_utf8_string(x);
            push_field(out, n, e.as_slice());
        },
        None => {
            assert(final(out)@ =~= old(out)@ + opt_utf8(n, opt_str_view(*s)));
        },
    }
}

fn push_opt_uint(out: &mut Vec<u8>, n: u8, v: Option<u64>)
    requires
        n <= 9,
    ensures
        final(out)@ == old(out)@ + opt_uint(
            n,
            match v {
                Some(x) => Some(x as nat),
                None => None,
            },
        ),
{
    match v {
        Some(x) => {
            let e = encode_uint(x);
            push_field(out, n, e.as_slice());
        },
        None => {
            assert(final(out)@ =~= old(out)@ + seq![]);
        },
    }
}

fn encode_err(e: &RDCleanPathErr) -> (r: Vec<u8>)
    ensures
        r@ == der_err(*e),
{
    let mut c: Vec<u8> = Vec::new();
    push_opt_uint(&mut c, 0, Some(e.error_code as u64));
    push_opt_uint(
        &mut c,
        1,
        match e.http_status_code {
            Some(x) => Some(x as u64),
            None => None,
        },
    );
    push_opt_uint(
        &mut c,
        2,
        match e.wsa_last_error {
            Some(x) => Some(x as u64),
            None => None,
        },
    );
    push_opt_uint(
        &mut c,
        3,
        match e.tls_alert_code {
            Some(x) => Some(x as u64),
            None => None,
        },
    );
    assert(c@ =~= err_fields(*e));
    encode_tlv(TAG_SEQUENCE, c.as_slice())
}

fn encode_chain(chain: &Vec<Vec<u8>>) -> (r: Vec<u8>)
    ensures
        r@ == tlv(TAG_SEQUENCE, der_octets_list(chain_view(*chain))),
{
    let ghost bs = chain_view(*chain);
    let mut c: Vec<u8> = Vec::new();
    let mut i: usize = 0;
    while i < chain.len()
        invariant
            i <= chain@.len(),
            bs == chain_view(*chain),
            c@ == der_octets_list(bs.take(i as int)),
        decreases chain@.len() - i,
    {
        let t = encode_tlv(TAG_OCTET_STRING, chain[i].as_slice());
        push_all(&mut c, t.as_slice());
        assert(bs.take(i + 1).drop_last() =~= bs.take(i as int));
        i = i + 1;
    }
    assert(bs.take(i as int) =~= bs);
    encode_tlv(TAG_SEQUENCE, c.as_slice())
}

impl RDCleanPathPdu {
    /// The DER content of the message: its present fields, in index order.
    fn encode_fields(&self) -> (r: Vec<u8>)
        ensures
            r@ == pdu_fields(self@),
    {
        let mut c: Vec<u8> = Vec::new();
        push_opt_uint(&mut c, FIELD_VERSION, Some(self.version));
        let ghost c1 = c@;
        match &self.error {
            Some(e) => {
                let t = encode_err(e);
                push_field(&mut c, FIELD_ERROR, t.as_slice());
            },
            None => {},
        }
        let ghost c2 = c@;
        push_opt_utf8(&mut c, FIELD_DESTINATION, &self.destination);
        push_opt_utf8(&mut c, FIELD_PROXY_AUTH, &self.proxy_auth);
        push_opt_utf8(&mut c, FIELD_SERVER_AUTH, &self.server_auth);
        push_opt_utf8(&mut c, FIELD_PRECONNECTION_BLOB, &self.preconnection_blob);
        let ghost c6 = c@;
        match &self.x224_connection_pdu {
            Some(b) => {
                let t = encode_tlv(TAG_OCTET_STRING, b.as_slice());
                push_field(&mut c, FIELD_X224, t.as_slice());
            },
            None => {},
        }
        let ghost c7 = c@;
        match &self.server_cert_chain {
            Some(chain) => {
                let t = encode_chain(chain);
                push_field(&mut c, FIELD_CERT_CHAIN, t.as_slice());
            },
            None => {},
        }
        push_opt_utf8(&mut c, FIELD_SERVER_ADDR, &self.server_addr);
        assert(c@ =~= pdu_fields(self@));
        c
    }

    /// Whether the message has one of the four shapes that are exchanged.
    pub fn has_valid_shape(&self) -> (r: bool)
        ensures
            r == well_shaped(self@),
    {
        if self.version != VERSION_1 {
            return false;
        }
        let request = self.error.is_none() && self.destination.is_some()
            && self.proxy_auth.is_some() && self.server_auth.is_none()
            && self.x224_connection_pdu.is_some() && self.server_cert_chain.is_none()
            && self.server_addr.is_none();
        let response = self.error.is_none() && self.destination.is_none()
            && self.proxy_auth.is_none() && self.server_auth.is_none()
            && self.preconnection_blob.is_none() && self.x224_connection_pdu.is_some()
            && self.server_cert_chain.is_some() && self.server_addr.is_some();
        let others_absent = self.destination.is_none() && self.proxy_auth.is_none()
            && self.server_auth.is_none() && self.preconnection_blob.is_none()
            && self.x224_connection_pdu.is_none() && self.server_cert_chain.is_none()
            && self.server_addr.is_none();
        let error = match &self.error {
            Some(e) => {
                let detail_ok = (e.http_status_code.is_none() || (e.wsa_last_error.is_none()
                    && e.tls_alert_code.is_none())) && (e.wsa_last_error.is_none()
                    || e.tls_alert_code.is_none());
                e.error_code == 1 && detail_ok && others_absent
            },
            None => false,
        };
        request || response || error
    }

    /// Serializes the message to DER.
    pub fn to_der(&self) -> (r: Result<Vec<u8>, CodecError>)
        ensures
            encodable(self@) ==> (r matches Ok(v) && v@ == pdu_der(self@)),
            !encodable(self@) ==> r == Err::<Vec<u8>, CodecError>(CodecError::Overlength),
    {
        let c = self.encode_fields();
        if c.len() > MAX_LEN {
            return Err(CodecError::Overlength);
        }
        Ok(encode_tlv(TAG_SEQUENCE, c.as_slice()))
    }
}


impl Default for RDCleanPathPdu {
    fn default() -> (r: RDCleanPathPdu)
        ensures
            r@ == empty_view(),
    {
        RDCleanPathPdu {
            version: VERSION_1,
            error: None,
            destination: None,
            proxy_auth: None,
            server_auth: None,
            preconnection_blob: None,
            x224_connection_pdu: None,
            server_cert_chain: None,
            server_addr: None,
        }
    }
}

/// An error message with code 1 and the given detail.
fn error_pdu(http: Option<u16>, wsa: Option<u16>, tls: Option<u8>) -> (r: RDCleanPathPdu)
    ensures
        r@ == error_view(http, wsa, tls),
{
    RDCleanPathPdu {
        error: Some(
            RDCleanPathErr {
                error_code: 1,
                http_status_code: http,
                wsa_last_error: wsa,
                tls_alert_code: tls,
            },
        ),
        ..RDCleanPathPdu::default()
    }
}

impl RDCleanPathPdu {
    /// The request that a client sends to the gateway. Fails when the X.224
    /// payload is too long for a DER length.
    pub fn new_request(
        x224_pdu: Vec<u8>,
        destination: String,
        proxy_auth: String,
        pcb: Option<String>,
    ) -> (r: Result<RDCleanPathPdu, CodecError>)
        ensures
            x224_pdu@.len() <= MAX_LEN ==> (r matches Ok(p) && p@ == request_view(
                x224_pdu@,
                destination@,
                proxy_auth@,
                opt_str_view(pcb),
            ) && well_shaped(p@)),
            x224_pdu@.len() > MAX_LEN ==> r matches Err(CodecError::Overlength),
    {
        if x224_pdu.len() > MAX_LEN {
            return Err(CodecError::Overlength);
        }
        Ok(
            RDCleanPathPdu {
                destination: Some(destination),
                proxy_auth: Some(proxy_auth),
                preconnection_blob: pcb,
                x224_connection_pdu: Some(x224_pdu),
                ..RDCleanPathPdu::default()
            },
        )
    }

    /// The response of the gateway on success. Fails when the X.224 payload
    /// or a certificate is too long for a DER length.
    pub fn new_response(server_addr: String, x224_pdu: Vec<u8>, x509_chain: Vec<Vec<u8>>) -> (r:
        Result<RDCleanPathPdu, CodecError>)
        ensures
            ({
                let fits = x224_pdu@.len() <= MAX_LEN && forall|i: int|
                    0 <= i < x509_chain@.len() ==> #[trigger] x509_chain@[i]@.len() <= MAX_LEN;
                &&& fits ==> (r matches Ok(p) && p@ == response_view(
                    server_addr@,
                    x224_pdu@,
                    chain_view(x509_chain),
                ) && well_shaped(p@))
                &&& !fits ==> r matches Err(CodecError::Overlength)
            }),
    {
        if x224_pdu.len() > MAX_LEN {
            return Err(CodecError::Overlength);
        }
        let mut i: usize = 0;
        while i < x509_chain.len()
            invariant
                i <= x509_chain@.len(),
                forall|j: int| 0 <= j < i ==> #[trigger] x509_chain@[j]@.len() <= MAX_LEN,
            decreases x509_chain@.len() - i,
        {
            if x509_chain[i].len() > MAX_LEN {
                return Err(CodecError::Overlength);
            }
            i = i + 1;
        }
        Ok(
            RDCleanPathPdu {
                x224_connection_pdu: Some(x224_pdu),
                server_cert_chain: Some(x509_chain),
                server_addr: Some(server_addr),
                ..RDCleanPathPdu::default()
            },
        )
    }

    /// An error response with no detail.
    pub fn new_general_error() -> (r: RDCleanPathPdu)
        ensures
            r@ == error_view(None, None, None),
            well_shaped(r@),
    {
        error_pdu(None, None, None)
    }

    /// An error response carrying an HTTP status code.
    pub fn new_http_error(status_code: u16) -> (r: RDCleanPathPdu)
        ensures
            r@ == error_view(Some(status_code), None, None),
            well_shaped(r@),
    {
        error_pdu(Some(status_code), None, None)
    }

    /// An error response carrying a WSA error code.
    pub fn new_wsa_error(wsa_error_code: u16) -> (r: RDCleanPathPdu)
        ensures
            r@ == error_view(None, Some(wsa_error_code), None),
            well_shaped(r@),
    {
        error_pdu(None, Some(wsa_error_code), None)
    }

    /// An error response carrying a TLS alert code.
    pub fn new_tls_error(alert_code: u8) -> (r: RDCleanPathPdu)
        ensures
            r@ == error_view(None, None, Some(alert_code)),
            well_shaped(r@),
    {
        error_pdu(None, None, Some(alert_code))
    }
}


// ---------------------------------------------------------------------------
// Decoding
// ---------------------------------------------------------------------------

/// Outcome of reading a DER header.
#[derive(Clone, Copy, Debug, PartialEq, Eq)]
pub enum Header {
    /// The bytes end before the header does; the header needs this many bytes
    /// of the buffer, counted from its start.
    Incomplete(usize),
    /// The bytes cannot start such a header.
    Invalid,
    /// Content length and the position where the content starts.
    Valid(usize, usize),
}

/// The DER length octets at `pos`, read no further than `end`. Long forms
/// must be minimal and at most `MAX_LEN`.
pub open spec fn len_at(s: Seq<u8>, pos: int, end: int) -> Header {
    if pos >= end {
        Header::Incomplete((pos + 1) as usize)
    } else if s[pos] < 0x80 {
        Header::Valid(s[pos] as usize, (pos + 1) as usize)
    } else if s[pos] == 0x80 || s[pos] > 0x84 {
        Header::Invalid
    } else {
        let k = (s[pos] - 0x80) as nat;
        if pos + 1 + k > end {
            Header::Incomplete((pos + 1 + k) as usize)
        } else {
            let v = be_value(s.subrange(pos + 1, pos + 1 + k));
            if v < len_floor(k) || v > MAX_LEN {
                Header::Invalid
            } else {
                Header::Valid(v as usize, (pos + 1 + k) as usize)
            }
        }
    }
}

/// A header with identifier octet `tag` at `pos`.
pub open spec fn header_at(s: Seq<u8>, pos: int, end: int, tag: u8) -> Header {
    if pos >= end {
        Header::Incomplete((pos + 1) as usize)
    } else if s[pos] != tag {
        Header::Invalid
    } else {
        len_at(s, pos + 1, end)
    }
}

/// A whole element with `tag` at `pos` within `end`: its content's bounds.
pub open spec fn element_at(s: Seq<u8>, pos: int, end: int, tag: u8) -> Option<(int, int)> {
    match header_at(s, pos, end, tag) {
        Header::Valid(n, c) => if c + n <= end {
            Some((c as int, c + n))
        } else {
            None
        },
        _ => None,
    }
}

/// Explicit field `n` at `pos` that holds exactly one element with `tag`:
/// the inner content's bounds and the end of the field.
pub open spec fn inner_at(s: Seq<u8>, pos: int, end: int, n: u8, tag: u8) -> Option<(int, int, int)> {
    match element_at(s, pos, end, context_tag(n)) {
        Some((a, b)) => match element_at(s, a, b, tag) {
            Some((c, d)) => if d == b {
                Some((c, d, b))
            } else {
                None
            },
            None => None,
        },
        None => None,
    }
}

/// Whether explicit field `n` starts at `pos`.
pub open spec fn present(s: Seq<u8>, pos: int, end: int, n: u8) -> bool {
    pos < end && s[pos] == context_tag(n)
}

/// The value of INTEGER content octets: non-negative, minimal, at most nine bytes.
pub open spec fn uint_value(c: Seq<u8>) -> Option<nat> {
    if c.len() == 0 || c.len() > 9 || c[0] >= 0x80 || (c[0] == 0 && c.len() > 1 && c[1] < 0x80) {
        None
    } else {
        Some(be_value(c))
    }
}

pub open spec fn uint_at(s: Seq<u8>, pos: int, end: int, n: u8, max: nat) -> Option<(nat, int)> {
    match inner_at(s, pos, end, n, TAG_INTEGER) {
        Some((c, d, b)) => match uint_value(s.subrange(c, d)) {
            Some(v) => if v <= max {
                Some((v, b))
            } else {
                None
            },
            None => None,
        },
        None => None,
    }
}

pub open spec fn opt_uint_at(s: Seq<u8>, pos: int, end: int, n: u8, max: nat) -> Option<(Option<nat>, int)> {
    if present(s, pos, end, n) {
        match uint_at(s, pos, end, n, max) {
            Some((v, p)) => Some((Some(v), p)),
            None => None,
        }
    } else {
        Some((None, pos))
    }
}

pub open spec fn opt_utf8_at(s: Seq<u8>, pos: int, end: int, n: u8) -> Option<(Option<Seq<char>>, int)> {
    if present(s, pos, end, n) {
        match inner_at(s, pos, end, n, TAG_UTF8_STRING) {
            Some((c, d, b)) => if valid_utf8(s.subrange(c, d)) {
                Some((Some(decode_utf8(s.subrange(c, d))), b))
            } else {
                None
            },
            None => None,
        }
    } else {
        Some((None, pos))
    }
}

pub open spec fn opt_octets_at(s: Seq<u8>, pos: int, end: int, n: u8) -> Option<(Option<Seq<u8>>, int)> {
    if present(s, pos, end, n) {
        match inner_at(s, pos, end, n, TAG_OCTET_STRING) {
            Some((c, d, b)) => Some((Some(s.subrange(c, d)), b)),
            None => None,
        }
    } else {
        Some((None, pos))
    }
}

/// The OCTET STRINGs that fill `[pos, end)` exactly.
pub open spec fn octets_list_at(s: Seq<u8>, pos: int, end: int) -> Option<Seq<Seq<u8>>>
    decreases end - pos,
{
    if pos >= end {
        Some(seq![])
    } else {
        match element_at(s, pos, end, TAG_OCTET_STRING) {
            Some((c, d)) => if pos < d {
                match octets_list_at(s, d, end) {
                    Some(rest) => Some(seq![s.subrange(c, d)] + rest),
                    None => None,
                }
            } else {
                None
            },
            None => None,
        }
    }
}

pub open spec fn opt_chain_at(s: Seq<u8>, pos: int, end: int, n: u8) -> Option<(Option<Seq<Seq<u8>>>, int)> {
    if present(s, pos, end, n) {
        match inner_at(s, pos, end, n, TAG_SEQUENCE) {
            Some((c, d, b)) => match octets_list_at(s, c, d) {
                Some(l) => Some((Some(l), b)),
                None => None,
            },
            None => None,
        }
    } else {
        Some((None, pos))
    }
}

/// The error sub-message whose fields fill `[pos, end)` exactly.
pub open spec fn err_fields_at(s: Seq<u8>, pos: int, end: int) -> Option<RDCleanPathErr> {
    match uint_at(s, pos, end, 0, 0xffff) {
        None => None,
        Some((code, next1)) => match opt_uint_at(s, next1, end, 1, 0xffff) {
            None => None,
            Some((http, next2)) => match opt_uint_at(s, next2, end, 2, 0xffff) {
                None => None,
                Some((wsa, next3)) => match opt_uint_at(s, next3, end, 3, 0xff) {
                    None => None,
                    Some((tls, next4)) => if next4 == end {
                        Some(
                            RDCleanPathErr {
                                error_code: code as u16,
                                http_status_code: match http {
                                    Some(v) => Some(v as u16),
                                    None => None,
                                },
                                wsa_last_error: match wsa {
                                    Some(v) => Some(v as u16),
                                    None => None,
                                },
                                tls_alert_code: match tls {
                                    Some(v) => Some(v as u8),
                                    None => None,
                                },
                            },
                        )
                    } else {
                        None
                    },
                },
            },
        },
    }
}

pub open spec fn opt_err_at(s: Seq<u8>, pos: int, end: int, n: u8) -> Option<(Option<RDCleanPathErr>, int)> {
    if present(s, pos, end, n) {
        match inner_at(s, pos, end, n, TAG_SEQUENCE) {
            Some((c, d, b)) => match err_fields_at(s, c, d) {
                Some(e) => Some((Some(e), b)),
                None => None,
            },
            None => None,
        }
    } else {
        Some((None, pos))
    }
}

/// Fields 5 to 9 that fill `[pos, end)` exactly: preconnection blob, X.224
/// payload, certificate chain and server address.
pub open spec fn pdu_tail5_at(s: Seq<u8>, pos: int, end: int) -> Option<
    (Option<Seq<char>>, Option<Seq<u8>>, Option<Seq<Seq<u8>>>, Option<Seq<char>>),
> {
    match opt_utf8_at(s, pos, end, FIELD_PRECONNECTION_BLOB) {
        None => None,
        Some((pcb, next6)) => match opt_octets_at(s, next6, end, FIELD_X224) {
            None => None,
            Some((x224, next7)) => match opt_chain_at(s, next7, end, FIELD_CERT_CHAIN) {
                None => None,
                Some((chain, next8)) => match opt_utf8_at(s, next8, end, FIELD_SERVER_ADDR) {
                    None => None,
                    Some((addr, next9)) => if next9 == end {
                        Some((pcb, x224, chain, addr))
                    } else {
                        None
                    },
                },
            },
        },
    }
}

/// Fields 2 to 9 that fill `[pos, end)` exactly: destination, proxy and
/// server credentials, then the fields from 5 on.
pub open spec fn pdu_tail2_at(s: Seq<u8>, pos: int, end: int) -> Option<
    (
        Option<Seq<char>>,
        Option<Seq<char>>,
        Option<Seq<char>>,
        (Option<Seq<char>>, Option<Seq<u8>>, Option<Seq<Seq<u8>>>, Option<Seq<char>>),
    ),
> {
    match opt_utf8_at(s, pos, end, FIELD_DESTINATION) {
        None => None,
        Some((destination, next3)) => match opt_utf8_at(s, next3, end, FIELD_PROXY_AUTH) {
            None => None,
            Some((proxy_auth, next4)) => match opt_utf8_at(s, next4, end, FIELD_SERVER_AUTH) {
                None => None,
                Some((server_auth, next5)) => match pdu_tail5_at(s, next5, end) {
                    None => None,
                    Some(t) => Some((destination, proxy_auth, server_auth, t)),
                },
            },
        },
    }
}

/// The message whose fields fill `[pos, end)` exactly, in index order.
pub open spec fn pdu_fields_at(s: Seq<u8>, pos: int, end: int) -> Option<PduView> {
    match uint_at(s, pos, end, FIELD_VERSION, 0xffff_ffff_ffff_ffff) {
        None => None,
        Some((version, next1)) => match opt_err_at(s, next1, end, FIELD_ERROR) {
            None => None,
            Some((error, next2)) => match pdu_tail2_at(s, next2, end) {
                None => None,
                Some((destination, proxy_auth, server_auth, t)) => Some(
                    PduView {
                        version: version as u64,
                        error,
                        destination,
                        proxy_auth,
                        server_auth,
                        preconnection_blob: t.0,
                        x224_connection_pdu: t.1,
                        server_cert_chain: t.2,
                        server_addr: t.3,
                    },
                ),
            },
        },
    }
}

/// What the front of a buffer holds.
pub enum Decoded {
    /// The message is not complete; the buffer needs this many bytes in all.
    Incomplete(nat),
    /// The bytes do not form a message.
    Malformed,
    /// A message, and the number of bytes it occupies.
    Done(PduView, nat),
}

pub open spec fn decode_spec(s: Seq<u8>) -> Decoded {
    match header_at(s, 0, s.len() as int, TAG_SEQUENCE) {
        Header::Incomplete(n) => Decoded::Incomplete(n as nat),
        Header::Invalid => Decoded::Malformed,
        Header::Valid(n, c) => if c + n > s.len() {
            Decoded::Incomplete((c + n) as nat)
        } else {
            match pdu_fields_at(s, c as int, c + n) {
                Some(m) => Decoded::Done(m, (c + n) as nat),
                None => Decoded::Malformed,
            }
        },
    }
}


/// Positions `pos <= end` within a buffer of a size that a slice can have.
pub open spec fn in_bounds(s: Seq<u8>, pos: int, end: int) -> bool {
    0 <= pos <= end <= s.len() <= isize::MAX
}

proof fn lemma_be_value_bound(t: Seq<u8>)
    ensures
        be_value(t) < pow256(t.len()),
    decreases t.len(),
{
    if t.len() > 0 {
        lemma_be_value_bound(t.drop_last());
        lemma_pow256_step((t.len() - 1) as nat);
        let a = be_value(t.drop_last());
        let p = pow256((t.len() - 1) as nat);
        let b = t.last() as nat;
        assert(a * 256 + b < p * 256) by (nonlinear_arith)
            requires
                a < p,
                b < 256,
        ;
    }
}

/// The number spelled by `s[a..b]`, at most nine bytes.
fn read_be(s: &[u8], a: usize, b: usize) -> (r: u128)
    requires
        a <= b <= s@.len(),
        b - a <= 9,
    ensures
        r == be_value(s@.subrange(a as int, b as int)),
{
    proof {
        lemma_pow256_eight();
        lemma_pow256_step(8);
    }
    let mut acc: u128 = 0;
    let mut j: usize = a;
    while j < b
        invariant
            a <= j <= b <= s@.len(),
            b - a <= 9,
            pow256(9) == 0x1_00_0000_0000_0000_0000,
            acc == be_value(s@.subrange(a as int, j as int)),
        decreases b - j,
    {
        proof {
            let t = s@.subrange(a as int, j as int);
            lemma_be_value_bound(t);
            lemma_pow256_mono(t.len(), 8);
            assert(s@.subrange(a as int, j + 1).drop_last() =~= t);
        }
        acc = acc * 256 + s[j] as u128;
        j = j + 1;
    }
    acc
}

proof fn lemma_pow256_mono(i: nat, k: nat)
    requires
        i <= k,
    ensures
        pow256(i) <= pow256(k),
    decreases k,
{
    lemma_pow256_step(k);
    if i < k {
        lemma_pow256_mono(i, (k - 1) as nat);
        lemma_pow256_step((k - 1) as nat);
    }
}

fn parse_len(s: &[u8], pos: usize, end: usize) -> (r: Header)
    requires
        in_bounds(s@, pos as int, end as int),
    ensures
        r == len_at(s@, pos as int, end as int),
{
    if pos >= end {
        return Header::Incomplete(pos + 1);
    }
    let b0 = s[pos];
    if b0 < 0x80 {
        return Header::Valid(b0 as usize, pos + 1);
    }
    if b0 == 0x80 || b0 > 0x84 {
        return Header::Invalid;
    }
    let k = (b0 - 0x80) as usize;
    if k > end - pos - 1 {
        return Header::Incomplete(pos + 1 + k);
    }
    let v = read_be(s, pos + 1, pos + 1 + k);
    proof {
        lemma_pow256_eight();
    }
    let floor: u128 = if k == 1 {
        0x80
    } else if k == 2 {
        0x100
    } else if k == 3 {
        0x1_0000
    } else {
        0x100_0000
    };
    if v < floor || v > MAX_LEN as u128 {
        return Header::Invalid;
    }
    Header::Valid(v as usize, pos + 1 + k)
}

fn parse_header(s: &[u8], pos: usize, end: usize, tag: u8) -> (r: Header)
    requires
        in_bounds(s@, pos as int, end as int),
    ensures
        r == header_at(s@, pos as int, end as int, tag),
        r matches Header::Valid(n, c) ==> pos < c <= end && n <= MAX_LEN,
        r matches Header::Incomplete(n) ==> end < n <= end + 6,
{
    if pos >= end {
        return Header::Incomplete(pos + 1);
    }
    if s[pos] != tag {
        return Header::Invalid;
    }
    parse_len(s, pos + 1, end)
}

fn parse_element(s: &[u8], pos: usize, end: usize, tag: u8) -> (r: Option<(usize, usize)>)
    requires
        in_bounds(s@, pos as int, end as int),
    ensures
        match element_at(s@, pos as int, end as int, tag) {
            Some((c, d)) => r == Some((c as usize, d as usize)) && pos < c <= d <= end,
            None => r is None,
        },
{
    match parse_header(s, pos, end, tag) {
        Header::Valid(n, c) => {
            if c <= end && n <= end - c {
                Some((c, c + n))
            } else {
                None
            }
        },
        _ => None,
    }
}

fn parse_inner(s: &[u8], pos: usize, end: usize, n: u8, tag: u8) -> (r: Option<(usize, usize, usize)>)
    requires
        in_bounds(s@, pos as int, end as int),
        n <= 9,
    ensures
        match inner_at(s@, pos as int, end as int, n, tag) {
            Some((c, d, b)) => r == Some((c as usize, d as usize, b as usize)) && pos < c <= d
                == b <= end,
            None => r is None,
        },
{
    let (a, b) = match parse_element(s, pos, end, TAG_CONTEXT + n) {
        Some(x) => x,
        None => return None,
    };
    let (c, d) = match parse_element(s, a, b, tag) {
        Some(x) => x,
        None => return None,
    };
    if d == b {
        Some((c, d, b))
    } else {
        None
    }
}

fn parse_uint(s: &[u8], pos: usize, end: usize, n: u8, max: u64) -> (r: Option<(u64, usize)>)
    requires
        in_bounds(s@, pos as int, end as int),
        n <= 9,
    ensures
        match uint_at(s@, pos as int, end as int, n, max as nat) {
            Some((v, p)) => r == Some((v as u64, p as usize)) && pos < p <= end,
            None => r is None,
        },
{
    let (c, d, b) = match parse_inner(s, pos, end, n, TAG_INTEGER) {
        Some(x) => x,
        None => return None,
    };
    let len = d - c;
    if len == 0 || len > 9 || s[c] >= 0x80 || (s[c] == 0 && len > 1 && s[c + 1] < 0x80) {
        return None;
    }
    let v = read_be(s, c, d);
    if v > max as u128 {
        return None;
    }
    Some((v as u64, b))
}

fn parse_opt_uint(s: &[u8], pos: usize, end: usize, n: u8, max: u64) -> (r: Option<(Option<u64>, usize)>)
    requires
        in_bounds(s@, pos as int, end as int),
        n <= 9,
    ensures
        match opt_uint_at(s@, pos as int, end as int, n, max as nat) {
            Some((v, p)) => r matches Some((e, q)) && q == p && pos <= q <= end && match v {
                Some(x) => e == Some(x as u64),
                None => e is None,
            },
            None => r is None,
        },
{
    if pos < end && s[pos] == TAG_CONTEXT + n {
        match parse_uint(s, pos, end, n, max) {
            Some((v, p)) => Some((Some(v), p)),
            None => None,
        }
    } else {
        Some((None, pos))
    }
}

/// Copies `s[a..b]`.
fn copy_range(s: &[u8], a: usize, b: usize) -> (r: Vec<u8>)
    requires
        a <= b <= s@.len(),
    ensures
        r@ == s@.subrange(a as int, b as int),
{
    let mut out: Vec<u8> = Vec::new();
    let mut j: usize = a;
    while j < b
        invariant
            a <= j <= b <= s@.len(),
            out@ == s@.subrange(a as int, j as int),
        decreases b - j,
    {
        out.push(s[j]);
        assert(s@.subrange(a as int, j + 1) =~= s@.subrange(a as int, j as int).push(s@[j as int]));
        j = j + 1;
    }
    out
}

/// Relies on `String::from_utf8`: it succeeds exactly when the bytes are
/// valid UTF-8, and the string then holds the characters they encode.
#[verifier::external_body]
fn string_from_utf8(bytes: Vec<u8>) -> (r: Option<String>)
    ensures
        r is Some <==> valid_utf8(bytes@),
        r matches Some(t) ==> t@ == decode_utf8(bytes@),
{
    String::from_utf8(bytes).ok()
}

fn parse_opt_utf8(s: &[u8], pos: usize, end: usize, n: u8) -> (r: Option<(Option<String>, usize)>)
    requires
        in_bounds(s@, pos as int, end as int),
        n <= 9,
    ensures
        match opt_utf8_at(s@, pos as int, end as int, n) {
            Some((v, p)) => r matches Some((e, q)) && q == p && pos <= q <= end && opt_str_view(e)
                == v,
            None => r is None,
        },
{
    if pos < end && s[pos] == TAG_CONTEXT + n {
        let (c, d, b) = match parse_inner(s, pos, end, n, TAG_UTF8_STRING) {
            Some(x) => x,
            None => return None,
        };
        match string_from_utf8(copy_range(s, c, d)) {
            Some(t) => Some((Some(t), b)),
            None => None,
        }
    } else {
        Some((None, pos))
    }
}

fn parse_opt_octets(s: &[u8], pos: usize, end: usize, n: u8) -> (r: Option<(Option<Vec<u8>>, usize)>)
    requires
        in_bounds(s@, pos as int, end as int),
        n <= 9,
    ensures
        match opt_octets_at(s@, pos as int, end as int, n) {
            Some((v, p)) => r matches Some((e, q)) && q == p && pos <= q <= end && match v {
                Some(x) => e matches Some(y) && y@ == x,
                None => e is None,
            },
            None => r is None,
        },
{
    if pos < end && s[pos] == TAG_CONTEXT + n {
        let (c, d, b) = match parse_inner(s, pos, end, n, TAG_OCTET_STRING) {
            Some(x) => x,
            None => return None,
        };
        Some((Some(copy_range(s, c, d)), b))
    } else {
        Some((None, pos))
    }
}

fn parse_octets_list(s: &[u8], start: usize, end: usize) -> (r: Option<Vec<Vec<u8>>>)
    requires
        in_bounds(s@, start as int, end as int),
    ensures
        match octets_list_at(s@, start as int, end as int) {
            Some(l) => r matches Some(v) && chain_view(v) == l,
            None => r is None,
        },
{
    let mut out: Vec<Vec<u8>> = Vec::new();
    let mut pos: usize = start;
    while pos < end
        invariant
            in_bounds(s@, pos as int, end as int),
            octets_list_at(s@, start as int, end as int) == match octets_list_at(
                s@,
                pos as int,
                end as int,
            ) {
                Some(rest) => Some(chain_view(out) + rest),
                None => None,
            },
        decreases end - pos,
    {
        let (c, d) = match parse_element(s, pos, end, TAG_OCTET_STRING) {
            Some(x) => x,
            None => return None,
        };
        let item = copy_range(s, c, d);
        let ghost before = chain_view(out);
        out.push(item);
        proof {
            assert(chain_view(out) =~= before.push(s@.subrange(c as int, d as int)));
            match octets_list_at(s@, d as int, end as int) {
                Some(rest) => {
                    assert(before + (seq![s@.subrange(c as int, d as int)] + rest) =~= chain_view(
                        out,
                    ) + rest);
                },
                None => {},
            }
        }
        pos = d;
    }
    assert(chain_view(out) + seq![] =~= chain_view(out));
    Some(out)
}

fn parse_opt_chain(s: &[u8], pos: usize, end: usize, n: u8) -> (r: Option<
    (Option<Vec<Vec<u8>>>, usize),
>)
    requires
        in_bounds(s@, pos as int, end as int),
        n <= 9,
    ensures
        match opt_chain_at(s@, pos as int, end as int, n) {
            Some((v, p)) => r matches Some((e, q)) && q == p && pos <= q <= end && match v {
                Some(x) => e matches Some(y) && chain_view(y) == x,
                None => e is None,
            },
            None => r is None,
        },
{
    if pos < end && s[pos] == TAG_CONTEXT + n {
        let (c, d, b) = match parse_inner(s, pos, end, n, TAG_SEQUENCE) {
            Some(x) => x,
            None => return None,
        };
        match parse_octets_list(s, c, d) {
            Some(l) => Some((Some(l), b)),
            None => None,
        }
    } else {
        Some((None, pos))
    }
}

fn parse_err_fields(s: &[u8], pos: usize, end: usize) -> (r: Option<RDCleanPathErr>)
    requires
        in_bounds(s@, pos as int, end as int),
    ensures
        r == err_fields_at(s@, pos as int, end as int),
{
    let (code, next1) = match parse_uint(s, pos, end, 0, 0xffff) {
        Some(x) => x,
        None => return None,
    };
    let (http, next2) = match parse_opt_uint(s, next1, end, 1, 0xffff) {
        Some(x) => x,
        None => return None,
    };
    let (wsa, next3) = match parse_opt_uint(s, next2, end, 2, 0xffff) {
        Some(x) => x,
        None => return None,
    };
    let (tls, next4) = match parse_opt_uint(s, next3, end, 3, 0xff) {
        Some(x) => x,
        None => return None,
    };
    if next4 != end {
        return None;
    }
    Some(
        RDCleanPathErr {
            error_code: code as u16,
            http_status_code: match http {
                Some(v) => Some(v as u16),
                None => None,
            },
            wsa_last_error: match wsa {
                Some(v) => Some(v as u16),
                None => None,
            },
            tls_alert_code: match tls {
                Some(v) => Some(v as u8),
                None => None,
            },
        },
    )
}

fn parse_opt_err(s: &[u8], pos: usize, end: usize, n: u8) -> (r: Option<
    (Option<RDCleanPathErr>, usize),
>)
    requires
        in_bounds(s@, pos as int, end as int),
        n <= 9,
    ensures
        match opt_err_at(s@, pos as int, end as int, n) {
            Some((v, p)) => r == Some((v, p as usize)) && pos <= p <= end,
            None => r is None,
        },
{
    if pos < end && s[pos] == TAG_CONTEXT + n {
        let (c, d, b) = match parse_inner(s, pos, end, n, TAG_SEQUENCE) {
            Some(x) => x,
            None => return None,
        };
        match parse_err_fields(s, c, d) {
            Some(e) => Some((Some(e), b)),
            None => None,
        }
    } else {
        Some((None, pos))
    }
}


pub open spec fn opt_bytes_view(o: Option<Vec<u8>>) -> Option<Seq<u8>> {
    match o {
        Some(b) => Some(b@),
        None => None,
    }
}

pub open spec fn opt_chain_view(o: Option<Vec<Vec<u8>>>) -> Option<Seq<Seq<u8>>> {
    match o {
        Some(c) => Some(chain_view(c)),
        None => None,
    }
}

fn parse_pdu_tail5(s: &[u8], pos: usize, end: usize) -> (r: Option<
    (Option<String>, Option<Vec<u8>>, Option<Vec<Vec<u8>>>, Option<String>),
>)
    requires
        in_bounds(s@, pos as int, end as int),
    ensures
        match pdu_tail5_at(s@, pos as int, end as int) {
            Some(t) => r matches Some(v) && opt_str_view(v.0) == t.0 && opt_bytes_view(v.1) == t.1
                && opt_chain_view(v.2) == t.2 && opt_str_view(v.3) == t.3,
            None => r is None,
        },
{
    let (preconnection_blob, next6) = match parse_opt_utf8(s, pos, end, FIELD_PRECONNECTION_BLOB) {
        Some(x) => x,
        None => return None,
    };
    let (x224_connection_pdu, next7) = match parse_opt_octets(s, next6, end, FIELD_X224) {
        Some(x) => x,
        None => return None,
    };
    let (server_cert_chain, next8) = match parse_opt_chain(s, next7, end, FIELD_CERT_CHAIN) {
        Some(x) => x,
        None => return None,
    };
    let (server_addr, next9) = match parse_opt_utf8(s, next8, end, FIELD_SERVER_ADDR) {
        Some(x) => x,
        None => return None,
    };
    if next9 != end {
        return None;
    }
    Some((preconnection_blob, x224_connection_pdu, server_cert_chain, server_addr))
}

fn parse_pdu_fields(s: &[u8], pos: usize, end: usize) -> (r: Option<RDCleanPathPdu>)
    requires
        in_bounds(s@, pos as int, end as int),
    ensures
        match pdu_fields_at(s@, pos as int, end as int) {
            Some(m) => r matches Some(p) && p@ == m,
            None => r is None,
        },
{
    let (version, next1) = match parse_uint(s, pos, end, FIELD_VERSION, 0xffff_ffff_ffff_ffff) {
        Some(x) => x,
        None => return None,
    };
    let (error, next2) = match parse_opt_err(s, next1, end, FIELD_ERROR) {
        Some(x) => x,
        None => return None,
    };
    let (destination, next3) = match parse_opt_utf8(s, next2, end, FIELD_DESTINATION) {
        Some(x) => x,
        None => return None,
    };
    let (proxy_auth, next4) = match parse_opt_utf8(s, next3, end, FIELD_PROXY_AUTH) {
        Some(x) => x,
        None => return None,
    };
    let (server_auth, next5) = match parse_opt_utf8(s, next4, end, FIELD_SERVER_AUTH) {
        Some(x) => x,
        None => return None,
    };
    let (preconnection_blob, x224_connection_pdu, server_cert_chain, server_addr) =
        match parse_pdu_tail5(s, next5, end) {
        Some(x) => x,
        None => return None,
    };
    Some(
        RDCleanPathPdu {
            version,
            error,
            destination,
            proxy_auth,
            server_auth,
            preconnection_blob,
            x224_connection_pdu,
            server_cert_chain,
            server_addr,
        },
    )
}

#[verifier::external_type_specification]
#[verifier::external_body]
pub struct ExBytesMut(BytesMut);

/// The bytes that a buffer holds.
pub uninterp spec fn buffer_contents(b: BytesMut) -> Seq<u8>;

/// Relies on `BytesMut`'s `AsRef<[u8]>`: a view of the bytes it holds (a
/// slice never exceeds `isize::MAX` bytes).
#[verifier::external_body]
fn buffer_bytes(b: &BytesMut) -> (r: &[u8])
    ensures
        r@ == buffer_contents(*b),
        r@.len() <= isize::MAX,
{
    b.as_ref()
}

/// Relies on `Buf::advance` for `BytesMut`: drops the first `n` bytes, and
/// panics when `n` exceeds the length.
#[verifier::external_body]
fn buffer_advance(b: &mut BytesMut, n: usize)
    requires
        n <= buffer_contents(*old(b)).len(),
    ensures
        buffer_contents(*final(b)) == buffer_contents(*old(b)).skip(n as int),
{
    bytes::Buf::advance(b, n)
}

/// Relies on `BytesMut::reserve`: makes room for `additional` more bytes and
/// keeps the contents; panics when the new capacity overflows.
#[verifier::external_body]
fn buffer_reserve(b: &mut BytesMut, additional: usize)
    requires
        buffer_contents(*old(b)).len() + additional <= isize::MAX,
    ensures
        buffer_contents(*final(b)) == buffer_contents(*old(b)),
{
    b.reserve(additional)
}

/// Outcome of probing the front of a buffer for a negotiation message.
#[derive(Clone, Copy, Debug, PartialEq, Eq)]
pub enum DetectionResult {
    /// The message starts with the supported version.
    Detected(u64),
    /// The bytes end before the version field does.
    NotEnoughBytes,
    /// The bytes do not start a message of the supported version.
    Failed,
}

/// Reads only the SEQUENCE header and the version field at its start.
pub open spec fn detect_spec(s: Seq<u8>) -> DetectionResult {
    let len = s.len() as int;
    match header_at(s, 0, len, TAG_SEQUENCE) {
        Header::Incomplete(_) => DetectionResult::NotEnoughBytes,
        Header::Invalid => DetectionResult::Failed,
        Header::Valid(n, c) => match header_at(s, c as int, len, context_tag(FIELD_VERSION)) {
            Header::Incomplete(_) => DetectionResult::NotEnoughBytes,
            Header::Invalid => DetectionResult::Failed,
            Header::Valid(n0, c0) => match header_at(s, c0 as int, len, TAG_INTEGER) {
                Header::Incomplete(_) => DetectionResult::NotEnoughBytes,
                Header::Invalid => DetectionResult::Failed,
                Header::Valid(n1, d) => if d + n1 > len {
                    DetectionResult::NotEnoughBytes
                } else if d + n1 != c0 + n0 || c0 + n0 > c + n {
                    DetectionResult::Failed
                } else {
                    match uint_value(s.subrange(d as int, d + n1)) {
                        Some(v) => if v == VERSION_1 {
                            DetectionResult::Detected(VERSION_1)
                        } else {
                            DetectionResult::Failed
                        },
                        None => DetectionResult::Failed,
                    }
                },
            },
        },
    }
}

impl RDCleanPathPdu {
    /// Probes the first bytes of `src` for a message of the supported version,
    /// without decoding the rest.
    pub fn detect(src: &[u8]) -> (r: DetectionResult)
        requires
            src@.len() <= isize::MAX,
        ensures
            r == detect_spec(src@),
    {
        let len = src.len();
        let (n, c) = match parse_header(src, 0, len, TAG_SEQUENCE) {
            Header::Incomplete(_) => return DetectionResult::NotEnoughBytes,
            Header::Invalid => return DetectionResult::Failed,
            Header::Valid(n, c) => (n, c),
        };
        let (n0, c0) = match parse_header(src, c, len, TAG_CONTEXT + FIELD_VERSION) {
            Header::Incomplete(_) => return DetectionResult::NotEnoughBytes,
            Header::Invalid => return DetectionResult::Failed,
            Header::Valid(n0, c0) => (n0, c0),
        };
        let (n1, d) = match parse_header(src, c0, len, TAG_INTEGER) {
            Header::Incomplete(_) => return DetectionResult::NotEnoughBytes,
            Header::Invalid => return DetectionResult::Failed,
            Header::Valid(n1, d) => (n1, d),
        };
        if n1 > len - d {
            return DetectionResult::NotEnoughBytes;
        }
        if d + n1 != c0 + n0 || c0 + n0 > c + n {
            return DetectionResult::Failed;
        }
        if n1 == 0 || n1 > 9 || src[d] >= 0x80 || (src[d] == 0 && n1 > 1 && src[d + 1] < 0x80) {
            return DetectionResult::Failed;
        }
        let v = read_be(src, d, d + n1);
        if v == VERSION_1 as u128 {
            DetectionResult::Detected(VERSION_1)
        } else {
            DetectionResult::Failed
        }
    }

    /// Decodes one message from the front of `src`. On success the message's
    /// bytes are removed and any bytes after it stay. When the message is not
    /// complete yet, room for the rest is reserved, nothing is removed, and
    /// `Ok(None)` asks for more input.
    pub fn decode(src: &mut BytesMut) -> (r: Result<Option<RDCleanPathPdu>, CodecError>)
        ensures
            match decode_spec(buffer_contents(*old(src))) {
                Decoded::Done(m, n) => r matches Ok(Some(p)) && p@ == m && buffer_contents(
                    *final(src),
                ) == buffer_contents(*old(src)).skip(n as int),
                Decoded::Incomplete(_) => r matches Ok(None) && buffer_contents(*final(src))
                    == buffer_contents(*old(src)),
                Decoded::Malformed => r matches Err(CodecError::Malformed) && buffer_contents(
                    *final(src),
                ) == buffer_contents(*old(src)),
            },
    {
        let s = buffer_bytes(src);
        let len = s.len();
        let (n, c) = match parse_header(s, 0, len, TAG_SEQUENCE) {
            Header::Incomplete(expected) => {
                buffer_reserve(src, expected - len);
                return Ok(None);
            },
            Header::Invalid => return Err(CodecError::Malformed),
            Header::Valid(n, c) => (n, c),
        };
        if n > len - c {
            buffer_reserve(src, c + n - len);
            return Ok(None);
        }
        match parse_pdu_fields(s, c, c + n) {
            Some(pdu) => {
                buffer_advance(src, c + n);
                Ok(Some(pdu))
            },
            None => Err(CodecError::Malformed),
        }
    }
}


// ---------------------------------------------------------------------------
// Decoding what was encoded
// ---------------------------------------------------------------------------

/// `t` stands in `s` from `pos` on.
pub open spec fn stands_at(s: Seq<u8>, pos: int, t: Seq<u8>) -> bool {
    0 <= pos && pos + t.len() <= s.len() && s.subrange(pos, pos + t.len()) == t
}

proof fn lemma_stands_split(s: Seq<u8>, pos: int, a: Seq<u8>, b: Seq<u8>)
    requires
        stands_at(s, pos, a + b),
    ensures
        stands_at(s, pos, a),
        stands_at(s, pos + a.len(), b),
{
    assert(s.subrange(pos, pos + a.len()) =~= (a + b).subrange(0, a.len() as int));
    assert(a =~= (a + b).subrange(0, a.len() as int));
    assert(s.subrange(pos + a.len(), pos + a.len() + b.len()) =~= (a + b).subrange(
        a.len() as int,
        (a.len() + b.len()) as int,
    ));
    assert(b =~= (a + b).subrange(a.len() as int, (a.len() + b.len()) as int));
}

proof fn lemma_digit_shift(n: nat, i: nat)
    ensures
        digit(n, i + 1) == digit(n / 256, i),
{
    lemma_pow256_step(i);
    vstd::arithmetic::div_mod::lemma_div_denominator(n as int, 256, pow256(i) as int);
    assert(pow256(i + 1) == 256 * pow256(i));
}

proof fn lemma_be_round(n: nat, k: nat)
    requires
        n < pow256(k),
    ensures
        be_value(be_bytes(n, k)) == n,
    decreases k,
{
    lemma_pow256_step(0);
    if k == 0 {
        assert(be_bytes(n, k) =~= Seq::<u8>::empty());
    } else {
        let b = be_bytes(n, k);
        lemma_pow256_step((k - 1) as nat);
        vstd::arithmetic::div_mod::lemma_fundamental_div_mod(n as int, 256);
        let p = pow256((k - 1) as nat);
        assert(n / 256 < p) by (nonlinear_arith)
            requires
                n < p * 256,
                n == 256 * (n / 256) + n % 256,
                n % 256 >= 0,
        ;
        assert forall|j: int| 0 <= j < k - 1 implies b.drop_last()[j] == be_bytes(
            n / 256,
            (k - 1) as nat,
        )[j] by {
            lemma_digit_shift(n, (k - 2 - j) as nat);
        }
        assert(b.drop_last() =~= be_bytes(n / 256, (k - 1) as nat));
        lemma_be_round(n / 256, (k - 1) as nat);
        assert(b.last() == digit(n, 0));
        assert(n / pow256(0) == n);
    }
}

proof fn lemma_byte_len_lower(n: nat)
    requires
        n >= 256,
    ensures
        byte_len(n) >= 2,
        n >= pow256((byte_len(n) - 1) as nat),
    decreases n,
{
    lemma_pow256_eight();
    vstd::arithmetic::div_mod::lemma_fundamental_div_mod(n as int, 256);
    assert(byte_len(n) == 1 + byte_len(n / 256));
    if n / 256 < 256 {
        assert(byte_len(n / 256) == 1);
    } else {
        lemma_byte_len_lower(n / 256);
        let q = byte_len(n / 256);
        lemma_pow256_step((q - 1) as nat);
        let p = pow256((q - 1) as nat);
        assert(n >= 256 * p) by (nonlinear_arith)
            requires
                n / 256 >= p,
                n == 256 * (n / 256) + n % 256,
                n % 256 >= 0,
        ;
    }
}

proof fn lemma_len_round(s: Seq<u8>, pos: int, end: int, n: nat)
    requires
        n <= MAX_LEN,
        stands_at(s, pos, len_bytes(n)),
        pos + len_bytes(n).len() <= end <= s.len() <= isize::MAX,
    ensures
        len_at(s, pos, end) == Header::Valid(n as usize, (pos + len_bytes(n).len()) as usize),
{
    lemma_pow256_eight();
    assert(s[pos] == len_bytes(n)[0]);
    if n >= 0x80 {
        let k = byte_len(n);
        lemma_byte_len_bound(n, 4);
        assert(s.subrange(pos + 1, pos + 1 + k) =~= len_bytes(n).subrange(1, 1 + k as int));
        assert(len_bytes(n).subrange(1, 1 + k as int) =~= be_bytes(n, k));
        lemma_be_round(n, k);
        if n >= 256 {
            lemma_byte_len_lower(n);
        }
    }
}

proof fn lemma_element_round(s: Seq<u8>, pos: int, end: int, tag: u8, content: Seq<u8>)
    requires
        content.len() <= MAX_LEN,
        stands_at(s, pos, tlv(tag, content)),
        pos + tlv(tag, content).len() <= end <= s.len() <= isize::MAX,
    ensures
        element_at(s, pos, end, tag) matches Some((c, d)) && d == pos + tlv(tag, content).len()
            && s.subrange(c, d) == content,
{
    let l = len_bytes(content.len());
    lemma_stands_split(s, pos, seq![tag] + l, content);
    lemma_stands_split(s, pos, seq![tag], l);
    assert(s.subrange(pos, pos + 1)[0] == s[pos]);
    assert(s[pos] == tag);
    lemma_len_round(s, pos + 1, end, content.len());
}

proof fn lemma_be_value_zero_prefix(b: Seq<u8>)
    ensures
        be_value(seq![0u8] + b) == be_value(b),
    decreases b.len(),
{
    let z = seq![0u8] + b;
    if b.len() == 0 {
        assert(z.drop_last() =~= Seq::<u8>::empty());
        assert(be_value(z.drop_last()) == 0);
        assert(z.last() == 0);
    } else {
        assert(z.drop_last() =~= seq![0u8] + b.drop_last());
        assert(z.last() == b.last());
        lemma_be_value_zero_prefix(b.drop_last());
    }
}

proof fn lemma_uint_round(v: nat)
    requires
        v < pow256(8),
    ensures
        uint_value(uint_content(v)) == Some(v),
        uint_content(v).len() <= 9,
{
    let k = byte_len(v);
    let b = be_bytes(v, k);
    lemma_byte_len_bound(v, 8);
    lemma_be_round(v, k);
    if k >= 2 {
        if v < 256 {
            assert(k == 1);
        }
        lemma_byte_len_lower(v);
        lemma_pow256_step((k - 1) as nat);
        let p = pow256((k - 1) as nat);
        vstd::arithmetic::div_mod::lemma_fundamental_div_mod(v as int, p as int);
        assert(1 <= v / p < 256) by (nonlinear_arith)
            requires
                p <= v < p * 256,
                p > 0,
                v == p * (v / p) + v % p,
                0 <= v % p < p,
        ;
        assert(b[0] == digit(v, (k - 1) as nat));
        assert(b[0] != 0);
    }
    if b[0] >= 0x80 {
        lemma_be_value_zero_prefix(b);
    }
}


proof fn lemma_inner_round(s: Seq<u8>, pos: int, end: int, n: u8, tag: u8, content: Seq<u8>)
    requires
        n <= 9,
        tlv(context_tag(n), tlv(tag, content)).len() <= MAX_LEN,
        stands_at(s, pos, tlv(context_tag(n), tlv(tag, content))),
        pos + tlv(context_tag(n), tlv(tag, content)).len() <= end <= s.len() <= isize::MAX,
    ensures
        inner_at(s, pos, end, n, tag) matches Some((c, d, b)) && b == pos + tlv(
            context_tag(n),
            tlv(tag, content),
        ).len() && s.subrange(c, d) == content,
{
    let inner = tlv(tag, content);
    lemma_element_round(s, pos, end, context_tag(n), inner);
    let (a, b) = element_at(s, pos, end, context_tag(n))->Some_0;
    assert(stands_at(s, a, inner));
    lemma_element_round(s, a, b, tag, content);
}

proof fn lemma_first_byte(s: Seq<u8>, pos: int, t: Seq<u8>)
    requires
        stands_at(s, pos, t),
        t.len() > 0,
    ensures
        s[pos] == t[0],
{
    assert(s.subrange(pos, pos + t.len())[0] == s[pos]);
}

/// After a field `f` that is absent, the next byte does not open field `n`.
pub open spec fn next_not_field(g: Seq<u8>, n: u8) -> bool {
    g.len() == 0 || g[0] != context_tag(n)
}

proof fn lemma_uint_field_round(s: Seq<u8>, pos: int, end: int, n: u8, x: nat, max: nat)
    requires
        n <= 9,
        x <= max,
        x < pow256(8),
        opt_uint(n, Some(x)).len() <= MAX_LEN,
        stands_at(s, pos, opt_uint(n, Some(x))),
        pos + opt_uint(n, Some(x)).len() <= end <= s.len() <= isize::MAX,
    ensures
        uint_at(s, pos, end, n, max) == Some((x, pos + opt_uint(n, Some(x)).len())),
{
    lemma_inner_round(s, pos, end, n, TAG_INTEGER, uint_content(x));
    lemma_uint_round(x);
}

proof fn lemma_opt_uint_round(s: Seq<u8>, pos: int, end: int, n: u8, v: Option<nat>, max: nat, g: Seq<u8>)
    requires
        n <= 9,
        v matches Some(x) ==> x <= max && x < pow256(8),
        v is None ==> next_not_field(g, n),
        (opt_uint(n, v) + g).len() <= MAX_LEN,
        stands_at(s, pos, opt_uint(n, v) + g),
        end == pos + (opt_uint(n, v) + g).len(),
        end <= s.len() <= isize::MAX,
    ensures
        opt_uint_at(s, pos, end, n, max) == Some((v, pos + opt_uint(n, v).len())),
        stands_at(s, pos + opt_uint(n, v).len(), g),
{
    let f = opt_uint(n, v);
    lemma_stands_split(s, pos, f, g);
    match v {
        Some(x) => {
            lemma_first_byte(s, pos, f);
            lemma_uint_field_round(s, pos, end, n, x, max);
        },
        None => {
            if g.len() > 0 {
                lemma_first_byte(s, pos, g);
            }
        },
    }
}

proof fn lemma_opt_utf8_round(s: Seq<u8>, pos: int, end: int, n: u8, v: Option<Seq<char>>, g: Seq<u8>)
    requires
        n <= 9,
        v is None ==> next_not_field(g, n),
        (opt_utf8(n, v) + g).len() <= MAX_LEN,
        stands_at(s, pos, opt_utf8(n, v) + g),
        end == pos + (opt_utf8(n, v) + g).len(),
        end <= s.len() <= isize::MAX,
    ensures
        opt_utf8_at(s, pos, end, n) == Some((v, pos + opt_utf8(n, v).len())),
        stands_at(s, pos + opt_utf8(n, v).len(), g),
{
    let f = opt_utf8(n, v);
    lemma_stands_split(s, pos, f, g);
    match v {
        Some(x) => {
            lemma_first_byte(s, pos, f);
            lemma_inner_round(s, pos, end, n, TAG_UTF8_STRING, encode_utf8(x));
            encode_utf8_valid_utf8(x);
            encode_utf8_decode_utf8(x);
        },
        None => {
            if g.len() > 0 {
                lemma_first_byte(s, pos, g);
            }
        },
    }
}

proof fn lemma_opt_octets_round(s: Seq<u8>, pos: int, end: int, n: u8, v: Option<Seq<u8>>, g: Seq<u8>)
    requires
        n <= 9,
        v is None ==> next_not_field(g, n),
        (opt_octets(n, v) + g).len() <= MAX_LEN,
        stands_at(s, pos, opt_octets(n, v) + g),
        end == pos + (opt_octets(n, v) + g).len(),
        end <= s.len() <= isize::MAX,
    ensures
        opt_octets_at(s, pos, end, n) == Some(
            (v, pos + opt_octets(n, v).len()),
        ),
        stands_at(s, pos + opt_octets(n, v).len(), g),
{
    let f = opt_octets(n, v);
    lemma_stands_split(s, pos, f, g);
    match v {
        Some(x) => {
            lemma_first_byte(s, pos, f);
            lemma_inner_round(s, pos, end, n, TAG_OCTET_STRING, x);
        },
        None => {
            if g.len() > 0 {
                lemma_first_byte(s, pos, g);
            }
        },
    }
}

proof fn lemma_octets_list_front(bs: Seq<Seq<u8>>)
    requires
        bs.len() > 0,
    ensures
        der_octets_list(bs) == der_octets(bs[0]) + der_octets_list(bs.drop_first()),
    decreases bs.len(),
{
    if bs.len() == 1 {
        assert(bs.drop_last() =~= Seq::<Seq<u8>>::empty());
        assert(bs.drop_first() =~= Seq::<Seq<u8>>::empty());
        assert(der_octets_list(bs) =~= der_octets(bs[0]) + der_octets_list(bs.drop_first()));
    } else {
        lemma_octets_list_front(bs.drop_last());
        assert(bs.drop_first().drop_last() =~= bs.drop_last().drop_first());
        assert(bs.drop_first().last() == bs.last());
        assert(bs.drop_last()[0] == bs[0]);
        assert(der_octets_list(bs) =~= der_octets(bs[0]) + der_octets_list(bs.drop_first()));
    }
}

proof fn lemma_octets_list_round(s: Seq<u8>, pos: int, end: int, bs: Seq<Seq<u8>>)
    requires
        stands_at(s, pos, der_octets_list(bs)),
        end == pos + der_octets_list(bs).len(),
        der_octets_list(bs).len() <= MAX_LEN,
        end <= s.len() <= isize::MAX,
    ensures
        octets_list_at(s, pos, end) == Some(bs),
    decreases bs.len(),
{
    if bs.len() == 0 {
        assert(der_octets_list(bs).len() == 0);
    } else {
        lemma_octets_list_front(bs);
        let first = der_octets(bs[0]);
        let tail = der_octets_list(bs.drop_first());
        lemma_stands_split(s, pos, first, tail);
        lemma_element_round(s, pos, end, TAG_OCTET_STRING, bs[0]);
        lemma_octets_list_round(s, pos + first.len(), end, bs.drop_first());
        assert(seq![bs[0]] + bs.drop_first() =~= bs);
    }
}

proof fn lemma_opt_chain_round(s: Seq<u8>, pos: int, end: int, n: u8, v: Option<Seq<Seq<u8>>>, g: Seq<u8>)
    requires
        n <= 9,
        v is None ==> next_not_field(g, n),
        (opt_chain(n, v) + g).len()
            <= MAX_LEN,
        stands_at(s, pos, opt_chain(n, v) + g),
        end == pos + (opt_chain(n, v) + g).len(),
        end <= s.len() <= isize::MAX,
    ensures
        opt_chain_at(s, pos, end, n) == Some(
            (v, pos + opt_chain(n, v).len()),
        ),
        stands_at(s, pos + opt_chain(n, v).len(), g),
{
    let f = opt_chain(n, v);
    lemma_stands_split(s, pos, f, g);
    match v {
        Some(x) => {
            lemma_first_byte(s, pos, f);
            lemma_inner_round(s, pos, end, n, TAG_SEQUENCE, der_octets_list(x));
            let (c, d, b) = inner_at(s, pos, end, n, TAG_SEQUENCE)->Some_0;
            assert(stands_at(s, c, der_octets_list(x)));
            lemma_octets_list_round(s, c, d, x);
        },
        None => {
            if g.len() > 0 {
                lemma_first_byte(s, pos, g);
            }
        },
    }
}


/// `g` is empty or opens with a field of index `k` or above.
pub open spec fn opens_from(g: Seq<u8>, k: u8) -> bool {
    g.len() == 0 || g[0] >= context_tag(k)
}

proof fn lemma_tlv_first(tag: u8, c: Seq<u8>)
    ensures
        tlv(tag, c).len() > 0,
        tlv(tag, c)[0] == tag,
{
    assert(tlv(tag, c)[0] == (seq![tag] + len_bytes(c.len()))[0]);
}

proof fn lemma_opens(f: Seq<u8>, k: u8, g: Seq<u8>, k2: u8)
    requires
        k < k2 <= 9,
        f.len() == 0 || f[0] == context_tag(k),
        opens_from(g, k2),
    ensures
        opens_from(f + g, k),
{
    if f.len() == 0 {
        assert(f + g =~= g);
    } else {
        assert((f + g)[0] == f[0]);
    }
}

proof fn lemma_opt_err_round(s: Seq<u8>, pos: int, end: int, n: u8, v: Option<RDCleanPathErr>, g: Seq<u8>)
    requires
        n <= 9,
        v is None ==> next_not_field(g, n),
        (opt_err(n, v) + g).len() <= MAX_LEN,
        stands_at(s, pos, opt_err(n, v) + g),
        end == pos + (opt_err(n, v) + g).len(),
        end <= s.len() <= isize::MAX,
    ensures
        opt_err_at(s, pos, end, n) == Some((v, pos + opt_err(n, v).len())),
        stands_at(s, pos + opt_err(n, v).len(), g),
{
    let f = opt_err(n, v);
    lemma_stands_split(s, pos, f, g);
    match v {
        Some(e) => {
            lemma_first_byte(s, pos, f);
            lemma_inner_round(s, pos, end, n, TAG_SEQUENCE, err_fields(e));
            let (c, d, b) = inner_at(s, pos, end, n, TAG_SEQUENCE)->Some_0;
            assert(stands_at(s, c, err_fields(e)));
            lemma_err_fields_round(s, c, d, e);
        },
        None => {
            if g.len() > 0 {
                lemma_first_byte(s, pos, g);
            }
        },
    }
}

proof fn lemma_err_fields_round(s: Seq<u8>, pos: int, end: int, e: RDCleanPathErr)
    requires
        stands_at(s, pos, err_fields(e)),
        end == pos + err_fields(e).len(),
        err_fields(e).len() <= MAX_LEN,
        end <= s.len() <= isize::MAX,
    ensures
        err_fields_at(s, pos, end) == Some(e),
{
    lemma_pow256_eight();
    let f0 = opt_uint(0, Some(e.error_code as nat));
    let f1 = opt_uint(1, opt_nat_u16(e.http_status_code));
    let f2 = opt_uint(2, opt_nat_u16(e.wsa_last_error));
    let f3 = opt_uint(3, opt_nat_u8(e.tls_alert_code));
    let g2 = f2 + f3;
    let g1 = f1 + g2;
    assert(err_fields(e) =~= f0 + g1);
    if f3.len() > 0 {
        lemma_tlv_first(context_tag(3), der_uint(opt_nat_u8(e.tls_alert_code)->Some_0));
    }
    if f2.len() > 0 {
        lemma_tlv_first(context_tag(2), der_uint(opt_nat_u16(e.wsa_last_error)->Some_0));
    }
    if f1.len() > 0 {
        lemma_tlv_first(context_tag(1), der_uint(opt_nat_u16(e.http_status_code)->Some_0));
    }
    assert(opens_from(Seq::<u8>::empty(), 4));
    lemma_opens(f3, 3, Seq::<u8>::empty(), 4);
    assert(f3 + Seq::<u8>::empty() =~= f3);
    lemma_opens(f2, 2, f3, 3);
    lemma_stands_split(s, pos, f0, g1);
    lemma_uint_field_round(s, pos, end, 0, e.error_code as nat, 0xffff);
    let next1 = pos + f0.len();
    lemma_opt_uint_round(s, next1, end, 1, opt_nat_u16(e.http_status_code), 0xffff, g2);
    let next2 = next1 + f1.len();
    lemma_opt_uint_round(s, next2, end, 2, opt_nat_u16(e.wsa_last_error), 0xffff, f3);
    let next3 = next2 + f2.len();
    lemma_opt_uint_round(s, next3, end, 3, opt_nat_u8(e.tls_alert_code), 0xff, Seq::<u8>::empty());
}

/// Encoded fields of index 7 and up.
pub open spec fn pdu_tail7(m: PduView) -> Seq<u8> {
    opt_chain(FIELD_CERT_CHAIN, m.server_cert_chain) + opt_utf8(FIELD_SERVER_ADDR, m.server_addr)
}

/// Encoded fields of index 5 and up.
pub open spec fn pdu_tail5(m: PduView) -> Seq<u8> {
    opt_utf8(FIELD_PRECONNECTION_BLOB, m.preconnection_blob) + (opt_octets(
        FIELD_X224,
        m.x224_connection_pdu,
    ) + pdu_tail7(m))
}

/// Encoded fields of index 2 and up.
pub open spec fn pdu_tail2(m: PduView) -> Seq<u8> {
    opt_utf8(FIELD_DESTINATION, m.destination) + (opt_utf8(FIELD_PROXY_AUTH, m.proxy_auth) + (
    opt_utf8(FIELD_SERVER_AUTH, m.server_auth) + pdu_tail5(m)))
}

proof fn lemma_pdu_tail5_round(s: Seq<u8>, pos: int, end: int, m: PduView)
    requires
        stands_at(s, pos, pdu_tail5(m)),
        end == pos + pdu_tail5(m).len(),
        pdu_tail5(m).len() <= MAX_LEN,
        end <= s.len() <= isize::MAX,
    ensures
        opens_from(pdu_tail5(m), 5),
        pdu_tail5_at(s, pos, end) == Some(
            (m.preconnection_blob, m.x224_connection_pdu, m.server_cert_chain, m.server_addr),
        ),
{
    let f5 = opt_utf8(FIELD_PRECONNECTION_BLOB, m.preconnection_blob);
    let f6 = opt_octets(FIELD_X224, m.x224_connection_pdu);
    let f7 = opt_chain(FIELD_CERT_CHAIN, m.server_cert_chain);
    let f9 = opt_utf8(FIELD_SERVER_ADDR, m.server_addr);
    let g7 = pdu_tail7(m);
    let g6 = f6 + g7;
    if f9.len() > 0 {
        lemma_tlv_first(context_tag(9), der_utf8(m.server_addr->Some_0));
    }
    if f7.len() > 0 {
        lemma_tlv_first(
            context_tag(7),
            tlv(TAG_SEQUENCE, der_octets_list(m.server_cert_chain->Some_0)),
        );
    }
    if f6.len() > 0 {
        lemma_tlv_first(context_tag(6), der_octets(m.x224_connection_pdu->Some_0));
    }
    if f5.len() > 0 {
        lemma_tlv_first(context_tag(5), der_utf8(m.preconnection_blob->Some_0));
    }
    lemma_opens(f7, 7, f9, 9);
    lemma_opens(f6, 6, g7, 7);
    lemma_opens(f5, 5, g6, 6);
    let next6 = pos + f5.len();
    let next7 = next6 + f6.len();
    let next8 = next7 + f7.len();
    lemma_opt_utf8_round(s, pos, end, FIELD_PRECONNECTION_BLOB, m.preconnection_blob, g6);
    lemma_opt_octets_round(s, next6, end, FIELD_X224, m.x224_connection_pdu, g7);
    lemma_opt_chain_round(s, next7, end, FIELD_CERT_CHAIN, m.server_cert_chain, f9);
    assert(f9 + Seq::<u8>::empty() =~= f9);
    lemma_opt_utf8_round(s, next8, end, FIELD_SERVER_ADDR, m.server_addr, Seq::<u8>::empty());
}

proof fn lemma_pdu_tail2_round(s: Seq<u8>, pos: int, end: int, m: PduView)
    requires
        stands_at(s, pos, pdu_tail2(m)),
        end == pos + pdu_tail2(m).len(),
        pdu_tail2(m).len() <= MAX_LEN,
        end <= s.len() <= isize::MAX,
    ensures
        opens_from(pdu_tail2(m), 2),
        pdu_tail2_at(s, pos, end) == Some(
            (
                m.destination,
                m.proxy_auth,
                m.server_auth,
                (m.preconnection_blob, m.x224_connection_pdu, m.server_cert_chain, m.server_addr),
            ),
        ),
{
    let f2 = opt_utf8(FIELD_DESTINATION, m.destination);
    let f3 = opt_utf8(FIELD_PROXY_AUTH, m.proxy_auth);
    let f4 = opt_utf8(FIELD_SERVER_AUTH, m.server_auth);
    let g5 = pdu_tail5(m);
    let g4 = f4 + g5;
    let g3 = f3 + g4;
    lemma_stands_split(s, pos, f2, g3);
    lemma_stands_split(s, pos + f2.len(), f3, g4);
    lemma_stands_split(s, pos + f2.len() + f3.len(), f4, g5);
    lemma_pdu_tail5_round(s, pos + f2.len() + f3.len() + f4.len(), end, m);
    if f4.len() > 0 {
        lemma_tlv_first(context_tag(4), der_utf8(m.server_auth->Some_0));
    }
    if f3.len() > 0 {
        lemma_tlv_first(context_tag(3), der_utf8(m.proxy_auth->Some_0));
    }
    if f2.len() > 0 {
        lemma_tlv_first(context_tag(2), der_utf8(m.destination->Some_0));
    }
    lemma_opens(f4, 4, g5, 5);
    lemma_opens(f3, 3, g4, 4);
    lemma_opens(f2, 2, g3, 3);
    let next3 = pos + f2.len();
    let next4 = next3 + f3.len();
    lemma_opt_utf8_round(s, pos, end, FIELD_DESTINATION, m.destination, g3);
    lemma_opt_utf8_round(s, next3, end, FIELD_PROXY_AUTH, m.proxy_auth, g4);
    lemma_opt_utf8_round(s, next4, end, FIELD_SERVER_AUTH, m.server_auth, g5);
}

proof fn lemma_regroup(
    a0: Seq<u8>,
    a1: Seq<u8>,
    a2: Seq<u8>,
    a3: Seq<u8>,
    a4: Seq<u8>,
    a5: Seq<u8>,
    a6: Seq<u8>,
    a7: Seq<u8>,
    a9: Seq<u8>,
)
    ensures
        a0 + a1 + a2 + a3 + a4 + a5 + a6 + a7 + a9 == a0 + (a1 + (a2 + (a3 + (a4 + (a5 + (a6 + (
        a7 + a9))))))),
{
    assert(a0 + a1 + a2 + a3 + a4 + a5 + a6 + a7 + a9 =~= a0 + (a1 + (a2 + (a3 + (a4 + (a5 + (a6
        + (a7 + a9))))))));
}

proof fn lemma_pdu_layout(m: PduView)
    ensures
        pdu_fields(m) == opt_uint(FIELD_VERSION, Some(m.version as nat)) + (opt_err(
            FIELD_ERROR,
            m.error,
        ) + pdu_tail2(m)),
{
    lemma_regroup(
        opt_uint(FIELD_VERSION, Some(m.version as nat)),
        opt_err(FIELD_ERROR, m.error),
        opt_utf8(FIELD_DESTINATION, m.destination),
        opt_utf8(FIELD_PROXY_AUTH, m.proxy_auth),
        opt_utf8(FIELD_SERVER_AUTH, m.server_auth),
        opt_utf8(FIELD_PRECONNECTION_BLOB, m.preconnection_blob),
        opt_octets(FIELD_X224, m.x224_connection_pdu),
        opt_chain(FIELD_CERT_CHAIN, m.server_cert_chain),
        opt_utf8(FIELD_SERVER_ADDR, m.server_addr),
    );
}

proof fn lemma_pdu_fields_round(s: Seq<u8>, pos: int, end: int, m: PduView)
    requires
        stands_at(s, pos, pdu_fields(m)),
        end == pos + pdu_fields(m).len(),
        pdu_fields(m).len() <= MAX_LEN,
        end <= s.len() <= isize::MAX,
    ensures
        pdu_fields_at(s, pos, end) == Some(m),
{
    lemma_pow256_eight();
    let f0 = opt_uint(FIELD_VERSION, Some(m.version as nat));
    let f1 = opt_err(FIELD_ERROR, m.error);
    let g2 = pdu_tail2(m);
    lemma_pdu_layout(m);
    lemma_stands_split(s, pos, f0, f1 + g2);
    lemma_stands_split(s, pos + f0.len(), f1, g2);
    lemma_pdu_tail2_round(s, pos + f0.len() + f1.len(), end, m);
    lemma_uint_field_round(s, pos, end, FIELD_VERSION, m.version as nat, 0xffff_ffff_ffff_ffff);
    lemma_opt_err_round(s, pos + f0.len(), end, FIELD_ERROR, m.error, g2);
}

proof fn lemma_frame_round(c: Seq<u8>, rest: Seq<u8>)
    requires
        c.len() <= MAX_LEN,
        tlv(TAG_SEQUENCE, c).len() + rest.len() <= isize::MAX,
    ensures
        ({
            let s = tlv(TAG_SEQUENCE, c) + rest;
            let h = 1 + len_bytes(c.len()).len();
            &&& header_at(s, 0, s.len() as int, TAG_SEQUENCE) == Header::Valid(
                c.len() as usize,
                h as usize,
            )
            &&& stands_at(s, h as int, c)
            &&& h + c.len() == tlv(TAG_SEQUENCE, c).len()
        }),
{
    let s = tlv(TAG_SEQUENCE, c) + rest;
    let l = len_bytes(c.len());
    assert(s.subrange(0, tlv(TAG_SEQUENCE, c).len() as int) =~= tlv(TAG_SEQUENCE, c));
    lemma_stands_split(s, 0, seq![TAG_SEQUENCE] + l, c);
    lemma_stands_split(s, 0, seq![TAG_SEQUENCE], l);
    lemma_first_byte(s, 0, seq![TAG_SEQUENCE]);
    lemma_len_round(s, 1, s.len() as int, c.len());
}

/// Decoding the DER form of any encodable message, followed by any bytes,
/// gives the message back and consumes exactly its DER form, leaving the
/// bytes after it for the next decode.
#[verifier::rlimit(50)]
pub proof fn lemma_decode_encoded(m: PduView, rest: Seq<u8>)
    requires
        encodable(m),
        pdu_der(m).len() + rest.len() <= isize::MAX,
    ensures
        decode_spec(pdu_der(m) + rest) == Decoded::Done(m, pdu_der(m).len()),
{
    let c = pdu_fields(m);
    let s = pdu_der(m) + rest;
    lemma_frame_round(c, rest);
    let h = 1 + len_bytes(c.len()).len();
    lemma_pdu_fields_round(s, h as int, (h + c.len()) as int, m);
}

/// Bytes of a message's DER form up to the end of its version field: the
/// SEQUENCE header and field 0.
pub open spec fn version_prefix_len(m: PduView) -> nat {
    1 + len_bytes(pdu_fields(m).len()).len() + opt_uint(FIELD_VERSION, Some(m.version as nat)).len()
}

proof fn lemma_len_truncated(s: Seq<u8>, pos: int, end: int, n: nat)
    requires
        n <= MAX_LEN,
        0 <= pos,
        end < pos + len_bytes(n).len(),
        end == s.len() <= isize::MAX,
        stands_at(s, pos, len_bytes(n).take(end - pos)) || pos >= end,
    ensures
        len_at(s, pos, end) is Incomplete,
{
    lemma_pow256_eight();
    if pos < end {
        assert(s.subrange(pos, end)[0] == s[pos]);
        assert(s[pos] == len_bytes(n)[0]);
        if n >= 0x80 {
            lemma_byte_len_bound(n, 4);
        }
    }
}

proof fn lemma_header_truncated(s: Seq<u8>, pos: int, tag: u8, n: nat)
    requires
        n <= MAX_LEN,
        0 <= pos,
        s.len() < pos + 1 + len_bytes(n).len(),
        s.len() <= isize::MAX,
        pos >= s.len() || stands_at(s, pos, (seq![tag] + len_bytes(n)).take(s.len() - pos)),
    ensures
        header_at(s, pos, s.len() as int, tag) is Incomplete,
{
    let t = seq![tag] + len_bytes(n);
    if pos < s.len() {
        assert(s.subrange(pos, s.len() as int)[0] == s[pos]);
        assert(s[pos] == tag);
        if pos + 1 < s.len() {
            assert(s.subrange(pos + 1, s.len() as int) =~= len_bytes(n).take(s.len() - pos - 1)) by {
                assert(s.subrange(pos + 1, s.len() as int) =~= s.subrange(pos, s.len() as int).subrange(
                    1,
                    s.len() - pos,
                ));
            }
        }
        lemma_len_truncated(s, pos + 1, s.len() as int, n);
    }
}

/// `t` matches `piece` at offset `o`, as far as `t` goes.
pub open spec fn agrees(t: Seq<u8>, o: int, piece: Seq<u8>) -> bool {
    forall|j: int| 0 <= j < piece.len() && o + j < t.len() ==> t[o + j] == #[trigger] piece[j]
}

proof fn lemma_agrees_stands(t: Seq<u8>, o: int, piece: Seq<u8>)
    requires
        agrees(t, o, piece),
        0 <= o,
        o + piece.len() <= t.len(),
    ensures
        stands_at(t, o, piece),
{
    assert(t.subrange(o, o + piece.len()) =~= piece);
}

proof fn lemma_agrees_truncated(t: Seq<u8>, o: int, piece: Seq<u8>)
    requires
        agrees(t, o, piece),
        0 <= o < t.len() < o + piece.len(),
    ensures
        stands_at(t, o, piece.take(t.len() - o)),
{
    assert(t.subrange(o, t.len() as int) =~= piece.take(t.len() - o));
}

proof fn lemma_header_prefix(t: Seq<u8>, o: int, tag: u8, n: nat)
    requires
        n <= MAX_LEN,
        0 <= o,
        t.len() <= isize::MAX,
        agrees(t, o, seq![tag]),
        agrees(t, o + 1, len_bytes(n)),
    ensures
        t.len() < o + 1 + len_bytes(n).len() ==> header_at(t, o, t.len() as int, tag) is Incomplete,
        t.len() >= o + 1 + len_bytes(n).len() ==> header_at(t, o, t.len() as int, tag)
            == Header::Valid(n as usize, (o + 1 + len_bytes(n).len()) as usize),
{
    let l = len_bytes(n);
    if t.len() < o + 1 + l.len() {
        if o < t.len() {
            assert(t[o] == seq![tag][0]);
            if o + 1 < t.len() {
                lemma_agrees_truncated(t, o + 1, l);
            }
            lemma_len_truncated(t, o + 1, t.len() as int, n);
        }
    } else {
        assert(t[o] == seq![tag][0]);
        lemma_agrees_stands(t, o + 1, l);
        lemma_len_round(t, o + 1, t.len() as int, n);
    }
}

proof fn lemma_detect_core(t: Seq<u8>, big: nat, u: Seq<u8>)
    requires
        big <= MAX_LEN,
        uint_value(u) == Some(VERSION_1 as nat),
        u.len() <= 9,
        t.len() <= isize::MAX,
        2 + len_bytes((1 + len_bytes(u.len()).len() + u.len()) as nat).len() + len_bytes(
            u.len(),
        ).len() + u.len() <= big,
        agrees(t, 0, seq![TAG_SEQUENCE]),
        agrees(t, 1, len_bytes(big)),
        agrees(t, (1 + len_bytes(big).len()) as int, seq![context_tag(0)]),
        agrees(
            t,
            (2 + len_bytes(big).len()) as int,
            len_bytes((1 + len_bytes(u.len()).len() + u.len()) as nat),
        ),
        agrees(
            t,
            (2 + len_bytes(big).len() + len_bytes((1 + len_bytes(u.len()).len() + u.len()) as nat).len()) as int,
            seq![TAG_INTEGER],
        ),
        agrees(
            t,
            (3 + len_bytes(big).len() + len_bytes((1 + len_bytes(u.len()).len() + u.len()) as nat).len()) as int,
            len_bytes(u.len()),
        ),
        agrees(
            t,
            (3 + len_bytes(big).len() + len_bytes((1 + len_bytes(u.len()).len() + u.len()) as nat).len()
                + len_bytes(u.len()).len()) as int,
            u,
        ),
    ensures
        ({
            let p = 3 + len_bytes(big).len() + len_bytes(
                (1 + len_bytes(u.len()).len() + u.len()) as nat,
            ).len() + len_bytes(u.len()).len() + u.len();
            &&& t.len() < p ==> detect_spec(t) == DetectionResult::NotEnoughBytes
            &&& t.len() >= p ==> detect_spec(t) == DetectionResult::Detected(VERSION_1)
        }),
{
    let lu = len_bytes(u.len());
    let a = (1 + lu.len() + u.len()) as nat;
    let li = len_bytes(a);
    let h: int = (1 + len_bytes(big).len()) as int;
    let q0: int = h + 1 + li.len();
    let q1: int = q0 + 1 + lu.len();
    let len = t.len() as int;
    lemma_header_prefix(t, 0, TAG_SEQUENCE, big);
    if len < h {
        return;
    }
    lemma_header_prefix(t, h, context_tag(0), a);
    if len < q0 {
        return;
    }
    lemma_header_prefix(t, q0, TAG_INTEGER, u.len());
    if len >= q1 + u.len() {
        lemma_agrees_stands(t, q1, u);
    }
}

proof fn lemma_agree_pieces(
    t: Seq<u8>,
    d: Seq<u8>,
    l: Seq<u8>,
    c: Seq<u8>,
    f0: Seq<u8>,
    r: Seq<u8>,
    li: Seq<u8>,
    i: Seq<u8>,
    lu: Seq<u8>,
    u: Seq<u8>,
)
    requires
        d == seq![TAG_SEQUENCE] + l + c,
        c == f0 + r,
        f0 == seq![context_tag(0)] + li + i,
        i == seq![TAG_INTEGER] + lu + u,
        forall|k: int|
            0 <= k < t.len() && k < 3 + l.len() + li.len() + lu.len() + u.len() ==> t[k]
                == #[trigger] d[k],
    ensures
        agrees(t, 0, seq![TAG_SEQUENCE]),
        agrees(t, 1, l),
        agrees(t, (1 + l.len()) as int, seq![context_tag(0)]),
        agrees(t, (2 + l.len()) as int, li),
        agrees(t, (2 + l.len() + li.len()) as int, seq![TAG_INTEGER]),
        agrees(t, (3 + l.len() + li.len()) as int, lu),
        agrees(t, (3 + l.len() + li.len() + lu.len()) as int, u),
{
    let h: int = (1 + l.len()) as int;
    let q0: int = h + 1 + li.len();
    let q1: int = q0 + 1 + lu.len();
    let p = q1 + u.len();
    let pre = seq![TAG_SEQUENCE] + l + (seq![context_tag(0)] + li + (seq![TAG_INTEGER] + lu + u));
    assert forall|k: int| 0 <= k < p implies d[k] == #[trigger] pre[k] by {
        if k >= h {
            assert(d[k] == c[k - h]);
            assert(c[k - h] == f0[k - h]);
        }
    }
    assert forall|k: int| 0 <= k < t.len() && k < p implies t[k] == #[trigger] pre[k] by {
        assert(t[k] == d[k]);
    }
    assert forall|j: int| 0 <= j < 1 && 0 + j < t.len() implies t[0 + j] == #[trigger] seq![
        TAG_SEQUENCE,
    ][j] by {
        assert(t[0 + j] == pre[0 + j]);
    }
    assert forall|j: int| 0 <= j < l.len() && 1 + j < t.len() implies t[1 + j] == #[trigger] l[j] by {
        assert(t[1 + j] == pre[1 + j]);
    }
    assert forall|j: int| 0 <= j < 1 && h + j < t.len() implies t[h + j] == #[trigger] seq![
        context_tag(0),
    ][j] by {
        assert(t[h + j] == pre[h + j]);
    }
    assert forall|j: int| 0 <= j < li.len() && h + 1 + j < t.len() implies t[h + 1 + j]
        == #[trigger] li[j] by {
        assert(t[h + 1 + j] == pre[h + 1 + j]);
    }
    assert forall|j: int| 0 <= j < 1 && q0 + j < t.len() implies t[q0 + j] == #[trigger] seq![
        TAG_INTEGER,
    ][j] by {
        assert(t[q0 + j] == pre[q0 + j]);
    }
    assert forall|j: int| 0 <= j < lu.len() && q0 + 1 + j < t.len() implies t[q0 + 1 + j]
        == #[trigger] lu[j] by {
        assert(t[q0 + 1 + j] == pre[q0 + 1 + j]);
    }
    assert forall|j: int| 0 <= j < u.len() && q1 + j < t.len() implies t[q1 + j] == #[trigger] u[j] by {
        assert(t[q1 + j] == pre[q1 + j]);
    }
}

/// Framing: a buffer that holds less than the SEQUENCE header and version
/// field of a message's DER form asks for more bytes; one that holds at least
/// those bytes of a message of the supported version is recognised, whatever
/// follows them.
#[verifier::rlimit(50)]
pub proof fn lemma_detect_prefix(m: PduView, t: Seq<u8>)
    requires
        encodable(m),
        m.version == VERSION_1,
        t.len() <= isize::MAX,
        forall|k: int|
            0 <= k < t.len() && k < version_prefix_len(m) ==> t[k] == #[trigger] pdu_der(m)[k],
    ensures
        t.len() < version_prefix_len(m) ==> detect_spec(t) == DetectionResult::NotEnoughBytes,
        t.len() >= version_prefix_len(m) ==> detect_spec(t) == DetectionResult::Detected(VERSION_1),
{
    lemma_pow256_eight();
    lemma_uint_round(m.version as nat);
    lemma_pdu_layout(m);
    let d = pdu_der(m);
    let c = pdu_fields(m);
    let l = len_bytes(c.len());
    let u = uint_content(m.version as nat);
    let lu = len_bytes(u.len());
    let i = der_uint(m.version as nat);
    let li = len_bytes(i.len());
    let f0 = opt_uint(FIELD_VERSION, Some(m.version as nat));
    let r = opt_err(FIELD_ERROR, m.error) + pdu_tail2(m);
    assert(d == seq![TAG_SEQUENCE] + l + c);
    assert(c == f0 + r);
    assert(f0 == seq![context_tag(0)] + li + i);
    assert(i == seq![TAG_INTEGER] + lu + u);
    lemma_agree_pieces(t, d, l, c, f0, r, li, i, lu, u);
    lemma_detect_core(t, c.len(), u);
}

} // verus!
