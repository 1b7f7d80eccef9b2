use vstd::prelude::*;

use crate::base64::{decode, decode_spec, encode, encode_spec, lemma_decode_encode, lemma_encode_ascii};
use crate::json::{
    bool_member, is_json_object, json_bool_member, json_is_object, json_quoted, json_str_member,
    json_u64_member, quote, str_member, u64_member,
};
use crate::text::{
    all_digits, chars_of, decimal, decimal_of, digits_value, is_digit, join_char, join_spec, parse_bool, parse_bool_spec, parse_u16,
    parse_u16_spec, split_char, split_spec, string_of,
};
use vstd::std_specs::cmp::PartialEqSpec;
use vstd::utf8::{decode_utf8, encode_utf8, valid_utf8};

verus! {

/// Why a share link could not be decoded.
#[derive(Clone, Debug)]
pub enum LinkError {
    /// The link is not `vmess://` followed by base64 of a JSON object.
    Malformed,
    /// A required member is missing, or port or alter-id is not a 16-bit number.
    InvalidField,
    /// The link asks for a transport that is not proxied; it carries that network type.
    UnsupportedTransport(String),
}

/// WebSocket transport options.
#[derive(Clone, Debug, PartialEq)]
pub struct WsOptions {
    pub path: Option<String>,
    /// The `host` header, when the link gives one.
    pub host: Option<String>,
}

/// gRPC transport options.
#[derive(Clone, Debug, PartialEq)]
pub struct GrpcOptions {
    pub grpc_service_name: Option<String>,
}

/// Reality-style TLS obfuscation options.
#[derive(Clone, Debug, PartialEq)]
pub struct RealityOptions {
    pub public_key: String,
    pub short_id: Option<String>,
}

/// Transport sub-options, tied to the network kind they belong to.
#[derive(Clone, Debug, PartialEq)]
pub enum Transport {
    Plain,
    Ws(WsOptions),
    Grpc(GrpcOptions),
    Reality(RealityOptions),
}

/// A VMess proxy endpoint. Two records are the same proxy when server, port and
/// credential agree, whatever their names and options.
#[derive(Clone, Debug)]
pub struct Vmess {
    pub name: String,
    pub server: String,
    pub port: u16,
    pub uuid: String,
    pub alter_id: u16,
    pub cipher: String,
    pub alpn: Option<Vec<String>>,
    pub tls: Option<bool>,
    pub servername: Option<String>,
    pub fingerprint: Option<String>,
    pub network: Option<String>,
    pub skip_cert_verify: Option<bool>,
    pub transport: Transport,
}

/// The members of a link's JSON object, as read: a member is present only where it has
/// the type asked for. Port and alter-id are read both as text and as a number, `tls`
/// both as text and as a boolean.
pub struct LinkFields {
    pub ps: Option<String>,
    pub add: Option<String>,
    pub id: Option<String>,
    pub port_text: Option<String>,
    pub port_num: Option<u64>,
    pub aid_text: Option<String>,
    pub aid_num: Option<u64>,
    pub alpn: Option<String>,
    pub net: Option<String>,
    pub path: Option<String>,
    pub host: Option<String>,
    pub sni: Option<String>,
    pub tls_text: Option<String>,
    pub tls_flag: Option<bool>,
}

/// What the contracts see of `LinkFields`.
pub struct WireModel {
    pub ps: Option<Seq<char>>,
    pub add: Option<Seq<char>>,
    pub id: Option<Seq<char>>,
    pub port_text: Option<Seq<char>>,
    pub port_num: Option<u64>,
    pub aid_text: Option<Seq<char>>,
    pub aid_num: Option<u64>,
    pub alpn: Option<Seq<char>>,
    pub net: Option<Seq<char>>,
    pub path: Option<Seq<char>>,
    pub host: Option<Seq<char>>,
    pub sni: Option<Seq<char>>,
    pub tls_text: Option<Seq<char>>,
    pub tls_flag: Option<bool>,
}

impl View for LinkFields {
    type V = WireModel;

    open spec fn view(&self) -> WireModel {
        WireModel {
            ps: self.ps.deep_view(),
            add: self.add.deep_view(),
            id: self.id.deep_view(),
            port_text: self.port_text.deep_view(),
            port_num: self.port_num,
            aid_text: self.aid_text.deep_view(),
            aid_num: self.aid_num,
            alpn: self.alpn.deep_view(),
            net: self.net.deep_view(),
            path: self.path.deep_view(),
            host: self.host.deep_view(),
            sni: self.sni.deep_view(),
            tls_text: self.tls_text.deep_view(),
            tls_flag: self.tls_flag,
        }
    }
}

/// A number given either as decimal text or as a JSON number; text wins when both are.
pub open spec fn coerce_u16(text: Option<Seq<char>>, num: Option<u64>) -> Option<u16> {
    match text {
        Some(t) => parse_u16_spec(t),
        None => match num {
            Some(n) => if n <= 0xFFFF {
                Some(n as u16)
            } else {
                None
            },
            None => None,
        },
    }
}

/// A required member is missing or a number cannot be read.
pub open spec fn has_field_error(w: WireModel) -> bool {
    ||| w.ps is None
    ||| w.add is None
    ||| w.id is None
    ||| coerce_u16(w.port_text, w.port_num) is None
    ||| coerce_u16(w.aid_text, w.aid_num) is None
}

/// Network types that VMess links are not proxied over.
pub open spec fn is_rejected_network(n: Seq<char>) -> bool {
    n == "quic"@ || n == "http"@
}

pub open spec fn has_rejected_network(w: WireModel) -> bool {
    match w.net {
        Some(n) => is_rejected_network(n),
        None => false,
    }
}

/// The network kind, with the empty text taken as no network.
pub open spec fn normalized_network(w: WireModel) -> Option<Seq<char>> {
    match w.net {
        Some(n) => if n.len() == 0 {
            None
        } else {
            Some(n)
        },
        None => None,
    }
}

pub open spec fn alpn_list(w: WireModel) -> Option<Seq<Seq<char>>> {
    match w.alpn {
        Some(a) => Some(split_spec(a, ',')),
        None => None,
    }
}

/// `tls` as text, where text that is not a boolean counts as `false`, or as a boolean.
pub open spec fn tls_flag(w: WireModel) -> Option<bool> {
    match w.tls_text {
        Some(t) => Some(
            match parse_bool_spec(t) {
                Some(b) => b,
                None => false,
            },
        ),
        None => w.tls_flag,
    }
}

/// The transport options that the network kind calls for.
pub open spec fn transport_matches(t: Transport, w: WireModel) -> bool {
    match t {
        Transport::Ws(o) => w.net == Some("ws"@) && o.path.deep_view() == w.path
            && o.host.deep_view() == w.host,
        Transport::Grpc(g) => w.net == Some("grpc"@) && g.grpc_service_name.deep_view() == w.sni,
        Transport::Plain => w.net != Some("ws"@) && w.net != Some("grpc"@),
        Transport::Reality(_) => false,
    }
}

/// `v` is the record that a link with members `w` stands for.
pub open spec fn record_of(v: Vmess, w: WireModel) -> bool {
    &&& Some(v.name@) == w.ps
    &&& Some(v.server@) == w.add
    &&& Some(v.uuid@) == w.id
    &&& Some(v.port) == coerce_u16(w.port_text, w.port_num)
    &&& Some(v.alter_id) == coerce_u16(w.aid_text, w.aid_num)
    &&& v.cipher@ == "auto"@
    &&& v.alpn.deep_view() == alpn_list(w)
    &&& v.tls == tls_flag(w)
    &&& v.servername.deep_view() == w.sni
    &&& v.fingerprint.deep_view() == Some("chrome"@)
    &&& v.network.deep_view() == normalized_network(w)
    &&& v.skip_cert_verify == Some(true)
    &&& transport_matches(v.transport, w)
}

/// The outcome of decoding a link with members `w`: a rejected network first, then a
/// bad member, else the record.
pub open spec fn decodes_to(w: WireModel, r: Result<Vmess, LinkError>) -> bool {
    if has_rejected_network(w) {
        match r {
            Err(LinkError::UnsupportedTransport(m)) => Some(m@) == w.net,
            _ => false,
        }
    } else if has_field_error(w) {
        r matches Err(LinkError::InvalidField)
    } else {
        match r {
            Ok(v) => record_of(v, w),
            _ => false,
        }
    }
}

/// Whether `s` holds exactly the text `w`.
pub(crate) fn is_text(s: &String, w: &str) -> (r: bool)
    ensures
        r == (s@ == w@),
{
    let a = chars_of(s.as_str());
    let b = chars_of(w);
    if a.len() != b.len() {
        return false;
    }
    let mut i: usize = 0;
    while i < a.len()
        invariant
            a@ == s@,
            b@ == w@,
            a@.len() == b@.len(),
            0 <= i <= a@.len(),
            forall|k: int| 0 <= k < i ==> a@[k] == b@[k],
        decreases a@.len() - i,
    {
        if a[i] != b[i] {
            assert(a@[i as int] != b@[i as int]);
            assert(a@ != b@);
            return false;
        }
        i = i + 1;
    }
    assert(a@ =~= b@);
    true
}

fn is_some_text(s: &Option<String>, w: &str) -> (r: bool)
    ensures
        r == (s.deep_view() == Some(w@)),
{
    match s {
        Some(t) => is_text(t, w),
        None => false,
    }
}

fn clone_opt(s: &Option<String>) -> (r: Option<String>)
    ensures
        r.deep_view() == s.deep_view(),
{
    match s {
        Some(t) => Some(t.clone()),
        None => None,
    }
}

fn coerce(text: &Option<String>, num: Option<u64>) -> (r: Option<u16>)
    ensures
        r == coerce_u16(text.deep_view(), num),
{
    match text {
        Some(t) => parse_u16(&chars_of(t.as_str())),
        None => match num {
            Some(n) => if n <= 0xFFFF {
                Some(n as u16)
            } else {
                None
            },
            None => None,
        },
    }
}

fn flag_or(text: &Option<String>, fallback: bool) -> (r: Option<bool>)
    ensures
        r == match text.deep_view() {
            Some(t) => Some(
                match parse_bool_spec(t) {
                    Some(b) => b,
                    None => fallback,
                },
            ),
            None => None,
        },
{
    match text {
        Some(t) => match parse_bool(&chars_of(t.as_str())) {
            Some(b) => Some(b),
            None => Some(fallback),
        },
        None => None,
    }
}

impl Vmess {
    /// Builds the record that a link's members describe, applying the defaults of
    /// this library: cipher `auto`, fingerprint `chrome`, certificate checks skipped.
    pub fn from_fields(f: &LinkFields) -> (r: Result<Vmess, LinkError>)
        ensures
            decodes_to(f@, r),
    {
        if is_some_text(&f.net, "quic") || is_some_text(&f.net, "http") {
            let net = clone_opt(&f.net).unwrap();
            return Err(LinkError::UnsupportedTransport(net));
        }
        let port = coerce(&f.port_text, f.port_num);
        let alter_id = coerce(&f.aid_text, f.aid_num);
        if f.ps.is_none() || f.add.is_none() || f.id.is_none() || port.is_none()
            || alter_id.is_none() {
            return Err(LinkError::InvalidField);
        }
        let alpn = match &f.alpn {
            Some(a) => Some(split_char(&chars_of(a.as_str()), ',')),
            None => None,
        };
        let transport = if is_some_text(&f.net, "ws") {
            Transport::Ws(WsOptions { path: clone_opt(&f.path), host: clone_opt(&f.host) })
        } else if is_some_text(&f.net, "grpc") {
            Transport::Grpc(GrpcOptions { grpc_service_name: clone_opt(&f.sni) })
        } else {
            Transport::Plain
        };
        let network = match &f.net {
            Some(n) => if n.as_str().is_empty() {
                None
            } else {
                Some(n.clone())
            },
            None => None,
        };
        let tls = match flag_or(&f.tls_text, false) {
            Some(b) => Some(b),
            None => f.tls_flag,
        };
        let v = Vmess {
            name: clone_opt(&f.ps).unwrap(),
            server: clone_opt(&f.add).unwrap(),
            port: port.unwrap(),
            uuid: clone_opt(&f.id).unwrap(),
            alter_id: alter_id.unwrap(),
            cipher: "auto".to_string(),
            alpn,
            tls,
            servername: clone_opt(&f.sni),
            fingerprint: Some("chrome".to_string()),
            network,
            skip_cert_verify: Some(true),
            transport,
        };
        Ok(v)
    }
}

/// The members of a VMess link's JSON object, in the order they are written.
pub struct VmessProtocol {
    pub v: String,
    pub ps: String,
    pub add: String,
    pub port: u16,
    pub id: String,
    pub aid: u16,
    pub scy: String,
    pub net: Option<String>,
    pub host: Option<String>,
    pub path: Option<String>,
    pub tls: Option<bool>,
    pub alpn: Option<String>,
    pub sni: Option<String>,
    pub fp: Option<String>,
}

/// The record carries WebSocket options for a `ws` network.
pub open spec fn ws_options(v: Vmess) -> Option<WsOptions> {
    if v.network.deep_view() == Some("ws"@) {
        match v.transport {
            Transport::Ws(o) => Some(o),
            _ => None,
        }
    } else {
        None
    }
}

/// `p` is the wire form of `v`: the ALPN list joined with commas, the WebSocket
/// path and host taken from the options of a `ws` network.
pub open spec fn protocol_of(v: Vmess, p: VmessProtocol) -> bool {
    &&& p.v@ == "2"@
    &&& p.ps@ == v.name@
    &&& p.add@ == v.server@
    &&& p.port == v.port
    &&& p.id@ == v.uuid@
    &&& p.aid == v.alter_id
    &&& p.scy@ == v.cipher@
    &&& p.net.deep_view() == v.network.deep_view()
    &&& p.tls == v.tls
    &&& p.sni.deep_view() == v.servername.deep_view()
    &&& p.fp.deep_view() == v.fingerprint.deep_view()
    &&& p.alpn.deep_view() == match v.alpn.deep_view() {
        Some(l) => Some(join_spec(l, ',')),
        None => None,
    }
    &&& p.host.deep_view() == match ws_options(v) {
        Some(o) => o.host.deep_view(),
        None => None,
    }
    &&& p.path.deep_view() == match ws_options(v) {
        Some(o) => o.path.deep_view(),
        None => None,
    }
}

/// One `,"key":value` member of a JSON object.
pub open spec fn member(key: Seq<char>, value: Seq<char>) -> Seq<char> {
    seq![',', '"'] + key + seq!['"', ':'] + value
}

pub open spec fn text_member(key: Seq<char>, value: Option<Seq<char>>) -> Seq<char> {
    match value {
        Some(s) => member(key, json_quoted(s)),
        None => seq![],
    }
}

pub open spec fn bool_text(b: bool) -> Seq<char> {
    if b {
        "true"@
    } else {
        "false"@
    }
}

pub open spec fn flag_member(key: Seq<char>, value: Option<bool>) -> Seq<char> {
    match value {
        Some(b) => member(key, bool_text(b)),
        None => seq![],
    }
}

/// The JSON object of a link: absent options are left out.
pub open spec fn protocol_json(p: VmessProtocol) -> Seq<char> {
    "{\"v\":"@ + json_quoted(p.v@) + member("ps"@, json_quoted(p.ps@)) + member(
        "add"@,
        json_quoted(p.add@),
    ) + member("port"@, decimal(p.port as nat)) + member("id"@, json_quoted(p.id@)) + member(
        "aid"@,
        decimal(p.aid as nat),
    ) + member("scy"@, json_quoted(p.scy@)) + text_member("net"@, p.net.deep_view())
        + text_member("host"@, p.host.deep_view()) + text_member("path"@, p.path.deep_view())
        + flag_member("tls"@, p.tls) + text_member("alpn"@, p.alpn.deep_view()) + text_member(
        "sni"@,
        p.sni.deep_view(),
    ) + text_member("fp"@, p.fp.deep_view()) + "}"@
}

/// What a JSON reader finds in `protocol_json(p)`: the text members as strings, port
/// and alter-id as numbers, `tls` as a boolean.
pub open spec fn wire_of_protocol(p: VmessProtocol) -> WireModel {
    WireModel {
        ps: Some(p.ps@),
        add: Some(p.add@),
        id: Some(p.id@),
        port_text: None,
        port_num: Some(p.port as u64),
        aid_text: None,
        aid_num: Some(p.aid as u64),
        alpn: p.alpn.deep_view(),
        net: p.net.deep_view(),
        path: p.path.deep_view(),
        host: p.host.deep_view(),
        sni: p.sni.deep_view(),
        tls_text: None,
        tls_flag: p.tls,
    }
}

/// The members read from a link's JSON text.
pub open spec fn wire_of_text(t: Seq<char>) -> WireModel {
    WireModel {
        ps: json_str_member(t, "ps"@),
        add: json_str_member(t, "add"@),
        id: json_str_member(t, "id"@),
        port_text: json_str_member(t, "port"@),
        port_num: json_u64_member(t, "port"@),
        aid_text: json_str_member(t, "aid"@),
        aid_num: json_u64_member(t, "aid"@),
        alpn: json_str_member(t, "alpn"@),
        net: json_str_member(t, "net"@),
        path: json_str_member(t, "path"@),
        host: json_str_member(t, "host"@),
        sni: json_str_member(t, "sni"@),
        tls_text: json_str_member(t, "tls"@),
        tls_flag: json_bool_member(t, "tls"@),
    }
}

pub open spec fn is_ascii_text(s: Seq<char>) -> bool {
    forall|i: int| 0 <= i < s.len() ==> (#[trigger] s[i] as u32) < 128
}

pub open spec fn ascii_bytes(s: Seq<char>) -> Seq<u8> {
    s.map_values(|c: char| (c as u32) as u8)
}

pub open spec fn ascii_chars(b: Seq<u8>) -> Seq<char> {
    b.map_values(|x: u8| x as char)
}

/// The JSON text that a link carries: `vmess://`, then base64 of its UTF-8 bytes.
pub open spec fn link_json(link: Seq<char>) -> Option<Seq<char>> {
    if link.len() >= 8 && link.take(8) == "vmess://"@ && is_ascii_text(link.skip(8)) {
        match decode_spec(ascii_bytes(link.skip(8))) {
            Some(b) => if valid_utf8(b) {
                Some(decode_utf8(b))
            } else {
                None
            },
            None => None,
        }
    } else {
        None
    }
}

/// The link for the wire form `p`.
pub open spec fn link_text(p: VmessProtocol) -> Seq<char> {
    "vmess://"@ + ascii_chars(encode_spec(encode_utf8(protocol_json(p))))
}

/// The outcome of decoding `link`.
pub open spec fn link_decodes_to(link: Seq<char>, r: Result<Vmess, LinkError>) -> bool {
    match link_json(link) {
        None => r matches Err(LinkError::Malformed),
        Some(t) => if !json_is_object(t) {
            r matches Err(LinkError::Malformed)
        } else {
            decodes_to(wire_of_text(t), r)
        },
    }
}

/// Relies on `String::from_utf8`: it succeeds exactly on valid UTF-8, with the
/// characters that the bytes encode.
#[verifier::external_body]
fn utf8_text(b: Vec<u8>) -> (r: Option<String>)
    ensures
        match r {
            Some(s) => valid_utf8(b@) && s@ == decode_utf8(b@),
            None => !valid_utf8(b@),
        },
{
    String::from_utf8(b).ok()
}

fn push_all(out: &mut Vec<char>, s: &Vec<char>)
    ensures
        final(out)@ == old(out)@ + s@,
{
    let ghost pre = out@;
    let mut i: usize = 0;
    while i < s.len()
        invariant
            0 <= i <= s@.len(),
            out@ == pre + s@.take(i as int),
        decreases s@.len() - i,
    {
        out.push(s[i]);
        assert(s@.take(i + 1) =~= s@.take(i as int).push(s@[i as int]));
        i = i + 1;
    }
    assert(s@.take(i as int) =~= s@);
}

fn push_member(out: &mut Vec<char>, key: &str, value: &Vec<char>)
    ensures
        final(out)@ == old(out)@ + member(key@, value@),
{
    let ghost pre = out@;
    out.push(',');
    out.push('"');
    push_all(out, &chars_of(key));
    out.push('"');
    out.push(':');
    push_all(out, value);
    assert(out@ =~= pre + member(key@, value@));
}

fn push_text_member(out: &mut Vec<char>, key: &str, value: &Option<String>)
    ensures
        final(out)@ == old(out)@ + text_member(key@, value.deep_view()),
{
    match value {
        Some(s) => {
            let q = quote(s.as_str());
            push_member(out, key, &chars_of(q.as_str()));
        },
        None => {
            assert(out@ + seq![] =~= out@);
        },
    }
}

fn quoted(s: &String) -> (r: Vec<char>)
    ensures
        r@ == json_quoted(s@),
{
    let q = quote(s.as_str());
    chars_of(q.as_str())
}

impl VmessProtocol {
    /// The JSON object of the link, members in declaration order.
    pub fn to_json(&self) -> (r: String)
        ensures
            r@ == protocol_json(*self),
    {
        let mut out = chars_of("{\"v\":");
        push_all(&mut out, &quoted(&self.v));
        push_member(&mut out, "ps", &quoted(&self.ps));
        push_member(&mut out, "add", &quoted(&self.add));
        push_member(&mut out, "port", &decimal_of(self.port as u64));
        push_member(&mut out, "id", &quoted(&self.id));
        push_member(&mut out, "aid", &decimal_of(self.aid as u64));
        push_member(&mut out, "scy", &quoted(&self.scy));
        push_text_member(&mut out, "net", &self.net);
        push_text_member(&mut out, "host", &self.host);
        push_text_member(&mut out, "path", &self.path);
        match self.tls {
            Some(b) => {
                let t = if b {
                    chars_of("true")
                } else {
                    chars_of("false")
                };
                push_member(&mut out, "tls", &t);
            },
            None => {
                assert(out@ + seq![] =~= out@);
            },
        }
        push_text_member(&mut out, "alpn", &self.alpn);
        push_text_member(&mut out, "sni", &self.sni);
        push_text_member(&mut out, "fp", &self.fp);
        push_all(&mut out, &chars_of("}"));
        string_of(&out)
    }
}

fn ascii_to_bytes(s: &Vec<char>, start: usize) -> (r: Option<Vec<u8>>)
    requires
        start <= s@.len(),
    ensures
        match r {
            Some(b) => is_ascii_text(s@.skip(start as int)) && b@ == ascii_bytes(
                s@.skip(start as int),
            ),
            None => !is_ascii_text(s@.skip(start as int)),
        },
{
    let ghost t = s@.skip(start as int);
    let mut out: Vec<u8> = Vec::new();
    let mut i: usize = start;
    while i < s.len()
        invariant
            start <= i <= s@.len(),
            t == s@.skip(start as int),
            out@ == ascii_bytes(t.take(i - start)),
            is_ascii_text(t.take(i - start)),
        decreases s@.len() - i,
    {
        let c = s[i];
        assert(t[i - start] == c);
        if c as u32 >= 128 {
            return None;
        }
        out.push((c as u32) as u8);
        proof {
            assert(t.take(i + 1 - start) =~= t.take(i - start).push(c));
            assert(ascii_bytes(t.take(i + 1 - start)) =~= ascii_bytes(t.take(i - start)).push(
                (c as u32) as u8,
            ));
        }
        i = i + 1;
    }
    assert(t.take(i - start) =~= t);
    Some(out)
}

fn bytes_to_chars(b: &Vec<u8>) -> (r: Vec<char>)
    ensures
        r@ == ascii_chars(b@),
{
    let mut out: Vec<char> = Vec::new();
    let mut i: usize = 0;
    while i < b.len()
        invariant
            0 <= i <= b@.len(),
            out@ == ascii_chars(b@.take(i as int)),
        decreases b@.len() - i,
    {
        out.push(b[i] as char);
        assert(ascii_chars(b@.take(i + 1)) =~= ascii_chars(b@.take(i as int)).push(
            b@[i as int] as char,
        ));
        i = i + 1;
    }
    assert(b@.take(i as int) =~= b@);
    out
}

/// Reads the members of a link's JSON text.
pub fn read_fields(text: &str) -> (r: LinkFields)
    ensures
        r@ == wire_of_text(text@),
{
    LinkFields {
        ps: str_member(text, "ps"),
        add: str_member(text, "add"),
        id: str_member(text, "id"),
        port_text: str_member(text, "port"),
        port_num: u64_member(text, "port"),
        aid_text: str_member(text, "aid"),
        aid_num: u64_member(text, "aid"),
        alpn: str_member(text, "alpn"),
        net: str_member(text, "net"),
        path: str_member(text, "path"),
        host: str_member(text, "host"),
        sni: str_member(text, "sni"),
        tls_text: str_member(text, "tls"),
        tls_flag: bool_member(text, "tls"),
    }
}

/// The JSON text that a link carries, or `None` when the link is not `vmess://`
/// followed by base64 of UTF-8 text.
pub fn link_payload(link: &str) -> (r: Option<String>)
    ensures
        r.deep_view() == link_json(link@),
{
    let cs = chars_of(link);
    let prefix = chars_of("vmess://");
    proof {
        reveal_strlit("vmess://");
    }
    if cs.len() < 8 {
        return None;
    }
    let mut i: usize = 0;
    while i < 8
        invariant
            cs@ == link@,
            prefix@ == "vmess://"@,
            cs@.len() >= 8,
            prefix@.len() == 8,
            0 <= i <= 8,
            forall|k: int| 0 <= k < i ==> cs@[k] == prefix@[k],
        decreases 8 - i,
    {
        if cs[i] != prefix[i] {
            assert(cs@.take(8)[i as int] != prefix@[i as int]);
            return None;
        }
        i = i + 1;
    }
    assert(cs@.take(8) =~= prefix@);
    let bytes = match ascii_to_bytes(&cs, 8) {
        Some(b) => b,
        None => return None,
    };
    let raw = match decode(&bytes) {
        Some(raw) => raw,
        None => return None,
    };
    utf8_text(raw)
}

impl Vmess {
    /// Decodes a `vmess://` share link.
    pub fn from_link(link: String) -> (r: Result<Vmess, LinkError>)
        ensures
            link_decodes_to(link@, r),
    {
        let text = match link_payload(link.as_str()) {
            Some(t) => t,
            None => return Err(LinkError::Malformed),
        };
        if !is_json_object(text.as_str()) {
            return Err(LinkError::Malformed);
        }
        let fields = read_fields(text.as_str());
        Vmess::from_fields(&fields)
    }

    /// The wire form of the record.
    pub fn to_protocol(&self) -> (r: VmessProtocol)
        ensures
            protocol_of(*self, r),
    {
        let mut host: Option<String> = None;
        let mut path: Option<String> = None;
        if is_some_text(&self.network, "ws") {
            match &self.transport {
                Transport::Ws(o) => {
                    host = clone_opt(&o.host);
                    path = clone_opt(&o.path);
                },
                _ => {},
            }
        }
        let alpn = match &self.alpn {
            Some(l) => Some(string_of(&join_char(l, ','))),
            None => None,
        };
        VmessProtocol {
            v: "2".to_string(),
            ps: self.name.clone(),
            add: self.server.clone(),
            port: self.port,
            id: self.uuid.clone(),
            aid: self.alter_id,
            scy: self.cipher.clone(),
            net: clone_opt(&self.network),
            host,
            path,
            tls: self.tls,
            alpn,
            sni: clone_opt(&self.servername),
            fp: clone_opt(&self.fingerprint),
        }
    }

    /// Encodes the record as a `vmess://` share link.
    pub fn to_link(&self) -> (r: String)
        ensures
            exists|p: VmessProtocol| protocol_of(*self, p) && r@ == link_text(p),
    {
        let p = self.to_protocol();
        let json = p.to_json();
        let bytes = vstd::slice::slice_to_vec(json.as_str().as_bytes());
        let b64 = encode(&bytes);
        let mut out = chars_of("vmess://");
        push_all(&mut out, &bytes_to_chars(&b64));
        let r = string_of(&out);
        assert(r@ == link_text(p));
        r
    }

    pub fn get_name(&self) -> (r: &str)
        ensures
            r@ == self.name@,
    {
        self.name.as_str()
    }

    pub fn set_name(&mut self, name: &str)
        ensures
            final(self).name@ == name@,
            final(self).server == old(self).server,
            final(self).port == old(self).port,
            final(self).uuid == old(self).uuid,
            final(self).alter_id == old(self).alter_id,
            final(self).cipher == old(self).cipher,
            final(self).alpn == old(self).alpn,
            final(self).tls == old(self).tls,
            final(self).servername == old(self).servername,
            final(self).fingerprint == old(self).fingerprint,
            final(self).network == old(self).network,
            final(self).skip_cert_verify == old(self).skip_cert_verify,
            final(self).transport == old(self).transport,
    {
        self.name = name.to_string();
    }

    pub fn get_server(&self) -> (r: &str)
        ensures
            r@ == self.server@,
    {
        self.server.as_str()
    }
}

/// What identifies a proxy: server, port and credential.
pub open spec fn identity(v: Vmess) -> (Seq<char>, u16, Seq<char>) {
    (v.server@, v.port, v.uuid@)
}

impl PartialEq for Vmess {
    fn eq(&self, other: &Vmess) -> (r: bool) {
        self.server == other.server && self.port == other.port && self.uuid == other.uuid
    }
}

impl vstd::std_specs::cmp::PartialEqSpecImpl for Vmess {
    open spec fn obeys_eq_spec() -> bool {
        true
    }

    open spec fn eq_spec(&self, other: &Vmess) -> bool {
        identity(*self) == identity(*other)
    }
}

impl Vmess {
    /// The key under which records are deduplicated and hashed.
    pub fn identity_key(&self) -> (r: (String, u16, String))
        ensures
            (r.0@, r.1, r.2@) == identity(*self),
    {
        (self.server.clone(), self.port, self.uuid.clone())
    }
}

/// Records are equal exactly when their identity keys are, so equal records hash alike;
/// name and transport options play no part.
pub proof fn lemma_identity_equality(a: Vmess, b: Vmess)
    ensures
        a.eq_spec(&b) <==> (a.server@ == b.server@ && a.port == b.port && a.uuid@ == b.uuid@),
        a.eq_spec(&b) <==> identity(a) == identity(b),
{
}

proof fn lemma_decimal_digits(n: nat)
    ensures
        decimal(n).len() > 0,
        all_digits(decimal(n)),
        digits_value(decimal(n)) == n,
    decreases n,
{
    if n >= 10 {
        lemma_decimal_digits(n / 10);
        let d = decimal(n);
        assert(d.drop_last() == decimal(n / 10));
        assert forall|i: int| 0 <= i < d.len() implies is_digit(#[trigger] d[i]) by {
            if i < d.len() - 1 {
                assert(d[i] == decimal(n / 10)[i]);
            }
        }
        assert(d.last() as nat - '0' as nat == n % 10);
        assert(digits_value(d) == digits_value(d.drop_last()) * 10 + (d.last() as nat - '0' as nat));
        assert(digits_value(d.drop_last()) == n / 10);
        assert((n / 10) * 10 + n % 10 == n) by (nonlinear_arith);
    } else {
        let d = decimal(n);
        assert(d.drop_last() =~= Seq::<char>::empty());
        assert(d.last() as nat - '0' as nat == n);
        assert(digits_value(d) == digits_value(d.drop_last()) * 10 + (d.last() as nat - '0' as nat));
    }
}

/// Port and alter-id read the same whether the link gives them as decimal text or as
/// a JSON number; where it gives both, the text is read.
pub proof fn lemma_number_forms(n: u16, other: Option<u64>)
    ensures
        coerce_u16(Some(decimal(n as nat)), other) == Some(n),
        coerce_u16(None, Some(n as u64)) == Some(n),
{
    lemma_decimal_digits(n as nat);
    let d = decimal(n as nat);
    assert(is_digit(d[0]));
}

/// A link whose network is `quic` or `http` is rejected with that network type,
/// whatever its other members hold.
pub proof fn lemma_rejected_network(w: WireModel, r: Result<Vmess, LinkError>)
    requires
        decodes_to(w, r),
        w.net == Some("quic"@) || w.net == Some("http"@),
    ensures
        match r {
            Err(LinkError::UnsupportedTransport(m)) => Some(m@) == w.net,
            _ => false,
        },
{
}

/// An empty network is taken as no network, with no transport options.
pub proof fn lemma_empty_network(w: WireModel, v: Vmess)
    requires
        decodes_to(w, Ok(v)),
        w.net == Some(Seq::<char>::empty()),
    ensures
        v.network is None,
        v.transport is Plain,
{
    reveal_strlit("ws");
    reveal_strlit("grpc");
    reveal_strlit("quic");
    reveal_strlit("http");
    assert(Seq::<char>::empty() != "ws"@);
    assert(Seq::<char>::empty() != "grpc"@);
}

/// The two records hold the same values in every field.
pub open spec fn same_record(a: Vmess, b: Vmess) -> bool {
    &&& a.name@ == b.name@
    &&& identity(a) == identity(b)
    &&& a.alter_id == b.alter_id
    &&& a.cipher@ == b.cipher@
    &&& a.alpn.deep_view() == b.alpn.deep_view()
    &&& a.tls == b.tls
    &&& a.servername.deep_view() == b.servername.deep_view()
    &&& a.fingerprint.deep_view() == b.fingerprint.deep_view()
    &&& a.network.deep_view() == b.network.deep_view()
    &&& a.skip_cert_verify == b.skip_cert_verify
    &&& match (a.transport, b.transport) {
        (Transport::Plain, Transport::Plain) => true,
        (Transport::Ws(x), Transport::Ws(y)) => x.path.deep_view() == y.path.deep_view()
            && x.host.deep_view() == y.host.deep_view(),
        (Transport::Grpc(x), Transport::Grpc(y)) => x.grpc_service_name.deep_view()
            == y.grpc_service_name.deep_view(),
        _ => false,
    }
}

/// Decoding, encoding and decoding again gives the record of the first decode: the
/// wire form of a decoded record, read back, decodes, and to the same record.
pub proof fn lemma_round_trip(w: WireModel, v: Vmess, p: VmessProtocol, r: Result<Vmess, LinkError>)
    requires
        decodes_to(w, Ok(v)),
        protocol_of(v, p),
        decodes_to(wire_of_protocol(p), r),
    ensures
        r matches Ok(v2) && same_record(v, v2),
{
    reveal_strlit("ws");
    reveal_strlit("grpc");
    reveal_strlit("quic");
    reveal_strlit("http");
    let w2 = wire_of_protocol(p);
    lemma_number_forms(v.port, None);
    lemma_number_forms(v.alter_id, None);
    match w.net {
        Some(n) => {
            if n.len() == 0 {
                assert(n != "quic"@);
                assert(n != "http"@);
                assert(n =~= Seq::<char>::empty());
            }
        },
        None => {},
    }
    assert(!has_rejected_network(w2));
    assert(!has_field_error(w2));
    match w.alpn {
        Some(a) => {
            crate::text::lemma_join_split(a, ',');
        },
        None => {},
    }
    let v2 = r->Ok_0;
    assert(v2.alpn.deep_view() == v.alpn.deep_view());
    assert(v2.tls == v.tls);
}

proof fn lemma_ascii_back(b: Seq<u8>)
    requires
        forall|i: int| 0 <= i < b.len() ==> #[trigger] b[i] < 128,
    ensures
        is_ascii_text(ascii_chars(b)),
        ascii_bytes(ascii_chars(b)) == b,
{
    assert forall|i: int| 0 <= i < ascii_chars(b).len() implies (#[trigger] ascii_chars(b)[i] as u32) < 128 by {
        assert(ascii_chars(b)[i] == b[i] as char);
    }
    assert(ascii_bytes(ascii_chars(b)) =~= b);
}

/// The link written for a wire form carries exactly that wire form's JSON text.
pub proof fn lemma_link_carries_json(p: VmessProtocol)
    ensures
        link_json(link_text(p)) == Some(protocol_json(p)),
{
    reveal_strlit("vmess://");
    let bytes = encode_utf8(protocol_json(p));
    let enc = encode_spec(bytes);
    lemma_encode_ascii(bytes);
    lemma_ascii_back(enc);
    lemma_decode_encode(bytes);
    vstd::utf8::encode_utf8_valid_utf8(protocol_json(p));
    vstd::utf8::encode_utf8_decode_utf8(protocol_json(p));
    let link = link_text(p);
    assert(link.take(8) =~= "vmess://"@);
    assert(link.skip(8) =~= ascii_chars(enc));
}

} // verus!
