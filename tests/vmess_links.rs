use std::collections::hash_map::DefaultHasher;
use std::hash::{Hash, Hasher};

use proxrs::base64::encode;
use proxrs::vmess::{GrpcOptions, LinkError, LinkFields, Transport, Vmess};

fn link_of_json(json: &str) -> String {
    let b64 = encode(&json.as_bytes().to_vec());
    format!("vmess://{}", String::from_utf8(b64).unwrap())
}

fn fields() -> LinkFields {
    LinkFields {
        ps: Some("node".to_string()),
        add: Some("example.com".to_string()),
        id: Some("uuid-1".to_string()),
        port_text: None,
        port_num: Some(443),
        aid_text: None,
        aid_num: Some(0),
        alpn: None,
        net: None,
        path: None,
        host: None,
        sni: None,
        tls_text: None,
        tls_flag: None,
    }
}

fn hash_of(v: &Vmess) -> u64 {
    let mut h = DefaultHasher::new();
    v.identity_key().hash(&mut h);
    h.finish()
}

#[test]
fn test_parse_vmess() {
    let link = String::from("vmess://eyJ2IjoiMiIsInBzIjoiQHZwbnBvb2wiLCJhZGQiOiJrci5haWt1bmFwcC5jb20iLCJwb3J0IjoyMDAwNiwiaWQiOiIyMTM2ZGM2Yy01ZmQ0LTRiZmQtODhhMS0yYWVlYTk4ODhmOGIiLCJhaWQiOjAsInNjeSI6ImF1dG8iLCJuZXQiOiIiLCJ0bHMiOiIifQ==");
    let vmess = Vmess::from_link(link).unwrap();
    assert_eq!(vmess.server, "kr.aikunapp.com");
    assert_eq!(vmess.port, 20006);
    assert_eq!(vmess.uuid, "2136dc6c-5fd4-4bfd-88a1-2aeea9888f8b");
    assert_eq!(vmess.alter_id, 0);
    assert_eq!(vmess.network, None);
    assert!(!matches!(vmess.transport, Transport::Ws(_)));
}

#[test]
fn test_parse_ws_vmess() {
    let link = String::from("vmess://eyJ2IjoiMiIsInBzIjoiXHU1MmEwXHU2MmZmXHU1OTI3IDAzIFx1OWFkOFx1OTAxZlx1ZmYwODAuMVx1NTAwZFx1NmQ0MVx1OTFjZlx1NmQ4OFx1ODAxN1x1ZmYwOSIsImFkZCI6ImNkbmNkbmNkbmNkbi43ODQ2NTQueHl6IiwicG9ydCI6IjIwNTIiLCJpZCI6IjNlYTU3OGM2LTFlYWEtNGUxNS1iZmUxLTlmNzU3YjU4ZThmMiIsImFpZCI6IjAiLCJuZXQiOiJ3cyIsInR5cGUiOiJub25lIiwiaG9zdCI6ImNhLWNmY2RuLmFpa3VuYXBwLmNvbSIsInBhdGgiOiJcL2luZGV4P2VkPTIwNDgiLCJ0bHMiOiIifQ==");
    let vmess = Vmess::from_link(link).unwrap();
    assert_eq!(vmess.server, "cdncdncdncdn.784654.xyz");
    assert_eq!(vmess.port, 2052);
    assert_eq!(vmess.uuid, "3ea578c6-1eaa-4e15-bfe1-9f757b58e8f2");
    assert_eq!(vmess.alter_id, 0);
    assert_eq!(vmess.network, Some("ws".to_string()));
    assert!(matches!(vmess.transport, Transport::Ws(_)));
}

#[test]
fn test_parse_grpc_vmess() {
    let link = String::from("vmess://eyJ2IjoiMiIsInBzIjoiXHU5MDgwXHU4YmY3XHU2NWIwXHU3NTI4XHU2MjM3NjAlXHU4ZmQ0XHU1MjI5IiwiYWRkIjoiZGVmYXVsdC42NTNlYmVlYi01ZjYwLTRiZTUtOTU4ZC03YmY0ODM5Y2RjY2QuZWY2NjE2ZmQtNWIwNi00ODJmLTlkNjQtMTgzNzQ1NjU5Y2JmLmJ5dGVwcml2YXRlbGluay5jb20iLCJwb3J0IjoiNDQzIiwiaWQiOiJhNDQzMDZkNS0zMzQzLTQ0MDUtYTA4Yy0yZDU0NmE1N2QzYjgiLCJhaWQiOiIwIiwibmV0IjoiZ3JwYyIsInR5cGUiOiJub25lIiwiaG9zdCI6IiIsInBhdGgiOiIxMjMwNiIsInRscyI6InRscyIsInNuaSI6ImNkbjEuMTAzOTIub25saW5lIn0=");
    let vmess = Vmess::from_link(link).unwrap();
    assert_eq!(Some("grpc".to_string()), vmess.network);
    assert_eq!(
        Transport::Grpc(GrpcOptions {
            grpc_service_name: Some("cdn1.10392.online".to_string())
        }),
        vmess.transport
    );
}

#[test]
fn ws_link_keeps_path_and_host() {
    let link = String::from("vmess://eyJ2IjoiMiIsInBzIjoiXHU1MmEwXHU2MmZmXHU1OTI3IDAzIFx1OWFkOFx1OTAxZlx1ZmYwODAuMVx1NTAwZFx1NmQ0MVx1OTFjZlx1NmQ4OFx1ODAxN1x1ZmYwOSIsImFkZCI6ImNkbmNkbmNkbmNkbi43ODQ2NTQueHl6IiwicG9ydCI6IjIwNTIiLCJpZCI6IjNlYTU3OGM2LTFlYWEtNGUxNS1iZmUxLTlmNzU3YjU4ZThmMiIsImFpZCI6IjAiLCJuZXQiOiJ3cyIsInR5cGUiOiJub25lIiwiaG9zdCI6ImNhLWNmY2RuLmFpa3VuYXBwLmNvbSIsInBhdGgiOiJcL2luZGV4P2VkPTIwNDgiLCJ0bHMiOiIifQ==");
    let vmess = Vmess::from_link(link).unwrap();
    match vmess.transport {
        Transport::Ws(o) => {
            assert_eq!(o.path, Some("/index?ed=2048".to_string()));
            assert_eq!(o.host, Some("ca-cfcdn.aikunapp.com".to_string()));
        }
        _ => panic!("expected WebSocket options"),
    }
    assert_eq!(vmess.cipher, "auto");
    assert_eq!(vmess.fingerprint, Some("chrome".to_string()));
    assert_eq!(vmess.skip_cert_verify, Some(true));
    assert_eq!(vmess.tls, Some(false));
}

#[test]
fn port_as_text_or_number_reads_the_same() {
    let mut a = fields();
    a.port_text = Some("8443".to_string());
    a.port_num = None;
    a.aid_text = Some("2".to_string());
    a.aid_num = None;
    let mut b = fields();
    b.port_num = Some(8443);
    b.aid_num = Some(2);
    let va = Vmess::from_fields(&a).unwrap();
    let vb = Vmess::from_fields(&b).unwrap();
    assert_eq!(va.port, 8443);
    assert_eq!(vb.port, 8443);
    assert_eq!(va.alter_id, 2);
    assert_eq!(vb.alter_id, 2);
}

#[test]
fn quic_and_http_are_rejected() {
    for net in ["quic", "http"] {
        let json = format!(
            "{{\"v\":\"2\",\"ps\":\"n\",\"add\":\"a.com\",\"port\":1,\"id\":\"u\",\"aid\":0,\"net\":\"{}\"}}",
            net
        );
        match Vmess::from_link(link_of_json(&json)) {
            Err(LinkError::UnsupportedTransport(m)) => assert_eq!(m, net),
            other => panic!("unexpected {:?}", other),
        }
    }
    let mut f = fields();
    f.ps = None;
    f.net = Some("quic".to_string());
    assert!(matches!(Vmess::from_fields(&f), Err(LinkError::UnsupportedTransport(_))));
}

#[test]
fn empty_network_means_none() {
    let mut f = fields();
    f.net = Some(String::new());
    f.path = Some("/p".to_string());
    let v = Vmess::from_fields(&f).unwrap();
    assert_eq!(v.network, None);
    assert_eq!(v.transport, Transport::Plain);
}

#[test]
fn malformed_links() {
    assert!(matches!(Vmess::from_link("ss://abcd".to_string()), Err(LinkError::Malformed)));
    assert!(matches!(Vmess::from_link("vmess://%%%%".to_string()), Err(LinkError::Malformed)));
    assert!(matches!(Vmess::from_link(link_of_json("not json")), Err(LinkError::Malformed)));
    assert!(matches!(Vmess::from_link("vmess".to_string()), Err(LinkError::Malformed)));
    assert!(matches!(Vmess::from_link(link_of_json("[1,2]")), Err(LinkError::Malformed)));
    assert!(matches!(Vmess::from_link(link_of_json("\"text\"")), Err(LinkError::Malformed)));
}

#[test]
fn invalid_fields() {
    let json = "{\"ps\":\"n\",\"add\":\"a.com\",\"port\":\"abc\",\"id\":\"u\",\"aid\":0}";
    assert!(matches!(Vmess::from_link(link_of_json(json)), Err(LinkError::InvalidField)));
    let json = "{\"ps\":\"n\",\"add\":\"a.com\",\"port\":70000,\"id\":\"u\",\"aid\":0}";
    assert!(matches!(Vmess::from_link(link_of_json(json)), Err(LinkError::InvalidField)));
    let json = "{\"ps\":\"n\",\"port\":1,\"id\":\"u\",\"aid\":0}";
    assert!(matches!(Vmess::from_link(link_of_json(json)), Err(LinkError::InvalidField)));
    let mut f = fields();
    f.aid_text = Some("-1".to_string());
    assert!(matches!(Vmess::from_fields(&f), Err(LinkError::InvalidField)));
}

#[test]
fn identity_ignores_name_and_transport() {
    let a = Vmess::from_fields(&fields()).unwrap();
    let mut f = fields();
    f.ps = Some("other".to_string());
    f.net = Some("grpc".to_string());
    f.sni = Some("svc".to_string());
    let b = Vmess::from_fields(&f).unwrap();
    assert!(a == b);
    assert_eq!(hash_of(&a), hash_of(&b));
    let mut g = fields();
    g.port_num = Some(444);
    assert!(a != Vmess::from_fields(&g).unwrap());
    let mut g = fields();
    g.add = Some("example.org".to_string());
    assert!(a != Vmess::from_fields(&g).unwrap());
    let mut g = fields();
    g.id = Some("uuid-2".to_string());
    assert!(a != Vmess::from_fields(&g).unwrap());
}

#[test]
fn decode_encode_decode_is_stable() {
    let links = [
        "vmess://eyJ2IjoiMiIsInBzIjoiQHZwbnBvb2wiLCJhZGQiOiJrci5haWt1bmFwcC5jb20iLCJwb3J0IjoyMDAwNiwiaWQiOiIyMTM2ZGM2Yy01ZmQ0LTRiZmQtODhhMS0yYWVlYTk4ODhmOGIiLCJhaWQiOjAsInNjeSI6ImF1dG8iLCJuZXQiOiIiLCJ0bHMiOiIifQ==",
        "vmess://eyJ2IjoiMiIsInBzIjoiXHU1MmEwXHU2MmZmXHU1OTI3IDAzIFx1OWFkOFx1OTAxZlx1ZmYwODAuMVx1NTAwZFx1NmQ0MVx1OTFjZlx1NmQ4OFx1ODAxN1x1ZmYwOSIsImFkZCI6ImNkbmNkbmNkbmNkbi43ODQ2NTQueHl6IiwicG9ydCI6IjIwNTIiLCJpZCI6IjNlYTU3OGM2LTFlYWEtNGUxNS1iZmUxLTlmNzU3YjU4ZThmMiIsImFpZCI6IjAiLCJuZXQiOiJ3cyIsInR5cGUiOiJub25lIiwiaG9zdCI6ImNhLWNmY2RuLmFpa3VuYXBwLmNvbSIsInBhdGgiOiJcL2luZGV4P2VkPTIwNDgiLCJ0bHMiOiIifQ==",
        "vmess://eyJ2IjoiMiIsInBzIjoiXHU5MDgwXHU4YmY3XHU2NWIwXHU3NTI4XHU2MjM3NjAlXHU4ZmQ0XHU1MjI5IiwiYWRkIjoiZGVmYXVsdC42NTNlYmVlYi01ZjYwLTRiZTUtOTU4ZC03YmY0ODM5Y2RjY2QuZWY2NjE2ZmQtNWIwNi00ODJmLTlkNjQtMTgzNzQ1NjU5Y2JmLmJ5dGVwcml2YXRlbGluay5jb20iLCJwb3J0IjoiNDQzIiwiaWQiOiJhNDQzMDZkNS0zMzQzLTQ0MDUtYTA4Yy0yZDU0NmE1N2QzYjgiLCJhaWQiOiIwIiwibmV0IjoiZ3JwYyIsInR5cGUiOiJub25lIiwiaG9zdCI6IiIsInBhdGgiOiIxMjMwNiIsInRscyI6InRscyIsInNuaSI6ImNkbjEuMTAzOTIub25saW5lIn0=",
    ];
    for link in links {
        let first = Vmess::from_link(link.to_string()).unwrap();
        let again = first.to_link();
        assert_ne!(again, link);
        let second = Vmess::from_link(again).unwrap();
        assert_eq!(format!("{:?}", first), format!("{:?}", second));
    }
    let json = "{\"ps\":\"n\",\"add\":\"a.com\",\"port\":1,\"id\":\"u\",\"aid\":0,\"alpn\":\"h2,http/1.1\",\"tls\":\"true\"}";
    let first = Vmess::from_link(link_of_json(json)).unwrap();
    assert_eq!(first.alpn, Some(vec!["h2".to_string(), "http/1.1".to_string()]));
    let second = Vmess::from_link(first.to_link()).unwrap();
    assert_eq!(format!("{:?}", first), format!("{:?}", second));
    let json = "{\"ps\":\"n\",\"add\":\"a.com\",\"port\":1,\"id\":\"u\",\"aid\":0,\"udp\":\"true\"}";
    let first = Vmess::from_link(link_of_json(json)).unwrap();
    let second = Vmess::from_link(first.to_link()).unwrap();
    assert_eq!(format!("{:?}", first), format!("{:?}", second));
}

#[test]
fn wire_json_is_exact() {
    let v = Vmess::from_fields(&fields()).unwrap();
    let json = v.to_protocol().to_json();
    assert_eq!(
        json,
        "{\"v\":\"2\",\"ps\":\"node\",\"add\":\"example.com\",\"port\":443,\"id\":\"uuid-1\",\"aid\":0,\"scy\":\"auto\",\"fp\":\"chrome\"}"
    );
    let mut f = fields();
    f.ps = Some("a\"b".to_string());
    let v = Vmess::from_fields(&f).unwrap();
    assert!(v.to_protocol().to_json().contains("\"ps\":\"a\\\"b\""));
    assert!(v.to_link().starts_with("vmess://eyJ2Ijoi"));
}

#[test]
fn set_name_keeps_identity() {
    let mut v = Vmess::from_fields(&fields()).unwrap();
    let before = v.clone();
    v.set_name("HK_1");
    assert_eq!(v.get_name(), "HK_1");
    let mut renamed_back = v.clone();
    renamed_back.set_name("node");
    assert_eq!(format!("{:?}", renamed_back), format!("{:?}", before));
    assert_eq!(v.get_server(), "example.com");
    assert!(v == before);
}
