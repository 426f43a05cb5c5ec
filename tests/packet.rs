use dns_stub::client::{answers_of, build_query, new_query, query_bytes};
use dns_stub::domain::{Class, Record};
use dns_stub::header::{
    Authoritative, Flags, OpCode, QueryMode, Recursion, Reserved, Truncation,
};
use dns_stub::name::encode_text;
use dns_stub::route::Address;
use dns_stub::{DnsError, Domain, Header, Message, Name, Route};

const EXAMPLE_QUERY: [u8; 29] = [
    0x86, 0x2a, 0x01, 0x00, 0x00, 0x01, 0x00, 0x00, 0x00, 0x00, 0x00, 0x00, 0x07, 0x65, 0x78,
    0x61, 0x6d, 0x70, 0x6c, 0x65, 0x03, 0x63, 0x6f, 0x6d, 0x00, 0x00, 0x01, 0x00, 0x01,
];

fn question_bytes(name: &[u8]) -> Vec<u8> {
    let mut v = encode_text(name).unwrap();
    v.extend_from_slice(&[0, 1, 0, 1]);
    v
}

fn answer_bytes(ttl: u32, rdlen: u16, data: &[u8]) -> Vec<u8> {
    let mut v = vec![0xc0, 0x0c, 0x00, 0x01, 0x00, 0x01];
    v.extend_from_slice(&ttl.to_be_bytes());
    v.extend_from_slice(&rdlen.to_be_bytes());
    v.extend_from_slice(data);
    v
}

/// A reply for example.com carrying four A records, each named by a pointer.
fn four_answer_response() -> Vec<u8> {
    let mut v = vec![
        0x86, 0x2a, 0x81, 0x80, 0x00, 0x01, 0x00, 0x04, 0x00, 0x00, 0x00, 0x00,
    ];
    v.extend(question_bytes(b"example.com"));
    v.extend(answer_bytes(300, 4, &[93, 184, 216, 34]));
    v.extend(answer_bytes(300, 4, &[1, 2, 3, 4]));
    v.extend(answer_bytes(60, 4, &[5, 6, 7, 8]));
    v.extend(answer_bytes(60, 4, &[9, 10, 11, 12]));
    v
}

#[test]
fn test_domain_new_aa() {
    let domain = Domain::new_aa(Name::try_from("example.com").unwrap());
    assert_eq!(domain.name(), "example.com");
    assert_eq!(domain.record(), Record::AA);
    assert_eq!(domain.class(), Class::IN);
}

#[test]
fn test_domain_to_bytes() {
    let domain = Domain::new_aa(Name::try_from("google.com").unwrap());
    assert_eq!(
        domain.to_bytes().unwrap(),
        &[0x6, 0x67, 0x6f, 0x6f, 0x67, 0x6c, 0x65, 0x03, 0x63, 0x6f, 0x6d, 0, 0, 1, 0, 1,]
    );
}

#[test]
fn test_recursion_from() {
    let e = Recursion::from_bytes(1u8).unwrap();
    let d = Recursion::from_bytes(0u8).unwrap();
    assert_eq!(e, Recursion::Enabled);
    assert_eq!(d, Recursion::Disabled);
}

#[test]
fn test_truncation_from() {
    let e = Truncation::from_bytes(1u8).unwrap();
    let d = Truncation::from_bytes(0u8).unwrap();
    assert_eq!(e, Truncation::Truncated);
    assert_eq!(d, Truncation::Complete);
}

#[test]
fn test_authoritative_from() {
    let e = Authoritative::from_bytes(1u8).unwrap();
    let d = Authoritative::from_bytes(0u8).unwrap();
    assert_eq!(e, Authoritative::Owned);
    assert_eq!(d, Authoritative::Unowned);
}

#[test]
fn test_mode_from() {
    let e = QueryMode::from_bytes(1u8).unwrap();
    let d = QueryMode::from_bytes(0u8).unwrap();
    assert_eq!(e, QueryMode::Response);
    assert_eq!(d, QueryMode::Query);
}

#[test]
fn test_query_domain() {
    let domain = Domain::new_aa(Name::try_from("example.com").unwrap());
    let message = Message::query_domain(34346, domain);
    assert_eq!(message.questions().len(), 1);
    assert_eq!(message.questions()[0].name(), "example.com");
}

#[test]
fn test_query_domain_bytes() {
    let domain = Domain::new_aa(Name::try_from("google.com").unwrap());
    let message = Message::query_domain(34346, domain);
    assert_eq!(
        message.into_bytes().unwrap(),
        vec![
            0x86, 0x2a, 0x01, 0x00, 0x00, 0x01, 0x00, 0x00, 0x00, 0x00, 0x00, 0x00, 0x06, 0x67,
            0x6f, 0x6f, 0x67, 0x6c, 0x65, 0x03, 0x63, 0x6f, 0x6d, 0x00, 0x00, 0x01, 0x00, 0x01
        ]
    );
}

#[test]
fn test_parse_response() {
    let data = four_answer_response();
    assert!(!data.is_empty());

    let msg = Message::from_bytes(&data).unwrap();
    assert_eq!(msg.questions().len(), 1);
    assert_eq!(msg.answers().len(), 4);
}

#[test]
fn test_name_from_str() {
    let name = Name::try_from("example.com").unwrap();
    assert_eq!(name.as_str(), "example.com");
}

#[test]
fn test_name_from_str_with_invalid_length() {
    let result = Name::try_from("a".repeat(255 + 1).as_str());
    assert!(result.is_err());
}

#[test]
fn test_name_from_bytes() {
    let bytes = b"\x03www\x07example\x03com\x00";
    let (name, _) = Name::decode(bytes, 0).unwrap();
    assert_eq!(name.as_str(), "www.example.com");
}

#[test]
fn build_query_example_bytes() {
    let m = build_query(42, "example.com").unwrap();
    assert_eq!(m.header().flags.rd, Recursion::Enabled);
    assert_eq!(m.header().qd_count, 1);
    let mut expected = vec![0x00, 0x2a];
    expected.extend_from_slice(&EXAMPLE_QUERY[2..]);
    assert_eq!(m.into_bytes().unwrap(), expected);
    assert_eq!(query_bytes(0x862a, "example.com").unwrap(), EXAMPLE_QUERY.to_vec());
}

#[test]
fn new_query_uses_its_id() {
    let (id, bytes) = new_query("example.com").unwrap();
    assert_eq!(bytes[0], (id >> 8) as u8);
    assert_eq!(bytes[1], (id & 0xff) as u8);
    assert_eq!(&bytes[2..], &EXAMPLE_QUERY[2..]);
    assert_eq!(new_query("bad..name").unwrap_err(), DnsError::InvalidName);
}

#[test]
fn parse_four_answers_end_to_end() {
    let data = four_answer_response();
    let msg = Message::from_bytes(&data).unwrap();
    assert_eq!(msg.header().qd_count, 1);
    assert_eq!(msg.header().an_count, 4);
    assert_eq!(msg.header().flags.qr, QueryMode::Response);
    assert_eq!(msg.header().flags.ra, Recursion::Enabled);
    let start = 12 + 17;
    for (i, r) in msg.answers().iter().enumerate() {
        let at = start + i * 16 + 12;
        assert_eq!(&r.adr.octets()[..], &data[at..at + 4]);
        assert_eq!(r.domain.name(), "example.com");
    }
    assert_eq!(msg.answers()[0].ttl, 300);
    assert_eq!(msg.answers()[3].adr, Address::Ipv4([9, 10, 11, 12]));
    let routes: Vec<Route> = answers_of(&data).unwrap();
    assert_eq!(routes.len(), 4);
    assert_eq!(routes[1].adr.octets(), [1, 2, 3, 4]);
}

#[test]
fn record_with_rdlength_six_is_rejected() {
    let mut data = vec![0x12, 0x34, 0x81, 0x80, 0, 1, 0, 1, 0, 0, 0, 0];
    data.extend(question_bytes(b"example.com"));
    data.extend(answer_bytes(300, 6, &[1, 2, 3, 4, 5, 6]));
    assert_eq!(Message::from_bytes(&data).unwrap_err(), DnsError::InvalidRecordLength);
    assert_eq!(Route::decode(&data, 29).unwrap_err(), DnsError::InvalidRecordLength);
}

#[test]
fn question_with_class_two_is_rejected() {
    let mut q = encode_text(b"example.com").unwrap();
    q.extend_from_slice(&[0, 1, 0, 2]);
    assert_eq!(Domain::decode(&q, 0).unwrap_err(), DnsError::UnsupportedClass);
}

#[test]
fn question_with_type_five_is_rejected() {
    let mut q = encode_text(b"example.com").unwrap();
    q.extend_from_slice(&[0, 5, 0, 1]);
    assert_eq!(Domain::decode(&q, 0).unwrap_err(), DnsError::UnsupportedRecordType);
}

#[test]
fn header_round_trip_keeps_fields_and_zeroes_reserved() {
    let h = Header {
        id: 0xbeef,
        flags: Flags {
            qr: QueryMode::Response,
            op_code: OpCode(2),
            aa: Authoritative::Owned,
            tc: Truncation::Truncated,
            rd: Recursion::Enabled,
            z: Reserved,
            ra: Recursion::Enabled,
            r_code: OpCode(3),
        },
        qd_count: 1,
        an_count: 2,
        ns_count: 3,
        ar_count: 4,
    };
    let mut out = Vec::new();
    h.encode(&mut out);
    assert_eq!(out, vec![0xbe, 0xef, 0x97, 0x83, 0, 1, 0, 2, 0, 3, 0, 4]);
    let (back, end) = Header::decode(&out, 0).unwrap();
    assert_eq!(back, h);
    assert_eq!(end, 12);
    let noisy = [0, 0, 0x00, 0x70, 0, 0, 0, 0, 0, 0, 0, 0];
    let (h2, _) = Header::decode(&noisy, 0).unwrap();
    let mut again = Vec::new();
    h2.encode(&mut again);
    assert_eq!(again[3], 0);
}

#[test]
fn name_round_trip_through_wire() {
    for text in ["a", "example.com", "www.example.co.uk", "x-y.z9"] {
        let n = Name::try_from(text).unwrap();
        let w = n.to_bytes().unwrap();
        assert_eq!(w.len(), text.len() + 2);
        let (back, end) = Name::decode(&w, 0).unwrap();
        assert_eq!(back, n);
        assert_eq!(end, w.len());
    }
}

#[test]
fn name_limits() {
    let label63 = "a".repeat(63);
    assert!(Name::try_from(label63.as_str()).is_ok());
    let label64 = "a".repeat(64);
    assert_eq!(Name::try_from(label64.as_str()).unwrap_err(), DnsError::InvalidName);
    let long = vec!["abc"; 63].join(".");
    assert_eq!(long.len(), 251);
    assert!(Name::try_from(long.as_str()).is_ok());
    let longer = format!("{long}.ab");
    assert_eq!(longer.len(), 254);
    assert_eq!(Name::try_from(longer.as_str()).unwrap_err(), DnsError::InvalidName);
    assert_eq!(Name::try_from("").unwrap_err(), DnsError::InvalidName);
    assert_eq!(Name::try_from("a..b").unwrap_err(), DnsError::InvalidName);
    assert_eq!(Name::try_from("a.b.").unwrap_err(), DnsError::InvalidName);
}

#[test]
fn compressed_name_reads_as_its_target() {
    let mut buf = encode_text(b"mail.example.com").unwrap();
    let first = buf.len();
    buf.extend_from_slice(&[0xc0, 0x00]);
    let (a, _) = Name::decode(&buf, 0).unwrap();
    let (b, end) = Name::decode(&buf, first).unwrap();
    assert_eq!(a.as_str(), b.as_str());
    assert_eq!(end, first + 2);
    buf.extend_from_slice(&[0x03, b'w', b'w', b'w', 0xc0, 0x05]);
    let (c, end) = Name::decode(&buf, first + 2).unwrap();
    assert_eq!(c.as_str(), "www.example.com");
    assert_eq!(end, buf.len());
}

#[test]
fn name_decode_errors() {
    assert_eq!(Name::decode(&[], 0).unwrap_err(), DnsError::TruncatedName);
    assert_eq!(Name::decode(&[3, b'a', b'b'], 0).unwrap_err(), DnsError::TruncatedName);
    assert_eq!(Name::decode(&[1, b'a'], 0).unwrap_err(), DnsError::TruncatedName);
    assert_eq!(Name::decode(&[0xc0], 0).unwrap_err(), DnsError::TruncatedName);
    assert_eq!(Name::decode(&[0xc0, 0x05], 0).unwrap_err(), DnsError::MalformedPointer);
    assert_eq!(Name::decode(&[0xc0, 0x00], 0).unwrap_err(), DnsError::PointerLoop);
    assert_eq!(Name::decode(&[0x40, 0x00], 0).unwrap_err(), DnsError::UnsupportedLabel);
    assert_eq!(Name::decode(&[2, 0xff, 0xfe, 0], 0).unwrap_err(), DnsError::InvalidName);
}

#[test]
fn every_prefix_of_a_response_fails_cleanly_or_reads_fully() {
    let data = four_answer_response();
    let full = Message::from_bytes(&data).unwrap();
    for k in 0..=data.len() {
        match Message::from_bytes(&data[..k]) {
            Ok(m) => assert_eq!(m, full),
            Err(e) => assert!(
                e == DnsError::TruncatedName || e == DnsError::TruncatedMessage,
                "cut at {k}: {e:?}"
            ),
        }
    }
    assert_eq!(Message::from_bytes(&data[..5]).unwrap_err(), DnsError::TruncatedMessage);
}

#[test]
fn trailing_sections_are_not_read() {
    let mut data = four_answer_response();
    data[9] = 2;
    data.extend_from_slice(&[0xff, 0xff]);
    let msg = Message::from_bytes(&data).unwrap();
    assert_eq!(msg.answers().len(), 4);
    assert_eq!(msg.header().ns_count, 2);
}

fn dotted(a: Address) -> String {
    let o = a.octets();
    format!("{}.{}.{}.{}", o[0], o[1], o[2], o[3])
}

#[test]
fn test_address_parse() {
    let chunk = &[0x00, 0x04, 0x7f, 0x00, 0x00, 0x01];
    let (adr, end) = Address::decode(chunk, 0).unwrap();
    assert_eq!(dotted(adr), "127.0.0.1".to_string());
    assert_eq!(end, 6);
}

#[test]
fn test_address_write() {
    let adr = Address::Ipv4([127, 0, 0, 1]);
    let mut writer = Vec::new();
    adr.encode(&mut writer);

    assert_eq!(writer, &[0x00, 0x04, 0x7f, 0x00, 0x00, 0x01]);
}

#[test]
fn address_errors() {
    assert_eq!(Address::decode(&[0x00], 0).unwrap_err(), DnsError::TruncatedMessage);
    assert_eq!(Address::decode(&[0x00, 0x06, 1, 2, 3, 4, 5, 6], 0).unwrap_err(), DnsError::InvalidRecordLength);
    assert_eq!(Address::decode(&[0x00, 0x04, 1, 2, 3], 0).unwrap_err(), DnsError::TruncatedMessage);
}

#[test]
fn route_round_trip() {
    let r = Route {
        domain: Domain::new_aa(Name::try_from("ns1.example.org").unwrap()),
        ttl: 0x01020304,
        adr: Address::Ipv4([10, 0, 0, 7]),
    };
    let w = r.to_bytes().unwrap();
    assert_eq!(&w[w.len() - 10..], &[1, 2, 3, 4, 0, 4, 10, 0, 0, 7]);
    let (back, end) = Route::decode(&w, 0).unwrap();
    assert_eq!(back, r);
    assert_eq!(end, w.len());
}

#[test]
fn query_bytes_parse_back_as_the_query() {
    let bytes = query_bytes(7, "mail.example.net").unwrap();
    let m = Message::from_bytes(&bytes).unwrap();
    assert_eq!(m, build_query(7, "mail.example.net").unwrap());
    assert_eq!(m.questions()[0].name(), "mail.example.net");
    assert!(m.answers().is_empty());
}
