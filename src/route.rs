use crate::domain::{lemma_question_prefix, question_at, question_wire, Domain, QuestionView};
use crate::name::same_or_cut;
use crate::error::DnsError;
use crate::name::valid_text;
use crate::wire::{be16, be32, push_u16, push_u32, read_u16, read_u32, u16_at, u32_at};
use vstd::prelude::*;
use vstd::utf8::encode_utf8;

verus! {

/// RDLENGTH of an IPv4 address record.
pub const IPV4_LEN: u16 = 4;

/// The data of an answer record.
#[derive(Clone, Copy, Debug, PartialEq, Eq)]
pub enum Address {
    /// An IPv4 address, as its four bytes in network order.
    Ipv4([u8; 4]),
}

impl View for Address {
    type V = Seq<u8>;

    open spec fn view(&self) -> Seq<u8> {
        match self {
            Address::Ipv4(a) => a@,
        }
    }
}

/// The wire form of an address: RDLENGTH 4, then the four bytes.
pub open spec fn address_wire(a: Seq<u8>) -> Seq<u8> {
    be16(IPV4_LEN) + a
}

/// Reading an address (RDLENGTH and data) at `pos`: its bytes and the offset past it.
pub open spec fn address_at(b: Seq<u8>, pos: int) -> Result<(Seq<u8>, int), DnsError> {
    if pos + 2 > b.len() {
        Err(DnsError::TruncatedMessage)
    } else if u16_at(b, pos) != IPV4_LEN {
        Err(DnsError::InvalidRecordLength)
    } else if pos + 6 > b.len() {
        Err(DnsError::TruncatedMessage)
    } else {
        Ok((b.subrange(pos + 2, pos + 6), pos + 6))
    }
}

impl Address {
    /// The four bytes of the address, in network order.
    pub fn octets(&self) -> (r: [u8; 4])
        ensures
            r@ == self@,
    {
        match self {
            Address::Ipv4(a) => *a,
        }
    }

    /// Appends the address's wire form.
    pub fn encode(&self, out: &mut Vec<u8>)
        ensures
            final(out)@ == old(out)@ + address_wire(self@),
    {
        push_u16(out, IPV4_LEN);
        let a = self.octets();
        out.push(a[0]);
        out.push(a[1]);
        out.push(a[2]);
        out.push(a[3]);
        assert(final(out)@ =~= old(out)@ + address_wire(self@));
    }

    /// Reads an address at `pos`: RDLENGTH, which must be 4, then the four bytes.
    pub fn decode(buf: &[u8], pos: usize) -> (r: Result<(Address, usize), DnsError>)
        ensures
            match (r, address_at(buf@, pos as int)) {
                (Ok((a, e)), Ok((v, e2))) => a@ == v && e == e2,
                (Err(x), Err(y)) => x == y,
                _ => false,
            },
    {
        let n = buf.len();
        if pos > n || n - pos < 2 {
            return Err(DnsError::TruncatedMessage);
        }
        if read_u16(buf, pos) != IPV4_LEN {
            return Err(DnsError::InvalidRecordLength);
        }
        if n - pos < 6 {
            return Err(DnsError::TruncatedMessage);
        }
        let a: [u8; 4] = [buf[pos + 2], buf[pos + 3], buf[pos + 4], buf[pos + 5]];
        assert(a@ =~= buf@.subrange(pos + 2, pos + 6));
        Ok((Address::Ipv4(a), pos + 6))
    }
}

/// One answer record: its question part, time to live, and address.
#[derive(Clone, Debug, PartialEq)]
pub struct Route {
    pub domain: Domain,
    pub ttl: u32,
    pub adr: Address,
}

/// An answer as plain values: question part, TTL, the four address bytes.
pub type RouteView = (QuestionView, u32, Seq<u8>);

impl View for Route {
    type V = RouteView;

    open spec fn view(&self) -> RouteView {
        (self.domain@, self.ttl, self.adr@)
    }
}

/// The wire form of an answer whose name is the text `t`.
pub open spec fn route_wire(t: Seq<u8>, ttl: u32, adr: Seq<u8>) -> Seq<u8> {
    question_wire(t) + be32(ttl) + address_wire(adr)
}

/// Reading an answer record at `pos`: the answer and the offset past it.
pub open spec fn route_at(b: Seq<u8>, pos: int) -> Result<(RouteView, int), DnsError> {
    match question_at(b, pos) {
        Err(e) => Err(e),
        Ok((q, e)) => if e + 4 > b.len() {
            Err(DnsError::TruncatedMessage)
        } else {
            match address_at(b, e + 4) {
                Err(x) => Err(x),
                Ok((a, e2)) => Ok(((q, u32_at(b, e), a), e2)),
            }
        },
    }
}

impl Route {
    /// The record's wire form; fails when its name cannot be sent.
    pub fn to_bytes(&self) -> (r: Result<Vec<u8>, DnsError>)
        ensures
            r is Ok <==> valid_text(encode_utf8(self@.0.0)),
            r matches Ok(w) ==> w@ == route_wire(encode_utf8(self@.0.0), self.ttl, self.adr@),
            r matches Err(e) ==> e == DnsError::InvalidName,
    {
        match self.domain.to_bytes() {
            Ok(w) => {
                let mut out = w;
                let ghost q = out@;
                push_u32(&mut out, self.ttl);
                self.adr.encode(&mut out);
                assert(out@ =~= q + be32(self.ttl) + address_wire(self.adr@));
                Ok(out)
            },
            Err(e) => Err(e),
        }
    }

    /// Reads an answer record at `pos` of a whole message buffer.
    pub fn decode(buf: &[u8], pos: usize) -> (r: Result<(Route, usize), DnsError>)
        ensures
            match (r, route_at(buf@, pos as int)) {
                (Ok((rt, e)), Ok((v, e2))) => rt@ == v && e == e2,
                (Err(x), Err(y)) => x == y,
                _ => false,
            },
    {
        let (domain, e) = match Domain::decode(buf, pos) {
            Ok(v) => v,
            Err(x) => {
                return Err(x);
            },
        };
        let n = buf.len();
        if e > n || n - e < 4 {
            return Err(DnsError::TruncatedMessage);
        }
        let ttl = read_u32(buf, e);
        match Address::decode(buf, e + 4) {
            Ok((adr, e2)) => Ok((Route { domain, ttl, adr }, e2)),
            Err(x) => Err(x),
        }
    }
}

pub(crate) proof fn lemma_route_prefix(b: Seq<u8>, k: int, p: int)
    requires
        0 <= k <= b.len(),
        route_at(b, p) is Ok,
    ensures
        same_or_cut(route_at(b.take(k), p), route_at(b, p)),
{
    let c = b.take(k);
    lemma_question_prefix(b, k, p);
    if question_at(c, p) is Ok {
        let e = question_at(c, p).unwrap().1;
        if e + 6 <= k {
            assert(c[e] == b[e] && c[e + 1] == b[e + 1] && c[e + 2] == b[e + 2] && c[e + 3]
                == b[e + 3] && c[e + 4] == b[e + 4] && c[e + 5] == b[e + 5]);
        }
        if e + 10 <= k {
            assert(c.subrange(e + 6, e + 10) =~= b.subrange(e + 6, e + 10));
        }
    }
}

} // verus!
