use crate::error::DnsError;
use crate::wire::{be16, lemma_be16_read, push_u16, read_u16, u16_at};
use vstd::prelude::*;

verus! {

/// Length of the fixed header, in bytes.
pub const HEADER_LEN: usize = 12;

#[derive(Clone, Copy, Debug, PartialEq, Eq, Structural)]
pub enum QueryMode {
    Query,
    Response,
}

/// A 4-bit operation or response code, kept as its raw value.
#[derive(Clone, Copy, Debug, PartialEq, Eq, Structural)]
pub struct OpCode(pub u8);

#[derive(Clone, Copy, Debug, PartialEq, Eq, Structural)]
pub enum Authoritative {
    Unowned,
    Owned,
}

#[derive(Clone, Copy, Debug, PartialEq, Eq, Structural)]
pub enum Truncation {
    Complete,
    Truncated,
}

#[derive(Clone, Copy, Debug, PartialEq, Eq, Structural)]
pub enum Recursion {
    Disabled,
    Enabled,
}

/// The three reserved flag bits: always zero on the wire, ignored when read.
#[derive(Clone, Copy, Debug, PartialEq, Eq, Structural)]
pub struct Reserved;

/// The second 16-bit word of the header, from the high bit down:
/// qr (1), op_code (4), aa (1), tc (1), rd (1), z (3), ra (1), r_code (4).
#[derive(Clone, Copy, Debug, PartialEq, Eq, Structural)]
pub struct Flags {
    pub qr: QueryMode,
    pub op_code: OpCode,
    pub aa: Authoritative,
    pub tc: Truncation,
    pub rd: Recursion,
    pub z: Reserved,
    pub ra: Recursion,
    pub r_code: OpCode,
}

#[derive(Clone, Copy, Debug, PartialEq, Eq, Structural)]
pub struct Header {
    pub id: u16,
    pub flags: Flags,
    pub qd_count: u16,
    pub an_count: u16,
    pub ns_count: u16,
    pub ar_count: u16,
}

impl QueryMode {
    /// The mode that a single bit encodes.
    pub fn from_bytes(b: u8) -> (r: Option<QueryMode>)
        ensures
            r == (if b == 0 {
                Some(QueryMode::Query)
            } else if b == 1 {
                Some(QueryMode::Response)
            } else {
                None
            }),
    {
        if b == 0 {
            Some(QueryMode::Query)
        } else if b == 1 {
            Some(QueryMode::Response)
        } else {
            None
        }
    }
}

impl Authoritative {
    /// The indicator that a single bit encodes.
    pub fn from_bytes(b: u8) -> (r: Option<Authoritative>)
        ensures
            r == (if b == 0 {
                Some(Authoritative::Unowned)
            } else if b == 1 {
                Some(Authoritative::Owned)
            } else {
                None
            }),
    {
        if b == 0 {
            Some(Authoritative::Unowned)
        } else if b == 1 {
            Some(Authoritative::Owned)
        } else {
            None
        }
    }
}

impl Truncation {
    /// The indicator that a single bit encodes.
    pub fn from_bytes(b: u8) -> (r: Option<Truncation>)
        ensures
            r == (if b == 0 {
                Some(Truncation::Complete)
            } else if b == 1 {
                Some(Truncation::Truncated)
            } else {
                None
            }),
    {
        if b == 0 {
            Some(Truncation::Complete)
        } else if b == 1 {
            Some(Truncation::Truncated)
        } else {
            None
        }
    }
}

impl Recursion {
    /// The indicator that a single bit encodes.
    pub fn from_bytes(b: u8) -> (r: Option<Recursion>)
        ensures
            r == (if b == 0 {
                Some(Recursion::Disabled)
            } else if b == 1 {
                Some(Recursion::Enabled)
            } else {
                None
            }),
    {
        if b == 0 {
            Some(Recursion::Disabled)
        } else if b == 1 {
            Some(Recursion::Enabled)
        } else {
            None
        }
    }
}

pub open spec fn qr_bit(m: QueryMode) -> u16 {
    match m {
        QueryMode::Query => 0,
        QueryMode::Response => 1,
    }
}

pub open spec fn aa_bit(a: Authoritative) -> u16 {
    match a {
        Authoritative::Unowned => 0,
        Authoritative::Owned => 1,
    }
}

pub open spec fn tc_bit(t: Truncation) -> u16 {
    match t {
        Truncation::Complete => 0,
        Truncation::Truncated => 1,
    }
}

pub open spec fn rec_bit(r: Recursion) -> u16 {
    match r {
        Recursion::Disabled => 0,
        Recursion::Enabled => 1,
    }
}

impl Flags {
    /// Both codes fit in four bits.
    pub open spec fn wf(&self) -> bool {
        self.op_code.0 < 16 && self.r_code.0 < 16
    }
}

impl Header {
    pub open spec fn wf(&self) -> bool {
        self.flags.wf()
    }
}

/// The flags packed into one 16-bit word; the reserved bits are zero.
pub open spec fn flags_word(f: Flags) -> u16 {
    (qr_bit(f.qr) << 15u16) | ((f.op_code.0 as u16) << 11u16) | (aa_bit(f.aa) << 10u16) | (
    tc_bit(f.tc) << 9u16) | (rec_bit(f.rd) << 8u16) | (rec_bit(f.ra) << 7u16) | (
    f.r_code.0 as u16)
}

/// The flags that a 16-bit word holds; the reserved bits are dropped.
pub open spec fn flags_of(w: u16) -> Flags {
    Flags {
        qr: if (w >> 15u16) & 1 == 1 {
            QueryMode::Response
        } else {
            QueryMode::Query
        },
        op_code: OpCode(((w >> 11u16) & 0xf) as u8),
        aa: if (w >> 10u16) & 1 == 1 {
            Authoritative::Owned
        } else {
            Authoritative::Unowned
        },
        tc: if (w >> 9u16) & 1 == 1 {
            Truncation::Truncated
        } else {
            Truncation::Complete
        },
        rd: if (w >> 8u16) & 1 == 1 {
            Recursion::Enabled
        } else {
            Recursion::Disabled
        },
        z: Reserved,
        ra: if (w >> 7u16) & 1 == 1 {
            Recursion::Enabled
        } else {
            Recursion::Disabled
        },
        r_code: OpCode((w & 0xf) as u8),
    }
}

/// The 12-byte wire form of a header.
pub open spec fn header_wire(h: Header) -> Seq<u8> {
    be16(h.id) + be16(flags_word(h.flags)) + be16(h.qd_count) + be16(h.an_count) + be16(
        h.ns_count,
    ) + be16(h.ar_count)
}

/// The header held by the 12 bytes at `pos`.
pub open spec fn header_of(b: Seq<u8>, pos: int) -> Header {
    Header {
        id: u16_at(b, pos),
        flags: flags_of(u16_at(b, pos + 2)),
        qd_count: u16_at(b, pos + 4),
        an_count: u16_at(b, pos + 6),
        ns_count: u16_at(b, pos + 8),
        ar_count: u16_at(b, pos + 10),
    }
}

/// Reading a header at `pos`: the header and the offset past it.
pub open spec fn header_at(b: Seq<u8>, pos: int) -> Result<(Header, int), DnsError> {
    if 0 <= pos && pos + HEADER_LEN <= b.len() {
        Ok((header_of(b, pos), pos + HEADER_LEN))
    } else {
        Err(DnsError::TruncatedMessage)
    }
}

proof fn lemma_flags_round_trip(f: Flags)
    requires
        f.wf(),
    ensures
        flags_of(flags_word(f)) == f,
        flags_word(f) & 0x70 == 0,
{
    let q = qr_bit(f.qr);
    let o = f.op_code.0 as u16;
    let a = aa_bit(f.aa);
    let t = tc_bit(f.tc);
    let d = rec_bit(f.rd);
    let v = rec_bit(f.ra);
    let c = f.r_code.0 as u16;
    let w = flags_word(f);
    assert(w == (q << 15u16) | (o << 11u16) | (a << 10u16) | (t << 9u16) | (d << 8u16) | (v
        << 7u16) | c);
    assert(((w >> 15u16) & 1 == q) && ((w >> 11u16) & 0xf == o) && ((w >> 10u16) & 1 == a) && ((w
        >> 9u16) & 1 == t) && ((w >> 8u16) & 1 == d) && ((w >> 7u16) & 1 == v) && (w & 0xf == c)
        && (w & 0x70 == 0)) by (bit_vector)
        requires
            w == (q << 15u16) | (o << 11u16) | (a << 10u16) | (t << 9u16) | (d << 8u16) | (v
                << 7u16) | c,
            q < 2,
            o < 16,
            a < 2,
            t < 2,
            d < 2,
            v < 2,
            c < 16,
    ;
    assert(f.z == Reserved);
}

impl Header {
    /// Appends the header's 12 bytes.
    pub fn encode(&self, out: &mut Vec<u8>)
        requires
            self.wf(),
        ensures
            final(out)@ == old(out)@ + header_wire(*self),
    {
        let f = self.flags;
        let q: u16 = match f.qr {
            QueryMode::Query => 0,
            QueryMode::Response => 1,
        };
        let a: u16 = match f.aa {
            Authoritative::Unowned => 0,
            Authoritative::Owned => 1,
        };
        let t: u16 = match f.tc {
            Truncation::Complete => 0,
            Truncation::Truncated => 1,
        };
        let d: u16 = match f.rd {
            Recursion::Disabled => 0,
            Recursion::Enabled => 1,
        };
        let v: u16 = match f.ra {
            Recursion::Disabled => 0,
            Recursion::Enabled => 1,
        };
        let w: u16 = (q << 15u16) | ((f.op_code.0 as u16) << 11u16) | (a << 10u16) | (t << 9u16)
            | (d << 8u16) | (v << 7u16) | (f.r_code.0 as u16);
        push_u16(out, self.id);
        push_u16(out, w);
        push_u16(out, self.qd_count);
        push_u16(out, self.an_count);
        push_u16(out, self.ns_count);
        push_u16(out, self.ar_count);
        assert(final(out)@ =~= old(out)@ + header_wire(*self));
    }

    /// Reads a header at `pos`.
    pub fn decode(buf: &[u8], pos: usize) -> (r: Result<(Header, usize), DnsError>)
        ensures
            match (r, header_at(buf@, pos as int)) {
                (Ok((h, e)), Ok((h2, e2))) => h == h2 && e == e2,
                (Err(x), Err(y)) => x == y,
                _ => false,
            },
            r matches Ok((h, _)) ==> h.wf(),
    {
        if pos > buf.len() || buf.len() - pos < HEADER_LEN {
            return Err(DnsError::TruncatedMessage);
        }
        let w = read_u16(buf, pos + 2);
        assert((w >> 11u16) & 0xf < 16 && w & 0xf < 16) by (bit_vector);
        let flags = Flags {
            qr: if (w >> 15u16) & 1 == 1 {
                QueryMode::Response
            } else {
                QueryMode::Query
            },
            op_code: OpCode(((w >> 11u16) & 0xf) as u8),
            aa: if (w >> 10u16) & 1 == 1 {
                Authoritative::Owned
            } else {
                Authoritative::Unowned
            },
            tc: if (w >> 9u16) & 1 == 1 {
                Truncation::Truncated
            } else {
                Truncation::Complete
            },
            rd: if (w >> 8u16) & 1 == 1 {
                Recursion::Enabled
            } else {
                Recursion::Disabled
            },
            z: Reserved,
            ra: if (w >> 7u16) & 1 == 1 {
                Recursion::Enabled
            } else {
                Recursion::Disabled
            },
            r_code: OpCode((w & 0xf) as u8),
        };
        let h = Header {
            id: read_u16(buf, pos),
            flags,
            qd_count: read_u16(buf, pos + 4),
            an_count: read_u16(buf, pos + 6),
            ns_count: read_u16(buf, pos + 8),
            ar_count: read_u16(buf, pos + 10),
        };
        Ok((h, pos + HEADER_LEN))
    }
}

/// Reading back the wire form of a well-formed header gives the same header,
/// and the reserved bits of that wire form are zero.
pub proof fn lemma_header_round_trip(h: Header)
    requires
        h.wf(),
    ensures
        header_at(header_wire(h), 0) == Ok::<(Header, int), DnsError>((h, HEADER_LEN as int)),
        header_wire(h)[3] & 0x70 == 0,
{
    let b = header_wire(h);
    lemma_flags_round_trip(h.flags);
    assert(b.subrange(0, 2) =~= be16(h.id));
    assert(b.subrange(2, 4) =~= be16(flags_word(h.flags)));
    assert(b.subrange(4, 6) =~= be16(h.qd_count));
    assert(b.subrange(6, 8) =~= be16(h.an_count));
    assert(b.subrange(8, 10) =~= be16(h.ns_count));
    assert(b.subrange(10, 12) =~= be16(h.ar_count));
    lemma_be16_read(b, 0, h.id);
    lemma_be16_read(b, 2, flags_word(h.flags));
    lemma_be16_read(b, 4, h.qd_count);
    lemma_be16_read(b, 6, h.an_count);
    lemma_be16_read(b, 8, h.ns_count);
    lemma_be16_read(b, 10, h.ar_count);
    let w = flags_word(h.flags);
    assert(b[3] == (w % 256) as u8);
    assert((w & 0x70 == 0) ==> ((w % 256) as u8) & 0x70 == 0) by (bit_vector);
}

} // verus!
