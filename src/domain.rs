use crate::error::DnsError;
use crate::name::{lemma_name_decode_prefix, name_decode, name_wire, same_or_cut, valid_text, Name};
use crate::wire::{be16, push_u16, read_u16, u16_at};
use vstd::prelude::*;
use vstd::utf8::encode_utf8;

verus! {

/// The one tag value that this codec accepts for a record type (`A`) and a class (`IN`).
pub const TAG_ONE: u16 = 1;

/// Record types: only the IPv4 address record.
#[derive(Clone, Copy, Debug, PartialEq, Eq, Structural)]
pub enum Record {
    AA,
}

/// Record classes: only the Internet.
#[derive(Clone, Copy, Debug, PartialEq, Eq, Structural)]
pub enum Class {
    IN,
}

/// One entry of the question section: a name with its record type and class.
#[derive(Clone, Debug, PartialEq)]
pub struct Domain {
    name: Name,
    record: Record,
    class: Class,
}

/// A question as plain values: the name's characters, its type and its class.
pub type QuestionView = (Seq<char>, Record, Class);

impl View for Domain {
    type V = QuestionView;

    closed spec fn view(&self) -> QuestionView {
        (self.name@, self.record, self.class)
    }
}

/// The wire form of a question whose name is the text `t`: the plain name, then
/// type 1 and class 1.
pub open spec fn question_wire(t: Seq<u8>) -> Seq<u8> {
    name_wire(t) + be16(TAG_ONE) + be16(TAG_ONE)
}

/// Reading a question at `pos`: the question and the offset past it.
pub open spec fn question_at(b: Seq<u8>, pos: int) -> Result<(QuestionView, int), DnsError> {
    match name_decode(b, pos) {
        Err(e) => Err(e),
        Ok((s, e)) => if e + 2 > b.len() {
            Err(DnsError::TruncatedMessage)
        } else if u16_at(b, e) != TAG_ONE {
            Err(DnsError::UnsupportedRecordType)
        } else if e + 4 > b.len() {
            Err(DnsError::TruncatedMessage)
        } else if u16_at(b, e + 2) != TAG_ONE {
            Err(DnsError::UnsupportedClass)
        } else {
            Ok(((s, Record::AA, Class::IN), e + 4))
        },
    }
}

impl Domain {
    /// A question for the IPv4 addresses of `name`.
    pub fn new_aa(name: Name) -> (r: Domain)
        ensures
            r@ == (name@, Record::AA, Class::IN),
    {
        Domain { name, record: Record::AA, class: Class::IN }
    }

    pub fn name(&self) -> (r: &str)
        ensures
            r@ == self@.0,
    {
        self.name.as_str()
    }

    pub fn record(&self) -> (r: Record)
        ensures
            r == self@.1,
    {
        self.record
    }

    pub fn class(&self) -> (r: Class)
        ensures
            r == self@.2,
    {
        self.class
    }

    /// The question's wire form; fails when its name cannot be sent.
    pub fn to_bytes(&self) -> (r: Result<Vec<u8>, DnsError>)
        ensures
            r is Ok <==> valid_text(encode_utf8(self@.0)),
            r matches Ok(w) ==> w@ == question_wire(encode_utf8(self@.0)),
            r matches Err(e) ==> e == DnsError::InvalidName,
    {
        match self.name.to_bytes() {
            Ok(w) => {
                let mut out = w;
                push_u16(&mut out, TAG_ONE);
                push_u16(&mut out, TAG_ONE);
                Ok(out)
            },
            Err(e) => Err(e),
        }
    }

    /// Reads a question at `pos` of a whole message buffer.
    pub fn decode(buf: &[u8], pos: usize) -> (r: Result<(Domain, usize), DnsError>)
        ensures
            match (r, question_at(buf@, pos as int)) {
                (Ok((d, e)), Ok((q, e2))) => d@ == q && e == e2,
                (Err(x), Err(y)) => x == y,
                _ => false,
            },
    {
        let (name, e) = match Name::decode(buf, pos) {
            Ok(v) => v,
            Err(x) => {
                return Err(x);
            },
        };
        let n = buf.len();
        if e > n || n - e < 2 {
            return Err(DnsError::TruncatedMessage);
        }
        if read_u16(buf, e) != TAG_ONE {
            return Err(DnsError::UnsupportedRecordType);
        }
        if n - e < 4 {
            return Err(DnsError::TruncatedMessage);
        }
        if read_u16(buf, e + 2) != TAG_ONE {
            return Err(DnsError::UnsupportedClass);
        }
        Ok((Domain::new_aa(name), e + 4))
    }
}

pub(crate) proof fn lemma_question_prefix(b: Seq<u8>, k: int, p: int)
    requires
        0 <= k <= b.len(),
        question_at(b, p) is Ok,
    ensures
        same_or_cut(question_at(b.take(k), p), question_at(b, p)),
        0 <= question_at(b, p).unwrap().1 <= b.len(),
{
    let c = b.take(k);
    lemma_name_decode_prefix(b, k, p);
    if name_decode(c, p) is Ok {
        let e = name_decode(c, p).unwrap().1;
        if e + 2 <= k {
            assert(c[e] == b[e] && c[e + 1] == b[e + 1]);
        }
        if e + 4 <= k {
            assert(c[e + 2] == b[e + 2] && c[e + 3] == b[e + 3]);
        }
    }
}

} // verus!
