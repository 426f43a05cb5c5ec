use crate::domain::{question_wire, Class, Domain, QuestionView, Record};
use crate::error::DnsError;
use crate::header::header_wire;
use crate::message::{
    answers_wire, message_at, message_wire, query_header, questions_at, questions_wire, routes_at,
    Message, MessageView,
};
use crate::header::{lemma_header_round_trip, header_at, HEADER_LEN};
use crate::name::{lemma_name_wire_reads_back, name_wire, valid_text, Name};
use crate::route::{Route, RouteView};
use vstd::prelude::*;
use vstd::utf8::encode_utf8;

verus! {

/// Relies on `rand::random`: a value drawn from the thread-local generator.
/// Nothing is promised of it but its type.
#[verifier::external_body]
fn random_id() -> (r: u16) {
    rand::random::<u16>()
}

/// The bytes of a query with transaction id `id` for the name whose text is `t`.
pub open spec fn query_wire(id: u16, t: Seq<u8>) -> Seq<u8> {
    header_wire(query_header(id)) + question_wire(t)
}

/// A query message for the IPv4 addresses of `name`, with recursion desired.
pub fn build_query(id: u16, name: &str) -> (r: Result<Message, DnsError>)
    ensures
        r is Ok <==> valid_text(encode_utf8(name@)),
        r matches Ok(m) ==> {
            &&& m@.header == query_header(id)
            &&& m@.questions == seq![(name@, Record::AA, Class::IN)]
            &&& m@.answers == Seq::<RouteView>::empty()
        },
        r matches Err(e) ==> e == DnsError::InvalidName,
{
    match Name::try_from(name) {
        Ok(n) => Ok(Message::query_domain(id, Domain::new_aa(n))),
        Err(e) => Err(e),
    }
}

/// The bytes of a query with transaction id `id` for `name`.
pub fn query_bytes(id: u16, name: &str) -> (r: Result<Vec<u8>, DnsError>)
    ensures
        r is Ok <==> valid_text(encode_utf8(name@)),
        r matches Ok(b) ==> b@ == query_wire(id, encode_utf8(name@)),
        r matches Err(e) ==> e == DnsError::InvalidName,
{
    let m = match build_query(id, name) {
        Ok(m) => m,
        Err(e) => {
            return Err(e);
        },
    };
    let ghost v = m@;
    proof {
        let qs: Seq<QuestionView> = seq![(name@, Record::AA, Class::IN)];
        assert(qs.drop_last() =~= Seq::<QuestionView>::empty());
        assert(questions_wire(qs.drop_last()) =~= Seq::<u8>::empty());
        assert(qs.last().0 == name@);
        assert(questions_wire(qs) =~= question_wire(encode_utf8(name@)));
        assert(answers_wire(v.answers) =~= Seq::<u8>::empty());
        assert(message_wire(v) =~= query_wire(id, encode_utf8(name@)));
    }
    m.into_bytes()
}

/// The first step of a lookup: draws a transaction id and builds the query
/// bytes to send for `name`.
pub fn new_query(name: &str) -> (r: Result<(u16, Vec<u8>), DnsError>)
    ensures
        r is Ok <==> valid_text(encode_utf8(name@)),
        r matches Ok((id, b)) ==> b@ == query_wire(id, encode_utf8(name@)),
        r matches Err(e) ==> e == DnsError::InvalidName,
{
    let id = random_id();
    match query_bytes(id, name) {
        Ok(b) => Ok((id, b)),
        Err(e) => Err(e),
    }
}

/// The last step of a lookup: the answer records of a reply.
pub fn answers_of(reply: &[u8]) -> (r: Result<Vec<Route>, DnsError>)
    ensures
        match (r, message_at(reply@)) {
            (Ok(rs), Ok(v)) => rs@.map_values(|x: Route| x@) == v.answers,
            (Err(x), Err(y)) => x == y,
            _ => false,
        },
{
    match Message::from_bytes(reply) {
        Ok(m) => Ok(m.into_answers()),
        Err(e) => Err(e),
    }
}

/// The bytes of a query for a name that can be sent read back as that query:
/// its header, its one question, and no answers.
pub proof fn lemma_query_reads_back(id: u16, n: Name)
    requires
        valid_text(n.bytes()),
    ensures
        message_at(query_wire(id, n.bytes())) == Ok::<MessageView, DnsError>(
            MessageView {
                header: query_header(id),
                questions: seq![(n@, Record::AA, Class::IN)],
                answers: Seq::<RouteView>::empty(),
            },
        ),
{
    let h = query_header(id);
    let hw = header_wire(h);
    let nw = name_wire(n.bytes());
    let b = query_wire(id, n.bytes());
    lemma_header_round_trip(h);
    assert forall|i: int| 0 <= i < HEADER_LEN implies b[i] == hw[i] by {}
    assert(header_at(b, 0) == header_at(hw, 0));
    let p = HEADER_LEN as int;
    assert(b.subrange(p, p + nw.len()) =~= nw);
    lemma_name_wire_reads_back(n, b, p);
    let e = p + nw.len();
    assert(b[e] == 0 && b[e + 1] == 1 && b[e + 2] == 0 && b[e + 3] == 1);
    assert(questions_at(b, e + 4, 0) == Ok::<(Seq<QuestionView>, int), DnsError>((seq![], e + 4)));
    assert(seq![(n@, Record::AA, Class::IN)] + Seq::<QuestionView>::empty() =~= seq![(n@, Record::AA, Class::IN)]);
    assert(routes_at(b, e + 4, 0) == Ok::<(Seq<RouteView>, int), DnsError>((seq![], e + 4)));
}

} // verus!
