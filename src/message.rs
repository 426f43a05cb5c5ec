use crate::domain::{lemma_question_prefix, question_at, question_wire, Domain, QuestionView};
use crate::error::DnsError;
use crate::header::{
    header_at, header_wire, Authoritative, HEADER_LEN, Flags, Header, OpCode, QueryMode, Recursion, Reserved,
    Truncation,
};
use crate::name::{same_or_cut, valid_text};
use crate::route::{lemma_route_prefix, route_at, route_wire, Route, RouteView};
use vstd::prelude::*;
use vstd::utf8::encode_utf8;

verus! {

/// A message as plain values: header, questions and answers.
pub struct MessageView {
    pub header: Header,
    pub questions: Seq<QuestionView>,
    pub answers: Seq<RouteView>,
}

/// A DNS message: the header and the question and answer sections, whose
/// lengths are the header's counts. Authority and additional records are not kept.
#[derive(Debug, PartialEq)]
pub struct Message {
    header: Header,
    questions: Vec<Domain>,
    answers: Vec<Route>,
}

impl View for Message {
    type V = MessageView;

    closed spec fn view(&self) -> MessageView {
        MessageView {
            header: self.header,
            questions: self.questions@.map_values(|d: Domain| d@),
            answers: self.answers@.map_values(|r: Route| r@),
        }
    }
}

/// The header of a query: the given id, recursion desired, one question.
pub open spec fn query_header(id: u16) -> Header {
    Header {
        id,
        flags: Flags {
            qr: QueryMode::Query,
            op_code: OpCode(0),
            aa: Authoritative::Unowned,
            tc: Truncation::Complete,
            rd: Recursion::Enabled,
            z: Reserved,
            ra: Recursion::Disabled,
            r_code: OpCode(0),
        },
        qd_count: 1,
        an_count: 0,
        ns_count: 0,
        ar_count: 0,
    }
}

/// Every name in the message can be sent.
pub open spec fn sendable(m: MessageView) -> bool {
    &&& forall|i: int|
        0 <= i < m.questions.len() ==> valid_text(encode_utf8(#[trigger] m.questions[i].0))
    &&& forall|i: int|
        0 <= i < m.answers.len() ==> valid_text(encode_utf8(#[trigger] m.answers[i].0.0))
}

pub open spec fn questions_wire(qs: Seq<QuestionView>) -> Seq<u8>
    decreases qs.len(),
{
    if qs.len() == 0 {
        seq![]
    } else {
        questions_wire(qs.drop_last()) + question_wire(encode_utf8(qs.last().0))
    }
}

pub open spec fn answers_wire(rs: Seq<RouteView>) -> Seq<u8>
    decreases rs.len(),
{
    if rs.len() == 0 {
        seq![]
    } else {
        answers_wire(rs.drop_last()) + route_wire(
            encode_utf8(rs.last().0.0),
            rs.last().1,
            rs.last().2,
        )
    }
}

/// The wire form of a message: header, then each question, then each answer.
pub open spec fn message_wire(m: MessageView) -> Seq<u8> {
    header_wire(m.header) + questions_wire(m.questions) + answers_wire(m.answers)
}

/// Adds the entries read so far to the outcome of reading the rest of a section.
pub open spec fn prefixed<A>(acc: Seq<A>, r: Result<(Seq<A>, int), DnsError>) -> Result<
    (Seq<A>, int),
    DnsError,
> {
    match r {
        Ok((xs, e)) => Ok((acc + xs, e)),
        Err(x) => Err(x),
    }
}

/// Reading `n` questions from `pos` on.
pub open spec fn questions_at(b: Seq<u8>, pos: int, n: nat) -> Result<
    (Seq<QuestionView>, int),
    DnsError,
>
    decreases n,
{
    if n == 0 {
        Ok((seq![], pos))
    } else {
        match question_at(b, pos) {
            Err(x) => Err(x),
            Ok((q, e)) => prefixed(seq![q], questions_at(b, e, (n - 1) as nat)),
        }
    }
}

/// Reading `n` answer records from `pos` on.
pub open spec fn routes_at(b: Seq<u8>, pos: int, n: nat) -> Result<
    (Seq<RouteView>, int),
    DnsError,
>
    decreases n,
{
    if n == 0 {
        Ok((seq![], pos))
    } else {
        match route_at(b, pos) {
            Err(x) => Err(x),
            Ok((r, e)) => prefixed(seq![r], routes_at(b, e, (n - 1) as nat)),
        }
    }
}

/// Reading a whole message: the header, then as many questions and answers as it counts.
pub open spec fn message_at(b: Seq<u8>) -> Result<MessageView, DnsError> {
    match header_at(b, 0) {
        Err(x) => Err(x),
        Ok((h, e)) => match questions_at(b, e, h.qd_count as nat) {
            Err(x) => Err(x),
            Ok((qs, e2)) => match routes_at(b, e2, h.an_count as nat) {
                Err(x) => Err(x),
                Ok((rs, _)) => Ok(MessageView { header: h, questions: qs, answers: rs }),
            },
        },
    }
}

proof fn lemma_prefixed_push<A>(acc: Seq<A>, x: A, r: Result<(Seq<A>, int), DnsError>)
    ensures
        prefixed(acc, prefixed(seq![x], r)) == prefixed(acc.push(x), r),
{
    match r {
        Ok((xs, e)) => {
            assert(acc + (seq![x] + xs) =~= acc.push(x) + xs);
        },
        Err(_) => {},
    }
}

impl Message {
    #[verifier::type_invariant]
    spec fn inv(&self) -> bool {
        &&& self.header.wf()
        &&& self.header.qd_count == self.questions@.len()
        &&& self.header.an_count == self.answers@.len()
    }

    /// A query for one question, with recursion desired.
    pub fn query_domain(id: u16, domain: Domain) -> (r: Message)
        ensures
            r@.header == query_header(id),
            r@.questions == seq![domain@],
            r@.answers == Seq::<RouteView>::empty(),
    {
        let header = Header {
            id,
            flags: Flags {
                qr: QueryMode::Query,
                op_code: OpCode(0),
                aa: Authoritative::Unowned,
                tc: Truncation::Complete,
                rd: Recursion::Enabled,
                z: Reserved,
                ra: Recursion::Disabled,
                r_code: OpCode(0),
            },
            qd_count: 1,
            an_count: 0,
            ns_count: 0,
            ar_count: 0,
        };
        let ghost dv = domain@;
        let questions = vec![domain];
        let answers: Vec<Route> = Vec::new();
        let m = Message { header, questions, answers };
        assert(m@.questions =~= seq![dv]);
        assert(m@.answers =~= Seq::<RouteView>::empty());
        m
    }

    pub fn header(&self) -> (r: Header)
        ensures
            r == self@.header,
    {
        self.header
    }

    pub fn questions(&self) -> (r: &[Domain])
        ensures
            r@.map_values(|d: Domain| d@) == self@.questions,
    {
        self.questions.as_slice()
    }

    pub fn answers(&self) -> (r: &[Route])
        ensures
            r@.map_values(|x: Route| x@) == self@.answers,
    {
        self.answers.as_slice()
    }

    /// Gives up the message for its answer records.
    pub fn into_answers(self) -> (r: Vec<Route>)
        ensures
            r@.map_values(|x: Route| x@) == self@.answers,
    {
        self.answers
    }

    /// The message's wire form; fails when one of its names cannot be sent.
    pub fn into_bytes(self) -> (r: Result<Vec<u8>, DnsError>)
        ensures
            r is Ok <==> sendable(self@),
            r matches Ok(w) ==> w@ == message_wire(self@),
            r matches Err(e) ==> e == DnsError::InvalidName,
    {
        proof {
            use_type_invariant(&self);
        }
        let ghost m = self@;
        let mut out: Vec<u8> = Vec::new();
        self.header.encode(&mut out);
        let mut i: usize = 0;
        while i < self.questions.len()
            invariant
                m == self@,
                i <= self.questions@.len(),
                out@ == header_wire(m.header) + questions_wire(m.questions.take(i as int)),
                forall|k: int| 0 <= k < i ==> valid_text(encode_utf8(#[trigger] m.questions[k].0)),
            decreases self.questions@.len() - i,
        {
            let mut w = match self.questions[i].to_bytes() {
                Ok(w) => w,
                Err(e) => {
                    assert(m.questions[i as int] == self.questions@[i as int]@);
                    return Err(e);
                },
            };
            proof {
                let t = m.questions.take(i + 1);
                assert(t.drop_last() =~= m.questions.take(i as int));
            }
            out.append(&mut w);
            i += 1;
        }
        assert(m.questions.take(i as int) =~= m.questions);
        let mut j: usize = 0;
        while j < self.answers.len()
            invariant
                m == self@,
                j <= self.answers@.len(),
                out@ == header_wire(m.header) + questions_wire(m.questions) + answers_wire(
                    m.answers.take(j as int),
                ),
                forall|k: int| 0 <= k < m.questions.len() ==> valid_text(encode_utf8(#[trigger] m.questions[k].0)),
                forall|k: int| 0 <= k < j ==> valid_text(encode_utf8(#[trigger] m.answers[k].0.0)),
            decreases self.answers@.len() - j,
        {
            let mut w = match self.answers[j].to_bytes() {
                Ok(w) => w,
                Err(e) => {
                    assert(m.answers[j as int] == self.answers@[j as int]@);
                    return Err(e);
                },
            };
            proof {
                let t = m.answers.take(j + 1);
                assert(t.drop_last() =~= m.answers.take(j as int));
            }
            out.append(&mut w);
            j += 1;
        }
        assert(m.answers.take(j as int) =~= m.answers);
        Ok(out)
    }

    /// Reads a message from a whole buffer: the header, then exactly as many
    /// questions and answers as it counts. Whatever follows is not read.
    pub fn from_bytes(bytes: &[u8]) -> (r: Result<Message, DnsError>)
        ensures
            match (r, message_at(bytes@)) {
                (Ok(m), Ok(v)) => m@ == v,
                (Err(x), Err(y)) => x == y,
                _ => false,
            },
    {
        let (header, start) = match Header::decode(bytes, 0) {
            Ok(v) => v,
            Err(x) => {
                return Err(x);
            },
        };
        assert(header_at(bytes@, 0) == Ok::<(Header, int), DnsError>((header, start as int)));
        let mut questions: Vec<Domain> = Vec::new();
        let mut cur: usize = start;
        let mut k: u16 = 0;
        while k < header.qd_count
            invariant
                header_at(bytes@, 0) == Ok::<(Header, int), DnsError>((header, start as int)),
                k <= header.qd_count,
                questions@.len() == k,
                questions_at(bytes@, start as int, header.qd_count as nat) == prefixed(
                    questions@.map_values(|d: Domain| d@),
                    questions_at(bytes@, cur as int, (header.qd_count - k) as nat),
                ),
            decreases header.qd_count - k,
        {
            let (d, e) = match Domain::decode(bytes, cur) {
                Ok(v) => v,
                Err(x) => {
                    assert(questions_at(bytes@, cur as int, (header.qd_count - k) as nat) == Err::<
                        (Seq<QuestionView>, int),
                        DnsError,
                    >(x));
                    assert(questions_at(bytes@, start as int, header.qd_count as nat) == Err::<
                        (Seq<QuestionView>, int),
                        DnsError,
                    >(x));
                    return Err(x);
                },
            };
            proof {
                let acc = questions@.map_values(|d: Domain| d@);
                lemma_prefixed_push(
                    acc,
                    d@,
                    questions_at(bytes@, e as int, (header.qd_count - k - 1) as nat),
                );
                assert(acc + Seq::<QuestionView>::empty() =~= acc);
            }
            let ghost old_q = questions@;
            questions.push(d);
            assert(questions@.map_values(|d: Domain| d@) =~= old_q.map_values(|d: Domain| d@).push(
                d@,
            ));
            cur = e;
            k += 1;
        }
        assert(questions@.map_values(|d: Domain| d@) + Seq::<QuestionView>::empty()
            =~= questions@.map_values(|d: Domain| d@));
        let mid = cur;
        let mut answers: Vec<Route> = Vec::new();
        let mut j: u16 = 0;
        while j < header.an_count
            invariant
                header_at(bytes@, 0) == Ok::<(Header, int), DnsError>((header, start as int)),
                questions_at(bytes@, start as int, header.qd_count as nat) == Ok::<
                    (Seq<QuestionView>, int),
                    DnsError,
                >((questions@.map_values(|d: Domain| d@), mid as int)),
                j <= header.an_count,
                answers@.len() == j,
                routes_at(bytes@, mid as int, header.an_count as nat) == prefixed(
                    answers@.map_values(|x: Route| x@),
                    routes_at(bytes@, cur as int, (header.an_count - j) as nat),
                ),
            decreases header.an_count - j,
        {
            let (rt, e) = match Route::decode(bytes, cur) {
                Ok(v) => v,
                Err(x) => {
                    assert(routes_at(bytes@, cur as int, (header.an_count - j) as nat) == Err::<
                        (Seq<RouteView>, int),
                        DnsError,
                    >(x));
                    return Err(x);
                },
            };
            proof {
                let acc = answers@.map_values(|x: Route| x@);
                lemma_prefixed_push(
                    acc,
                    rt@,
                    routes_at(bytes@, e as int, (header.an_count - j - 1) as nat),
                );
            }
            let ghost old_a = answers@;
            answers.push(rt);
            assert(answers@.map_values(|x: Route| x@) =~= old_a.map_values(|x: Route| x@).push(
                rt@,
            ));
            cur = e;
            j += 1;
        }
        assert(answers@.map_values(|x: Route| x@) + Seq::<RouteView>::empty() =~= answers@.map_values(
            |x: Route| x@,
        ));
        Ok(Message { header, questions, answers })
    }
}

proof fn lemma_questions_prefix(b: Seq<u8>, k: int, p: int, n: nat)
    requires
        0 <= k <= b.len(),
        questions_at(b, p, n) is Ok,
    ensures
        same_or_cut(questions_at(b.take(k), p, n), questions_at(b, p, n)),
    decreases n,
{
    if n > 0 {
        lemma_question_prefix(b, k, p);
        if question_at(b.take(k), p) is Ok {
            let e = question_at(b, p).unwrap().1;
            lemma_questions_prefix(b, k, e, (n - 1) as nat);
        }
    }
}

proof fn lemma_routes_prefix(b: Seq<u8>, k: int, p: int, n: nat)
    requires
        0 <= k <= b.len(),
        routes_at(b, p, n) is Ok,
    ensures
        same_or_cut(routes_at(b.take(k), p, n), routes_at(b, p, n)),
    decreases n,
{
    if n > 0 {
        lemma_route_prefix(b, k, p);
        if route_at(b.take(k), p) is Ok {
            let e = route_at(b, p).unwrap().1;
            lemma_routes_prefix(b, k, e, (n - 1) as nat);
        }
    }
}

/// Cutting a buffer that reads as a message, at any length, and reading the
/// rest gives the same message, or one of the clean failures of a cut: the
/// buffer ends inside a name (`TruncatedName`) or a section (`TruncatedMessage`),
/// or a compression pointer leads past the cut (`MalformedPointer`).
pub proof fn lemma_prefix_decode(b: Seq<u8>, k: int)
    requires
        0 <= k <= b.len(),
        message_at(b) is Ok,
    ensures
        same_or_cut(message_at(b.take(k)), message_at(b)),
{
    let c = b.take(k);
    if HEADER_LEN <= k {
        assert(c.subrange(0, 12) =~= b.subrange(0, 12));
        assert forall|i: int| 0 <= i < 12 implies c[i] == b[i] by {}
        let h = header_at(b, 0).unwrap().0;
        lemma_questions_prefix(b, k, HEADER_LEN as int, h.qd_count as nat);
        if questions_at(c, HEADER_LEN as int, h.qd_count as nat) is Ok {
            let e2 = questions_at(b, HEADER_LEN as int, h.qd_count as nat).unwrap().1;
            lemma_routes_prefix(b, k, e2, h.an_count as nat);
        }
    }
}

} // verus!
