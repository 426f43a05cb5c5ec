use crate::error::DnsError;
use vstd::prelude::*;
use vstd::utf8::{
    decode_utf8, encode_utf8, encode_utf8_decode_utf8, encode_utf8_valid_utf8, valid_utf8,
};

verus! {

/// The byte that separates labels in a name's text form.
pub const DOT: u8 = 0x2e;

/// Longest label, in bytes.
pub const MAX_LABEL_LEN: usize = 63;

/// Longest wire form of a name, length prefixes and terminator included.
pub const MAX_NAME_WIRE_LEN: usize = 255;

/// How many compression pointers one name may follow before it is rejected.
pub const MAX_POINTER_HOPS: u32 = 16;

/// Smallest length byte that starts a compression pointer (top two bits set).
pub const POINTER_TAG: u8 = 0xc0;

/// The pieces of `t[start..]` between separators, given that `t[start..i]` holds none.
pub open spec fn split_from(t: Seq<u8>, sep: u8, start: int, i: int) -> Seq<Seq<u8>>
    decreases t.len() - i,
{
    if i >= t.len() {
        seq![t.subrange(start, t.len() as int)]
    } else if t[i] == sep {
        seq![t.subrange(start, i)] + split_from(t, sep, i + 1, i + 1)
    } else {
        split_from(t, sep, start, i + 1)
    }
}

/// The dot-separated labels of a text; empty labels are kept.
pub open spec fn labels_of(t: Seq<u8>) -> Seq<Seq<u8>> {
    split_from(t, DOT, 0, 0)
}

/// The labels joined by dots.
pub open spec fn join(ls: Seq<Seq<u8>>) -> Seq<u8>
    decreases ls.len(),
{
    if ls.len() == 0 {
        seq![]
    } else if ls.len() == 1 {
        ls[0]
    } else {
        ls[0] + seq![DOT] + join(ls.drop_first())
    }
}

pub open spec fn valid_label(l: Seq<u8>) -> bool {
    1 <= l.len() <= MAX_LABEL_LEN
}

/// A text that can be sent as a name: no empty label, no label over 63 bytes,
/// and a wire form (the text plus one leading length byte and the terminator)
/// of at most 255 bytes.
pub open spec fn valid_text(t: Seq<u8>) -> bool {
    &&& t.len() + 2 <= MAX_NAME_WIRE_LEN
    &&& forall|k: int| 0 <= k < labels_of(t).len() ==> valid_label(#[trigger] labels_of(t)[k])
}

/// Each label as one length byte followed by its bytes.
pub open spec fn labels_wire(ls: Seq<Seq<u8>>) -> Seq<u8>
    decreases ls.len(),
{
    if ls.len() == 0 {
        seq![]
    } else {
        seq![ls[0].len() as u8] + ls[0] + labels_wire(ls.drop_first())
    }
}

/// The plain (uncompressed) wire form of a text.
pub open spec fn name_wire(t: Seq<u8>) -> Seq<u8> {
    labels_wire(labels_of(t)) + seq![0u8]
}

/// The offset that a compression pointer starting at `pos` names.
pub open spec fn pointer_target(buf: Seq<u8>, pos: int) -> int {
    (buf[pos] - POINTER_TAG) * 256 + buf[pos + 1]
}

/// Reads a name at `pos` in `buf`, following at most `hops` pointers: its labels,
/// and the offset just past it (past the first pointer, if one was taken).
pub open spec fn name_at(buf: Seq<u8>, pos: int, hops: nat) -> Result<
    (Seq<Seq<u8>>, int),
    DnsError,
>
    decreases hops, buf.len() - pos,
{
    if pos < 0 || pos >= buf.len() {
        Err(DnsError::TruncatedName)
    } else if buf[pos] == 0 {
        Ok((seq![], pos + 1))
    } else if buf[pos] >= POINTER_TAG {
        if pos + 1 >= buf.len() {
            Err(DnsError::TruncatedName)
        } else if pointer_target(buf, pos) >= buf.len() {
            Err(DnsError::MalformedPointer)
        } else if hops == 0 {
            Err(DnsError::PointerLoop)
        } else {
            match name_at(buf, pointer_target(buf, pos), (hops - 1) as nat) {
                Ok((ls, _)) => Ok((ls, pos + 2)),
                Err(e) => Err(e),
            }
        }
    } else if buf[pos] > MAX_LABEL_LEN {
        Err(DnsError::UnsupportedLabel)
    } else if pos + 1 + buf[pos] > buf.len() {
        Err(DnsError::TruncatedName)
    } else {
        let next = pos + 1 + buf[pos];
        match name_at(buf, next, hops) {
            Ok((ls, e)) => Ok((seq![buf.subrange(pos + 1, next)] + ls, e)),
            Err(e) => Err(e),
        }
    }
}

/// What decoding a name at `pos` yields: its text as characters, and the offset past it.
pub open spec fn name_decode(buf: Seq<u8>, pos: int) -> Result<(Seq<char>, int), DnsError> {
    match name_at(buf, pos, MAX_POINTER_HOPS as nat) {
        Ok((ls, e)) => if valid_utf8(join(ls)) {
            Ok((decode_utf8(join(ls)), e))
        } else {
            Err(DnsError::InvalidName)
        },
        Err(e) => Err(e),
    }
}

/// Adds the labels read so far to the outcome of reading the rest of a name.
pub open spec fn with_prefix(
    acc: Seq<Seq<u8>>,
    r: Result<(Seq<Seq<u8>>, int), DnsError>,
    jumped: bool,
    end: int,
) -> Result<(Seq<Seq<u8>>, int), DnsError> {
    match r {
        Ok((ls, e)) => Ok((acc + ls, if jumped { end } else { e })),
        Err(x) => Err(x),
    }
}

proof fn lemma_join_push(acc: Seq<Seq<u8>>, l: Seq<u8>)
    requires
        acc.len() > 0,
    ensures
        join(acc.push(l)) == join(acc) + seq![DOT] + l,
    decreases acc.len(),
{
    if acc.len() == 1 {
        let s = acc.push(l);
        assert(s.drop_first() =~= seq![l]);
        assert(join(s.drop_first()) == l);
        assert(s[0] == acc[0]);
        assert(join(s) =~= join(acc) + seq![DOT] + l);
    } else {
        assert(acc.push(l).drop_first() =~= acc.drop_first().push(l));
        lemma_join_push(acc.drop_first(), l);
        assert(join(acc.push(l)) =~= join(acc) + seq![DOT] + l);
    }
}

proof fn lemma_labels_wire_push(done: Seq<Seq<u8>>, l: Seq<u8>)
    ensures
        labels_wire(done.push(l)) == labels_wire(done) + seq![l.len() as u8] + l,
    decreases done.len(),
{
    if done.len() == 0 {
        let s = done.push(l);
        assert(s.drop_first() =~= Seq::<Seq<u8>>::empty());
        assert(labels_wire(s.drop_first()) == Seq::<u8>::empty());
        assert(s[0] == l);
        assert(labels_wire(s) =~= labels_wire(done) + seq![l.len() as u8] + l);
    } else {
        assert(done.push(l).drop_first() =~= done.drop_first().push(l));
        lemma_labels_wire_push(done.drop_first(), l);
        assert(labels_wire(done.push(l)) =~= labels_wire(done) + seq![l.len() as u8] + l);
    }
}

/// Relies on std's `String::from_utf8`: it succeeds exactly on valid UTF-8,
/// and the string then holds the characters that the bytes encode.
#[verifier::external_body]
pub(crate) fn string_from_utf8(b: Vec<u8>) -> (r: Option<String>)
    ensures
        r is Some <==> valid_utf8(b@),
        r matches Some(s) ==> s@ == decode_utf8(b@),
{
    String::from_utf8(b).ok()
}

/// Encodes a dotted text as a plain wire-form name.
pub fn encode_text(t: &[u8]) -> (r: Result<Vec<u8>, DnsError>)
    ensures
        r is Ok <==> valid_text(t@),
        r matches Ok(w) ==> w@ == name_wire(t@),
        r matches Err(e) ==> e == DnsError::InvalidName,
{
    let n = t.len();
    if n > MAX_NAME_WIRE_LEN - 2 {
        return Err(DnsError::InvalidName);
    }
    let mut out: Vec<u8> = Vec::new();
    let mut i: usize = 0;
    let mut start: usize = 0;
    let ghost mut done: Seq<Seq<u8>> = seq![];
    loop
        invariant
            n == t@.len(),
            n + 2 <= MAX_NAME_WIRE_LEN,
            start <= i <= n,
            labels_of(t@) == done + split_from(t@, DOT, start as int, i as int),
            out@ == labels_wire(done),
            forall|k: int| 0 <= k < done.len() ==> valid_label(#[trigger] done[k]),
        decreases n - i,
    {
        if i == n || t[i] == DOT {
            let len = i - start;
            assert(split_from(t@, DOT, start as int, i as int)[0] == t@.subrange(start as int, i as int));
            if len == 0 || len > MAX_LABEL_LEN {
                assert(labels_of(t@)[done.len() as int] == t@.subrange(start as int, i as int));
                return Err(DnsError::InvalidName);
            }
            let ghost before = out@;
            out.push(len as u8);
            let mut j: usize = start;
            while j < i
                invariant
                    start <= j <= i <= n,
                    n == t@.len(),
                    out@ == before + seq![len as u8] + t@.subrange(start as int, j as int),
                decreases i - j,
            {
                out.push(t[j]);
                assert(t@.subrange(start as int, j + 1) =~= t@.subrange(start as int, j as int).push(t@[j as int]));
                j += 1;
            }
            let ghost label = t@.subrange(start as int, i as int);
            proof {
                lemma_labels_wire_push(done, label);
                if i < n {
                    assert(done + split_from(t@, DOT, start as int, i as int) =~= done.push(label) + split_from(t@, DOT, i + 1, i + 1));
                } else {
                    assert(done + split_from(t@, DOT, start as int, i as int) =~= done.push(label));
                }
                done = done.push(label);
            }
            if i == n {
                out.push(0u8);
                proof {
                    assert(labels_of(t@) =~= done);
                }
                return Ok(out);
            }
            i += 1;
            start = i;
        } else {
            i += 1;
        }
    }
}

/// Reads the labels of a name at `pos`, joined by dots, and the offset past it.
fn read_labels(buf: &[u8], pos: usize) -> (r: Result<(Vec<u8>, usize), DnsError>)
    ensures
        match (r, name_at(buf@, pos as int, MAX_POINTER_HOPS as nat)) {
            (Ok((t, e)), Ok((ls, e2))) => t@ == join(ls) && e == e2,
            (Err(x), Err(y)) => x == y,
            _ => false,
        },
{
    let n = buf.len();
    let mut text: Vec<u8> = Vec::new();
    let mut cur: usize = pos;
    let mut hops: u32 = MAX_POINTER_HOPS;
    let mut jumped = false;
    let mut end: usize = 0;
    let mut any_label = false;
    let ghost mut acc: Seq<Seq<u8>> = seq![];
    loop
        invariant
            n == buf@.len(),
            name_at(buf@, pos as int, MAX_POINTER_HOPS as nat) == with_prefix(
                acc,
                name_at(buf@, cur as int, hops as nat),
                jumped,
                end as int,
            ),
            text@ == join(acc),
            any_label == (acc.len() > 0),
        decreases hops, n - cur,
    {
        if cur >= n {
            return Err(DnsError::TruncatedName);
        }
        let b = buf[cur];
        if b == 0 {
            assert(acc + Seq::<Seq<u8>>::empty() =~= acc);
            if jumped {
                return Ok((text, end));
            } else {
                return Ok((text, cur + 1));
            }
        } else if b >= POINTER_TAG {
            if cur + 1 >= n {
                return Err(DnsError::TruncatedName);
            }
            let target: usize = ((b - POINTER_TAG) as usize) * 256 + (buf[cur + 1] as usize);
            if target >= n {
                return Err(DnsError::MalformedPointer);
            }
            if hops == 0 {
                return Err(DnsError::PointerLoop);
            }
            if !jumped {
                end = cur + 2;
                jumped = true;
            }
            cur = target;
            hops = hops - 1;
        } else if b as usize > MAX_LABEL_LEN {
            return Err(DnsError::UnsupportedLabel);
        } else {
            let len = b as usize;
            if len > n - cur - 1 {
                return Err(DnsError::TruncatedName);
            }
            let next = cur + 1 + len;
            let ghost label = buf@.subrange(cur + 1, next as int);
            let ghost before = text@;
            if any_label {
                text.push(DOT);
            }
            let mut j: usize = cur + 1;
            while j < next
                invariant
                    cur + 1 <= j <= next <= n,
                    n == buf@.len(),
                    text@ == (if acc.len() > 0 { before + seq![DOT] } else { before }) + buf@.subrange(
                        cur + 1,
                        j as int,
                    ),
                decreases next - j,
            {
                text.push(buf[j]);
                assert(buf@.subrange(cur + 1, j + 1) =~= buf@.subrange(cur + 1, j as int).push(buf@[j as int]));
                j += 1;
            }
            proof {
                if acc.len() > 0 {
                    lemma_join_push(acc, label);
                } else {
                    assert(acc.push(label) =~= seq![label]);
                    assert(text@ =~= label);
                }
                let rest = name_at(buf@, next as int, hops as nat);
                match rest {
                    Ok((ls, e)) => {
                        assert(acc + (seq![label] + ls) =~= acc.push(label) + ls);
                    },
                    Err(_) => {},
                }
                acc = acc.push(label);
            }
            any_label = true;
            cur = next;
        }
    }
}

/// A domain name in its text form, as a dotted string.
#[derive(Clone, Debug, PartialEq)]
pub struct Name {
    text: String,
}

impl View for Name {
    type V = Seq<char>;

    closed spec fn view(&self) -> Seq<char> {
        self.text@
    }
}

impl Name {
    /// The bytes of the name's text, as UTF-8.
    pub open spec fn bytes(&self) -> Seq<u8> {
        encode_utf8(self@)
    }

    /// Accepts a text as a name when it can be sent: see `valid_text`.
    pub fn try_from(s: &str) -> (r: Result<Name, DnsError>)
        ensures
            r is Ok <==> valid_text(encode_utf8(s@)),
            r matches Ok(n) ==> n@ == s@,
            r matches Err(e) ==> e == DnsError::InvalidName,
    {
        match encode_text(s.as_bytes()) {
            Ok(_) => Ok(Name { text: s.to_owned() }),
            Err(e) => Err(e),
        }
    }

    pub fn as_str(&self) -> (r: &str)
        ensures
            r@ == self@,
    {
        self.text.as_str()
    }

    /// The plain wire form of the name.
    pub fn to_bytes(&self) -> (r: Result<Vec<u8>, DnsError>)
        ensures
            r is Ok <==> valid_text(self.bytes()),
            r matches Ok(w) ==> w@ == name_wire(self.bytes()),
            r matches Err(e) ==> e == DnsError::InvalidName,
    {
        encode_text(self.text.as_str().as_bytes())
    }

    /// Reads a name at `pos` of a whole message buffer, following compression
    /// pointers (offsets from the buffer's start); returns it with the offset past it.
    pub fn decode(buf: &[u8], pos: usize) -> (r: Result<(Name, usize), DnsError>)
        ensures
            match (r, name_decode(buf@, pos as int)) {
                (Ok((nm, e)), Ok((s, e2))) => nm@ == s && e == e2,
                (Err(x), Err(y)) => x == y,
                _ => false,
            },
    {
        match read_labels(buf, pos) {
            Ok((t, e)) => match string_from_utf8(t) {
                Some(s) => Ok((Name { text: s }, e)),
                None => Err(DnsError::InvalidName),
            },
            Err(x) => Err(x),
        }
    }
}

/// A section of valid labels followed by a terminator reads back as those labels,
/// wherever it stands in a buffer and whatever pointer budget is left.
proof fn lemma_labels_read_back(ls: Seq<Seq<u8>>, b: Seq<u8>, p: int, h: nat)
    requires
        forall|k: int| 0 <= k < ls.len() ==> valid_label(#[trigger] ls[k]),
        0 <= p,
        p + labels_wire(ls).len() + 1 <= b.len(),
        b.subrange(p, p + labels_wire(ls).len() + 1) == labels_wire(ls) + seq![0u8],
    ensures
        name_at(b, p, h) == Ok::<(Seq<Seq<u8>>, int), DnsError>(
            (ls, p + labels_wire(ls).len() + 1),
        ),
    decreases ls.len(),
{
    let w = labels_wire(ls) + seq![0u8];
    assert(b[p] == b.subrange(p, p + w.len())[0]);
    if ls.len() == 0 {
        assert(b[p] == 0);
        assert(ls =~= Seq::<Seq<u8>>::empty());
    } else {
        let l = ls[0];
        let rest = ls.drop_first();
        assert(valid_label(l));
        let len = l.len() as int;
        assert(w[0] == len as u8);
        let next = p + 1 + len;
        assert(labels_wire(ls) == seq![len as u8] + l + labels_wire(rest));
        assert(b.subrange(p + 1, next) =~= l) by {
            assert forall|x: int| 0 <= x < len implies b.subrange(p + 1, next)[x] == l[x] by {
                assert(b.subrange(p + 1, next)[x] == b.subrange(p, p + w.len())[1 + x]);
            }
        }
        assert(b.subrange(next, next + labels_wire(rest).len() + 1) =~= labels_wire(rest) + seq![0u8])
            by {
            assert forall|x: int|
                0 <= x < labels_wire(rest).len() + 1 implies b.subrange(
                next,
                next + labels_wire(rest).len() + 1,
            )[x] == (labels_wire(rest) + seq![0u8])[x] by {
                assert(b.subrange(next, next + labels_wire(rest).len() + 1)[x] == b.subrange(
                    p,
                    p + w.len(),
                )[1 + len + x]);
            }
        }
        assert forall|k: int| 0 <= k < rest.len() implies valid_label(#[trigger] rest[k]) by {
            assert(rest[k] == ls[k + 1]);
        }
        lemma_labels_read_back(rest, b, next, h);
        assert(seq![l] + rest =~= ls);
    }
}

/// Joining the pieces of a split gives back the text that was split.
proof fn lemma_join_split(t: Seq<u8>, start: int, i: int)
    requires
        0 <= start <= i <= t.len(),
    ensures
        split_from(t, DOT, start, i).len() >= 1,
        join(split_from(t, DOT, start, i)) == t.subrange(start, t.len() as int),
    decreases t.len() - i,
{
    if i >= t.len() {
    } else if t[i] == DOT {
        lemma_join_split(t, i + 1, i + 1);
        let rest = split_from(t, DOT, i + 1, i + 1);
        let s = seq![t.subrange(start, i)] + rest;
        assert(s.drop_first() =~= rest);
        assert(join(s) =~= t.subrange(start, t.len() as int));
    } else {
        lemma_join_split(t, start, i + 1);
    }
}

/// The wire form of a name that can be sent, wherever it stands in a buffer,
/// reads back as that name and ends right after it.
pub(crate) proof fn lemma_name_wire_reads_back(n: Name, b: Seq<u8>, p: int)
    requires
        valid_text(n.bytes()),
        0 <= p,
        p + name_wire(n.bytes()).len() <= b.len(),
        b.subrange(p, p + name_wire(n.bytes()).len()) == name_wire(n.bytes()),
    ensures
        name_decode(b, p) == Ok::<(Seq<char>, int), DnsError>(
            (n@, p + name_wire(n.bytes()).len()),
        ),
{
    let t = n.bytes();
    lemma_labels_read_back(labels_of(t), b, p, MAX_POINTER_HOPS as nat);
    lemma_join_split(t, 0, 0);
    assert(t.subrange(0, t.len() as int) =~= t);
    encode_utf8_valid_utf8(n@);
    encode_utf8_decode_utf8(n@);
}

/// Decoding the wire form of a name that can be sent gives back that name, and
/// stops right after it.
pub proof fn lemma_name_round_trip(n: Name)
    requires
        valid_text(n.bytes()),
    ensures
        name_decode(name_wire(n.bytes()), 0) == Ok::<(Seq<char>, int), DnsError>(
            (n@, name_wire(n.bytes()).len() as int),
        ),
{
    let w = name_wire(n.bytes());
    assert(w.subrange(0, w.len() as int) =~= w);
    lemma_name_wire_reads_back(n, w, 0);
}

/// A name read with some pointer budget reads the same with a larger one.
proof fn lemma_more_hops(b: Seq<u8>, p: int, h: nat, h2: nat)
    requires
        h <= h2,
        name_at(b, p, h) is Ok,
    ensures
        name_at(b, p, h2) == name_at(b, p, h),
    decreases h, b.len() - p,
{
    if 0 <= p < b.len() && b[p] != 0 {
        if b[p] >= POINTER_TAG {
            lemma_more_hops(b, pointer_target(b, p), (h - 1) as nat, (h2 - 1) as nat);
        } else {
            lemma_more_hops(b, p + 1 + b[p], h, h2);
        }
    }
}

/// A compression pointer at `q` to offset `p` reads as the name at `p`: the same
/// text, ending right after the two pointer bytes. The name at `p` must read
/// with one pointer fewer than the decoder allows, as the jump uses one.
pub proof fn lemma_pointer_reads_target(b: Seq<u8>, q: int, p: int)
    requires
        0 <= q,
        q + 1 < b.len(),
        b[q] >= POINTER_TAG,
        pointer_target(b, q) == p,
        name_at(b, p, (MAX_POINTER_HOPS - 1) as nat) is Ok,
    ensures
        name_decode(b, q) == match name_decode(b, p) {
            Ok((s, _)) => Ok((s, q + 2)),
            Err(e) => Err::<(Seq<char>, int), DnsError>(e),
        },
        name_at(b, q, MAX_POINTER_HOPS as nat).unwrap().0 == name_at(
            b,
            p,
            MAX_POINTER_HOPS as nat,
        ).unwrap().0,
{
    lemma_more_hops(b, p, (MAX_POINTER_HOPS - 1) as nat, MAX_POINTER_HOPS as nat);
}

/// The outcome of reading from a cut buffer, beside the outcome on the whole one:
/// the same, or a clean failure at the cut (the buffer ends inside a name or a
/// section, or a pointer leads past the cut).
pub open spec fn same_or_cut<T>(r: Result<T, DnsError>, full: Result<T, DnsError>) -> bool {
    ||| r == full
    ||| r == Err::<T, DnsError>(DnsError::TruncatedName)
    ||| r == Err::<T, DnsError>(DnsError::TruncatedMessage)
    ||| r == Err::<T, DnsError>(DnsError::MalformedPointer)
}

pub(crate) proof fn lemma_name_at_prefix(b: Seq<u8>, k: int, p: int, h: nat)
    requires
        0 <= k <= b.len(),
        name_at(b, p, h) is Ok,
    ensures
        same_or_cut(name_at(b.take(k), p, h), name_at(b, p, h)),
    decreases h, b.len() - p,
{
    let c = b.take(k);
    if 0 <= p < k {
        assert(c[p] == b[p]);
        if b[p] != 0 {
            if b[p] >= POINTER_TAG {
                if p + 1 < k {
                    assert(c[p + 1] == b[p + 1]);
                    assert(pointer_target(c, p) == pointer_target(b, p));
                    lemma_name_at_prefix(b, k, pointer_target(b, p), (h - 1) as nat);
                }
            } else {
                let next = p + 1 + b[p];
                if next <= k {
                    assert(c.subrange(p + 1, next) =~= b.subrange(p + 1, next));
                    lemma_name_at_prefix(b, k, next, h);
                }
            }
        }
    }
}

/// A name that reads ends after its start and within the buffer.
proof fn lemma_name_end(b: Seq<u8>, p: int, h: nat)
    requires
        name_at(b, p, h) is Ok,
    ensures
        p < name_at(b, p, h).unwrap().1 <= b.len(),
        0 <= p,
    decreases h, b.len() - p,
{
    if b[p] != 0 && b[p] < POINTER_TAG {
        lemma_name_end(b, p + 1 + b[p], h);
    }
}

pub(crate) proof fn lemma_name_decode_prefix(b: Seq<u8>, k: int, p: int)
    requires
        0 <= k <= b.len(),
        name_decode(b, p) is Ok,
    ensures
        same_or_cut(name_decode(b.take(k), p), name_decode(b, p)),
        0 <= p < name_decode(b, p).unwrap().1 <= b.len(),
{
    lemma_name_at_prefix(b, k, p, MAX_POINTER_HOPS as nat);
    lemma_name_end(b, p, MAX_POINTER_HOPS as nat);
}

} // verus!
