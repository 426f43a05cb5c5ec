use crate::error::DnsError;
use crate::name::{split_from, string_from_utf8};
use vstd::prelude::*;
use vstd::utf8::{decode_utf8, encode_utf8, valid_utf8};

verus! {

pub const NEWLINE: u8 = 0x0a;

pub const COLON: u8 = 0x3a;

/// What the process was asked to resolve.
pub struct Args {
    name: String,
}

impl Args {
    pub fn new(name: String) -> (r: Args)
        ensures
            r.name_view() == name@,
    {
        Args { name }
    }

    pub closed spec fn name_view(&self) -> Seq<char> {
        self.name@
    }

    pub fn name(&self) -> (r: &str)
        ensures
            r@ == self.name_view(),
    {
        self.name.as_str()
    }
}

/// ASCII whitespace: space, tab, line feed, form feed, carriage return.
pub open spec fn is_space(b: u8) -> bool {
    b == 0x20 || b == 0x09 || b == 0x0a || b == 0x0c || b == 0x0d
}

/// The bytes of the word `nameserver`.
pub open spec fn key() -> Seq<u8> {
    seq![0x6eu8, 0x61, 0x6d, 0x65, 0x73, 0x65, 0x72, 0x76, 0x65, 0x72]
}

pub open spec fn has_key(l: Seq<u8>) -> bool {
    l.len() >= 10 && l.subrange(0, 10) == key()
}

/// The first line that starts with `nameserver`.
pub open spec fn first_with_key(ls: Seq<Seq<u8>>) -> Option<Seq<u8>>
    decreases ls.len(),
{
    if ls.len() == 0 {
        None
    } else if has_key(ls[0]) {
        Some(ls[0])
    } else {
        first_with_key(ls.drop_first())
    }
}

/// The first offset at or after `i` that is not whitespace (or the end).
pub open spec fn skip_space(l: Seq<u8>, i: int) -> int
    decreases l.len() - i,
{
    if 0 <= i < l.len() && is_space(l[i]) {
        skip_space(l, i + 1)
    } else {
        i
    }
}

/// The first offset at or after `i` that is whitespace (or the end).
pub open spec fn word_end(l: Seq<u8>, i: int) -> int
    decreases l.len() - i,
{
    if 0 <= i < l.len() && !is_space(l[i]) {
        word_end(l, i + 1)
    } else {
        i
    }
}

/// The second whitespace-separated word of a line that starts with a word.
pub open spec fn second_word(l: Seq<u8>) -> Option<Seq<u8>> {
    let s = skip_space(l, word_end(l, 0));
    if s >= l.len() {
        None
    } else {
        Some(l.subrange(s, word_end(l, s)))
    }
}

/// An address, with port 53 added when it names none.
pub open spec fn with_port(a: Seq<u8>) -> Seq<u8> {
    if a.contains(COLON) {
        a
    } else {
        a + seq![COLON, 0x35u8, 0x33u8]
    }
}

/// The nameserver address that a resolver configuration text names: the second
/// word of its first line that starts with `nameserver`.
pub open spec fn conf_address(t: Seq<u8>) -> Option<Seq<u8>> {
    match first_with_key(split_from(t, NEWLINE, 0, 0)) {
        None => None,
        Some(l) => match second_word(l) {
            None => None,
            Some(a) => Some(with_port(a)),
        },
    }
}

fn copy_range(t: &[u8], a: usize, b: usize) -> (r: Vec<u8>)
    requires
        a <= b <= t@.len(),
    ensures
        r@ == t@.subrange(a as int, b as int),
{
    let mut out: Vec<u8> = Vec::new();
    let mut j = a;
    while j < b
        invariant
            a <= j <= b <= t@.len(),
            out@ == t@.subrange(a as int, j as int),
        decreases b - j,
    {
        out.push(t[j]);
        assert(t@.subrange(a as int, j + 1) =~= t@.subrange(a as int, j as int).push(t@[j as int]));
        j += 1;
    }
    out
}

fn is_space_byte(b: u8) -> (r: bool)
    ensures
        r == is_space(b),
{
    b == 0x20 || b == 0x09 || b == 0x0a || b == 0x0c || b == 0x0d
}

fn starts_with_key(l: &[u8]) -> (r: bool)
    ensures
        r == has_key(l@),
{
    if l.len() < 10 {
        return false;
    }
    let r = l[0] == 0x6e && l[1] == 0x61 && l[2] == 0x6d && l[3] == 0x65 && l[4] == 0x73 && l[5]
        == 0x65 && l[6] == 0x72 && l[7] == 0x76 && l[8] == 0x65 && l[9] == 0x72;
    if r {
        assert(l@.subrange(0, 10) =~= key());
    } else {
        assert(l@.subrange(0, 10) != key()) by {
            if l@.subrange(0, 10) == key() {
                assert(l@.subrange(0, 10)[0] == l@[0]);
                assert(l@.subrange(0, 10)[1] == l@[1]);
                assert(l@.subrange(0, 10)[2] == l@[2]);
                assert(l@.subrange(0, 10)[3] == l@[3]);
                assert(l@.subrange(0, 10)[4] == l@[4]);
                assert(l@.subrange(0, 10)[5] == l@[5]);
                assert(l@.subrange(0, 10)[6] == l@[6]);
                assert(l@.subrange(0, 10)[7] == l@[7]);
                assert(l@.subrange(0, 10)[8] == l@[8]);
                assert(l@.subrange(0, 10)[9] == l@[9]);
            }
        }
    }
    r
}

/// The second word of a line, with port 53 added when it names none.
fn address_of_line(l: &[u8]) -> (r: Option<Vec<u8>>)
    ensures
        match second_word(l@) {
            None => r is None,
            Some(a) => r matches Some(v) && v@ == with_port(a),
        },
{
    let n = l.len();
    let mut j: usize = 0;
    while j < n && !is_space_byte(l[j])
        invariant
            j <= n == l@.len(),
            word_end(l@, j as int) == word_end(l@, 0),
        decreases n - j,
    {
        j += 1;
    }
    let ghost e0 = j as int;
    while j < n && is_space_byte(l[j])
        invariant
            e0 <= j <= n == l@.len(),
            e0 == word_end(l@, 0),
            skip_space(l@, j as int) == skip_space(l@, e0),
        decreases n - j,
    {
        j += 1;
    }
    if j >= n {
        return None;
    }
    let mut k: usize = j;
    while k < n && !is_space_byte(l[k])
        invariant
            j <= k <= n == l@.len(),
            word_end(l@, k as int) == word_end(l@, j as int),
        decreases n - k,
    {
        k += 1;
    }
    let mut a = copy_range(l, j, k);
    let ghost word = a@;
    let mut i: usize = 0;
    let mut colon = false;
    while i < a.len()
        invariant
            i <= a@.len(),
            a@ == word,
            colon == (exists|x: int| 0 <= x < i && word[x] == COLON),
        decreases a@.len() - i,
    {
        if a[i] == COLON {
            colon = true;
        }
        i += 1;
    }
    if !colon {
        assert(!word.contains(COLON));
        a.push(COLON);
        a.push(0x35u8);
        a.push(0x33u8);
        assert(a@ =~= with_port(word));
    } else {
        assert(word.contains(COLON));
    }
    Some(a)
}

/// The nameserver address named by a resolver configuration text, as `host:port`.
pub fn nameserver_from_conf(conf: &str) -> (r: Result<String, DnsError>)
    ensures
        match conf_address(encode_utf8(conf@)) {
            None => r == Err::<String, DnsError>(DnsError::ConfigurationError),
            Some(a) => if valid_utf8(a) {
                r matches Ok(s) && s@ == decode_utf8(a)
            } else {
                r == Err::<String, DnsError>(DnsError::ConfigurationError)
            },
        },
{
    let t = conf.as_bytes();
    let n = t.len();
    let mut i: usize = 0;
    let mut start: usize = 0;
    loop
        invariant
            t@ == encode_utf8(conf@),
            n == t@.len(),
            start <= i <= n,
            first_with_key(split_from(t@, NEWLINE, 0, 0)) == first_with_key(
                split_from(t@, NEWLINE, start as int, i as int),
            ),
        decreases n - i,
    {
        if i == n || t[i] == NEWLINE {
            let line = copy_range(t, start, i);
            let ghost rest = split_from(t@, NEWLINE, i + 1, i + 1);
            assert(split_from(t@, NEWLINE, start as int, i as int)[0] == line@);
            if starts_with_key(line.as_slice()) {
                return match address_of_line(line.as_slice()) {
                    Some(a) => match string_from_utf8(a) {
                        Some(s) => Ok(s),
                        None => Err(DnsError::ConfigurationError),
                    },
                    None => Err(DnsError::ConfigurationError),
                };
            }
            if i == n {
                assert(split_from(t@, NEWLINE, start as int, i as int).drop_first() =~= Seq::<
                    Seq<u8>,
                >::empty());
                assert(first_with_key(Seq::<Seq<u8>>::empty()) == None::<Seq<u8>>);
                return Err(DnsError::ConfigurationError);
            }
            assert(split_from(t@, NEWLINE, start as int, i as int).drop_first() =~= rest);
            i += 1;
            start = i;
        } else {
            i += 1;
        }
    }
}

} // verus!
