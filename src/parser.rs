use vstd::prelude::*;
use vstd::utf8::{decode_utf8, valid_utf8};

verus! {

#[verifier::external_type_specification]
#[verifier::external_body]
pub struct ExIoError(std::io::Error);

/// Why a token could not be read.
#[derive(Debug)]
pub enum ParserError<E> {
    /// The byte source failed, with its error.
    Io(std::io::Error),
    /// Only whitespace, or nothing, was left.
    Eof,
    /// The token's bytes are not valid UTF-8.
    Utf8,
    /// The token's text is not a value of the requested type; the parser's own error.
    Parse(E),
}

/// Space, tab, carriage return and line feed separate tokens.
pub open spec fn is_ws(b: u8) -> bool {
    b == 32 || b == 9 || b == 13 || b == 10
}

pub open spec fn all_ws(s: Seq<u8>) -> bool {
    forall|i: int| 0 <= i < s.len() ==> is_ws(#[trigger] s[i])
}

pub open spec fn no_ws(s: Seq<u8>) -> bool {
    forall|i: int| 0 <= i < s.len() ==> !is_ws(#[trigger] s[i])
}

/// `t` starts at `k` in `s` after whitespace only, is a maximal run of
/// non-whitespace bytes, and `rest` is what follows it and the one byte
/// that ends it, if any.
pub open spec fn token_at(s: Seq<u8>, k: int, t: Seq<u8>, rest: Seq<u8>) -> bool {
    &&& 0 <= k
    &&& k + t.len() <= s.len()
    &&& all_ws(s.take(k))
    &&& t.len() > 0
    &&& no_ws(t)
    &&& s.subrange(k, k + t.len()) == t
    &&& if k + t.len() == s.len() {
        rest.len() == 0
    } else {
        is_ws(s[k + t.len()]) && rest == s.skip(k + t.len() + 1)
    }
}

/// `t` is the first token of `s`, and `rest` what is left after it.
pub open spec fn next_token(s: Seq<u8>, t: Seq<u8>, rest: Seq<u8>) -> bool {
    exists|k: int| token_at(s, k, t, rest)
}

/// A stream of whitespace only, empty or not, holds no token.
pub proof fn lemma_no_token_in_blank(s: Seq<u8>, t: Seq<u8>, rest: Seq<u8>)
    requires
        all_ws(s),
    ensures
        !next_token(s, t, rest),
{
    assert forall|k: int| !token_at(s, k, t, rest) by {
        if token_at(s, k, t, rest) {
            assert(s[k] == t[0]);
        }
    }
}

/// On a healthy source holding whitespace only, reading a value gives no
/// value, and its only failure is the end of the stream: never a decoding or
/// a parse error.
pub proof fn lemma_blank_stream_ends<T: FromToken>(s: Seq<u8>, v: T, e: ParserError<T::Err>, rest: Seq<u8>)
    requires
        all_ws(s),
    ensures
        !reads_value(s, v, rest),
        read_fails::<T>(true, s, e, rest) ==> e is Eof,
{
    assert forall|t: Seq<u8>| !next_token(s, t, rest) by {
        lemma_no_token_in_blank(s, t, rest);
    }
}

/// The token found is unique: two reads of the same bytes agree.
pub proof fn lemma_next_token_unique(s: Seq<u8>, t1: Seq<u8>, r1: Seq<u8>, t2: Seq<u8>, r2: Seq<u8>)
    requires
        next_token(s, t1, r1),
        next_token(s, t2, r2),
    ensures
        t1 == t2,
        r1 == r2,
{
    let k1 = choose|k: int| token_at(s, k, t1, r1);
    let k2 = choose|k: int| token_at(s, k, t2, r2);
    assert(s[k1] == t1[0]);
    assert(s[k2] == t2[0]);
    if k1 < k2 {
        assert(s.take(k2)[k1] == s[k1]);
    }
    if k2 < k1 {
        assert(s.take(k1)[k2] == s[k2]);
    }
    assert(k1 == k2);
    if t1.len() < t2.len() {
        assert(s[k1 + t1.len()] == t2[t1.len() as int]);
    }
    if t2.len() < t1.len() {
        assert(s[k1 + t2.len()] == t1[t2.len() as int]);
    }
    assert(t1.len() == t2.len());
    assert(t1 =~= t2);
}

/// Reading a `T` from `s`, leaving `rest`, fails with `e`: the source fails
/// only when it is not healthy; the end comes only on whitespace; a decoding
/// error only on a token that is not UTF-8; a parse error only on a token
/// whose text is not a `T`.
pub open spec fn read_fails<T: FromToken>(healthy: bool, s: Seq<u8>, e: ParserError<T::Err>, rest: Seq<u8>) -> bool {
    match e {
        ParserError::Io(_) => !healthy,
        ParserError::Eof => all_ws(s) && rest.len() == 0,
        ParserError::Utf8 => exists|t: Seq<u8>| next_token(s, t, rest) && !valid_utf8(t),
        ParserError::Parse(_) => exists|t: Seq<u8>|
            next_token(s, t, rest) && valid_utf8(t) && !T::parses(decode_utf8(t)),
    }
}

/// The token `t` is text that reads as `v`.
pub open spec fn token_value<T: FromToken>(t: Seq<u8>, v: T) -> bool {
    valid_utf8(t) && T::parses(decode_utf8(t)) && T::reads_as(decode_utf8(t), v)
}

/// The token `t` is text that reads as some `T`.
pub open spec fn token_parses<T: FromToken>(t: Seq<u8>) -> bool {
    valid_utf8(t) && T::parses(decode_utf8(t))
}

/// Reading a `T` from `s` gives `v` and leaves `rest`.
pub open spec fn reads_value<T: FromToken>(s: Seq<u8>, v: T, rest: Seq<u8>) -> bool {
    exists|t: Seq<u8>| next_token(s, t, rest) && token_value(t, v)
}

/// `ts` are the first tokens of `s`, in order, and `rest` is what follows them.
pub open spec fn read_tokens(s: Seq<u8>, ts: Seq<Seq<u8>>, rest: Seq<u8>) -> bool
    decreases ts.len(),
{
    if ts.len() == 0 {
        rest == s
    } else {
        exists|mid: Seq<u8>| read_tokens(s, ts.drop_last(), mid) && next_token(mid, ts.last(), rest)
    }
}

/// Relies on `String::from_utf8`: it succeeds exactly on valid UTF-8, and the
/// string then holds the characters those bytes encode.
#[verifier::external_body]
fn text_of(bytes: Vec<u8>) -> (r: Option<String>)
    ensures
        r is Some <==> valid_utf8(bytes@),
        r matches Some(s) ==> s@ == decode_utf8(bytes@),
{
    match String::from_utf8(bytes) {
        Ok(s) => Some(s),
        Err(_) => None,
    }
}

#[verifier::external_type_specification]
#[verifier::external_body]
pub struct ExParseIntError(std::num::ParseIntError);

pub open spec fn is_digit(c: char) -> bool {
    '0' <= c && c <= '9'
}

pub open spec fn all_digits(s: Seq<char>) -> bool {
    forall|i: int| 0 <= i < s.len() ==> is_digit(#[trigger] s[i])
}

/// The value of a run of decimal digits.
pub open spec fn digits_value(s: Seq<char>) -> int
    decreases s.len(),
{
    if s.len() == 0 {
        0
    } else {
        digits_value(s.drop_last()) * 10 + ((s.last() as u32) as int - 48)
    }
}

/// One or more decimal digits, read as a number.
pub open spec fn digits_text(s: Seq<char>) -> Option<int> {
    if s.len() > 0 && all_digits(s) {
        Some(digits_value(s))
    } else {
        None
    }
}

/// A signed decimal integer: an optional `+` or `-`, then one or more digits.
pub open spec fn int_text(s: Seq<char>) -> Option<int> {
    if s.len() > 0 && s[0] == '-' {
        match digits_text(s.skip(1)) {
            Some(v) => Some(-v),
            None => None,
        }
    } else if s.len() > 0 && s[0] == '+' {
        digits_text(s.skip(1))
    } else {
        digits_text(s)
    }
}

/// An unsigned decimal integer: an optional `+`, then one or more digits.
pub open spec fn uint_text(s: Seq<char>) -> Option<int> {
    if s.len() > 0 && s[0] == '+' {
        digits_text(s.skip(1))
    } else {
        digits_text(s)
    }
}

/// `t` reads as a value between `lo` and `hi` under the grammar `g`.
pub open spec fn in_range(g: Option<int>, lo: int, hi: int) -> bool {
    g matches Some(v) && lo <= v <= hi
}

/// Relies on `i32`'s `FromStr`: an optional sign and decimal digits, in range.
#[verifier::external_body]
fn parse_i32(text: &str) -> (r: Result<i32, std::num::ParseIntError>)
    ensures
        r is Ok <==> in_range(int_text(text@), i32::MIN as int, i32::MAX as int),
        r matches Ok(v) ==> int_text(text@) == Some(v as int),
{
    text.parse::<i32>()
}

/// Relies on `i64`'s `FromStr`: an optional sign and decimal digits, in range.
#[verifier::external_body]
fn parse_i64(text: &str) -> (r: Result<i64, std::num::ParseIntError>)
    ensures
        r is Ok <==> in_range(int_text(text@), i64::MIN as int, i64::MAX as int),
        r matches Ok(v) ==> int_text(text@) == Some(v as int),
{
    text.parse::<i64>()
}

/// Relies on `u64`'s `FromStr`: an optional `+` and decimal digits, in range.
#[verifier::external_body]
fn parse_u64(text: &str) -> (r: Result<u64, std::num::ParseIntError>)
    ensures
        r is Ok <==> in_range(uint_text(text@), 0, u64::MAX as int),
        r matches Ok(v) ==> uint_text(text@) == Some(v as int),
{
    text.parse::<u64>()
}

/// Relies on `usize`'s `FromStr`: an optional `+` and decimal digits, in range.
#[verifier::external_body]
fn parse_usize(text: &str) -> (r: Result<usize, std::num::ParseIntError>)
    ensures
        r is Ok <==> in_range(uint_text(text@), 0, usize::MAX as int),
        r matches Ok(v) ==> uint_text(text@) == Some(v as int),
{
    text.parse::<usize>()
}

/// A type whose values can be read from one token's text: `parses` says
/// which texts are values, `reads_as` which value a text stands for.
pub trait FromToken: Sized {
    type Err;

    spec fn parses(text: Seq<char>) -> bool;

    spec fn reads_as(text: Seq<char>, v: Self) -> bool;

    fn from_token(text: &str) -> (r: Result<Self, Self::Err>)
        ensures
            r is Ok <==> Self::parses(text@),
            r matches Ok(v) ==> Self::reads_as(text@, v),
    ;
}

impl FromToken for i32 {
    type Err = std::num::ParseIntError;

    open spec fn parses(text: Seq<char>) -> bool {
        in_range(int_text(text), i32::MIN as int, i32::MAX as int)
    }

    open spec fn reads_as(text: Seq<char>, v: i32) -> bool {
        int_text(text) == Some(v as int)
    }

    fn from_token(text: &str) -> (r: Result<i32, std::num::ParseIntError>) {
        parse_i32(text)
    }
}

impl FromToken for i64 {
    type Err = std::num::ParseIntError;

    open spec fn parses(text: Seq<char>) -> bool {
        in_range(int_text(text), i64::MIN as int, i64::MAX as int)
    }

    open spec fn reads_as(text: Seq<char>, v: i64) -> bool {
        int_text(text) == Some(v as int)
    }

    fn from_token(text: &str) -> (r: Result<i64, std::num::ParseIntError>) {
        parse_i64(text)
    }
}

impl FromToken for u64 {
    type Err = std::num::ParseIntError;

    open spec fn parses(text: Seq<char>) -> bool {
        in_range(uint_text(text), 0, u64::MAX as int)
    }

    open spec fn reads_as(text: Seq<char>, v: u64) -> bool {
        uint_text(text) == Some(v as int)
    }

    fn from_token(text: &str) -> (r: Result<u64, std::num::ParseIntError>) {
        parse_u64(text)
    }
}

impl FromToken for usize {
    type Err = std::num::ParseIntError;

    open spec fn parses(text: Seq<char>) -> bool {
        in_range(uint_text(text), 0, usize::MAX as int)
    }

    open spec fn reads_as(text: Seq<char>, v: usize) -> bool {
        uint_text(text) == Some(v as int)
    }

    fn from_token(text: &str) -> (r: Result<usize, std::num::ParseIntError>) {
        parse_usize(text)
    }
}

impl FromToken for String {
    type Err = ();

    open spec fn parses(text: Seq<char>) -> bool {
        true
    }

    open spec fn reads_as(text: Seq<char>, v: String) -> bool {
        v@ == text
    }

    fn from_token(text: &str) -> (r: Result<String, ()>) {
        Ok(text.to_owned())
    }
}

/// Reads whitespace-separated tokens from a buffered byte source.
///
/// `unread` is the model of the source: every byte it will still deliver.
/// A source that is `healthy` never fails. An implementation supplies the
/// model, `fill_buf` and `consume`; the readers are given.
pub trait Parser {
    spec fn unread(&self) -> Seq<u8>;

    spec fn healthy(&self) -> bool;

    /// The next bytes of the source, without consuming them: empty exactly at
    /// the end. Interrupted reads are retried, not reported.
    fn fill_buf(&mut self) -> (r: Result<Vec<u8>, std::io::Error>)
        ensures
            final(self).unread() == old(self).unread(),
            final(self).healthy() == old(self).healthy(),
            old(self).healthy() ==> r is Ok,
            r matches Ok(b) ==> b@.len() <= old(self).unread().len() && b@ == old(self).unread().take(
                b@.len() as int,
            ) && (b@.len() == 0 <==> old(self).unread().len() == 0),
    ;

    /// Drops the first `n` bytes.
    fn consume(&mut self, n: usize)
        requires
            n <= old(self).unread().len(),
        ensures
            final(self).unread() == old(self).unread().skip(n as int),
            final(self).healthy() == old(self).healthy(),
    ;

    /// Reads the next token as raw bytes: leading whitespace is skipped, the
    /// token ends at the next whitespace byte (consumed too) or at the end.
    fn get_token(&mut self) -> (r: Result<Vec<u8>, ParserError<()>>)
        ensures
            r matches Ok(t) ==> next_token(old(self).unread(), t@, final(self).unread()),
            final(self).healthy() == old(self).healthy(),
            r matches Err(e) ==> ((e is Io && !old(self).healthy()) || (e is Eof && all_ws(
                old(self).unread(),
            ) && final(self).unread().len() == 0)),
    {
        let ghost s0 = self.unread();
        let ghost mut c: int = 0;
        let mut buffer: Vec<u8> = Vec::new();
        loop
            invariant
                s0 == old(self).unread(),
                self.healthy() == old(self).healthy(),
                0 <= c <= s0.len(),
                self.unread() == s0.skip(c),
                buffer@.len() <= c,
                all_ws(s0.take(c - buffer@.len())),
                s0.subrange(c - buffer@.len(), c) == buffer@,
                no_ws(buffer@),
            decreases self.unread().len(),
        {
            let chunk = match self.fill_buf() {
                Ok(b) => b,
                Err(e) => {
                    return Err(ParserError::Io(e));
                },
            };
            if chunk.len() == 0 {
                assert(self.unread().len() == 0);
                assert(s0.skip(c).len() == 0);
                assert(c == s0.len());
                if buffer.len() == 0 {
                    assert(s0.take(c) =~= s0);
                    assert(all_ws(s0));
                    assert(self.unread().len() == 0);
                    return Err(ParserError::Eof);
                }
                proof {
                    let k = c - buffer@.len();
                    assert(token_at(s0, k, buffer@, self.unread()));
                }
                return Ok(buffer);
            }
            let mut j: usize = 0;
            let mut ended = false;
            while j < chunk.len() && !ended
                invariant
                    0 <= c <= s0.len(),
                    self.unread() == s0.skip(c),
                    self.healthy() == old(self).healthy(),
                    s0 == old(self).unread(),
                    chunk@ == s0.skip(c).take(chunk@.len() as int),
                    c + chunk@.len() <= s0.len(),
                    j <= chunk@.len(),
                    buffer@.len() <= c + j,
                    all_ws(s0.take(c + j - buffer@.len())),
                    s0.subrange(c + j - buffer@.len(), c + j) == buffer@,
                    no_ws(buffer@),
                    ended ==> buffer@.len() > 0 && j < chunk@.len() && is_ws(chunk@[j as int]),
                decreases chunk@.len() - j + if ended { 0int } else { 1int },
            {
                let b = chunk[j];
                assert(chunk@[j as int] == s0.skip(c).take(chunk@.len() as int)[j as int]);
                assert(b == s0[c + j]);
                let ws = b == 32u8 || b == 9u8 || b == 13u8 || b == 10u8;
                if ws {
                    if buffer.len() == 0 {
                        assert(s0.take(c + j + 1) =~= s0.take(c + j).push(b));
                        j = j + 1;
                    } else {
                        ended = true;
                    }
                } else {
                    let ghost old_buf = buffer@;
                    buffer.push(b);
                    assert(s0.subrange(c + j + 1 - buffer@.len(), c + j + 1) =~= old_buf.push(b));
                    assert(c + j + 1 - buffer@.len() == c + j - old_buf.len());
                    j = j + 1;
                }
            }
            if ended {
                self.consume(j + 1);
                proof {
                    let k = c + j - buffer@.len();
                    assert(chunk@[j as int] == s0.skip(c).take(chunk@.len() as int)[j as int]);
                    assert(s0[c + j] == chunk@[j as int]);
                    assert(k + buffer@.len() == c + j);
                    assert(s0.skip(c).skip(j + 1) =~= s0.skip(c + j + 1));
                    assert(token_at(s0, k, buffer@, self.unread()));
                }
                return Ok(buffer);
            }
            self.consume(j);
            proof {
                assert(s0.skip(c).skip(j as int) =~= s0.skip(c + j));
                c = c + j;
            }
        }
    }

    /// Reads the next token as text and parses it into `T`.
    fn get<T: FromToken>(&mut self) -> (r: Result<T, ParserError<T::Err>>)
        ensures
            final(self).healthy() == old(self).healthy(),
            r matches Ok(v) ==> reads_value(old(self).unread(), v, final(self).unread()),
            r matches Err(e) ==> read_fails::<T>(old(self).healthy(), old(self).unread(), e, final(self).unread()),
    {
        let bytes = match self.get_token() {
            Ok(b) => b,
            Err(ParserError::Io(e)) => {
                return Err(ParserError::Io(e));
            },
            Err(_) => {
                return Err(ParserError::Eof);
            },
        };
        let ghost t = bytes@;
        let text = match text_of(bytes) {
            Some(s) => s,
            None => {
                return Err(ParserError::Utf8);
            },
        };
        match T::from_token(text.as_str()) {
            Ok(v) => {
                assert(token_value(t, v));
                Ok(v)
            },
            Err(e) => Err(ParserError::Parse(e)),
        }
    }

    /// Reads exactly `size` values; the first failure is returned and the
    /// values read before it are dropped.
    fn get_vec<T: FromToken>(&mut self, size: usize) -> (r: Result<Vec<T>, ParserError<T::Err>>)
        ensures
            final(self).healthy() == old(self).healthy(),
            r matches Ok(v) ==> exists|ts: Seq<Seq<u8>>|
                #![trigger read_tokens(old(self).unread(), ts, final(self).unread())]
                ts.len() == size && v@.len() == size && read_tokens(old(self).unread(), ts, final(self).unread())
                    && forall|i: int| 0 <= i < size ==> token_value(#[trigger] ts[i], v@[i]),
            r matches Err(e) ==> exists|ts: Seq<Seq<u8>>, mid: Seq<u8>|
                #![trigger read_tokens(old(self).unread(), ts, mid)]
                ts.len() < size && read_tokens(old(self).unread(), ts, mid) && (forall|i: int|
                    0 <= i < ts.len() ==> token_parses::<T>(#[trigger] ts[i])) && read_fails::<T>(
                    old(self).healthy(),
                    mid,
                    e,
                    final(self).unread(),
                ),
    {
        let mut v: Vec<T> = Vec::new();
        let mut i: usize = 0;
        let ghost mut ts: Seq<Seq<u8>> = Seq::empty();
        while i < size
            invariant
                i <= size,
                v@.len() == i,
                ts.len() == i,
                self.healthy() == old(self).healthy(),
                read_tokens(old(self).unread(), ts, self.unread()),
                forall|j: int| 0 <= j < i ==> token_value(#[trigger] ts[j], v@[j]),
            decreases size - i,
        {
            let ghost mid = self.unread();
            let x = match self.get::<T>() {
                Ok(x) => x,
                Err(e) => {
                    assert forall|j: int| 0 <= j < ts.len() implies token_parses::<T>(#[trigger] ts[j]) by {
                        assert(token_value(ts[j], v@[j]));
                    }
                    assert(read_tokens(old(self).unread(), ts, mid));
                    return Err(e);
                },
            };
            proof {
                let t = choose|t: Seq<u8>| next_token(mid, t, self.unread()) && token_value(t, x);
                let nts = ts.push(t);
                assert(nts.drop_last() =~= ts);
                assert(nts.last() == t);
                assert(read_tokens(old(self).unread(), nts.drop_last(), mid));
                assert(next_token(mid, nts.last(), self.unread()));
                assert(read_tokens(old(self).unread(), nts, self.unread()));
                ts = nts;
            }
            v.push(x);
            i = i + 1;
            assert(forall|j: int| 0 <= j < i ==> token_value(#[trigger] ts[j], v@[j])) by {
                assert forall|j: int| 0 <= j < i implies token_value(#[trigger] ts[j], v@[j]) by {
                    if j < i - 1 {
                        assert(v@[j] == v@.drop_last()[j]);
                    }
                }
            }
        }
        assert(read_tokens(old(self).unread(), ts, self.unread()));
        Ok(v)
    }

    /// Reads the next token as bytes that are valid UTF-8 text.
    fn get_ascii_str(&mut self) -> (r: Result<Vec<u8>, ParserError<()>>)
        ensures
            final(self).healthy() == old(self).healthy(),
            r matches Ok(b) ==> next_token(old(self).unread(), b@, final(self).unread()) && valid_utf8(b@),
            r matches Err(e) ==> match e {
                ParserError::Io(_) => !old(self).healthy(),
                ParserError::Eof => all_ws(old(self).unread()) && final(self).unread().len() == 0,
                ParserError::Utf8 => exists|t: Seq<u8>| next_token(old(self).unread(), t, final(self).unread())
                    && !valid_utf8(t),
                ParserError::Parse(_) => false,
            },
    {
        let bytes = self.get_token()?;
        let copy = bytes.clone();
        match text_of(copy) {
            Some(_) => Ok(bytes),
            None => Err(ParserError::Utf8),
        }
    }
}

/// A byte source held in memory and handed out `chunk` bytes at a time.
pub struct ByteReader {
    data: Vec<u8>,
    pos: usize,
    chunk: usize,
}

impl ByteReader {
    /// A reader of `data` whose refills deliver at most `chunk` bytes (at least one).
    pub fn new(data: Vec<u8>, chunk: usize) -> (r: ByteReader)
        ensures
            r.unread() == data@,
            r.healthy(),
    {
        let r = ByteReader { data, pos: 0, chunk };
        assert(r.data@.skip(0) =~= r.data@);
        r
    }
}

impl Parser for ByteReader {
    closed spec fn unread(&self) -> Seq<u8> {
        if self.pos <= self.data@.len() {
            self.data@.skip(self.pos as int)
        } else {
            Seq::empty()
        }
    }

    /// Memory never fails.
    open spec fn healthy(&self) -> bool {
        true
    }

    fn fill_buf(&mut self) -> (r: Result<Vec<u8>, std::io::Error>) {
        let mut out: Vec<u8> = Vec::new();
        if self.pos >= self.data.len() {
            return Ok(out);
        }
        let step: usize = if self.chunk == 0 { 1 } else { self.chunk };
        let end: usize = if self.data.len() - self.pos < step { self.data.len() } else { self.pos + step };
        let mut i: usize = self.pos;
        while i < end
            invariant
                self.pos <= i <= end <= self.data@.len(),
                out@ == self.data@.subrange(self.pos as int, i as int),
            decreases end - i,
        {
            out.push(self.data[i]);
            i = i + 1;
            assert(out@ =~= self.data@.subrange(self.pos as int, i as int));
        }
        assert(out@ =~= self.unread().take(out@.len() as int));
        Ok(out)
    }

    fn consume(&mut self, n: usize) {
        if self.pos <= self.data.len() {
            self.pos = self.pos + n;
            assert(self.unread() =~= old(self).unread().skip(n as int));
        }
    }
}

} // verus!
