//! The HTTP Upgrade handshake: parse the request preamble, validate the
//! WebSocket headers, and build the 101 response with its accept key.
//!
//! The caller reads the preamble lines off the transport and hands them in
//! as byte strings; the response comes back as the exact bytes to write.

use vstd::prelude::*;
use vstd::string::StrSliceExecFns;
use vstd::string::StringSliceAdditionalSpecFns;
use sha1::{Digest, Sha1};
use base64::Engine;

verus! {

/// Everything that can go wrong before the connection is upgraded.
#[derive(Debug)]
pub enum HandshakeError {
    Io,
    MissingHeader(Vec<u8>),
    InvalidHeader(Vec<u8>),
}

/// The digest of the SHA-1 hash function.
pub uninterp spec fn sha1_of(input: Seq<u8>) -> Seq<u8>;

/// Relies on `sha1::Sha1` through `Digest::digest`: the 20-byte digest is
/// a function of the input bytes alone.
#[verifier::external_body]
fn sha1_digest(input: &Vec<u8>) -> (r: Vec<u8>)
    ensures
        r@ == sha1_of(input@),
        r@.len() == 20,
{
    Sha1::digest(input.as_slice()).to_vec()
}

/// The padded standard Base64 encoding of a byte string.
pub uninterp spec fn base64_of(input: Seq<u8>) -> Seq<u8>;

/// Relies on base64's `general_purpose::STANDARD` engine: the padded
/// standard encoding is a function of the input alone, four output bytes
/// for every three input bytes.
#[verifier::external_body]
fn base64_encode(input: &Vec<u8>) -> (r: Vec<u8>)
    ensures
        r@ == base64_of(input@),
        r@.len() == 4 * ((input@.len() + 2) / 3),
{
    base64::engine::general_purpose::STANDARD.encode(input.as_slice()).into_bytes()
}

/// ASCII whitespace as trimmed off header names and values.
pub open spec fn is_ws_byte(b: u8) -> bool {
    b == 32 || b == 9 || b == 13 || b == 10
}

/// The bytes left after removing leading ASCII whitespace.
pub open spec fn spec_trim_start(s: Seq<u8>) -> Seq<u8>
    decreases s.len(),
{
    if s.len() > 0 && is_ws_byte(s[0]) {
        spec_trim_start(s.drop_first())
    } else {
        s
    }
}

/// The bytes left after removing trailing ASCII whitespace.
pub open spec fn spec_trim_end(s: Seq<u8>) -> Seq<u8>
    decreases s.len(),
{
    if s.len() > 0 && is_ws_byte(s.last()) {
        spec_trim_end(s.drop_last())
    } else {
        s
    }
}

/// The bytes left after trimming both ends.
pub open spec fn spec_trim(s: Seq<u8>) -> Seq<u8> {
    spec_trim_end(spec_trim_start(s))
}

/// The index of the first colon in `s`, or -1 when there is none.
pub open spec fn spec_find_colon(s: Seq<u8>) -> int
    decreases s.len(),
{
    if s.len() == 0 {
        -1
    } else if s[0] == 0x3a {
        0
    } else if spec_find_colon(s.drop_first()) == -1 {
        -1
    } else {
        spec_find_colon(s.drop_first()) + 1
    }
}

proof fn lemma_find_colon_at(s: Seq<u8>, i: int)
    requires
        0 <= i < s.len(),
        s[i] == 0x3a,
        forall|j: int| 0 <= j < i ==> s[j] != 0x3a,
    ensures
        spec_find_colon(s) == i,
    decreases s.len(),
{
    if i > 0 {
        lemma_find_colon_at(s.drop_first(), i - 1);
    }
}

proof fn lemma_find_colon_absent(s: Seq<u8>)
    requires
        forall|j: int| 0 <= j < s.len() ==> s[j] != 0x3a,
    ensures
        spec_find_colon(s) == -1,
    decreases s.len(),
{
    if s.len() > 0 {
        lemma_find_colon_absent(s.drop_first());
    }
}

/// The request line names the GET method.
pub open spec fn spec_is_get(line: Seq<u8>) -> bool {
    line.len() >= 3 && line[0] == 0x47 && line[1] == 0x45 && line[2] == 0x54
}

/// ASCII lowercasing, byte by byte.
pub open spec fn spec_lower(s: Seq<u8>) -> Seq<u8> {
    Seq::new(s.len(), |i: int| if 0x41 <= s[i] <= 0x5a { (s[i] + 32) as u8 } else { s[i] })
}

/// A copy of `v[from..to]`.
fn subvec(v: &Vec<u8>, from: usize, to: usize) -> (r: Vec<u8>)
    requires
        from <= to <= v@.len(),
    ensures
        r@ == v@.subrange(from as int, to as int),
{
    let mut r: Vec<u8> = Vec::new();
    let mut i = from;
    while i < to
        invariant
            from <= i <= to <= v@.len(),
            r@ == v@.subrange(from as int, i as int),
        decreases to - i,
    {
        r.push(v[i]);
        assert(r@ =~= v@.subrange(from as int, i + 1 as int));
        i += 1;
    }
    r
}

/// A copy of `v` with ASCII whitespace trimmed off both ends.
#[verifier::loop_isolation(false)]
fn trim_bytes(v: &Vec<u8>) -> (r: Vec<u8>)
    ensures
        r@ == spec_trim(v@),
{
    assert(v@.skip(0) =~= v@);
    let mut i: usize = 0;
    while i < v.len() && (v[i] == 32 || v[i] == 9 || v[i] == 13 || v[i] == 10)
        invariant
            i <= v@.len(),
            spec_trim_start(v@) == spec_trim_start(v@.skip(i as int)),
        decreases v@.len() - i,
    {
        assert(v@.skip(i as int).drop_first() =~= v@.skip(i + 1 as int));
        i += 1;
    }
    let ghost t = spec_trim_start(v@);
    assert(t =~= v@.skip(i as int));
    assert(v@.subrange(i as int, v@.len() as int) =~= t);
    let mut j: usize = v.len();
    while j > i && (v[j - 1] == 32 || v[j - 1] == 9 || v[j - 1] == 13 || v[j - 1] == 10)
        invariant
            i <= j <= v@.len(),
            t == v@.skip(i as int),
            spec_trim_end(t) == spec_trim_end(v@.subrange(i as int, j as int)),
        decreases j,
    {
        assert(v@.subrange(i as int, j as int).drop_last() =~= v@.subrange(i as int, j - 1));
        j -= 1;
    }
    assert(spec_trim_end(v@.subrange(i as int, j as int)) == v@.subrange(i as int, j as int)) by {
        if j > i {
            assert(!is_ws_byte(v@.subrange(i as int, j as int).last()));
        }
    }
    subvec(v, i, j)
}

/// Byte-for-byte equality of two byte strings.
fn bytes_eq(a: &Vec<u8>, b: &Vec<u8>) -> (r: bool)
    ensures
        r == (a@ == b@),
{
    if a.len() != b.len() {
        return false;
    }
    let mut i: usize = 0;
    while i < a.len()
        invariant
            i <= a@.len(),
            a@.len() == b@.len(),
            forall|j: int| 0 <= j < i ==> a@[j] == b@[j],
        decreases a@.len() - i,
    {
        if a[i] != b[i] {
            return false;
        }
        i += 1;
    }
    assert(a@ =~= b@);
    true
}

/// A copy of `v` lowercased byte by byte in the ASCII range.
fn lower_bytes(v: &Vec<u8>) -> (r: Vec<u8>)
    ensures
        r@ == spec_lower(v@),
{
    let mut r: Vec<u8> = Vec::new();
    let mut i: usize = 0;
    while i < v.len()
        invariant
            i <= v@.len(),
            r@.len() == i,
            forall|k: int|
                0 <= k < i ==> r@[k] == (if 0x41 <= v@[k] <= 0x5a {
                    (v@[k] + 32) as u8
                } else {
                    v@[k]
                }),
        decreases v@.len() - i,
    {
        let b = v[i];
        if 0x41 <= b && b <= 0x5a {
            r.push(b + 32);
        } else {
            r.push(b);
        }
        i += 1;
    }
    assert(r@ =~= spec_lower(v@));
    r
}

/// The case-preserved header mapping built from the request preamble.
pub struct Headers {
    entries: Vec<(Vec<u8>, Vec<u8>)>,
}

impl View for Headers {
    type V = Seq<(Seq<u8>, Seq<u8>)>;

    closed spec fn view(&self) -> Seq<(Seq<u8>, Seq<u8>)> {
        self.entries@.map(|i: int, p: (Vec<u8>, Vec<u8>)| (p.0@, p.1@))
    }
}

/// The value stored under `name`, later entries shadowing earlier ones.
pub open spec fn spec_lookup(hs: Seq<(Seq<u8>, Seq<u8>)>, name: Seq<u8>) -> Option<Seq<u8>>
    decreases hs.len(),
{
    if hs.len() == 0 {
        Option::None
    } else if hs.last().0 == name {
        Option::Some(hs.last().1)
    } else {
        spec_lookup(hs.drop_last(), name)
    }
}

impl Headers {
    /// An empty mapping.
    pub fn new() -> (r: Headers)
        ensures
            r@ == Seq::<(Seq<u8>, Seq<u8>)>::empty(),
    {
        Headers { entries: Vec::new() }
    }

    /// Add one header; a repeated name shadows the earlier entry.
    pub fn insert(&mut self, name: Vec<u8>, value: Vec<u8>)
        ensures
            final(self)@ == old(self)@ + seq![(name@, value@)],
    {
        let ghost pre = self@;
        self.entries.push((name, value));
        assert(final(self)@ =~= pre + seq![(name@, value@)]);
    }

    /// The value stored under `name`, if any.
    pub fn get(&self, name: &Vec<u8>) -> (r: Option<&Vec<u8>>)
        ensures
            match r {
                Option::Some(v) => spec_lookup(self@, name@) == Option::Some(v@),
                Option::None => spec_lookup(self@, name@) is None,
            },
    {
        let mut found: Option<&Vec<u8>> = Option::None;
        let mut i: usize = 0;
        while i < self.entries.len()
            invariant
                i <= self.entries@.len(),
                self@ == self.entries@.map(|k: int, p: (Vec<u8>, Vec<u8>)| (p.0@, p.1@)),
                self@.len() == self.entries@.len(),
                match found {
                    Option::Some(v) => spec_lookup(self@.take(i as int), name@) == Option::Some(
                        v@,
                    ),
                    Option::None => spec_lookup(self@.take(i as int), name@) is None,
                },
            decreases self.entries@.len() - i,
        {
            assert(self@.take(i + 1 as int).drop_last() =~= self@.take(i as int));
            assert(self@.take(i + 1 as int).last() == (self.entries@[i as int].0@,
            self.entries@[i as int].1@));
            if &self.entries[i].0 == name {
                assert(self.entries@[i as int].0@ =~= name@);
                found = Option::Some(&self.entries[i].1);
            } else {
                assert(!(self.entries@[i as int].0@ =~= name@));
            }
            i += 1;
        }
        assert(self@.take(self.entries@.len() as int) =~= self@);
        found
    }

    /// How many headers are stored.
    pub fn len(&self) -> (r: usize)
        ensures
            r == self@.len(),
    {
        self.entries.len()
    }
}

/// What parsing the header lines yields: the entries in order, or a
/// malformed line.
pub open spec fn spec_parse_header_lines(lines: Seq<Seq<u8>>) -> Option<Seq<(Seq<u8>, Seq<u8>)>>
    decreases lines.len(),
{
    if lines.len() == 0 {
        Option::Some(Seq::<(Seq<u8>, Seq<u8>)>::empty())
    } else if spec_trim(lines[0]).len() == 0 {
        Option::Some(Seq::<(Seq<u8>, Seq<u8>)>::empty())
    } else if spec_find_colon(lines[0]) == -1 {
        Option::None
    } else {
        let c = spec_find_colon(lines[0]);
        let entry = (
            spec_trim(lines[0].take(c)),
            spec_trim(lines[0].skip(c + 1)),
        );
        match spec_parse_header_lines(lines.drop_first()) {
            Option::None => Option::None,
            Option::Some(rest) => Option::Some(seq![entry] + rest),
        }
    }
}

/// Split one header line at its first colon and trim both sides.
fn parse_header_line(line: &Vec<u8>) -> (r: Option<(Vec<u8>, Vec<u8>)>)
    ensures
        match r {
            Option::Some(p) => spec_find_colon(line@) >= 0 && p.0@ == spec_trim(
                line@.take(spec_find_colon(line@)),
            ) && p.1@ == spec_trim(line@.skip(spec_find_colon(line@) + 1)),
            Option::None => spec_find_colon(line@) == -1,
        },
{
    let mut i: usize = 0;
    while i < line.len() && line[i] != 0x3a
        invariant
            i <= line@.len(),
            forall|j: int| 0 <= j < i ==> line@[j] != 0x3a,
        decreases line@.len() - i,
    {
        i += 1;
    }
    if i == line.len() {
        proof {
            lemma_find_colon_absent(line@);
        }
        return Option::None;
    }
    proof {
        lemma_find_colon_at(line@, i as int);
    }
    let key_raw = subvec(line, 0, i);
    let val_raw = subvec(line, i + 1, line.len());
    assert(line@.subrange(0, i as int) =~= line@.take(i as int));
    assert(line@.subrange(i + 1 as int, line@.len() as int) =~= line@.skip(i + 1 as int));
    Option::Some((trim_bytes(&key_raw), trim_bytes(&val_raw)))
}

/// Parse the request preamble: the request line must name GET, and each
/// following line up to a blank one must be a `name: value` header.
#[verifier::loop_isolation(false)]
pub fn read_http_headers(lines: &Vec<Vec<u8>>) -> (r: Result<Headers, HandshakeError>)
    ensures
        ({
            let ls = lines.deep_view();
            if !(ls.len() >= 1 && spec_is_get(ls[0])) {
                r matches Err(HandshakeError::InvalidHeader(m)) && m@
                    == "Must be GET request".spec_bytes()
            } else {
                match spec_parse_header_lines(ls.drop_first()) {
                    Option::None => r matches Err(HandshakeError::InvalidHeader(m)) && m@
                        == "Invalid header format".spec_bytes(),
                    Option::Some(es) => r matches Ok(h) && h@ == es,
                }
            }
        }),
{
    let ghost ls = lines.deep_view();
    if lines.len() == 0 {
        return Err(HandshakeError::InvalidHeader("Must be GET request".as_bytes_vec()));
    }
    let first = &lines[0];
    assert(ls[0] =~= first@);
    if !(first.len() >= 3 && first[0] == 0x47 && first[1] == 0x45 && first[2] == 0x54) {
        return Err(HandshakeError::InvalidHeader("Must be GET request".as_bytes_vec()));
    }
    let ghost hl = ls.drop_first();
    proof {
        assert forall|k: int| 0 <= k < hl.len() implies hl[k] == lines@[k + 1]@ by {
            assert(hl[k] == ls[k + 1]);
            assert(ls[k + 1] =~= lines@[k + 1]@);
        }
    }
    let mut headers = Headers::new();
    proof {
        assert(hl.skip(0) =~= hl);
        match spec_parse_header_lines(hl) {
            Option::Some(rest) => {
                assert(Seq::<(Seq<u8>, Seq<u8>)>::empty() + rest =~= rest);
            },
            Option::None => {},
        }
    }
    let mut i: usize = 1;
    while i < lines.len()
        invariant
            1 <= i <= lines@.len(),
            ls == lines.deep_view(),
            hl == ls.drop_first(),
            hl.len() == lines@.len() - 1,
            forall|k: int| 0 <= k < hl.len() ==> hl[k] == lines@[k + 1]@,
            spec_parse_header_lines(hl) == match spec_parse_header_lines(
                hl.skip(i - 1),
            ) {
                Option::None => Option::None::<Seq<(Seq<u8>, Seq<u8>)>>,
                Option::Some(rest) => Option::Some(headers@ + rest),
            },
        decreases lines@.len() - i,
    {
        let line = &lines[i];
        assert(line@ == hl[i - 1]);
        assert(hl.skip(i - 1)[0] == hl[i - 1]);
        assert(hl.skip(i - 1).drop_first() =~= hl.skip(i as int));
        let t = trim_bytes(line);
        if t.len() == 0 {
            assert(spec_parse_header_lines(hl.skip(i - 1)) == Option::Some(
                Seq::<(Seq<u8>, Seq<u8>)>::empty(),
            ));
            assert(headers@ + Seq::<(Seq<u8>, Seq<u8>)>::empty() =~= headers@);
            return Ok(headers);
        }
        match parse_header_line(line) {
            Option::Some(p) => {
                let ghost ek = p.0@;
                let ghost ev = p.1@;
                let ghost hprev = headers@;
                let (key, value) = p;
                headers.insert(key, value);
                proof {
                    match spec_parse_header_lines(hl.skip(i as int)) {
                        Option::Some(rest2) => {
                            assert((hprev + seq![(ek, ev)]) + rest2 =~= hprev + (seq![(ek, ev)]
                                + rest2));
                        },
                        Option::None => {},
                    }
                }
            },
            Option::None => {
                return Err(HandshakeError::InvalidHeader("Invalid header format".as_bytes_vec()));
            },
        }
        i += 1;
    }
    assert(hl.skip(lines@.len() - 1) =~= Seq::<Seq<u8>>::empty());
    assert(headers@ + Seq::<(Seq<u8>, Seq<u8>)>::empty() =~= headers@);
    Ok(headers)
}

/// The outcome `validate_headers` owes for a given mapping: the first
/// missing required header in the order key, upgrade, connection; then
/// the value checks; then success.
pub open spec fn spec_validate(hs: Seq<(Seq<u8>, Seq<u8>)>) -> Result<(), (bool, Seq<u8>)> {
    if spec_lookup(hs, "Sec-WebSocket-Key".spec_bytes()) is None {
        Err((true, "Sec-WebSocket-Key".spec_bytes()))
    } else if spec_lookup(hs, "Upgrade".spec_bytes()) is None {
        Err((true, "Upgrade".spec_bytes()))
    } else if spec_lookup(hs, "Connection".spec_bytes()) is None {
        Err((true, "Connection".spec_bytes()))
    } else if spec_lower(spec_lookup(hs, "Upgrade".spec_bytes()).unwrap())
        != "websocket".spec_bytes() {
        Err((false, "Upgrade header must be websocket".spec_bytes()))
    } else if spec_lower(spec_lookup(hs, "Connection".spec_bytes()).unwrap())
        != "upgrade".spec_bytes() {
        Err((false, "Connection header must be upgrade".spec_bytes()))
    } else {
        Ok(())
    }
}

/// Check that the three required headers are present, that `Upgrade` is
/// `websocket` and `Connection` is `upgrade`, both compared
/// ASCII-case-insensitively.
pub fn validate_headers(headers: &Headers) -> (r: Result<(), HandshakeError>)
    ensures
        match spec_validate(headers@) {
            Ok(u) => r is Ok,
            Err(e) => {
                &&& e.0 ==> (r matches Err(HandshakeError::MissingHeader(m)) && m@ == e.1)
                &&& !e.0 ==> (r matches Err(HandshakeError::InvalidHeader(m)) && m@ == e.1)
            },
        },
{
    let key_name = "Sec-WebSocket-Key".as_bytes_vec();
    let upgrade_name = "Upgrade".as_bytes_vec();
    let connection_name = "Connection".as_bytes_vec();
    if headers.get(&key_name).is_none() {
        return Err(HandshakeError::MissingHeader(key_name));
    }
    let upgrade = match headers.get(&upgrade_name) {
        Option::Some(v) => v,
        Option::None => {
            return Err(HandshakeError::MissingHeader(upgrade_name));
        },
    };
    let connection = match headers.get(&connection_name) {
        Option::Some(v) => v,
        Option::None => {
            return Err(HandshakeError::MissingHeader(connection_name));
        },
    };
    if !bytes_eq(&lower_bytes(upgrade), &"websocket".as_bytes_vec()) {
        return Err(HandshakeError::InvalidHeader("Upgrade header must be websocket".as_bytes_vec()));
    }
    if !bytes_eq(&lower_bytes(connection), &"upgrade".as_bytes_vec()) {
        return Err(HandshakeError::InvalidHeader("Connection header must be upgrade".as_bytes_vec()));
    }
    Ok(())
}

/// The exact 101 response owed for a client key: the fixed status line
/// and headers, then the accept key derived from the client key and the
/// WebSocket GUID by SHA-1 and Base64.
pub open spec fn spec_response(key: Seq<u8>) -> Seq<u8> {
    "HTTP/1.1 101 Switching Protocols\r\nUpgrade: websocket\r\nConnection: Upgrade\r\nSec-WebSocket-Accept: ".spec_bytes()
        + base64_of(sha1_of(key + "258EAFA5-E914-47DA-95CA-C5AB0DC85B11".spec_bytes()))
        + "\r\n\r\n".spec_bytes()
}

/// Build the 101 Switching Protocols response for a client key.
pub fn generate_response(key: &Vec<u8>) -> (r: Vec<u8>)
    ensures
        r@ == spec_response(key@),
{
    let mut input: Vec<u8> = Vec::new();
    input.extend_from_slice(key.as_slice());
    let mut guid = "258EAFA5-E914-47DA-95CA-C5AB0DC85B11".as_bytes_vec();
    input.append(&mut guid);
    assert(input@ =~= key@ + "258EAFA5-E914-47DA-95CA-C5AB0DC85B11".spec_bytes());
    let digest = sha1_digest(&input);
    let accept = base64_encode(&digest);
    let mut out =
        "HTTP/1.1 101 Switching Protocols\r\nUpgrade: websocket\r\nConnection: Upgrade\r\nSec-WebSocket-Accept: ".as_bytes_vec();
    out.extend_from_slice(accept.as_slice());
    let mut tail = "\r\n\r\n".as_bytes_vec();
    out.append(&mut tail);
    assert(out@ =~= spec_response(key@));
    out
}

/// Run the whole handshake on the request preamble: parse the lines,
/// validate the headers, and return the exact response bytes to write.
pub fn do_handshake(lines: &Vec<Vec<u8>>) -> (r: Result<Vec<u8>, HandshakeError>)
    ensures
        ({
            let ls = lines.deep_view();
            if !(ls.len() >= 1 && spec_is_get(ls[0])) {
                r matches Err(HandshakeError::InvalidHeader(m)) && m@
                    == "Must be GET request".spec_bytes()
            } else {
                match spec_parse_header_lines(ls.drop_first()) {
                    Option::None => r matches Err(HandshakeError::InvalidHeader(m)) && m@
                        == "Invalid header format".spec_bytes(),
                    Option::Some(es) => match spec_validate(es) {
                        Err(e) => {
                            &&& e.0 ==> (r matches Err(HandshakeError::MissingHeader(m))
                                && m@ == e.1)
                            &&& !e.0 ==> (r matches Err(HandshakeError::InvalidHeader(m))
                                && m@ == e.1)
                        },
                        Ok(u) => r matches Ok(resp) && resp@ == spec_response(
                            spec_lookup(es, "Sec-WebSocket-Key".spec_bytes()).unwrap(),
                        ),
                    },
                }
            }
        }),
{
    let headers = match read_http_headers(lines) {
        Ok(h) => h,
        Err(e) => {
            return Err(e);
        },
    };
    match validate_headers(&headers) {
        Ok(u) => {},
        Err(e) => {
            return Err(e);
        },
    }
    let key_name = "Sec-WebSocket-Key".as_bytes_vec();
    match headers.get(&key_name) {
        Option::Some(key) => Ok(generate_response(key)),
        Option::None => Err(HandshakeError::MissingHeader(key_name)),
    }
}

} // verus!
