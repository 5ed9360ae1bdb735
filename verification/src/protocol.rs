//! The protocol engine: classification of a request header, the duration
//! directive, and the handling of complete `SET`/`GET` requests against the
//! store, producing the exact bytes written back to the peer.
//!
//! Requests arrive as text; `receive_message` handles a request held whole
//! in one message, while the connection path classifies a header with
//! [`ShareMemory::check_header_set_method`], parses it with
//! [`parse_set_header`], and applies it with [`ShareMemory::apply_set`] or
//! [`ShareMemory::get_data`].

use vstd::prelude::*;
use vstd::string::*;
use crate::text::{
    crlf,
    crlf2,
    lemma_crlf_literal,
    match_at,
    first_match_from,
    lemma_first_match_bounds,
    split_seq,
    lemma_split_two,
    eq_ci,
    eq_ci_exec,
    ci_match_at,
    contains_ci,
    lower_code,
    ws_toks,
    two_ws_tokens,
    parse_i64,
    parse_i64_str,
    find_from,
    s_len,
};
use crate::store::{EntryModel, ShareMemory, fresh_at};
use crate::codec::{CHUNK_SIZE, chunked_response, encode_chunked};
use crate::clock::now_seconds;

verus! {

/// Default time-to-live, in seconds, of a `SET` without a duration
/// directive.  A deployment may override it per call through
/// [`ShareMemory::receive_message_at`].
pub const EXPIRE_TIMEOUT: i64 = 300;

/// Why a request was rejected before touching the store.
#[derive(Debug, Clone, Copy, PartialEq, Eq, Structural)]
pub enum ProtocolError {
    MalformedHeader,
}

// ===== the responses on the wire =====

pub open spec fn sp() -> Seq<char> {
    seq![' ']
}

pub open spec fn resp_ok_empty() -> Seq<char> {
    "OK\r\n\r\n"@
}

pub open spec fn resp_ok_insert() -> Seq<char> {
    "OK\r\ninsert completed\r\n\r\n"@
}

pub open spec fn resp_err_expired() -> Seq<char> {
    "Err\r\n"@
}

pub open spec fn resp_err_malformed() -> Seq<char> {
    "Err\r\n\r\n"@
}

pub open spec fn resp_ok_value(v: Seq<char>) -> Seq<char> {
    resp_ok_empty() + v + crlf2()
}

// ===== the duration directive =====

/// The value carried by one header line of the exact shape
/// `duration: <number>`: two space-separated fields, the keyword compared
/// without regard to ASCII case.
pub open spec fn line_duration(line: Seq<char>) -> Option<int> {
    let parts = split_seq(line, sp());
    if parts.len() == 2 && eq_ci(parts[0], "duration:"@) {
        parse_i64(parts[1])
    } else {
        None
    }
}

/// The time-to-live after scanning `lines` in order, starting from `cur`;
/// each directive line overrides what came before it.
pub open spec fn fold_duration(lines: Seq<Seq<char>>, cur: int) -> int
    decreases lines.len(),
{
    if lines.len() == 0 {
        cur
    } else {
        fold_duration(
            lines.drop_first(),
            match line_duration(lines[0]) {
                Some(v) => v,
                None => cur,
            },
        )
    }
}

/// The first header line.
pub open spec fn first_line(h: Seq<char>) -> Seq<char> {
    split_seq(h, crlf())[0]
}

/// The time-to-live requested by a header: the last `duration:` directive
/// among the lines after the first, or `dflt`.
pub open spec fn header_ttl(h: Seq<char>, dflt: int) -> int {
    fold_duration(split_seq(h, crlf()).drop_first(), dflt)
}

/// The header switches the body to chunked framing.
pub open spec fn header_chunked(h: Seq<char>) -> bool {
    contains_ci(h, "transfer-encoding: chunked"@)
}

/// Classification of a header: `Some(true)` for a set, `Some(false)` for a
/// get, `None` when the first line has no two whitespace-separated tokens or
/// an unknown method.
pub open spec fn classify_header(h: Seq<char>) -> Option<bool> {
    let toks = ws_toks(first_line(h));
    if toks.len() < 2 {
        None
    } else if eq_ci(toks[0], "set"@) {
        Some(true)
    } else if eq_ci(toks[0], "get"@) {
        Some(false)
    } else {
        None
    }
}

// ===== the outcome of a request =====

/// A GET against the store model at time `now`, answered with the plain
/// response forms.
pub open spec fn get_outcome(m: Map<Seq<char>, EntryModel>, key: Seq<char>, now: int) -> (
    Map<Seq<char>, EntryModel>,
    Seq<char>,
) {
    if !m.contains_key(key) {
        (m, resp_ok_empty())
    } else if fresh_at(m[key], now) {
        (m, resp_ok_value(m[key].data))
    } else {
        (m.remove(key), resp_err_expired())
    }
}

/// A GET on the connection path: a value longer than `CHUNK_SIZE` is framed
/// by the chunked encoder instead of the plain form.
pub open spec fn get_data_outcome(m: Map<Seq<char>, EntryModel>, key: Seq<char>, now: int) -> (
    Map<Seq<char>, EntryModel>,
    Seq<char>,
) {
    if !m.contains_key(key) {
        (m, resp_ok_empty())
    } else if fresh_at(m[key], now) {
        if m[key].data.len() > CHUNK_SIZE {
            (m, chunked_response(m[key].data))
        } else {
            (m, resp_ok_value(m[key].data))
        }
    } else {
        (m.remove(key), resp_err_expired())
    }
}

/// The value-line step of a bare (unterminated) set: the line before the
/// value must be empty, and the value is the line at `value_line`.
pub open spec fn bare_set_value(
    m: Map<Seq<char>, EntryModel>,
    parts: Seq<Seq<char>>,
    key: Seq<char>,
    ttl: int,
    value_line: int,
    now: int,
) -> (Map<Seq<char>, EntryModel>, Seq<char>) {
    if parts.len() <= value_line || parts[value_line - 1].len() != 0 {
        (m, resp_err_malformed())
    } else {
        (
            m.insert(key, EntryModel { data: parts[value_line], ttl, created: now }),
            resp_ok_insert(),
        )
    }
}

/// A set whose message carries no header terminator: an optional
/// `duration:` line, an empty line, then the value line.
pub open spec fn bare_set(
    m: Map<Seq<char>, EntryModel>,
    parts: Seq<Seq<char>>,
    key: Seq<char>,
    now: int,
    dflt: int,
) -> (Map<Seq<char>, EntryModel>, Seq<char>) {
    if parts.len() > 2 && parts[1].len() > 0 {
        let dp = split_seq(parts[1], sp());
        if dp.len() == 2 && eq_ci(dp[0], "duration:"@) {
            let ttl = match parse_i64(dp[1]) {
                Some(v) => v,
                None => dflt,
            };
            bare_set_value(m, parts, key, ttl, 3, now)
        } else {
            (m, resp_err_malformed())
        }
    } else {
        bare_set_value(m, parts, key, dflt, 2, now)
    }
}

/// A set body keeps its text except for one trailing line terminator.
pub open spec fn trim_value(body: Seq<char>) -> Seq<char> {
    if body.len() >= 2 && body.skip(body.len() - 2) == crlf() {
        body.take(body.len() - 2)
    } else {
        body
    }
}

/// One request handled from a complete in-memory message at time `now`:
/// the store contents afterwards and the response returned.
pub open spec fn receive_step(
    m: Map<Seq<char>, EntryModel>,
    msg: Seq<char>,
    now: int,
    dflt: int,
) -> (Map<Seq<char>, EntryModel>, Seq<char>) {
    if first_match_from(msg, crlf2(), 0) is Some {
        let parts = split_seq(msg, crlf2());
        let lines = split_seq(parts[0], crlf());
        let toks = split_seq(lines[0], sp());
        if toks.len() < 2 {
            (m, resp_err_malformed())
        } else if eq_ci(toks[0], "set"@) {
            let ttl = fold_duration(lines.drop_first(), dflt);
            (
                m.insert(toks[1], EntryModel { data: trim_value(parts[1]), ttl, created: now }),
                resp_ok_insert(),
            )
        } else if eq_ci(toks[0], "get"@) {
            get_outcome(m, toks[1], now)
        } else {
            (m, resp_err_malformed())
        }
    } else {
        let parts = split_seq(msg, crlf());
        let toks = split_seq(parts[0], sp());
        if toks.len() < 2 {
            (m, resp_err_malformed())
        } else if eq_ci(toks[0], "set"@) {
            bare_set(m, parts, toks[1], now, dflt)
        } else if eq_ci(toks[0], "get"@) {
            get_outcome(m, toks[1], now)
        } else {
            (m, resp_err_malformed())
        }
    }
}

// ===== the wire form of a request =====

/// A key as it can stand on the wire: free of spaces and line breaks.
pub open spec fn wire_key(key: Seq<char>) -> bool {
    forall|i: int| 0 <= i < key.len() ==> key[i] != ' ' && key[i] != '\r' && key[i] != '\n'
}

/// A value whose text cannot collide with the line framing.
pub open spec fn wire_value(value: Seq<char>) -> bool {
    forall|i: int| 0 <= i < value.len() ==> value[i] != '\r'
}

/// The wire form of a set request that carries a duration directive.
pub open spec fn set_message(key: Seq<char>, value: Seq<char>, ttl: int) -> Seq<char> {
    "set "@ + key + crlf() + "duration: "@ + crate::codec::dec_digits(ttl) + crlf2() + value
        + crlf2()
}

/// The wire form of a get request.
pub open spec fn get_message(key: Seq<char>) -> Seq<char> {
    "get "@ + key
}

// ===== executable splitting =====

/// Split `s` on `pat`, each part an owned string.
pub fn split_str(s: &str, pat: &str) -> (parts: Vec<String>)
    requires
        pat@.len() >= 1,
    ensures
        parts@.map_values(|x: String| x@) == split_seq(s@, pat@),
        parts@.len() >= 1,
    decreases s@.len(),
{
    let n = s_len(s);
    let m = s_len(pat);
    match find_from(s, pat, 0) {
        None => {
            let mut parts: Vec<String> = Vec::new();
            parts.push(String::from_str(s));
            proof {
                assert(parts@.map_values(|x: String| x@) =~= seq![s@]);
            }
            parts
        },
        Some(i) => {
            proof {
                lemma_first_match_bounds(s@, pat@, 0);
            }
            let first = String::from_str(s.substring_char(0, i));
            let rest = s.substring_char(i + m, n);
            let mut parts = split_str(rest, pat);
            parts.insert(0, first);
            proof {
                assert(s@.subrange(0, i as int) =~= s@.take(i as int));
                assert(s@.subrange(i + m, n as int) =~= s@.skip(i + m));
                assert(parts@.map_values(|x: String| x@) =~= seq![s@.take(i as int)]
                    + split_seq(s@.skip(i + m), pat@));
            }
            parts
        },
    }
}

/// The duration directive of one line, if it carries one.
fn line_duration_exec(line: &str) -> (r: Option<i64>)
    ensures
        (match r {
            Some(v) => line_duration(line@) == Some(v as int),
            None => line_duration(line@) is None,
        }),
{
    proof {
        reveal_strlit(" ");
        assert(" "@ =~= sp());
    }
    let dp = split_str(line, " ");
    if dp.len() == 2 {
        if eq_ci_exec(dp[0].as_str(), "duration:") {
            parse_i64_str(dp[1].as_str())
        } else {
            None
        }
    } else {
        None
    }
}

/// Fold the duration directives of `lines` after the first, starting from
/// `dflt`.
fn scan_duration(lines: &Vec<String>, dflt: i64) -> (r: i64)
    requires
        lines@.len() >= 1,
    ensures
        r as int == fold_duration(lines@.map_values(|x: String| x@).drop_first(), dflt as int),
{
    let ghost slines: Seq<Seq<char>> = lines@.map_values(|x: String| x@);
    let mut ttl = dflt;
    let mut li: usize = 1;
    proof {
        assert(slines.drop_first() =~= slines.skip(1));
    }
    while li < lines.len()
        invariant
            1 <= li <= lines@.len(),
            slines == lines@.map_values(|x: String| x@),
            fold_duration(slines.drop_first(), dflt as int) == fold_duration(
                slines.skip(li as int),
                ttl as int,
            ),
        decreases lines@.len() - li,
    {
        let got = line_duration_exec(lines[li].as_str());
        proof {
            assert(slines.skip(li as int).drop_first() =~= slines.skip(li + 1));
            assert(slines.skip(li as int)[0] == slines[li as int]);
        }
        ttl = match got {
            Some(v) => v,
            None => ttl,
        };
        li = li + 1;
    }
    proof {
        assert(slines.skip(slines.len() as int) =~= Seq::<Seq<char>>::empty());
    }
    ttl
}

/// Drop one trailing line terminator from a set body, if present.
fn trim_crlf_suffix(body: &str) -> (r: String)
    ensures
        r@ == trim_value(body@),
{
    proof {
        lemma_crlf_literal();
    }
    let n = s_len(body);
    if n >= 2 && body.get_char(n - 2) == '\r' && body.get_char(n - 1) == '\n' {
        proof {
            assert(body@.skip(n - 2 as int) =~= crlf());
        }
        String::from_str(body.substring_char(0, n - 2))
    } else {
        proof {
            if n >= 2 && body@.skip(n - 2 as int) == crlf() {
                assert(body@[n - 2] == body@.skip(n - 2 as int)[0]);
                assert(body@[n - 1] == body@.skip(n - 2 as int)[1]);
            }
        }
        String::from_str(body)
    }
}

/// Drop one trailing header terminator from a set body, if present.  A
/// peer ends its body with the same four-byte sequence that ended the
/// headers; that framing is not part of the stored value.
pub fn trim_terminator(body: &str) -> (r: String)
    ensures
        r@ == (if body@.len() >= 4 && body@.skip(body@.len() - 4) == crlf2() {
            body@.take(body@.len() - 4)
        } else {
            body@
        }),
{
    proof {
        lemma_crlf_literal();
    }
    let n = s_len(body);
    if n >= 4 && body.get_char(n - 4) == '\r' && body.get_char(n - 3) == '\n' && body.get_char(
        n - 2,
    ) == '\r' && body.get_char(n - 1) == '\n' {
        proof {
            assert(body@.skip(n - 4 as int) =~= crlf2());
        }
        String::from_str(body.substring_char(0, n - 4))
    } else {
        proof {
            if n >= 4 && body@.skip(n - 4 as int) == crlf2() {
                assert(body@[n - 4] == body@.skip(n - 4 as int)[0]);
                assert(body@[n - 3] == body@.skip(n - 4 as int)[1]);
                assert(body@[n - 2] == body@.skip(n - 4 as int)[2]);
                assert(body@[n - 1] == body@.skip(n - 4 as int)[3]);
            }
        }
        String::from_str(body)
    }
}

/// Does `pat` occur in `s`, without regard to ASCII case?
pub fn contains_ci_exec(s: &str, pat: &str) -> (r: bool)
    ensures
        r == contains_ci(s@, pat@),
{
    let n = s_len(s);
    let m = s_len(pat);
    if m > n {
        proof {
            assert(forall|i: int| !ci_match_at(s@, pat@, i));
        }
        return false;
    }
    let mut i: usize = 0;
    while i <= n - m
        invariant
            0 <= i <= n - m + 1,
            m <= n,
            n == s@.len(),
            m == pat@.len(),
            forall|k: int| 0 <= k < i ==> !ci_match_at(s@, pat@, k),
        decreases n - m + 1 - i,
    {
        if ci_match_exec(s, pat, i, n, m) {
            return true;
        }
        i = i + 1;
    }
    proof {
        assert(forall|k: int| i <= k ==> !ci_match_at(s@, pat@, k));
    }
    false
}

fn ci_match_exec(s: &str, pat: &str, i: usize, n: usize, m: usize) -> (b: bool)
    requires
        n == s@.len(),
        m == pat@.len(),
        i + m <= n,
    ensures
        b == ci_match_at(s@, pat@, i as int),
{
    let mut j: usize = 0;
    while j < m
        invariant
            0 <= j <= m,
            i + m <= n,
            n == s@.len(),
            m == pat@.len(),
            forall|k: int| 0 <= k < j ==> lower_code(s@[i + k]) == lower_code(pat@[k]),
        decreases m - j,
    {
        let a = s.get_char(i + j);
        let b = pat.get_char(j);
        let la: u32 = {
            let x = a as u32;
            if 65 <= x && x <= 90 {
                x + 32
            } else {
                x
            }
        };
        let lb: u32 = {
            let x = b as u32;
            if 65 <= x && x <= 90 {
                x + 32
            } else {
                x
            }
        };
        if la != lb {
            proof {
                if ci_match_at(s@, pat@, i as int) {
                    assert(s@.subrange(i as int, i + m as int)[j as int] == s@[i + j]);
                }
            }
            return false;
        }
        j = j + 1;
    }
    proof {
        assert(forall|k: int|
            0 <= k < m ==> #[trigger] lower_code(s@.subrange(i as int, i + m as int)[k])
                == lower_code(pat@[k]));
    }
    true
}

// ===== the header terminator in a raw byte stream =====

pub open spec fn crlf2_b() -> Seq<u8> {
    seq![13u8, 10u8, 13u8, 10u8]
}

/// Position of the first header terminator in a buffered byte stream.
pub fn find_header_end(buffer: &[u8]) -> (r: Option<usize>)
    ensures
        (match r {
            Some(p) => first_match_from(buffer@, crlf2_b(), 0) == Some(p as int),
            None => first_match_from(buffer@, crlf2_b(), 0) is None,
        }),
{
    let n = buffer.len();
    let mut i: usize = 0;
    loop
        invariant
            0 <= i,
            n == buffer@.len(),
            first_match_from(buffer@, crlf2_b(), 0) == first_match_from(buffer@, crlf2_b(), i as int),
        decreases n + 4 - i,
    {
        if n < 4 || i > n - 4 {
            assert(first_match_from(buffer@, crlf2_b(), i as int) is None);
            return None;
        }
        if buffer[i] == 13 && buffer[i + 1] == 10 && buffer[i + 2] == 13 && buffer[i + 3] == 10 {
            proof {
                assert(buffer@.subrange(i as int, i + 4) =~= crlf2_b());
                assert(first_match_from(buffer@, crlf2_b(), i as int) == Some(i as int));
            }
            return Some(i);
        }
        proof {
            assert(!match_at(buffer@, crlf2_b(), i as int)) by {
                if match_at(buffer@, crlf2_b(), i as int) {
                    assert(buffer@.subrange(i as int, i + 4)[0] == 13u8);
                    assert(buffer@.subrange(i as int, i + 4)[1] == 10u8);
                    assert(buffer@.subrange(i as int, i + 4)[2] == 13u8);
                    assert(buffer@.subrange(i as int, i + 4)[3] == 10u8);
                }
            }
            assert(first_match_from(buffer@, crlf2_b(), i as int) == first_match_from(
                buffer@,
                crlf2_b(),
                i + 1,
            ));
        }
        i = i + 1;
    }
}

// ===== the parsed form of a set header =====

/// What a set header asks for: the key, the effective time-to-live, and
/// whether the body arrives chunk-framed.
pub struct SetHeader {
    pub key: String,
    pub ttl: i64,
    pub chunked: bool,
}

/// Parse a set header: the key is the second whitespace-separated token of
/// the first line, the time-to-live the last `duration:` directive or
/// `default_ttl`, and chunked framing is switched on by a
/// `transfer-encoding: chunked` header, matched without regard to case.
pub fn parse_set_header(header: &str, default_ttl: i64) -> (r: Option<SetHeader>)
    ensures
        (match r {
            Some(sh) => ws_toks(first_line(header@)).len() >= 2 && sh.key@ == ws_toks(
                first_line(header@),
            )[1] && sh.ttl as int == header_ttl(header@, default_ttl as int) && sh.chunked
                == header_chunked(header@),
            None => ws_toks(first_line(header@)).len() < 2,
        }),
{
    proof {
        lemma_crlf_literal();
    }
    let n = s_len(header);
    let line0: &str = match find_from(header, "\r\n", 0) {
        Some(i) => {
            proof {
                lemma_first_match_bounds(header@, crlf(), 0);
                assert(header@.subrange(0, i as int) =~= header@.take(i as int));
            }
            header.substring_char(0, i)
        },
        None => header,
    };
    match two_ws_tokens(line0) {
        None => None,
        Some((_method, key)) => {
            let lines = split_str(header, "\r\n");
            let ttl = scan_duration(&lines, default_ttl);
            let chunked = contains_ci_exec(header, "transfer-encoding: chunked");
            Some(SetHeader { key, ttl, chunked })
        },
    }
}

// ===== requests against the store =====

impl ShareMemory {
    /// Classify the request line of `header`: `Ok(true)` for a set,
    /// `Ok(false)` for a get, an error when the line has no two
    /// whitespace-separated tokens or an unknown method.
    pub fn check_header_set_method(&self, header: String) -> (r: Result<bool, ProtocolError>)
        ensures
            (match r {
                Ok(b) => classify_header(header@) == Some(b),
                Err(_) => classify_header(header@) is None,
            }),
    {
        proof {
            lemma_crlf_literal();
        }
        let hs = header.as_str();
        let line0: &str = match find_from(hs, "\r\n", 0) {
            Some(i) => {
                proof {
                    lemma_first_match_bounds(header@, crlf(), 0);
                    assert(header@.subrange(0, i as int) =~= header@.take(i as int));
                }
                hs.substring_char(0, i)
            },
            None => hs,
        };
        match two_ws_tokens(line0) {
            None => Err(ProtocolError::MalformedHeader),
            Some((method, _key)) => {
                if eq_ci_exec(method.as_str(), "set") {
                    Ok(true)
                } else if eq_ci_exec(method.as_str(), "get") {
                    Ok(false)
                } else {
                    Err(ProtocolError::MalformedHeader)
                }
            },
        }
    }

    /// Store the body of a parsed set request, stamped at time `now`, and
    /// return the success response.
    pub fn apply_set(&mut self, sh: SetHeader, value: String, now: i64) -> (r: String)
        requires
            old(self).wf(),
        ensures
            final(self).wf(),
            final(self)@ == old(self)@.insert(
                sh.key@,
                EntryModel { data: value@, ttl: sh.ttl as int, created: now as int },
            ),
            r@ == resp_ok_insert(),
    {
        self.put(sh.key, value, sh.ttl, now);
        String::from_str("OK\r\ninsert completed\r\n\r\n")
    }

    /// Store the body of a parsed set request, stamped at the current
    /// wall-clock time, and return the success response.
    pub fn apply_set_now(&mut self, sh: SetHeader, value: String) -> (r: String)
        requires
            old(self).wf(),
        ensures
            final(self).wf(),
            (exists|t: int|
                final(self)@ == #[trigger] old(self)@.insert(
                    sh.key@,
                    EntryModel { data: value@, ttl: sh.ttl as int, created: t },
                )),
            r@ == resp_ok_insert(),
    {
        let now = now_seconds();
        let ghost key_view: Seq<char> = sh.key@;
        let ghost value_view: Seq<char> = value@;
        let ghost ttl_view: int = sh.ttl as int;
        let r = self.apply_set(sh, value, now);
        proof {
            let t = now as int;
            assert(self@ == old(self)@.insert(
                key_view,
                EntryModel { data: value_view, ttl: ttl_view, created: t },
            ));
        }
        r
    }

    /// A GET answered with the plain response forms.
    fn get_plain(&mut self, key: &str, now: i64) -> (r: String)
        requires
            old(self).wf(),
        ensures
            final(self).wf(),
            ({
                let (m2, resp) = get_outcome(old(self)@, key@, now as int);
                final(self)@ == m2 && r@ == resp
            }),
    {
        proof {
            lemma_crlf_literal();
        }
        match self.read_at(key, now) {
            None => String::from_str("OK\r\n\r\n"),
            Some(Some(v)) => {
                let mut r = String::from_str("OK\r\n\r\n");
                r.append(v.as_str());
                r.append("\r\n\r\n");
                proof {
                    assert(r@ =~= resp_ok_value(v@));
                }
                r
            },
            Some(None) => String::from_str("Err\r\n"),
        }
    }

    /// The response for a GET of `key` judged at time `now`: the stored
    /// value — chunk-framed when longer than `CHUNK_SIZE` — an empty
    /// success when the key is absent, or the expiry error, which also
    /// removes the entry.
    pub fn get_data_at(&mut self, key: &str, now: i64) -> (r: String)
        requires
            old(self).wf(),
        ensures
            final(self).wf(),
            ({
                let (m2, resp) = get_data_outcome(old(self)@, key@, now as int);
                final(self)@ == m2 && r@ == resp
            }),
    {
        proof {
            lemma_crlf_literal();
        }
        match self.read_at(key, now) {
            None => String::from_str("OK\r\n\r\n"),
            Some(Some(v)) => {
                if v.as_str().unicode_len() > CHUNK_SIZE {
                    encode_chunked(v.as_str())
                } else {
                    let mut r = String::from_str("OK\r\n\r\n");
                    r.append(v.as_str());
                    r.append("\r\n\r\n");
                    proof {
                        assert(r@ =~= resp_ok_value(v@));
                    }
                    r
                }
            },
            Some(None) => String::from_str("Err\r\n"),
        }
    }

    /// [`ShareMemory::get_data_at`] judged at the current wall-clock time.
    pub fn get_data(&mut self, key: &str) -> (r: String)
        requires
            old(self).wf(),
        ensures
            final(self).wf(),
            exists|t: int| #[trigger] get_data_outcome(old(self)@, key@, t) == (final(self)@, r@),
    {
        let now = now_seconds();
        let r = self.get_data_at(key, now);
        proof {
            let t = now as int;
            assert(get_data_outcome(old(self)@, key@, t) == (self@, r@));
        }
        r
    }

    /// Handle one complete request message at time `now`, with
    /// `default_ttl` applied to a set without a duration directive.  The
    /// store afterwards and the response are exactly those of
    /// [`receive_step`].
    pub fn receive_message_at(&mut self, message: &str, now: i64, default_ttl: i64) -> (r: String)
        requires
            old(self).wf(),
        ensures
            final(self).wf(),
            ({
                let (m2, resp) = receive_step(old(self)@, message@, now as int, default_ttl as int);
                final(self)@ == m2 && r@ == resp
            }),
    {
        proof {
            lemma_crlf_literal();
            reveal_strlit(" ");
            assert(" "@ =~= sp());
        }
        match find_from(message, "\r\n\r\n", 0) {
            Some(_) => {
                let parts = split_str(message, "\r\n\r\n");
                proof {
                    lemma_split_two(message@, crlf2());
                }
                let lines = split_str(parts[0].as_str(), "\r\n");
                let toks = split_str(lines[0].as_str(), " ");
                if toks.len() < 2 {
                    String::from_str("Err\r\n\r\n")
                } else if eq_ci_exec(toks[0].as_str(), "set") {
                    let ttl = scan_duration(&lines, default_ttl);
                    let value = trim_crlf_suffix(parts[1].as_str());
                    let key = toks[1].clone();
                    self.put(key, value, ttl, now);
                    String::from_str("OK\r\ninsert completed\r\n\r\n")
                } else if eq_ci_exec(toks[0].as_str(), "get") {
                    self.get_plain(toks[1].as_str(), now)
                } else {
                    String::from_str("Err\r\n\r\n")
                }
            },
            None => {
                let parts = split_str(message, "\r\n");
                let toks = split_str(parts[0].as_str(), " ");
                if toks.len() < 2 {
                    String::from_str("Err\r\n\r\n")
                } else if eq_ci_exec(toks[0].as_str(), "set") {
                    let ghost sparts: Seq<Seq<char>> = split_seq(message@, crlf());
                    let key = toks[1].clone();
                    let mut value_line: usize = 2;
                    let mut ttl = default_ttl;
                    if parts.len() > 2 && s_len(parts[1].as_str()) > 0 {
                        let dp = split_str(parts[1].as_str(), " ");
                        if dp.len() == 2 && eq_ci_exec(dp[0].as_str(), "duration:") {
                            ttl = match parse_i64_str(dp[1].as_str()) {
                                Some(v) => v,
                                None => default_ttl,
                            };
                            value_line = 3;
                        } else {
                            return String::from_str("Err\r\n\r\n");
                        }
                    }
                    if parts.len() <= value_line || s_len(parts[value_line - 1].as_str()) != 0 {
                        String::from_str("Err\r\n\r\n")
                    } else {
                        let value = parts[value_line].clone();
                        self.put(key, value, ttl, now);
                        String::from_str("OK\r\ninsert completed\r\n\r\n")
                    }
                } else if eq_ci_exec(toks[0].as_str(), "get") {
                    self.get_plain(toks[1].as_str(), now)
                } else {
                    String::from_str("Err\r\n\r\n")
                }
            },
        }
    }

    /// Handle one complete request message at the current wall-clock time,
    /// with the default time-to-live of [`EXPIRE_TIMEOUT`].
    pub fn receive_message(&mut self, message: String) -> (r: String)
        requires
            old(self).wf(),
        ensures
            final(self).wf(),
            exists|t: int| #[trigger] receive_step(old(self)@, message@, t, EXPIRE_TIMEOUT as int)
                == (final(self)@, r@),
    {
        let now = now_seconds();
        let r = self.receive_message_at(message.as_str(), now, EXPIRE_TIMEOUT);
        proof {
            let t = now as int;
            assert(receive_step(old(self)@, message@, t, EXPIRE_TIMEOUT as int) == (self@, r@));
        }
        r
    }
}

} // verus!
