//! The response contract against a running server, over plain HTTP: the framing of what a server
//! sends back, the server address, and the decisions of a live run. The connection itself is made
//! by the program around this library.

use vstd::prelude::*;
use vstd::string::StringExecFns;
use vstd::utf8::{decode_utf8, valid_utf8};
use crate::contract::{check, prefixed, push_prefixed, response_problems, say, ScoreVerdict};
use crate::json::{json_or_string, json_text, json_value_of, push_json, texts, Json};
use crate::text::{
    ascii_lower, ascii_lower_in, chars_of, contains, contains_exec, debug_str, debug_text, decimal,
    digit_of, digits_value, find_char, find_char_from, first_field, index_of, int_error_string,
    int_error_text, is_space, lemma_index_of, lossy_text, occurs_at, parse_uint, parse_uint_in,
    push_chars, push_decimal, push_range, second_word, second_word_bounds, starts_with,
    starts_with_exec, trim, trim_bounds, trim_end, trim_start, utf8_error, utf8_lossy_chars,
    utf8_string, IntErrorKind,
};

verus! {

/// The first position at or after `from` where `pat` occurs in `hay`.
pub open spec fn find_from(hay: Seq<u8>, pat: Seq<u8>, from: int) -> Option<int>
    decreases hay.len() + 1 - from,
    when 0 <= from
{
    if from + pat.len() > hay.len() {
        None
    } else if hay.subrange(from, from + pat.len()) == pat {
        Some(from)
    } else {
        find_from(hay, pat, from + 1)
    }
}

/// The first position where `pat` occurs in `hay`, as `hay.windows(n).position(|w| w == pat)`.
pub open spec fn find(hay: Seq<u8>, pat: Seq<u8>) -> Option<int> {
    find_from(hay, pat, 0)
}

/// The end of a line: `\r\n`.
pub open spec fn crlf() -> Seq<u8> {
    seq![13u8, 10u8]
}

/// The end of a head: a line end followed by an empty line.
pub open spec fn blank_line() -> Seq<u8> {
    seq![13u8, 10u8, 13u8, 10u8]
}

pub proof fn lemma_find_from_bounds(hay: Seq<u8>, pat: Seq<u8>, from: int)
    requires
        0 <= from,
    ensures
        find_from(hay, pat, from) matches Some(i) ==> from <= i && i + pat.len() <= hay.len()
            && hay.subrange(i, i + pat.len()) == pat,
    decreases hay.len() + 1 - from,
{
    if from + pat.len() <= hay.len() && hay.subrange(from, from + pat.len()) != pat {
        lemma_find_from_bounds(hay, pat, from + 1);
    }
}

/// Whether `pat` occurs in `hay` at `i`.
fn bytes_at(hay: &[u8], pat: &[u8], i: usize) -> (r: bool)
    requires
        i + pat@.len() <= hay@.len(),
    ensures
        r == (hay@.subrange(i as int, i + pat@.len()) == pat@),
{
    let n = pat.len();
    let hl = hay.len();
    let mut k: usize = 0;
    while k < n
        invariant
            n == pat@.len(),
            hl == hay@.len(),
            i + n <= hl,
            k <= n,
            forall|j: int| 0 <= j < k ==> hay@[i + j] == pat@[j],
        decreases n - k,
    {
        if hay[i + k] != pat[k] {
            assert(hay@.subrange(i as int, i + n)[k as int] != pat@[k as int]);
            return false;
        }
        k += 1;
    }
    assert(hay@.subrange(i as int, i + n) =~= pat@);
    true
}

/// The first position of `pat` in `hay`.
fn find_bytes(hay: &[u8], pat: &[u8]) -> (r: Option<usize>)
    requires
        1 <= pat@.len(),
    ensures
        r matches Some(i) ==> find(hay@, pat@) == Some(i as int),
        r is None ==> find(hay@, pat@) is None,
{
    let n = pat.len();
    let hl = hay.len();
    if hl < n {
        return None;
    }
    let mut i: usize = 0;
    while i <= hl - n
        invariant
            n == pat@.len(),
            hl == hay@.len(),
            1 <= n <= hl,
            i <= hl - n + 1,
            find(hay@, pat@) == find_from(hay@, pat@, i as int),
        decreases hl - i,
    {
        if bytes_at(hay, pat, i) {
            return Some(i);
        }
        i += 1;
    }
    None
}

/// The body that chunked transfer coding frames in `rest`, or why it is not well framed: each
/// chunk is a size line (hexadecimal, optionally followed by `;` and extensions, whitespace around
/// it ignored) ended by CRLF, then that many bytes and two more that end the chunk; a chunk of size
/// zero ends the body.
pub open spec fn dechunked(rest: Seq<u8>) -> Result<Seq<u8>, Seq<char>>
    decreases rest.len(),
{
    match find(rest, crlf()) {
        None => Err("a chunk without a size line"@),
        Some(end) => {
            proof {
                lemma_find_from_bounds(rest, crlf(), 0);
            }
            let line = lossy_text(rest.take(end));
            let after = rest.skip(end + 2);
            match chunk_size(line) {
                Err(kind) => Err("chunk size "@ + debug_str(line) + ": "@ + int_error_text(kind)),
                Ok(size) => if size == 0 {
                    Ok(Seq::empty())
                } else if after.len() < size {
                    Err("a chunk shorter than its size"@)
                } else if after.len() < size + 2 {
                    Err("a chunk without its line end"@)
                } else {
                    match dechunked(after.skip(size + 2int)) {
                        Ok(tail) => Ok(after.take(size as int) + tail),
                        Err(e) => Err(e),
                    }
                },
            }
        },
    }
}

/// The size that a chunk's size line gives: the hexadecimal number before any `;`, with the
/// whitespace around it ignored, that fits in a `usize`.
pub open spec fn chunk_size(line: Seq<char>) -> Result<nat, IntErrorKind> {
    parse_uint(trim(first_field(line, ';')), 16, usize::MAX as nat)
}

/// What is left of a dechunking once `out` has been taken: `out` before the rest's body.
pub open spec fn after_prefix(out: Seq<u8>, r: Result<Seq<u8>, Seq<char>>) -> Result<
    Seq<u8>,
    Seq<char>,
> {
    match r {
        Ok(t) => Ok(out + t),
        Err(e) => Err(e),
    }
}

/// The string made of `chars`.
fn string_of(chars: &Vec<char>) -> (r: String)
    ensures
        r@ == chars@,
{
    let mut s = String::new();
    push_chars(&mut s, chars);
    s
}

/// Decodes a body sent with chunked transfer coding.
pub fn unchunk(rest: &[u8]) -> (r: Result<Vec<u8>, String>)
    ensures
        match r {
            Ok(v) => dechunked(rest@) == Ok::<Seq<u8>, Seq<char>>(v@),
            Err(e) => dechunked(rest@) == Err::<Seq<u8>, Seq<char>>(e@),
        },
{
    let pair: [u8; 2] = [13u8, 10u8];
    let mut out: Vec<u8> = Vec::new();
    let mut pos: usize = 0;
    assert(rest@.skip(0) =~= rest@);
    loop
        invariant
            pos <= rest@.len(),
            pair@ == crlf(),
            dechunked(rest@) == after_prefix(out@, dechunked(rest@.skip(pos as int))),
        decreases rest@.len() - pos,
    {
        let tail: &[u8] = &rest[pos..rest.len()];
        assert(tail@ =~= rest@.skip(pos as int));
        let end = match find_bytes(tail, pair.as_slice()) {
            None => {
                return Err(String::from_str("a chunk without a size line"));
            },
            Some(end) => end,
        };
        proof {
            lemma_find_from_bounds(tail@, crlf(), 0);
        }
        let line_bytes: &[u8] = &tail[0..end];
        assert(line_bytes@ =~= tail@.take(end as int));
        let line = utf8_lossy_chars(line_bytes);
        let semi = find_char(&line, ';');
        let (a, b) = trim_bounds(&line, 0, semi);
        assert(line@.subrange(0, semi as int) =~= first_field(line@, ';'));
        let size = match parse_uint_in(&line, a, b, 16, usize::MAX as u64) {
            Err(kind) => {
                let mut msg = String::from_str("chunk size ");
                let shown = string_of(&line);
                let quoted = debug_text(shown.as_str());
                msg.append(quoted.as_str());
                msg.append(": ");
                let why = int_error_string(kind);
                msg.append(why.as_str());
                return Err(msg);
            },
            Ok(size) => size as usize,
        };
        let ghost after = tail@.skip(end + 2);
        if size == 0 {
            assert(out@ + Seq::<u8>::empty() =~= out@);
            return Ok(out);
        }
        let left = tail.len() - (end + 2);
        if left < size {
            return Err(String::from_str("a chunk shorter than its size"));
        }
        if left - size < 2 {
            return Err(String::from_str("a chunk without its line end"));
        }
        let start = pos + end + 2;
        let chunk: &[u8] = &rest[start..start + size];
        assert(chunk@ =~= after.take(size as int));
        let ghost before = out@;
        let mut k: usize = 0;
        while k < size
            invariant
                k <= size == chunk@.len(),
                out@ == before + chunk@.take(k as int),
            decreases size - k,
        {
            out.push(chunk[k]);
            assert(chunk@.take(k + 1) =~= chunk@.take(k as int).push(chunk@[k as int]));
            k += 1;
        }
        assert(chunk@.take(size as int) =~= chunk@);
        pos = start + size + 2;
        assert(after.skip(size + 2) =~= rest@.skip(pos as int));
        assert(forall|t: Seq<u8>| before + (chunk@ + t) =~= (before + chunk@) + t);
    }
}

/// Whether a line of the head declares the chunked transfer coding: lowered, it starts with
/// `transfer-encoding:` and mentions `chunked`.
pub open spec fn chunked_line(line: Seq<char>) -> bool {
    starts_with(ascii_lower(line), "transfer-encoding:"@) && contains(
        ascii_lower(line),
        "chunked"@,
    )
}

/// Whether a line of `s` starts at `a`.
pub open spec fn line_start(s: Seq<char>, a: int) -> bool {
    0 <= a <= s.len() && (a == 0 || s[a - 1] == '\n')
}

/// Where the line of `s` that starts at `a` ends: at its `\n`, or at the end of `s`.
pub open spec fn line_end(s: Seq<char>, a: int) -> int {
    a + index_of(s.skip(a), '\n')
}

/// Whether some line of the head declares the chunked transfer coding.
pub open spec fn is_chunked(head: Seq<char>) -> bool {
    exists|a: int| line_start(head, a) && #[trigger] chunked_line(head.subrange(a, line_end(head, a)))
}

/// The status code of a head: its second whitespace-separated word, read as a `u16`.
pub open spec fn status_of(head: Seq<char>) -> Option<u16> {
    match second_word(head) {
        None => None,
        Some(w) => match parse_uint(w, 10, 0xffff) {
            Ok(v) => Some(v as u16),
            Err(_) => None,
        },
    }
}

/// The status and body text of an HTTP/1.1 response, or why there are none: the head ends at the
/// first blank line, its second word is the status, a chunked body is decoded, and the body must be
/// UTF-8.
pub open spec fn response_of(raw: Seq<u8>) -> Result<(u16, Seq<char>), Seq<char>> {
    match find(raw, blank_line()) {
        None => Err("no end of headers"@),
        Some(split) => {
            let head = lossy_text(raw.take(split));
            match status_of(head) {
                None => Err("no status in "@ + debug_str(head)),
                Some(status) => {
                    let body = raw.skip(split + 4);
                    let decoded = if is_chunked(head) {
                        dechunked(body)
                    } else {
                        Ok(body)
                    };
                    match decoded {
                        Err(e) => Err(e),
                        Ok(b) => if valid_utf8(b) {
                            Ok((status, decode_utf8(b)))
                        } else {
                            Err(utf8_error(b))
                        },
                    }
                },
            }
        },
    }
}

proof fn lemma_index_of_facts(s: Seq<char>, c: char)
    ensures
        index_of(s, c) <= s.len(),
        forall|j: int| 0 <= j < index_of(s, c) ==> s[j] != c,
        index_of(s, c) < s.len() ==> s[index_of(s, c) as int] == c,
    decreases s.len(),
{
    if s.len() > 0 && s[0] != c {
        lemma_index_of_facts(s.drop_first(), c);
        assert forall|j: int| 0 <= j < index_of(s, c) implies s[j] != c by {
            if j > 0 {
                assert(s[j] == s.drop_first()[j - 1]);
            }
        }
    }
}

/// A line that declares the chunked transfer coding still does with a `\r` after it.
proof fn lemma_chunked_line_cr(line: Seq<char>)
    requires
        starts_with(ascii_lower(line), "transfer-encoding:"@),
        contains(ascii_lower(line), "chunked"@),
    ensures
        chunked_line(line),
        chunked_line(line.push('\r')),
{
    let low = ascii_lower(line);
    let more = ascii_lower(line.push('\r'));
    assert(more =~= low.push('\r'));
    let p = "transfer-encoding:"@;
    assert(more.take(p.len() as int) =~= low.take(p.len() as int));
    let q = "chunked"@;
    let i = choose|i: int| 0 <= i && i + q.len() <= low.len() && #[trigger] low.subrange(i, i + q.len()) == q;
    assert(more.subrange(i, i + q.len()) =~= low.subrange(i, i + q.len()));
}

/// A line of the head that, lowered, starts with `transfer-encoding:` and names `chunked` makes the
/// head chunked, wherever it stands among the head's lines and whatever lines follow it.
pub proof fn law_chunked_line_anywhere(before: Seq<char>, line: Seq<char>, after: Seq<char>)
    requires
        before.len() == 0 || before.last() == '\n',
        !line.contains('\n'),
        starts_with(ascii_lower(line), "transfer-encoding:"@),
        contains(ascii_lower(line), "chunked"@),
        after.len() == 0 || starts_with(after, "\n"@) || starts_with(after, "\r\n"@),
    ensures
        is_chunked(before + line + after),
{
    let head = before + line + after;
    let a = before.len() as int;
    let rest = head.skip(a);
    assert(rest =~= line + after);
    assert forall|j: int| 0 <= j < line.len() implies rest[j] != '\n' by {
        assert(rest[j] == line[j]);
        if line[j] == '\n' {
            assert(line.contains('\n'));
        }
    }
    lemma_chunked_line_cr(line);
    if after.len() == 0 {
        lemma_index_of(rest, '\n', line.len() as int);
        assert(head.subrange(a, line_end(head, a)) =~= line);
    } else if starts_with(after, "\n"@) {
        reveal_strlit("\n");
        assert(after.take(1)[0] == '\n');
        assert(rest[line.len() as int] == after[0]);
        lemma_index_of(rest, '\n', line.len() as int);
        assert(head.subrange(a, line_end(head, a)) =~= line);
    } else {
        reveal_strlit("\r\n");
        assert(after.take(2)[0] == '\r');
        assert(after.take(2)[1] == '\n');
        assert(rest[line.len() as int] == after[0]);
        assert(rest[line.len() as int + 1] == after[1]);
        lemma_index_of(rest, '\n', line.len() as int + 1);
        assert(head.subrange(a, line_end(head, a)) =~= line.push('\r'));
    }
    assert(line_start(head, a));
    assert(chunked_line(head.subrange(a, line_end(head, a))));
}

/// A chunked head stays chunked when further header lines follow it.
pub proof fn law_chunked_kept(head: Seq<char>, more: Seq<char>)
    requires
        is_chunked(head),
    ensures
        is_chunked(head + "\r\n"@ + more),
{
    let a = choose|a: int| line_start(head, a) && #[trigger] chunked_line(head.subrange(a, line_end(head, a)));
    let e = line_end(head, a);
    let line = head.subrange(a, e);
    let longer = head + "\r\n"@ + more;
    reveal_strlit("\r\n");
    lemma_index_of_facts(head.skip(a), '\n');
    let rest = longer.skip(a);
    assert forall|j: int| 0 <= j < e - a implies rest[j] != '\n' by {
        assert(rest[j] == head.skip(a)[j]);
    }
    if e < head.len() {
        assert(rest[e - a] == head.skip(a)[e - a]);
        lemma_index_of(rest, '\n', e - a);
        assert(longer.subrange(a, line_end(longer, a)) =~= line);
    } else {
        assert(rest[e - a] == '\r');
        assert(rest[e - a + 1] == '\n');
        lemma_index_of(rest, '\n', e - a + 1);
        assert(longer.subrange(a, line_end(longer, a)) =~= line.push('\r'));
        lemma_chunked_line_cr(line);
    }
    assert(line_start(longer, a));
    assert(chunked_line(longer.subrange(a, line_end(longer, a))));
}

/// Whether some line of `head` declares the chunked transfer coding.
fn head_is_chunked(head: &Vec<char>) -> (r: bool)
    ensures
        r == is_chunked(head@),
{
    let te = chars_of("transfer-encoding:");
    let ch = chars_of("chunked");
    let n = head.len();
    let mut a: usize = 0;
    loop
        invariant
            n == head@.len(),
            te@ == "transfer-encoding:"@,
            ch@ == "chunked"@,
            line_start(head@, a as int),
            forall|b: int|
                0 <= b < a && line_start(head@, b) ==> !chunked_line(
                    #[trigger] head@.subrange(b, line_end(head@, b)),
                ),
        decreases n - a,
    {
        let e = find_char_from(head, a, '\n');
        let lowered = ascii_lower_in(head, a, e);
        if starts_with_exec(&lowered, &te) && contains_exec(&lowered, &ch) {
            assert(chunked_line(head@.subrange(a as int, line_end(head@, a as int))));
            return true;
        }
        assert(!chunked_line(head@.subrange(a as int, line_end(head@, a as int))));
        if e == n {
            assert forall|b: int| line_start(head@, b) implies !chunked_line(
                #[trigger] head@.subrange(b, line_end(head@, b)),
            ) by {
                if b > a {
                    assert(head@[b - 1] != '\n');
                }
            }
            return false;
        }
        assert forall|b: int| 0 <= b < e + 1 && line_start(head@, b) implies !chunked_line(
            #[trigger] head@.subrange(b, line_end(head@, b)),
        ) by {
            if b > a {
                assert(head@[b - 1] != '\n');
            }
        }
        a = e + 1;
    }
}

/// Reads the status and body text of a raw HTTP/1.1 response.
pub fn parse_response(raw: &[u8]) -> (r: Result<(u16, String), String>)
    ensures
        match r {
            Ok((status, text)) => response_of(raw@) == Ok::<(u16, Seq<char>), Seq<char>>(
                (status, text@),
            ),
            Err(e) => response_of(raw@) == Err::<(u16, Seq<char>), Seq<char>>(e@),
        },
{
    let blank: [u8; 4] = [13u8, 10u8, 13u8, 10u8];
    assert(blank@ == blank_line());
    let split = match find_bytes(raw, blank.as_slice()) {
        None => {
            return Err(String::from_str("no end of headers"));
        },
        Some(split) => split,
    };
    proof {
        lemma_find_from_bounds(raw@, blank_line(), 0);
    }
    let head_bytes: &[u8] = &raw[0..split];
    assert(head_bytes@ =~= raw@.take(split as int));
    let head = utf8_lossy_chars(head_bytes);
    let status: u16 = match second_word_bounds(&head) {
        None => {
            let mut msg = String::from_str("no status in ");
            let shown = string_of(&head);
            let quoted = debug_text(shown.as_str());
            msg.append(quoted.as_str());
            return Err(msg);
        },
        Some((a, b)) => match parse_uint_in(&head, a, b, 10, 0xffff) {
            Ok(v) => v as u16,
            Err(_) => {
                let mut msg = String::from_str("no status in ");
                let shown = string_of(&head);
                let quoted = debug_text(shown.as_str());
                msg.append(quoted.as_str());
                return Err(msg);
            },
        },
    };
    let rl = raw.len();
    assert(split + 4 <= rl);
    let body: &[u8] = &raw[split + 4..rl];
    assert(body@ =~= raw@.skip(split + 4));
    let decoded: Vec<u8> = if head_is_chunked(&head) {
        match unchunk(body) {
            Ok(v) => v,
            Err(e) => {
                return Err(e);
            },
        }
    } else {
        vstd::slice::slice_to_vec(body)
    };
    match utf8_string(decoded) {
        Ok(text) => Ok((status, text)),
        Err(e) => Err(e),
    }
}

/// Reads a raw HTTP/1.1 response: the status, and the body as JSON, or as a JSON string when it is
/// not JSON.
pub fn parse(raw: &[u8]) -> (r: Result<(u16, serde_json::Value), String>)
    ensures
        match r {
            Ok((status, body)) => response_of(raw@) is Ok && response_of(raw@)->Ok_0.0 == status
                && body == json_value_of(response_of(raw@)->Ok_0.1),
            Err(e) => response_of(raw@) == Err::<(u16, Seq<char>), Seq<char>>(e@),
        },
{
    match parse_response(raw) {
        Ok((status, text)) => Ok((status, json_or_string(text))),
        Err(e) => Err(e),
    }
}

/// `s` with every leading copy of `p` removed, as `str::trim_start_matches` removes them.
pub open spec fn strip_prefixes(s: Seq<char>, p: Seq<char>) -> Seq<char>
    decreases s.len(),
{
    if p.len() > 0 && starts_with(s, p) {
        strip_prefixes(s.skip(p.len() as int), p)
    } else {
        s
    }
}

/// `s` without its trailing `c`s, as `str::trim_end_matches` leaves it.
pub open spec fn strip_trailing(s: Seq<char>, c: char) -> Seq<char>
    decreases s.len(),
{
    if s.len() > 0 && s.last() == c {
        strip_trailing(s.drop_last(), c)
    } else {
        s
    }
}

/// The `host:port` part of a base url: any `http://` prefixes and trailing slashes removed.
pub open spec fn host_of(url: Seq<char>) -> Seq<char> {
    strip_trailing(strip_prefixes(url, "http://"@), '/')
}

/// The server a base url names, or why it names none: `https` is refused, and what is left of the
/// url once `http://` and trailing slashes are gone must be a non-empty `host:port` with no path.
pub open spec fn server_for(url: Seq<char>) -> Result<Seq<char>, Seq<char>> {
    if starts_with(url, "https://"@) {
        Err(url + ": live only speaks plain http, to a server on this machine"@)
    } else if host_of(url).len() == 0 || host_of(url).contains('/') {
        Err(url + ": expected http://host:port"@)
    } else {
        Ok(host_of(url))
    }
}

/// A server at `http://host:port`, with no path prefix.
#[derive(Debug, Clone)]
pub struct Server {
    host: String,
}

impl View for Server {
    type V = Seq<char>;

    /// The `host:port` the server is reached at.
    closed spec fn view(&self) -> Seq<char> {
        self.host@
    }
}

impl Server {
    /// Parses `http://host:port` or `host:port`. `https` is refused rather than sent in the clear.
    pub fn new(url: &str) -> (r: Result<Self, String>)
        ensures
            match r {
                Ok(s) => server_for(url@) == Ok::<Seq<char>, Seq<char>>(s@),
                Err(e) => server_for(url@) == Err::<Seq<char>, Seq<char>>(e@),
            },
    {
        let chars = chars_of(url);
        let https = chars_of("https://");
        if starts_with_exec(&chars, &https) {
            let mut msg = String::from_str(url);
            msg.append(": live only speaks plain http, to a server on this machine");
            return Err(msg);
        }
        let http = chars_of("http://");
        let n = chars.len();
        let p = http.len();
        let mut a: usize = 0;
        assert(chars@.skip(0) =~= chars@);
        while p > 0 && p <= n - a && occurs_at(&chars, &http, a)
            invariant
                a <= n == chars@.len(),
                p == http@.len(),
                http@ == "http://"@,
                strip_prefixes(chars@, http@) == strip_prefixes(chars@.skip(a as int), http@),
            decreases n - a,
        {
            assert(chars@.skip(a as int).take(p as int) =~= chars@.subrange(a as int, a + p));
            assert(chars@.skip(a as int).skip(p as int) =~= chars@.skip(a + p));
            a = a + p;
        }
        proof {
            if p > 0 && p <= n - a {
                assert(chars@.skip(a as int).take(p as int) =~= chars@.subrange(a as int, a + p));
            }
        }
        let mut b: usize = n;
        assert(chars@.skip(a as int) =~= chars@.subrange(a as int, b as int));
        while b > a && chars[b - 1] == '/'
            invariant
                a <= b <= n == chars@.len(),
                strip_trailing(chars@.skip(a as int), '/') == strip_trailing(
                    chars@.subrange(a as int, b as int),
                    '/',
                ),
            decreases b - a,
        {
            assert(chars@.subrange(a as int, b as int).drop_last() =~= chars@.subrange(
                a as int,
                b - 1,
            ));
            b = b - 1;
        }
        let ghost host = chars@.subrange(a as int, b as int);
        assert(host == host_of(url@));
        let mut k = a;
        while k < b && chars[k] != '/'
            invariant
                a <= k <= b <= n == chars@.len(),
                forall|j: int| a <= j < k ==> chars@[j] != '/',
            decreases b - k,
        {
            k += 1;
        }
        if a == b || k < b {
            if k < b {
                assert(host[k - a] == '/');
            }
            let mut msg = String::from_str(url);
            msg.append(": expected http://host:port");
            return Err(msg);
        }
        assert(!host.contains('/'));
        let mut h = String::new();
        push_range(&mut h, &chars, a, b);
        assert(h@ =~= host);
        Ok(Server { host: h })
    }

    /// The `host:port` the server is reached at.
    pub fn address(&self) -> (r: &str)
        ensures
            r@ == self@,
    {
        self.host.as_str()
    }
}

/// The head of a request for `method` and `path` to `server`, with a JSON body of `body_len`
/// bytes, on a connection that closes after the answer.
pub fn request_head(method: &str, path: &str, server: &Server, body_len: usize) -> (r: String)
    ensures
        r@ == method@ + " "@ + path@ + " HTTP/1.1\r\nHost: "@ + server@
            + "\r\nAccept: application/json\r\nContent-Type: application/json\r\nContent-Length: "@
            + decimal(body_len as nat) + "\r\nConnection: close\r\n\r\n"@,
{
    let mut head = String::from_str(method);
    head.append(" ");
    head.append(path);
    head.append(" HTTP/1.1\r\nHost: ");
    head.append(server.address());
    head.append("\r\nAccept: application/json\r\nContent-Type: application/json\r\nContent-Length: ");
    push_decimal(&mut head, body_len as u128);
    head.append("\r\nConnection: close\r\n\r\n");
    head
}

/// A base url that `Server::new` accepts names a non-empty `host:port` with no `/` in it, and one
/// that starts with `https://` is refused.
pub proof fn law_server_address(url: Seq<char>)
    ensures
        server_for(url) matches Ok(host) ==> host.len() > 0 && !host.contains('/'),
        starts_with(url, "https://"@) ==> server_for(url) is Err,
{
}

/// Whether a model has the three string fields the SDKs parse.
pub open spec fn model_ok(m: Json) -> bool {
    &&& m.field("name"@) matches Some(Json::String(_))
    &&& m.field("description"@) matches Some(Json::String(_))
    &&& m.field("release_date"@) matches Some(Json::String(_))
}

proof fn lemma_models_from(ms: Seq<Json>, i: int)
    requires
        0 <= i <= ms.len(),
    ensures
        models_problems_from(ms, i).len() == 0 <==> forall|j: int|
            i <= j < ms.len() ==> model_ok(#[trigger] ms[j]),
    decreases ms.len() - i,
{
    if i < ms.len() {
        lemma_models_from(ms, i + 1);
        if models_problems_from(ms, i).len() == 0 {
            assert forall|j: int| i <= j < ms.len() implies model_ok(#[trigger] ms[j]) by {
                if j > i {
                } else {
                    assert(model_field_problem(ms[i], i as nat, "name"@).len() == 0);
                    assert(model_field_problem(ms[i], i as nat, "description"@).len() == 0);
                    assert(model_field_problem(ms[i], i as nat, "release_date"@).len() == 0);
                }
            }
        }
        if forall|j: int| i <= j < ms.len() ==> model_ok(#[trigger] ms[j]) {
            assert(model_ok(ms[i]));
        }
    }
}

/// `GET /v1/models` passes exactly when it has a non-empty `models` array in which every model has
/// a string `name`, `description` and `release_date`.
pub proof fn law_models_pass(body: Json)
    ensures
        models_problems(body).len() == 0 <==> (body.field("models"@) matches Some(Json::Array(ms))
            && ms@.len() > 0 && forall|i: int| 0 <= i < ms@.len() ==> model_ok(#[trigger] ms@[i])),
{
    if let Some(Json::Array(ms)) = body.field("models"@) {
        lemma_models_from(ms@, 0);
    }
}

/// What `GET /v1/models` says of model `i` when its `field` is not a string.
pub open spec fn model_field_problem(m: Json, i: nat, field: Seq<char>) -> Seq<Seq<char>> {
    if m.field(field) matches Some(Json::String(_)) {
        Seq::empty()
    } else {
        seq!["GET /v1/models: models["@ + decimal(i) + "]."@ + field + " is not a string"@]
    }
}

/// The problems of models `i..`: each must have a string `name`, `description` and
/// `release_date`.
pub open spec fn models_problems_from(ms: Seq<Json>, i: int) -> Seq<Seq<char>>
    decreases ms.len() - i,
{
    if 0 <= i < ms.len() {
        model_field_problem(ms[i], i as nat, "name"@) + model_field_problem(
            ms[i],
            i as nat,
            "description"@,
        ) + model_field_problem(ms[i], i as nat, "release_date"@) + models_problems_from(
            ms,
            i + 1,
        )
    } else {
        Seq::empty()
    }
}

/// What `GET /v1/models` is told when `field` of model `i` is not a string.
pub open spec fn not_a_string(i: nat, field: Seq<char>) -> Seq<char> {
    "GET /v1/models: models["@ + decimal(i) + "]."@ + field + " is not a string"@
}

proof fn lemma_contains_in(a: Seq<Seq<char>>, b: Seq<Seq<char>>, c: Seq<Seq<char>>, x: Seq<char>)
    requires
        b.contains(x),
    ensures
        (a + b + c).contains(x),
{
    let j = choose|j: int| 0 <= j < b.len() && b[j] == x;
    assert((a + b + c)[a.len() + j] == x);
}

proof fn lemma_models_reported(ms: Seq<Json>, s: int, i: int, field: Seq<char>)
    requires
        0 <= s <= i < ms.len(),
        field == "name"@ || field == "description"@ || field == "release_date"@,
        !(ms[i].field(field) matches Some(Json::String(_))),
    ensures
        models_problems_from(ms, s).contains(not_a_string(i as nat, field)),
    decreases i - s,
{
    let n = model_field_problem(ms[s], s as nat, "name"@);
    let d = model_field_problem(ms[s], s as nat, "description"@);
    let r = model_field_problem(ms[s], s as nat, "release_date"@);
    let tail = models_problems_from(ms, s + 1);
    let m = not_a_string(i as nat, field);
    assert(models_problems_from(ms, s) == n + d + r + tail);
    if s < i {
        lemma_models_reported(ms, s + 1, i, field);
        lemma_contains_in(n + d + r, tail, Seq::empty(), m);
        assert(n + d + r + tail + Seq::<Seq<char>>::empty() =~= n + d + r + tail);
    } else if field == "name"@ {
        assert(n[0] == m);
        lemma_contains_in(Seq::empty(), n, d + r + tail, m);
        assert(Seq::<Seq<char>>::empty() + n + (d + r + tail) =~= n + d + r + tail);
    } else if field == "description"@ {
        assert(d[0] == m);
        lemma_contains_in(n, d, r + tail, m);
        assert(n + d + (r + tail) =~= n + d + r + tail);
    } else {
        assert(r[0] == m);
        lemma_contains_in(n + d, r, tail, m);
    }
}

/// Every model whose `name`, `description` or `release_date` is not a string is reported, for
/// that field, whatever the other models hold.
pub proof fn law_model_field_reported(body: Json, i: int, field: Seq<char>)
    requires
        body.field("models"@) matches Some(Json::Array(ms)) && 0 <= i < ms@.len() && !(
        ms@[i].field(field) matches Some(Json::String(_))),
        field == "name"@ || field == "description"@ || field == "release_date"@,
    ensures
        models_problems(body).contains(not_a_string(i as nat, field)),
{
    let ms = body.field("models"@)->Some_0->Array_0@;
    lemma_models_reported(ms, 0, i, field);
}

/// The shape the TypeSafe SDKs parse: `{"models": [{name, description, release_date}]}`, all
/// strings, and at least one model.
pub open spec fn models_problems(body: Json) -> Seq<Seq<char>> {
    match body.field("models"@) {
        Some(Json::Array(ms)) => if ms@.len() == 0 {
            seq!["GET /v1/models: the models array is empty"@]
        } else {
            models_problems_from(ms@, 0)
        },
        _ => seq!["GET /v1/models: no models array"@],
    }
}

/// Appends to `problems` what `GET /v1/models` says of model `i` when its `field` is not a string.
fn check_model_field(problems: &mut Vec<String>, m: &Json, i: usize, field: &str)
    ensures
        texts(final(problems)@) == texts(old(problems)@) + model_field_problem(*m, i as nat, field@),
{
    let ok = match m.get(field) {
        Some(v) => match v {
            Json::String(_) => true,
            _ => false,
        },
        None => false,
    };
    let ghost before = problems@;
    if !ok {
        let mut msg = String::from_str("GET /v1/models: models[");
        push_decimal(&mut msg, i as u128);
        msg.append("].");
        msg.append(field);
        msg.append(" is not a string");
        problems.push(msg);
        assert(texts(problems@) =~= texts(before) + model_field_problem(*m, i as nat, field@));
    } else {
        assert(texts(problems@) =~= texts(before) + model_field_problem(*m, i as nat, field@));
    }
}

/// Checks the body of `GET /v1/models` against the shape the TypeSafe SDKs parse.
/// `typesafe_sdk` 0.7.1 refuses a null `release_date`.
pub fn check_models(body: &Json) -> (r: Vec<String>)
    ensures
        texts(r@) == models_problems(*body),
{
    let models = match body.get("models") {
        Some(v) => match v {
            Json::Array(ms) => ms,
            _ => {
                let r = vec![String::from_str("GET /v1/models: no models array")];
                assert(texts(r@) =~= models_problems(*body));
                return r;
            },
        },
        None => {
            let r = vec![String::from_str("GET /v1/models: no models array")];
            assert(texts(r@) =~= models_problems(*body));
            return r;
        },
    };
    if models.len() == 0 {
        let r = vec![String::from_str("GET /v1/models: the models array is empty")];
        assert(texts(r@) =~= models_problems(*body));
        return r;
    }
    let mut problems: Vec<String> = Vec::new();
    let mut i: usize = 0;
    while i < models.len()
        invariant
            i <= models@.len(),
            models_problems(*body) == models_problems_from(models@, 0),
            models_problems_from(models@, 0) == texts(problems@) + models_problems_from(
                models@,
                i as int,
            ),
        decreases models@.len() - i,
    {
        check_model_field(&mut problems, &models[i], i, "name");
        check_model_field(&mut problems, &models[i], i, "description");
        check_model_field(&mut problems, &models[i], i, "release_date");
        assert(models_problems_from(models@, 0) =~= texts(problems@) + models_problems_from(
            models@,
            i + 1,
        ));
        i += 1;
    }
    assert(texts(problems@) =~= models_problems(*body));
    problems
}

/// What the models rule says of the answer to `GET /v1/models`: a 200 is checked against the
/// shape the SDKs parse, another status is reported with its body, and a failed call is reported
/// as it failed.
pub open spec fn models_call_problems(result: Result<(u16, Json), String>) -> Seq<Seq<char>> {
    match result {
        Ok((status, body)) => if status == 200 {
            models_problems(body)
        } else {
            seq!["GET /v1/models: "@ + decimal(status as nat) + " "@ + json_text(body)]
        },
        Err(e) => seq![e@],
    }
}

/// What a live run makes of the answer to `GET /v1/models`: its problems, and whether the run
/// goes on to the cases, which it does unless the call failed.
pub fn check_models_call(result: &Result<(u16, Json), String>) -> (r: (Vec<String>, bool))
    ensures
        texts(r.0@) == models_call_problems(*result),
        r.1 == result is Ok,
{
    let mut problems: Vec<String> = Vec::new();
    match result {
        Ok((status, body)) => {
            if *status == 200 {
                let found = check_models(body);
                return (found, true);
            }
            let mut msg = String::from_str("GET /v1/models: ");
            push_decimal(&mut msg, *status as u128);
            msg.append(" ");
            push_json(&mut msg, body);
            say(&mut problems, msg);
            assert(texts(problems@) =~= models_call_problems(*result));
            (problems, true)
        },
        Err(e) => {
            say(&mut problems, e.clone());
            assert(texts(problems@) =~= models_call_problems(*result));
            (problems, false)
        },
    }
}

/// What the response rules say of the answer to case `name`, sent as `request`: a 200 is checked
/// against the request, another status is reported with its body, a failed call as it failed; each
/// with the case's name in front.
pub open spec fn case_call_problems(
    name: Seq<char>,
    request: Json,
    result: Result<(u16, Json), String>,
    verdicts: Seq<ScoreVerdict>,
) -> Seq<Seq<char>> {
    match result {
        Ok((status, body)) => if status == 200 {
            prefixed(name, response_problems(request, body, verdicts))
        } else {
            seq![name + ": "@ + decimal(status as nat) + " "@ + json_text(body)]
        },
        Err(e) => seq![name + ": "@ + e@],
    }
}

/// What a live run makes of the answer to one case.
pub fn check_case_call(
    name: &String,
    request: &Json,
    result: &Result<(u16, Json), String>,
    verdicts: &Vec<ScoreVerdict>,
) -> (r: Vec<String>)
    ensures
        texts(r@) == case_call_problems(name@, *request, *result, verdicts@),
{
    let mut problems: Vec<String> = Vec::new();
    match result {
        Ok((status, body)) => {
            if *status == 200 {
                let found = check(request, body, verdicts);
                push_prefixed(&mut problems, name, &found);
                assert(texts(problems@) =~= case_call_problems(name@, *request, *result, verdicts@));
                return problems;
            }
            let mut msg = name.clone();
            msg.append(": ");
            push_decimal(&mut msg, *status as u128);
            msg.append(" ");
            push_json(&mut msg, body);
            say(&mut problems, msg);
        },
        Err(e) => {
            let mut msg = name.clone();
            msg.append(": ");
            msg.append(e.as_str());
            say(&mut problems, msg);
        },
    }
    assert(texts(problems@) =~= case_call_problems(name@, *request, *result, verdicts@));
    problems
}

/// The lowercase hexadecimal digit for `d < 16`.
pub open spec fn hex_char(d: nat) -> char {
    if d < 10 {
        (d + 0x30) as char
    } else {
        (d - 10 + 0x61) as char
    }
}

/// `n` in lowercase hexadecimal.
pub open spec fn hex(n: nat) -> Seq<char>
    decreases n,
{
    if n < 16 {
        seq![hex_char(n)]
    } else {
        hex(n / 16) + seq![hex_char(n % 16)]
    }
}

/// ASCII characters as the bytes that encode them.
pub open spec fn ascii_bytes(s: Seq<char>) -> Seq<u8> {
    s.map_values(|c: char| c as u8)
}

/// One chunk as chunked transfer coding frames it: its size in hexadecimal, CRLF, the data, CRLF.
pub open spec fn chunk_frame(data: Seq<u8>) -> Seq<u8> {
    ascii_bytes(hex(data.len())) + crlf() + data + crlf()
}

/// The chunks of a body, each framed as chunked transfer coding frames it.
pub open spec fn chunks_framed(chunks: Seq<Seq<u8>>) -> Seq<u8>
    decreases chunks.len(),
{
    if chunks.len() == 0 {
        Seq::empty()
    } else {
        chunk_frame(chunks[0]) + chunks_framed(chunks.drop_first())
    }
}

/// A body sent as `chunks` with chunked transfer coding: the framed chunks, then the chunk of size
/// zero, `0` and CRLF, then whatever trailer follows it.
pub open spec fn chunked(chunks: Seq<Seq<u8>>, trailer: Seq<u8>) -> Seq<u8> {
    chunks_framed(chunks) + seq![0x30u8] + crlf() + trailer
}

/// The chunks one after another.
pub open spec fn concat(chunks: Seq<Seq<u8>>) -> Seq<u8>
    decreases chunks.len(),
{
    if chunks.len() == 0 {
        Seq::empty()
    } else {
        chunks[0] + concat(chunks.drop_first())
    }
}

proof fn lemma_hex_digits(n: nat)
    ensures
        hex(n).len() >= 1,
        forall|i: int|
            0 <= i < hex(n).len() ==> {
                let c = #[trigger] hex(n)[i];
                &&& ('0' <= c <= '9' || 'a' <= c <= 'f')
            },
    decreases n,
{
    if n >= 16 {
        lemma_hex_digits(n / 16);
        assert forall|i: int| 0 <= i < hex(n).len() implies {
            let c = #[trigger] hex(n)[i];
            &&& ('0' <= c <= '9' || 'a' <= c <= 'f')
        } by {
            if i < hex(n / 16).len() {
                assert(hex(n)[i] == hex(n / 16)[i]);
            }
        }
    }
}

proof fn lemma_digits_append(s: Seq<char>, t: Seq<char>, radix: nat, max: nat, acc: nat)
    ensures
        digits_value(s + t, radix, max, acc) == match digits_value(s, radix, max, acc) {
            Ok(v) => digits_value(t, radix, max, v),
            Err(e) => Err(e),
        },
    decreases s.len(),
{
    if s.len() > 0 {
        assert((s + t).drop_first() =~= s.drop_first() + t);
        assert((s + t)[0] == s[0]);
        if let Some(d) = digit_of(s[0], radix) {
            if acc * radix + d <= max {
                lemma_digits_append(s.drop_first(), t, radix, max, acc * radix + d);
            }
        }
    } else {
        assert(s + t =~= t);
    }
}

proof fn lemma_hex_value(n: nat, max: nat)
    requires
        n <= max,
    ensures
        digits_value(hex(n), 16, max, 0) == Ok::<nat, IntErrorKind>(n),
    decreases n,
{
    if n < 16 {
        let s = seq![hex_char(n)];
        assert(hex(n) == s);
        assert(digit_of(hex_char(n), 16) == Some(n));
        assert(s.drop_first().len() == 0);
        assert(digits_value(s.drop_first(), 16, max, n) == Ok::<nat, IntErrorKind>(n));
        assert(digits_value(s, 16, max, 0) == digits_value(s.drop_first(), 16, max, 0 * 16 + n));
    } else {
        let q = n / 16;
        let d = n % 16;
        let s = seq![hex_char(d)];
        assert(q * 16 + d == n);
        assert(hex(n) == hex(q) + s);
        lemma_hex_value(q, max);
        lemma_digits_append(hex(q), s, 16, max, 0);
        assert(digit_of(hex_char(d), 16) == Some(d));
        assert(s.drop_first().len() == 0);
        assert(digits_value(s.drop_first(), 16, max, n) == Ok::<nat, IntErrorKind>(n));
        assert(digits_value(s, 16, max, q) == digits_value(s.drop_first(), 16, max, q * 16 + d));
    }
}

proof fn lemma_hex_size(n: nat)
    requires
        n <= usize::MAX,
    ensures
        chunk_size(hex(n)) == Ok::<nat, IntErrorKind>(n),
{
    let h = hex(n);
    lemma_hex_digits(n);
    lemma_index_of(h, ';', h.len() as int);
    assert(first_field(h, ';') =~= h);
    assert(!is_space(h[0]));
    assert(trim_start(h) == h);
    assert(h.last() == h[h.len() - 1]);
    assert(!is_space(h.last()));
    assert(trim_end(h) == h);
    lemma_hex_value(n, usize::MAX as nat);
}

proof fn lemma_ascii_text(s: Seq<char>)
    requires
        vstd::utf8::is_ascii_chars(s),
    ensures
        lossy_text(ascii_bytes(s)) == s,
{
    broadcast use vstd::utf8::group_utf8_lib;

    vstd::utf8::is_ascii_chars_encode_utf8(s);
    assert(vstd::utf8::encode_utf8(s) =~= ascii_bytes(s));
}

proof fn lemma_find_after(a: Seq<u8>, b: Seq<u8>, i: int)
    requires
        0 <= i <= a.len(),
        forall|j: int| 0 <= j < a.len() ==> a[j] != 13u8,
    ensures
        find_from(a + crlf() + b, crlf(), i) == Some(a.len() as int),
    decreases a.len() - i,
{
    let hay = a + crlf() + b;
    if i < a.len() {
        assert(hay.subrange(i, i + 2)[0] == a[i]);
        lemma_find_after(a, b, i + 1);
    } else {
        assert(hay.subrange(i, i + 2) =~= crlf());
    }
}

/// Decoding undoes chunked transfer coding: a body sent as non-empty chunks, each no longer than a
/// `usize` can count, comes back as the chunks one after another, whatever follows the chunk of
/// size zero.
pub proof fn law_dechunk_chunked(chunks: Seq<Seq<u8>>, trailer: Seq<u8>)
    requires
        forall|i: int| 0 <= i < chunks.len() ==> 0 < (#[trigger] chunks[i]).len() <= usize::MAX,
    ensures
        dechunked(chunked(chunks, trailer)) == Ok::<Seq<u8>, Seq<char>>(concat(chunks)),
    decreases chunks.len(),
{
    let rest = chunked(chunks, trailer);
    if chunks.len() == 0 {
        let zero = seq!['0'];
        assert(ascii_bytes(zero) =~= seq![0x30u8]);
        assert(chunks_framed(chunks) =~= Seq::<u8>::empty());
        assert(rest =~= ascii_bytes(zero) + crlf() + trailer);
        lemma_find_after(ascii_bytes(zero), trailer, 0);
        assert(rest.take(1) =~= ascii_bytes(zero));
        assert(vstd::utf8::is_ascii_chars(zero));
        lemma_ascii_text(zero);
        assert(hex(0) =~= zero);
        lemma_hex_size(0);
    } else {
        let data = chunks[0];
        let h = hex(data.len());
        lemma_hex_digits(data.len());
        let hb = ascii_bytes(h);
        let tail = chunked(chunks.drop_first(), trailer);
        assert(rest =~= hb + crlf() + (data + crlf() + tail));
        assert forall|j: int| 0 <= j < hb.len() implies hb[j] != 13u8 by {
            assert(hb[j] == h[j] as u8);
        }
        lemma_find_after(hb, data + crlf() + tail, 0);
        assert(rest.take(hb.len() as int) =~= hb);
        assert(vstd::utf8::is_ascii_chars(h));
        lemma_ascii_text(h);
        lemma_hex_size(data.len());
        let after = rest.skip(hb.len() + 2int);
        assert(after =~= data + crlf() + tail);
        assert(after.take(data.len() as int) =~= data);
        assert(after.skip(data.len() + 2int) =~= tail);
        assert forall|i: int| 0 <= i < chunks.drop_first().len() implies 0 < (
        #[trigger] chunks.drop_first()[i]).len() <= usize::MAX by {
            assert(chunks.drop_first()[i] == chunks[i + 1]);
        }
        law_dechunk_chunked(chunks.drop_first(), trailer);
    }
}

} // verus!
