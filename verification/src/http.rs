use vstd::prelude::*;
use vstd::string::StringSliceAdditionalSpecFns;
use vstd::utf8::{encode_utf8, valid_utf8};
use crate::text::{append_bytes, chars_of, find_char, find_space, scan_char, scan_space, substring};
use crate::text::{lossy_utf8, utf8_lossy};
use crate::text::{is_space, lemma_find_char_is, lemma_find_char_props, lemma_find_space_is};

verus! {

/// The port of a URL that names none, and the one the proxies connect to.
pub const DEFAULT_PORT: u16 = 80;

/// `\r\n\r\n`, the blank line that ends an HTTP head, starts at `p` in `d`.
pub open spec fn blank_line_at(d: Seq<u8>, p: int) -> bool {
    &&& 0 <= p
    &&& p + 4 <= d.len()
    &&& d[p] == 13u8
    &&& d[p + 1] == 10u8
    &&& d[p + 2] == 13u8
    &&& d[p + 3] == 10u8
}

/// The index just past the first `\r\n\r\n` in `data`: where the body of an
/// HTTP message starts. `None` while the head is not complete.
pub fn find_double_crlf(data: &[u8]) -> (end: Option<usize>)
    ensures
        match end {
            Some(e) => e >= 4 && blank_line_at(data@, e - 4) && forall|q: int|
                0 <= q < e - 4 ==> !blank_line_at(data@, q),
            None => forall|q: int| !blank_line_at(data@, q),
        },
{
    let n = data.len();
    if n < 4 {
        return None;
    }
    let mut p: usize = 0;
    while p <= n - 4
        invariant
            n == data@.len(),
            n >= 4,
            p <= n - 3,
            forall|q: int| 0 <= q < p ==> !blank_line_at(data@, q),
        decreases n - p,
    {
        if data[p] == 13 && data[p + 1] == 10 && data[p + 2] == 13 && data[p + 3] == 10 {
            return Some(p + 4);
        }
        p = p + 1;
    }
    None
}

/// The first line of `s` as `str::lines` yields it: up to the first `\n`,
/// without a `\r` just before that `\n`. `None` for the empty string, which
/// has no lines.
pub open spec fn first_line(s: Seq<char>) -> Option<Seq<char>> {
    if s.len() == 0 {
        None
    } else {
        let k = find_char(s, '\n');
        if k < s.len() && k > 0 && s[k - 1] == '\r' {
            Some(s.take(k - 1))
        } else {
            Some(s.take(k as int))
        }
    }
}

/// Where the first white-space-separated word of `line` starts, where it
/// ends, and where the second one starts (the length when there is none).
pub open spec fn word_bounds(line: Seq<char>) -> (int, int, int) {
    let a = find_space(line, false) as int;
    let b = a + find_space(line.skip(a), true);
    let c = b + find_space(line.skip(b), false);
    (a, b, c)
}

/// The second word of `line`, as `split_whitespace` finds it, if any.
pub open spec fn second_word(line: Seq<char>) -> Option<Seq<char>> {
    let (a, b, c) = word_bounds(line);
    if c < line.len() {
        let d = c + find_space(line.skip(c), true);
        Some(line.subrange(c, d))
    } else {
        None
    }
}

/// The URL of an HTTP request: the second word of its first line, or the
/// empty string when there is no such word.
pub open spec fn request_url(request: Seq<char>) -> Seq<char> {
    match first_line(request) {
        None => Seq::empty(),
        Some(line) => match second_word(line) {
            Some(w) => w,
            None => Seq::empty(),
        },
    }
}

/// `http://`.
pub open spec fn http_scheme() -> Seq<char> {
    seq!['h', 't', 't', 'p', ':', '/', '/']
}

/// `s` without a leading `http://`.
pub open spec fn strip_scheme(s: Seq<char>) -> Seq<char> {
    if s.len() >= 7 && s.take(7) == http_scheme() {
        s.skip(7)
    } else {
        s
    }
}

/// The host of a URL: after an optional `http://`, the text before the first
/// `/`, and of that the text before the first `:`.
pub open spec fn url_host(url: Seq<char>) -> Seq<char> {
    let u = strip_scheme(url);
    let a = u.take(find_char(u, '/') as int);
    a.take(find_char(a, ':') as int)
}

/// The decimal value of a string of digits.
pub open spec fn decimal_value(d: Seq<char>) -> nat
    decreases d.len(),
{
    if d.len() == 0 {
        0
    } else {
        decimal_value(d.drop_last()) * 10 + ((d.last() as u32) - ('0' as u32)) as nat
    }
}

/// Every character of `d` is an ASCII digit.
pub open spec fn all_digits(d: Seq<char>) -> bool {
    forall|i: int| 0 <= i < d.len() ==> '0' <= #[trigger] d[i] <= '9'
}

/// What `str::parse::<u16>` gives: an optional `+`, then one or more decimal
/// digits whose value fits in 16 bits.
pub open spec fn parse_u16_spec(s: Seq<char>) -> Option<u16> {
    let d = if s.len() > 0 && s[0] == '+' {
        s.drop_first()
    } else {
        s
    };
    if d.len() > 0 && all_digits(d) && decimal_value(d) <= u16::MAX {
        Some(decimal_value(d) as u16)
    } else {
        None
    }
}

/// The port of a URL's `host:port` part: after the first `:`, parsed as a
/// 16-bit number, or `DEFAULT_PORT` when there is no `:` or the number does
/// not parse.
pub open spec fn url_port(url: Seq<char>) -> u16 {
    let u = strip_scheme(url);
    let hp = u.take(find_char(u, '/') as int);
    let j = find_char(hp, ':') as int;
    if j < hp.len() {
        match parse_u16_spec(hp.skip(j + 1)) {
            Some(p) => p,
            None => DEFAULT_PORT,
        }
    } else {
        DEFAULT_PORT
    }
}

/// The path of a URL: after an optional `http://`, from the first `/` on, or
/// `/` when there is none.
pub open spec fn url_path(url: Seq<char>) -> Seq<char> {
    let u = strip_scheme(url);
    let k = find_char(u, '/') as int;
    if k < u.len() {
        u.skip(k)
    } else {
        seq!['/']
    }
}

/// Where the first line of a non-empty `s` ends.
fn first_line_end(s: &Vec<char>) -> (end: usize)
    requires
        s@.len() > 0,
    ensures
        end <= s@.len(),
        first_line(s@) == Some(s@.take(end as int)),
{
    let n = s.len();
    let nl = scan_char(s, 0, n, '\n');
    assert(s@.subrange(0, n as int) =~= s@);
    if nl < n && nl > 0 && s[nl - 1] == '\r' {
        nl - 1
    } else {
        nl
    }
}

/// Where the second word of the line `s[..end]` lies, if it has one.
fn second_word_range(s: &Vec<char>, end: usize) -> (r: Option<(usize, usize)>)
    requires
        end <= s@.len(),
    ensures
        match r {
            Some((c, d)) => c <= d <= end && second_word(s@.take(end as int)) == Some(
                s@.subrange(c as int, d as int),
            ),
            None => second_word(s@.take(end as int)) is None,
        },
{
    let ghost line = s@.take(end as int);
    let a = scan_space(s, 0, end, false);
    assert(s@.subrange(0, end as int) =~= line);
    let b = scan_space(s, a, end, true);
    assert(s@.subrange(a as int, end as int) =~= line.skip(a as int));
    let c = scan_space(s, b, end, false);
    assert(s@.subrange(b as int, end as int) =~= line.skip(b as int));
    assert(word_bounds(line) == (a as int, b as int, c as int));
    if c < end {
        let d = scan_space(s, c, end, true);
        assert(s@.subrange(c as int, end as int) =~= line.skip(c as int));
        assert(s@.subrange(c as int, d as int) =~= line.subrange(c as int, d as int));
        Some((c, d))
    } else {
        None
    }
}

/// The URL of an HTTP request: the second word of its first line, or the
/// empty string when the line has fewer than two words.
pub fn extract_url(request: &str) -> (url: String)
    ensures
        url@ == request_url(request@),
{
    let s = chars_of(request);
    if s.len() == 0 {
        return substring(request, 0, 0);
    }
    let end = first_line_end(&s);
    match second_word_range(&s, end) {
        Some((c, d)) => substring(request, c, d),
        None => substring(request, 0, 0),
    }
}

/// Finds where the text after an optional leading `http://` starts.
fn scheme_end(s: &Vec<char>) -> (k: usize)
    ensures
        k <= s@.len(),
        s@.skip(k as int) == strip_scheme(s@),
{
    if s.len() >= 7 && s[0] == 'h' && s[1] == 't' && s[2] == 't' && s[3] == 'p' && s[4] == ':'
        && s[5] == '/' && s[6] == '/' {
        assert(s@.take(7) =~= http_scheme());
        7
    } else {
        proof {
            if s@.len() >= 7 && s@.take(7) == http_scheme() {
                assert(s@[0] == s@.take(7)[0]);
                assert(s@[1] == s@.take(7)[1]);
                assert(s@[2] == s@.take(7)[2]);
                assert(s@[3] == s@.take(7)[3]);
                assert(s@[4] == s@.take(7)[4]);
                assert(s@[5] == s@.take(7)[5]);
                assert(s@[6] == s@.take(7)[6]);
            }
        }
        assert(s@.skip(0) =~= s@);
        0
    }
}

/// The host of a URL: after an optional `http://`, the text before the first
/// `/`, and of that the text before the first `:`.
pub fn extract_host(url: &str) -> (host: String)
    ensures
        host@ == url_host(url@),
{
    let s = chars_of(url);
    let n = s.len();
    let st = scheme_end(&s);
    let ghost u = strip_scheme(url@);
    let slash = scan_char(&s, st, n, '/');
    assert(s@.subrange(st as int, n as int) =~= u);
    let ghost a = u.take(slash - st);
    let colon = scan_char(&s, st, slash, ':');
    assert(s@.subrange(st as int, slash as int) =~= a);
    assert(s@.subrange(st as int, colon as int) =~= a.take(colon - st));
    substring(url, st, colon)
}

/// `str::parse::<u16>`: an optional `+`, then one or more decimal digits
/// whose value fits in 16 bits.
pub fn parse_u16(s: &Vec<char>, from: usize, to: usize) -> (r: Option<u16>)
    requires
        from <= to <= s@.len(),
    ensures
        r == parse_u16_spec(s@.subrange(from as int, to as int)),
{
    let ghost t = s@.subrange(from as int, to as int);
    let start = if from < to && s[from] == '+' {
        from + 1
    } else {
        from
    };
    let ghost d = s@.subrange(start as int, to as int);
    assert(d =~= (if t.len() > 0 && t[0] == '+' {
        t.drop_first()
    } else {
        t
    }));
    if start == to {
        return None;
    }
    let mut value: u32 = 0;
    let mut i = start;
    while i < to
        invariant
            start <= i <= to <= s@.len(),
            from <= start,
            d == s@.subrange(start as int, to as int),
            t == s@.subrange(from as int, to as int),
            d == (if t.len() > 0 && t[0] == '+' {
                t.drop_first()
            } else {
                t
            }),
            all_digits(s@.subrange(start as int, i as int)),
            value == decimal_value(s@.subrange(start as int, i as int)),
            value <= u16::MAX,
        decreases to - i,
    {
        let c = s[i];
        if !('0' <= c && c <= '9') {
            assert(!all_digits(d)) by {
                assert(d[i - start] == c);
            }
            return None;
        }
        let digit = (c as u32) - ('0' as u32);
        let ghost pre = s@.subrange(start as int, i as int);
        let ghost post = s@.subrange(start as int, i + 1);
        assert(post.drop_last() =~= pre);
        assert(post.last() == c);
        value = value * 10 + digit;
        if value > 65535 {
            proof {
                if all_digits(d) {
                    lemma_decimal_value_prefix(d, (i + 1 - start) as int);
                    assert(d.take((i + 1 - start) as int) =~= post);
                }
            }
            return None;
        }
        i = i + 1;
        assert(all_digits(s@.subrange(start as int, i as int)));
    }
    assert(s@.subrange(start as int, to as int) =~= d);
    Some(value as u16)
}

/// A string of digits is worth at least any of its prefixes.
pub proof fn lemma_decimal_value_prefix(d: Seq<char>, k: int)
    requires
        0 <= k <= d.len(),
        all_digits(d),
    ensures
        decimal_value(d.take(k)) <= decimal_value(d),
    decreases d.len() - k,
{
    if k < d.len() {
        assert(d.drop_last().take(k) =~= d.take(k));
        assert forall|i: int| 0 <= i < d.drop_last().len() implies '0' <= #[trigger] d.drop_last()[i]
            <= '9' by {
            assert(d.drop_last()[i] == d[i]);
        }
        lemma_decimal_value_prefix(d.drop_last(), k);
        assert('0' <= d[d.len() - 1] <= '9');
    } else {
        assert(d.take(k) =~= d);
    }
}

/// The parts of an `http://host:port/path` URL.
pub struct Url {
    pub host: String,
    pub port: u16,
    pub path: String,
}

/// Splits a URL into host, port and path: after an optional `http://`, the
/// host runs to the first `:` or `/`; a `:` before the first `/` introduces
/// the port (80 when it is missing or not a 16-bit number); the path is the
/// rest from the first `/` on, or `/`.
pub fn parse_url(url: &str) -> (parts: Url)
    ensures
        parts.host@ == url_host(url@),
        parts.port == url_port(url@),
        parts.path@ == url_path(url@),
{
    let s = chars_of(url);
    let n = s.len();
    let st = scheme_end(&s);
    let ghost u = strip_scheme(url@);
    let slash = scan_char(&s, st, n, '/');
    assert(s@.subrange(st as int, n as int) =~= u);
    let ghost hp = u.take(slash - st);
    let colon = scan_char(&s, st, slash, ':');
    assert(s@.subrange(st as int, slash as int) =~= hp);
    assert(s@.subrange(st as int, colon as int) =~= hp.take(colon - st));
    let host = substring(url, st, colon);
    let port = if colon < slash {
        assert(s@.subrange(colon + 1, slash as int) =~= hp.skip(colon - st + 1));
        match parse_u16(&s, colon + 1, slash) {
            Some(p) => p,
            None => DEFAULT_PORT,
        }
    } else {
        DEFAULT_PORT
    };
    let path = if slash < n {
        assert(s@.subrange(slash as int, n as int) =~= u.skip(slash - st));
        substring(url, slash, n)
    } else {
        let p = "/".to_owned();
        proof {
            reveal_strlit("/");
        }
        assert(p@ =~= seq!['/']);
        p
    };
    Url { host, port, path }
}

/// `q` is where the first `\r\n\r\n` of `d` starts.
pub open spec fn first_blank_line(d: Seq<u8>, q: int) -> bool {
    blank_line_at(d, q) && forall|p: int| 0 <= p < q ==> !blank_line_at(d, p)
}

/// The bytes of the text that `data` reads as, invalid UTF-8 replaced.
pub open spec fn text_bytes(data: Seq<u8>) -> Seq<u8> {
    encode_utf8(lossy_utf8(data))
}

/// The end of the head, found in the text of `data`, falls inside `data`
/// itself, so the bytes from there on can be cut from `data`. It always
/// does for valid UTF-8; a replaced byte can push it past the end.
pub open spec fn head_cut_in_range(data: Seq<u8>) -> bool {
    forall|q: int| first_blank_line(text_bytes(data), q) ==> q + 4 <= data.len()
}

/// Whether `body_after_head` can cut `data`: see `head_cut_in_range`. Valid
/// UTF-8 always can.
pub fn head_cut_fits(data: &[u8]) -> (r: bool)
    ensures
        r == head_cut_in_range(data@),
        valid_utf8(data@) ==> r,
{
    let text = utf8_lossy(data);
    proof {
        broadcast use vstd::utf8::decode_utf8_encode_utf8;

        if valid_utf8(data@) {
            assert(text_bytes(data@) == data@);
        }
    }
    let bytes = text.as_str().as_bytes();
    match find_double_crlf(bytes) {
        Some(end) => {
            proof {
                assert(first_blank_line(text_bytes(data@), end - 4));
                lemma_first_blank_line_unique(text_bytes(data@), end - 4);
            }
            end <= data.len()
        },
        None => true,
    }
}

/// The body of an HTTP message whose head is complete in `data`: the head
/// ends where the first `\r\n\r\n` of the text of `data` (invalid UTF-8
/// replaced) ends, and the body is the bytes of `data` from that index on.
/// `None` while the head is not complete. For valid UTF-8 the body is what
/// follows the first `\r\n\r\n` of `data`.
pub fn body_after_head(data: &[u8]) -> (body: Option<Vec<u8>>)
    requires
        head_cut_in_range(data@),
    ensures
        match body {
            Some(b) => exists|q: int|
                first_blank_line(text_bytes(data@), q) && b@ == data@.skip(q + 4),
            None => forall|q: int| !blank_line_at(text_bytes(data@), q),
        },
        valid_utf8(data@) ==> match body {
            Some(b) => exists|q: int| first_blank_line(data@, q) && b@ == data@.skip(q + 4),
            None => forall|q: int| !blank_line_at(data@, q),
        },
{
    let text = utf8_lossy(data);
    proof {
        broadcast use vstd::utf8::decode_utf8_encode_utf8;

        if valid_utf8(data@) {
            assert(text_bytes(data@) == data@);
        }
    }
    let bytes = text.as_str().as_bytes();
    match find_double_crlf(bytes) {
        Some(end) => {
            assert(first_blank_line(text_bytes(data@), end - 4));
            let b = vstd::slice::slice_to_vec(vstd::slice::slice_subrange(data, end, data.len()));
            assert(b@ =~= data@.skip(end as int));
            Some(b)
        },
        None => None,
    }
}

/// Takes the next piece of an HTTP response read from the server, skipping
/// the head: once the head has been skipped every piece is body; before that,
/// a piece counts only when its text holds the end of the head, and then only
/// its bytes from there on do, as `body_after_head` cuts them (the rest of
/// such a piece is dropped, as are pieces before it).
pub fn skip_head(header_skipped: &mut bool, data: &[u8]) -> (body: Option<Vec<u8>>)
    requires
        *old(header_skipped) || head_cut_in_range(data@),
    ensures
        *old(header_skipped) ==> *final(header_skipped) && (body matches Some(b) && b@ == data@),
        !*old(header_skipped) ==> match body {
            Some(b) => *final(header_skipped) && exists|q: int|
                first_blank_line(text_bytes(data@), q) && b@ == data@.skip(q + 4),
            None => !*final(header_skipped) && forall|q: int|
                !blank_line_at(text_bytes(data@), q),
        },
        !*old(header_skipped) && valid_utf8(data@) ==> match body {
            Some(b) => exists|q: int| first_blank_line(data@, q) && b@ == data@.skip(q + 4),
            None => forall|q: int| !blank_line_at(data@, q),
        },
{
    if *header_skipped {
        return Some(vstd::slice::slice_to_vec(data));
    }
    let body = body_after_head(data);
    if body.is_some() {
        *header_skipped = true;
    }
    body
}

/// `skip_head` where its cut falls inside `data` (always, once the head has
/// been skipped, and for valid UTF-8); otherwise `None`, with the flag left
/// as it was.
pub fn try_skip_head(header_skipped: &mut bool, data: &[u8]) -> (r: Option<Option<Vec<u8>>>)
    ensures
        r is None <==> !*old(header_skipped) && !head_cut_in_range(data@),
        valid_utf8(data@) ==> r is Some,
        r is None ==> *final(header_skipped) == *old(header_skipped),
        r matches Some(body) ==> {
            &&& *old(header_skipped) ==> *final(header_skipped) && (body matches Some(b) && b@
                == data@)
            &&& !*old(header_skipped) ==> match body {
                Some(b) => *final(header_skipped) && exists|q: int|
                    first_blank_line(text_bytes(data@), q) && b@ == data@.skip(q + 4),
                None => !*final(header_skipped) && forall|q: int|
                    !blank_line_at(text_bytes(data@), q),
            }
        },
{
    if !*header_skipped && !head_cut_fits(data) {
        return None;
    }
    Some(skip_head(header_skipped, data))
}

/// The first `\r\n\r\n` of `d` is the only one that starts at `q`.
proof fn lemma_first_blank_line_unique(d: Seq<u8>, q: int)
    requires
        first_blank_line(d, q),
    ensures
        forall|p: int| #[trigger] first_blank_line(d, p) ==> p == q,
{
}

/// `GET `.
pub open spec fn get_prefix() -> Seq<u8> {
    seq![71u8, 69, 84, 32]
}

/// ` HTTP/1.0\r\nHost: `.
pub open spec fn version_and_host_field() -> Seq<u8> {
    seq![32u8, 72, 84, 84, 80, 47, 49, 46, 48, 13, 10, 72, 111, 115, 116, 58, 32]
}

/// `\r\n\r\n`.
pub open spec fn end_of_head() -> Seq<u8> {
    seq![13u8, 10, 13, 10]
}

/// The request an HTTP/1.0 client sends for `path` on `host`:
/// `GET <path> HTTP/1.0\r\nHost: <host>\r\n\r\n`.
pub open spec fn get_request(path: Seq<u8>, host: Seq<u8>) -> Seq<u8> {
    get_prefix() + path + version_and_host_field() + host + end_of_head()
}

/// The bytes of the HTTP/1.0 request for `path` on `host`.
pub fn http_get_request(path: &str, host: &str) -> (request: Vec<u8>)
    ensures
        request@ == get_request(path.spec_bytes(), host.spec_bytes()),
{
    let mut request: Vec<u8> = vec![71u8, 69, 84, 32];
    assert(request@ =~= get_prefix());
    append_bytes(&mut request, path.as_bytes());
    let middle: Vec<u8> = vec![32u8, 72, 84, 84, 80, 47, 49, 46, 48, 13, 10, 72, 111, 115, 116, 58, 32];
    assert(middle@ =~= version_and_host_field());
    append_bytes(&mut request, middle.as_slice());
    append_bytes(&mut request, host.as_bytes());
    let end: Vec<u8> = vec![13u8, 10, 13, 10];
    assert(end@ =~= end_of_head());
    append_bytes(&mut request, end.as_slice());
    request
}

/// A word: at least one character, none of them white space.
pub open spec fn is_word(w: Seq<char>) -> bool {
    w.len() > 0 && forall|i: int| 0 <= i < w.len() ==> !is_space(#[trigger] w[i])
}

/// `s` holds no `c`.
pub open spec fn lacks(s: Seq<char>, c: char) -> bool {
    forall|i: int| 0 <= i < s.len() ==> #[trigger] s[i] != c
}

/// White space that stays on one line: none of it is `\n`.
pub open spec fn is_blank(b: Seq<char>) -> bool {
    forall|i: int| 0 <= i < b.len() ==> is_space(#[trigger] b[i]) && b[i] != '\n'
}

/// The URL of a request is the whole second word of its first line, whatever
/// characters it holds: for a method `m` and a word `w`, with blanks before
/// and between them, the URL of `lead + m + sep + w + tail` is `w` when
/// `tail` is empty or starts with white space (a space, or the `\r\n` or `\n`
/// that ends the line), whatever else `tail` holds. So the URL of
/// `"GET " + w + " HTTP/1.0\r\n\r\n"` is `w`.
pub proof fn lemma_url_is_second_word(
    lead: Seq<char>,
    m: Seq<char>,
    sep: Seq<char>,
    w: Seq<char>,
    tail: Seq<char>,
)
    requires
        is_blank(lead),
        is_word(m),
        sep.len() > 0,
        is_blank(sep),
        is_word(w),
        tail.len() == 0 || is_space(tail[0]),
    ensures
        request_url(lead + m + sep + w + tail) == w,
{
    let s = lead + m + sep + w + tail;
    let a = lead.len() as int;
    let b = a + m.len();
    let c = b + sep.len();
    let d = c + w.len();
    assert(is_space('\r') && is_space('\n'));
    assert forall|i: int| 0 <= i < a implies #[trigger] s[i] == lead[i] by {}
    assert forall|i: int| a <= i < b implies #[trigger] s[i] == m[i - a] by {}
    assert forall|i: int| b <= i < c implies #[trigger] s[i] == sep[i - b] by {}
    assert forall|i: int| c <= i < d implies #[trigger] s[i] == w[i - c] by {}
    assert forall|i: int| 0 <= i < d implies #[trigger] s[i] != '\n' by {
        if i < a {
            assert(s[i] == lead[i]);
        } else if i < b {
            assert(s[i] == m[i - a]);
        } else if i < c {
            assert(s[i] == sep[i - b]);
        } else {
            assert(s[i] == w[i - c]);
        }
    }
    lemma_find_char_props(s, '\n');
    let k = find_char(s, '\n') as int;
    assert(k >= d) by {
        if k < d {
            assert(s[k] != '\n');
        }
    }
    assert(s[d - 1] == w[w.len() - 1]);
    let line = first_line(s)->0;
    assert(line.len() >= d && line == s.take(line.len() as int));
    assert forall|i: int| 0 <= i < line.len() implies #[trigger] line[i] == s[i] by {}
    if d < line.len() {
        assert(s[d] == tail[0]);
    }
    assert forall|i: int| 0 <= i < a implies is_space(#[trigger] line[i]) != false by {
        assert(line[i] == lead[i]);
    }
    assert(line[a] == m[0]);
    lemma_find_space_is(line, false, a);
    let t1 = line.skip(a);
    assert forall|i: int| 0 <= i < m.len() implies is_space(#[trigger] t1[i]) != true by {
        assert(t1[i] == m[i]);
    }
    assert(t1[m.len() as int] == sep[0]);
    lemma_find_space_is(t1, true, m.len() as int);
    let t2 = line.skip(b);
    assert forall|i: int| 0 <= i < sep.len() implies is_space(#[trigger] t2[i]) != false by {
        assert(t2[i] == sep[i]);
    }
    assert(t2[sep.len() as int] == w[0]);
    lemma_find_space_is(t2, false, sep.len() as int);
    let t3 = line.skip(c);
    assert forall|i: int| 0 <= i < w.len() implies is_space(#[trigger] t3[i]) != true by {
        assert(t3[i] == w[i]);
    }
    if w.len() < t3.len() {
        assert(t3[w.len() as int] == s[d]);
    }
    lemma_find_space_is(t3, true, w.len() as int);
    assert(word_bounds(line) == (a, b, c));
    assert(line.subrange(c, d) =~= w);
}

/// A request whose first line holds fewer than two words has no URL: the URL
/// of `lead + m + trail + tail` is empty when `m` is a word, `lead` and
/// `trail` are blanks, and `tail` is empty or starts the next line.
pub proof fn lemma_one_word_has_no_url(
    lead: Seq<char>,
    m: Seq<char>,
    trail: Seq<char>,
    tail: Seq<char>,
)
    requires
        is_blank(lead),
        is_word(m),
        is_blank(trail),
        tail.len() == 0 || tail[0] == '\n',
    ensures
        request_url(lead + m + trail + tail) == Seq::<char>::empty(),
        request_url(Seq::<char>::empty()) == Seq::<char>::empty(),
{
    let s = lead + m + trail + tail;
    let a = lead.len() as int;
    let b = a + m.len();
    let e = b + trail.len();
    assert(is_space('\r'));
    assert forall|i: int| 0 <= i < e implies #[trigger] s[i] != '\n' by {
        if i < a {
            assert(s[i] == lead[i]);
        } else if i < b {
            assert(s[i] == m[i - a]);
        } else {
            assert(s[i] == trail[i - b]);
        }
    }
    if tail.len() > 0 {
        assert(s[e] == tail[0]);
    }
    lemma_find_char_is(s, '\n', e);
    assert(s[b - 1] == m[m.len() - 1]);
    let line = first_line(s)->0;
    assert(b <= line.len() <= e && line == s.take(line.len() as int));
    assert forall|i: int| 0 <= i < line.len() implies #[trigger] line[i] == s[i] by {}
    assert forall|i: int| 0 <= i < a implies is_space(#[trigger] line[i]) != false by {
        assert(line[i] == lead[i]);
    }
    assert(line[a] == m[0]);
    lemma_find_space_is(line, false, a);
    let t1 = line.skip(a);
    assert forall|i: int| 0 <= i < m.len() implies is_space(#[trigger] t1[i]) != true by {
        assert(t1[i] == m[i]);
    }
    if m.len() < t1.len() {
        assert(t1[m.len() as int] == trail[0]);
    }
    lemma_find_space_is(t1, true, m.len() as int);
    let t2 = line.skip(b);
    assert forall|i: int| 0 <= i < t2.len() implies is_space(#[trigger] t2[i]) != false by {
        assert(t2[i] == trail[i]);
    }
    lemma_find_space_is(t2, false, t2.len() as int);
    assert(word_bounds(line).2 == line.len());
}

/// `s` does not start with `http://` when it is shorter than seven characters
/// or its sixth character is not `/`.
proof fn lemma_no_scheme(s: Seq<char>)
    requires
        s.len() < 7 || s[5] != '/',
    ensures
        strip_scheme(s) == s,
{
    if s.len() >= 7 && s.take(7) == http_scheme() {
        assert(s.take(7)[5] == s[5]);
    }
}

/// `http://` + `x` reads as `x` once the scheme is stripped.
proof fn lemma_with_scheme(x: Seq<char>)
    ensures
        strip_scheme(http_scheme() + x) == x,
{
    let s = http_scheme() + x;
    assert(s.take(7) =~= http_scheme());
    assert(s.skip(7) =~= x);
}

/// `h + "/" + p` does not start with `http://` when `h` has no `/` and is
/// not `http:` itself.
proof fn lemma_no_scheme_before_slash(h: Seq<char>, p: Seq<char>)
    requires
        lacks(h, '/'),
        h != seq!['h', 't', 't', 'p', ':'],
    ensures
        strip_scheme(h + seq!['/'] + p) == h + seq!['/'] + p,
        strip_scheme(h) == h,
{
    let s = h + seq!['/'] + p;
    assert(s[h.len() as int] == '/');
    if h.len() > 5 {
        assert(s[5] == h[5]);
    }
    lemma_no_scheme(h);
    if s.len() >= 7 && s.take(7) == http_scheme() {
        let t = s.take(7);
        assert(t[h.len() as int] == '/' ==> h.len() == 5 || h.len() == 6);
        if h.len() == 5 {
            assert forall|i: int| 0 <= i < 5 implies h[i] == #[trigger] http_scheme()[i] by {
                assert(h[i] == s[i] && s[i] == t[i]);
            }
            assert(h =~= seq!['h', 't', 't', 'p', ':']);
        } else if h.len() > 5 {
            assert(t[5] == h[5]);
        } else {
            assert(t[h.len() as int] == s[h.len() as int]);
        }
    }
}

/// Where the first `/` of `h + "/" + p` is, for `h` without `/`, and that
/// `h` itself has none.
proof fn lemma_first_slash(h: Seq<char>, p: Seq<char>)
    requires
        lacks(h, '/'),
    ensures
        find_char(h + seq!['/'] + p, '/') == h.len(),
        find_char(h, '/') == h.len(),
{
    let s = h + seq!['/'] + p;
    assert forall|i: int| 0 <= i < h.len() implies #[trigger] s[i] != '/' by {
        assert(s[i] == h[i]);
    }
    lemma_find_char_is(s, '/', h.len() as int);
    lemma_find_char_is(h, '/', h.len() as int);
}

/// Nothing after the first `/` of a URL affects its host, port or path
/// start: for `h` without `/` and any `p`, `http://` + `h` + `/` + `p` has the
/// host and port of `http://` + `h`, and its path is `/` + `p`, unchanged;
/// `http://` + `h` has the path `/`.
pub proof fn lemma_url_parts_split_at_first_slash(h: Seq<char>, p: Seq<char>)
    requires
        lacks(h, '/'),
    ensures
        url_host(http_scheme() + h + seq!['/'] + p) == url_host(http_scheme() + h),
        url_port(http_scheme() + h + seq!['/'] + p) == url_port(http_scheme() + h),
        url_path(http_scheme() + h + seq!['/'] + p) == seq!['/'] + p,
        url_path(http_scheme() + h) == seq!['/'],
{
    let u = h + seq!['/'] + p;
    assert(http_scheme() + h + seq!['/'] + p =~= http_scheme() + u);
    lemma_with_scheme(u);
    lemma_with_scheme(h);
    lemma_first_slash(h, p);
    assert(u.take(h.len() as int) =~= h);
    assert(h.take(h.len() as int) =~= h);
    assert(u.skip(h.len() as int) =~= seq!['/'] + p);
}

/// The same without the scheme: for `h` without `/` (and not `http:`, which
/// with a `p` that starts with `/` would spell a scheme), `h + "/" + p` has
/// the host and port of `h`, and the path `/` + `p`.
pub proof fn lemma_schemeless_url_parts_split_at_first_slash(h: Seq<char>, p: Seq<char>)
    requires
        lacks(h, '/'),
        h != seq!['h', 't', 't', 'p', ':'],
    ensures
        url_host(h + seq!['/'] + p) == url_host(h),
        url_port(h + seq!['/'] + p) == url_port(h),
        url_path(h + seq!['/'] + p) == seq!['/'] + p,
{
    let u = h + seq!['/'] + p;
    lemma_no_scheme_before_slash(h, p);
    lemma_first_slash(h, p);
    assert(u.take(h.len() as int) =~= h);
    assert(h.take(h.len() as int) =~= h);
    assert(u.skip(h.len() as int) =~= seq!['/'] + p);
}

/// A host is a plain name: it holds no `/` and no `:`, and it is how the URL
/// (without `http://`) begins.
pub proof fn lemma_host_is_a_name(url: Seq<char>)
    ensures
        lacks(url_host(url), '/'),
        lacks(url_host(url), ':'),
        url_host(url).len() <= strip_scheme(url).len(),
        strip_scheme(url).take(url_host(url).len() as int) == url_host(url),
{
    let u = strip_scheme(url);
    lemma_find_char_props(u, '/');
    let a = u.take(find_char(u, '/') as int);
    lemma_find_char_props(a, ':');
    let host = url_host(url);
    assert forall|i: int| 0 <= i < host.len() implies #[trigger] host[i] != '/' by {
        assert(host[i] == a[i] && a[i] == u[i]);
    }
    assert(u.take(host.len() as int) =~= host);
}

/// The host of `http://` + `h` + `rest` is `h` when `h` holds no `/` or `:`
/// and `rest` is empty or starts with the port's `:` or the path's `/`.
pub proof fn lemma_host_before_port_or_path(h: Seq<char>, rest: Seq<char>)
    requires
        lacks(h, '/'),
        lacks(h, ':'),
        rest.len() == 0 || rest[0] == '/' || rest[0] == ':',
    ensures
        url_host(http_scheme() + h + rest) == h,
{
    let u = h + rest;
    assert(http_scheme() + h + rest =~= http_scheme() + u);
    lemma_with_scheme(u);
    lemma_find_char_props(u, '/');
    let k = find_char(u, '/') as int;
    assert(k >= h.len()) by {
        if k < h.len() {
            assert(u[k] == h[k]);
        }
    }
    let a = u.take(k);
    assert forall|i: int| 0 <= i < h.len() implies #[trigger] a[i] != ':' by {
        assert(a[i] == h[i]);
    }
    if h.len() < a.len() {
        assert(a[h.len() as int] == rest[0]);
    }
    lemma_find_char_is(a, ':', h.len() as int);
    assert(a.take(h.len() as int) =~= h);
}

/// The port is the number written after the host's `:`, and 80 when there
/// is no `:`: for `h` without `/` or `:`, and `rest` empty or the path that
/// starts with `/`, the port of `http://` + `h` + `:` + `d` + `rest` is the
/// value of the digits `d` (when it fits in 16 bits), and the port of
/// `http://` + `h` + `rest` is `DEFAULT_PORT`.
pub proof fn lemma_port_is_the_number_after_the_host(
    h: Seq<char>,
    d: Seq<char>,
    rest: Seq<char>,
)
    requires
        lacks(h, '/'),
        lacks(h, ':'),
        rest.len() == 0 || rest[0] == '/',
    ensures
        d.len() > 0 && all_digits(d) && decimal_value(d) <= u16::MAX ==> url_port(
            http_scheme() + h + seq![':'] + d + rest,
        ) == decimal_value(d),
        url_port(http_scheme() + h + rest) == DEFAULT_PORT,
{
    if d.len() > 0 && all_digits(d) && decimal_value(d) <= u16::MAX {
        let hp = h + seq![':'] + d;
        let u = hp + rest;
        assert(http_scheme() + h + seq![':'] + d + rest =~= http_scheme() + u);
        lemma_with_scheme(u);
        assert forall|i: int| 0 <= i < hp.len() implies #[trigger] u[i] != '/' by {
            assert(u[i] == hp[i]);
            if i > h.len() {
                assert(hp[i] == d[i - h.len() - 1]);
            }
        }
        if rest.len() > 0 {
            assert(u[hp.len() as int] == rest[0]);
        }
        lemma_find_char_is(u, '/', hp.len() as int);
        assert(u.take(hp.len() as int) =~= hp);
        assert(hp[h.len() as int] == ':');
        lemma_find_char_is(hp, ':', h.len() as int);
        assert(hp.skip(h.len() + 1int) =~= d);
        assert('0' <= d[0] <= '9');
    }
    let u = h + rest;
    assert(http_scheme() + h + rest =~= http_scheme() + u);
    lemma_with_scheme(u);
    assert forall|i: int| 0 <= i < h.len() implies #[trigger] u[i] != '/' by {
        assert(u[i] == h[i]);
    }
    if rest.len() > 0 {
        assert(u[h.len() as int] == rest[0]);
    }
    lemma_find_char_is(u, '/', h.len() as int);
    let hp = u.take(h.len() as int);
    assert(hp =~= h);
    lemma_find_char_is(hp, ':', h.len() as int);
}

/// The request carries the path and the host byte for byte: it is `GET `,
/// then exactly the bytes of the path, then ` HTTP/1.0\r\nHost: `, then
/// exactly the bytes of the host, then `\r\n\r\n`.
pub proof fn lemma_request_carries_path_and_host(path: Seq<u8>, host: Seq<u8>)
    ensures
        ({
            let r = get_request(path, host);
            let lp = path.len() as int;
            let lh = host.len() as int;
            &&& r.len() == lp + lh + 25
            &&& r.take(4) == seq![71u8, 69, 84, 32]
            &&& r.subrange(4, 4 + lp) == path
            &&& r.subrange(4 + lp, 21 + lp) == seq![
                32u8,
                72,
                84,
                84,
                80,
                47,
                49,
                46,
                48,
                13,
                10,
                72,
                111,
                115,
                116,
                58,
                32,
            ]
            &&& r.subrange(21 + lp, 21 + lp + lh) == host
            &&& r.skip(21 + lp + lh) == seq![13u8, 10, 13, 10]
        }),
{
    let r = get_request(path, host);
    let lp = path.len() as int;
    let lh = host.len() as int;
    assert(r.take(4) =~= seq![71u8, 69, 84, 32]);
    assert(r.subrange(4, 4 + lp) =~= path);
    assert(r.subrange(4 + lp, 21 + lp) =~= version_and_host_field());
    assert(r.subrange(21 + lp, 21 + lp + lh) =~= host);
    assert(r.skip(21 + lp + lh) =~= end_of_head());
}

/// Two different paths on one host make two different requests: nothing of
/// the path is dropped.
pub proof fn lemma_request_tells_paths_apart(p1: Seq<u8>, p2: Seq<u8>, host: Seq<u8>)
    requires
        get_request(p1, host) == get_request(p2, host),
    ensures
        p1 == p2,
{
    lemma_request_carries_path_and_host(p1, host);
    lemma_request_carries_path_and_host(p2, host);
}

} // verus!
