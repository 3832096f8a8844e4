use vstd::prelude::*;

verus! {

/// The SOCKS5 greeting a probe sends: version 5, one method, "no authentication".
pub fn socks5_greeting() -> (g: Vec<u8>)
    ensures
        g@ == seq![5u8, 1u8, 0u8],
{
    let mut g = Vec::new();
    g.push(5u8);
    g.push(1u8);
    g.push(0u8);
    assert(g@ =~= seq![5u8, 1u8, 0u8]);
    g
}

/// A live SOCKS5 proxy answers the greeting with version 5 and "no authentication".
pub fn socks5_reply_ok(reply: &[u8]) -> (ok: bool)
    ensures
        ok == (reply@ == seq![5u8, 0u8]),
{
    if reply.len() != 2 {
        assert(reply@ != seq![5u8, 0u8]);
        return false;
    }
    let ok = reply[0] == 5u8 && reply[1] == 0u8;
    if ok {
        assert(reply@ =~= seq![5u8, 0u8]);
    } else {
        assert(reply@ != seq![5u8, 0u8]) by {
            if reply@ == seq![5u8, 0u8] {
                assert(reply@[0] == seq![5u8, 0u8][0]);
                assert(reply@[1] == seq![5u8, 0u8][1]);
            }
        }
    }
    ok
}

/// The decimal digit `d`.
pub open spec fn dec_char(d: int) -> char {
    (48 + d) as char
}

/// The decimal representation of `n`, without leading zeros.
pub open spec fn dec_digits(n: nat) -> Seq<char>
    decreases n,
{
    if n < 10 {
        seq![dec_char(n as int)]
    } else {
        dec_digits(n / 10).push(dec_char((n % 10) as int))
    }
}

fn dec_digit_str(d: u64) -> (s: &'static str)
    requires
        d < 10,
    ensures
        s@ == seq![dec_char(d as int)],
{
    proof {
        reveal_strlit("0");
        reveal_strlit("1");
        reveal_strlit("2");
        reveal_strlit("3");
        reveal_strlit("4");
        reveal_strlit("5");
        reveal_strlit("6");
        reveal_strlit("7");
        reveal_strlit("8");
        reveal_strlit("9");
    }
    let s = match d {
        0 => "0",
        1 => "1",
        2 => "2",
        3 => "3",
        4 => "4",
        5 => "5",
        6 => "6",
        7 => "7",
        8 => "8",
        _ => "9",
    };
    assert(s@ =~= seq![dec_char(d as int)]);
    s
}

/// `n` in decimal, as `format!("{n}")` writes it.
pub fn decimal(n: u64) -> (s: String)
    ensures
        s@ == dec_digits(n as nat),
    decreases n,
{
    if n < 10 {
        let mut s = String::new();
        s.append(dec_digit_str(n));
        s
    } else {
        let mut s = decimal(n / 10);
        s.append(dec_digit_str(n % 10));
        s
    }
}

/// `host:port`.
pub open spec fn host_port(host: Seq<char>, port: u16) -> Seq<char> {
    host + ":"@ + dec_digits(port as nat)
}

/// The address `host:port` to connect to.
pub fn address(host: &str, port: u16) -> (a: String)
    ensures
        a@ == host_port(host@, port),
{
    let mut a = host.to_owned();
    a.append(":");
    let p = decimal(port as u64);
    a.append(p.as_str());
    a
}

/// The request an HTTP probe sends: a `CONNECT` to `host:port`.
pub open spec fn connect_text(host: Seq<char>, port: u16) -> Seq<char> {
    "CONNECT "@ + host_port(host, port) + " HTTP/1.1\r\nHost: "@ + host_port(host, port) + "\r\n\r\n"@
}

pub fn connect_request(host: &str, port: u16) -> (req: String)
    ensures
        req@ == connect_text(host@, port),
{
    let hp = address(host, port);
    let mut req = String::from_str("CONNECT ");
    req.append(hp.as_str());
    req.append(" HTTP/1.1\r\nHost: ");
    req.append(hp.as_str());
    req.append("\r\n\r\n");
    req
}

/// The bytes of a response before its first carriage return.
pub open spec fn status_line(resp: Seq<u8>) -> Seq<u8>
    decreases resp.len(),
{
    if resp.len() == 0 || resp[0] == 13u8 {
        Seq::empty()
    } else {
        seq![resp[0]] + status_line(resp.drop_first())
    }
}

/// ` 200 `.
pub open spec fn code_200() -> Seq<u8> {
    seq![32u8, 50u8, 48u8, 48u8, 32u8]
}

/// `line` holds ` 200 ` somewhere.
pub open spec fn has_200(line: Seq<u8>) -> bool {
    exists|i: int| 0 <= i && i + 5 <= line.len() && #[trigger] line.subrange(i, i + 5) == code_200()
}

/// The length of the status line: the position of the first carriage return, or the end.
fn status_line_len(resp: &[u8]) -> (n: usize)
    ensures
        n <= resp@.len(),
        status_line(resp@) == resp@.take(n as int),
{
    let mut n: usize = 0;
    while n < resp.len() && resp[n] != 13u8
        invariant
            n <= resp@.len(),
            forall|j: int| 0 <= j < n ==> resp@[j] != 13u8,
        decreases resp@.len() - n,
    {
        n = n + 1;
    }
    proof {
        lemma_status_line(resp@, n as int);
    }
    n
}

proof fn lemma_status_line(s: Seq<u8>, n: int)
    requires
        0 <= n <= s.len(),
        forall|j: int| 0 <= j < n ==> s[j] != 13u8,
        n == s.len() || s[n] == 13u8,
    ensures
        status_line(s) == s.take(n),
    decreases s.len(),
{
    if s.len() == 0 || s[0] == 13u8 {
        assert(s.take(n) =~= Seq::<u8>::empty());
    } else {
        lemma_status_line(s.drop_first(), n - 1);
        assert(s.take(n) =~= seq![s[0]] + s.drop_first().take(n - 1));
    }
}

/// A live HTTP proxy answers `CONNECT` with a status line holding ` 200 `.
pub fn connect_reply_ok(resp: &[u8]) -> (ok: bool)
    ensures
        ok == has_200(status_line(resp@)),
{
    let n = status_line_len(resp);
    let ghost line = resp@.take(n as int);
    if n < 5 {
        return false;
    }
    let mut i: usize = 0;
    while i <= n - 5
        invariant
            5 <= n <= resp@.len(),
            line == resp@.take(n as int),
            status_line(resp@) == line,
            i <= n,
            forall|j: int| 0 <= j < i ==> #[trigger] line.subrange(j, j + 5) != code_200(),
        decreases n - i,
    {
        if resp[i] == 32u8 && resp[i + 1] == 50u8 && resp[i + 2] == 48u8 && resp[i + 3] == 48u8 && resp[i + 4] == 32u8 {
            assert(line.subrange(i as int, i + 5) =~= code_200());
            assert(has_200(line));
            return true;
        }
        assert(line.subrange(i as int, i + 5) != code_200()) by {
            if line.subrange(i as int, i + 5) == code_200() {
                assert(line.subrange(i as int, i + 5)[0] == resp@[i as int]);
                assert(line.subrange(i as int, i + 5)[1] == resp@[i + 1]);
                assert(line.subrange(i as int, i + 5)[2] == resp@[i + 2]);
                assert(line.subrange(i as int, i + 5)[3] == resp@[i + 3]);
                assert(line.subrange(i as int, i + 5)[4] == resp@[i + 4]);
            }
        }
        i = i + 1;
    }
    false
}

} // verus!

verus! {

/// Unicode `White_Space`, which `char::is_whitespace` tests.
pub open spec fn is_ws(c: char) -> bool {
    ('\u{9}' <= c && c <= '\u{d}') || c == ' ' || c == '\u{85}' || c == '\u{a0}' || c == '\u{1680}'
        || ('\u{2000}' <= c && c <= '\u{200a}') || c == '\u{2028}' || c == '\u{2029}' || c == '\u{202f}'
        || c == '\u{205f}' || c == '\u{3000}'
}

fn is_ws_exec(c: char) -> (b: bool)
    ensures
        b == is_ws(c),
{
    ('\u{9}' <= c && c <= '\u{d}') || c == ' ' || c == '\u{85}' || c == '\u{a0}' || c == '\u{1680}'
        || ('\u{2000}' <= c && c <= '\u{200a}') || c == '\u{2028}' || c == '\u{2029}' || c == '\u{202f}'
        || c == '\u{205f}' || c == '\u{3000}'
}

/// `s` without leading whitespace.
pub open spec fn trim_start(s: Seq<char>) -> Seq<char>
    decreases s.len(),
{
    if s.len() > 0 && is_ws(s[0]) {
        trim_start(s.drop_first())
    } else {
        s
    }
}

/// `s` without trailing whitespace.
pub open spec fn trim_end(s: Seq<char>) -> Seq<char>
    decreases s.len(),
{
    if s.len() > 0 && is_ws(s.last()) {
        trim_end(s.drop_last())
    } else {
        s
    }
}

/// `s` without leading or trailing whitespace, as `str::trim` gives it.
pub open spec fn trim(s: Seq<char>) -> Seq<char> {
    trim_end(trim_start(s))
}

proof fn lemma_trim_start_skip(s: Seq<char>, i: int)
    requires
        0 <= i <= s.len(),
        forall|j: int| 0 <= j < i ==> is_ws(#[trigger] s[j]),
    ensures
        trim_start(s) == trim_start(s.skip(i)),
    decreases i,
{
    if i > 0 {
        assert(s.drop_first().skip(i - 1) =~= s.skip(i));
        assert forall|j: int| 0 <= j < i - 1 implies is_ws(#[trigger] s.drop_first()[j]) by {
            assert(s.drop_first()[j] == s[j + 1]);
        }
        lemma_trim_start_skip(s.drop_first(), i - 1);
    } else {
        assert(s.skip(0) =~= s);
    }
}

proof fn lemma_trim_end_take(s: Seq<char>, k: int)
    requires
        0 <= k <= s.len(),
        forall|j: int| k <= j < s.len() ==> is_ws(#[trigger] s[j]),
    ensures
        trim_end(s) == trim_end(s.take(k)),
    decreases s.len() - k,
{
    if k < s.len() {
        assert(s.drop_last().take(k) =~= s.take(k));
        assert forall|j: int| k <= j < s.len() - 1 implies is_ws(#[trigger] s.drop_last()[j]) by {
            assert(s.drop_last()[j] == s[j]);
        }
        assert(is_ws(s[s.len() - 1]));
        lemma_trim_end_take(s.drop_last(), k);
    } else {
        assert(s.take(k) =~= s);
    }
}

/// Trims whitespace from both ends of `s`.
pub fn trim_ws(s: &str) -> (t: String)
    ensures
        t@ == trim(s@),
{
    let n = s.unicode_len();
    let mut a: usize = 0;
    while a < n && is_ws_exec(s.get_char(a))
        invariant
            n == s@.len(),
            a <= n,
            forall|j: int| 0 <= j < a ==> is_ws(#[trigger] s@[j]),
        decreases n - a,
    {
        a = a + 1;
    }
    proof {
        lemma_trim_start_skip(s@, a as int);
    }
    let ghost rest = s@.skip(a as int);
    proof {
        if a < n {
            assert(rest[0] == s@[a as int]);
            assert(trim_start(rest) == rest);
        } else {
            assert(rest.len() == 0);
        }
    }
    let mut b: usize = n;
    while b > a && is_ws_exec(s.get_char(b - 1))
        invariant
            n == s@.len(),
            a <= b <= n,
            rest == s@.skip(a as int),
            forall|j: int| b - a <= j < rest.len() ==> is_ws(#[trigger] rest[j]),
        decreases b,
    {
        assert(rest[b - 1 - a] == s@[b - 1]);
        b = b - 1;
    }
    proof {
        lemma_trim_end_take(rest, (b - a) as int);
        let r = rest.take((b - a) as int);
        if b > a {
            assert(r.last() == s@[b - 1]);
            assert(trim_end(r) == r);
        } else {
            assert(r.len() == 0);
        }
        assert(r =~= s@.subrange(a as int, b as int));
    }
    s.substring_char(a, b).to_owned()
}

/// The first position at or after `i` where `s` holds `c`.
pub open spec fn find_char(s: Seq<char>, c: char, i: int) -> Option<int>
    decreases s.len() - i,
{
    if i < 0 || i >= s.len() {
        None
    } else if s[i] == c {
        Some(i)
    } else {
        find_char(s, c, i + 1)
    }
}

fn find_char_exec(s: &str, c: char, from: usize) -> (r: Option<usize>)
    requires
        from <= s@.len(),
    ensures
        r == match find_char(s@, c, from as int) { Some(i) => Some(i as usize), None => None::<usize> },
        r matches Some(i) ==> from <= i < s@.len(),
{
    let n = s.unicode_len();
    let mut i = from;
    while i < n
        invariant
            n == s@.len(),
            from <= i <= n,
            find_char(s@, c, from as int) == find_char(s@, c, i as int),
        decreases n - i,
    {
        if s.get_char(i) == c {
            return Some(i);
        }
        i = i + 1;
    }
    None
}

/// `needle` occurs in `hay`.
pub open spec fn contains_text(hay: Seq<char>, needle: Seq<char>) -> bool {
    exists|i: int| 0 <= i && i + needle.len() <= hay.len() && #[trigger] hay.subrange(i, i + needle.len()) == needle
}

fn contains_text_exec(hay: &str, needle: &str) -> (r: bool)
    ensures
        r == contains_text(hay@, needle@),
{
    let n = hay.unicode_len();
    let m = needle.unicode_len();
    if m > n {
        return false;
    }
    let mut i: usize = 0;
    while i <= n - m
        invariant
            n == hay@.len(),
            m == needle@.len(),
            m <= n,
            i <= n - m + 1,
            forall|j: int| 0 <= j < i ==> #[trigger] hay@.subrange(j, j + m) != needle@,
        decreases n - m + 1 - i,
    {
        let mut k: usize = 0;
        while k < m && hay.get_char(i + k) == needle.get_char(k)
            invariant
                n == hay@.len(),
                m == needle@.len(),
                i + m <= n,
                k <= m,
                forall|q: int| 0 <= q < k ==> hay@[i + q] == needle@[q],
            decreases m - k,
        {
            k = k + 1;
        }
        if k == m {
            assert(hay@.subrange(i as int, i + m) =~= needle@);
            return true;
        }
        assert(hay@.subrange(i as int, i + m) != needle@) by {
            assert(hay@.subrange(i as int, i + m)[k as int] == hay@[i + k]);
        }
        i = i + 1;
    }
    false
}

/// Where the line starting at `i` ends: at the next newline, or the end of `s`.
pub open spec fn line_end(s: Seq<char>, i: int) -> int
    decreases s.len() - i,
{
    if i < 0 || i >= s.len() {
        s.len() as int
    } else if s[i] == '\n' {
        i
    } else {
        line_end(s, i + 1)
    }
}

pub proof fn lemma_line_end(s: Seq<char>, i: int)
    requires
        0 <= i <= s.len(),
    ensures
        i <= line_end(s, i) <= s.len(),
        line_end(s, i) < s.len() ==> s[line_end(s, i)] == '\n',
    decreases s.len() - i,
{
    if i < s.len() && s[i] != '\n' {
        lemma_line_end(s, i + 1);
    }
}

/// The line of `s` from `start` to its end `e`, less the carriage return before its newline
/// (as `str::lines` gives it).
pub open spec fn line_text(s: Seq<char>, start: int, e: int) -> Seq<char> {
    if e < s.len() && e > start && s[e - 1] == '\r' {
        s.subrange(start, e - 1)
    } else {
        s.subrange(start, e)
    }
}

/// What `warp-cli status` output `s` reports from line `start` on: after the first colon of
/// the first line mentioning `Status update:`, trimmed; nothing when no line does.
pub open spec fn warp_status_from(s: Seq<char>, start: int) -> Option<Seq<char>>
    decreases s.len() - start,
{
    if start < 0 || start >= s.len() {
        None
    } else {
        let e = line_end(s, start);
        let line = line_text(s, start, e);
        if contains_text(line, "Status update:"@) {
            match find_char(line, ':', 0) {
                Some(c) => Some(trim(line.skip(c + 1))),
                None => None,
            }
        } else if e < start || e >= s.len() {
            None
        } else {
            warp_status_from(s, e + 1)
        }
    }
}

/// The tunnel status in the output of `warp-cli --accept-tos status`: the text after the
/// first colon of the first line that mentions `Status update:`, trimmed.
pub fn parse_warp_status(out: &str) -> (r: Option<String>)
    ensures
        r matches Some(t) ==> warp_status_from(out@, 0) == Some(t@),
        r is None ==> warp_status_from(out@, 0) is None,
{
    proof {
        reveal_strlit("Status update:");
    }
    let n = out.unicode_len();
    let mut start: usize = 0;
    while start < n
        invariant
            n == out@.len(),
            start <= n,
            warp_status_from(out@, 0) == warp_status_from(out@, start as int),
        decreases n - start,
    {
        proof {
            lemma_line_end(out@, start as int);
        }
        let e = match find_char_exec(out, '\n', start) {
            Some(i) => i,
            None => n,
        };
        proof {
            lemma_find_is_line_end(out@, start as int);
        }
        let line_stop = if e < n && e > start && out.get_char(e - 1) == '\r' { e - 1 } else { e };
        let line = out.substring_char(start, line_stop);
        assert(line@ == line_text(out@, start as int, e as int));
        if contains_text_exec(line, "Status update:") {
            let ln = line.unicode_len();
            match find_char_exec(line, ':', 0) {
                Some(c) => {
                    let rest = line.substring_char(c + 1, ln);
                    assert(rest@ =~= line@.skip(c + 1));
                    proof {
                        lemma_find_in_range(line@, ':', 0);
                        assert(find_char(line@, ':', 0) == Some(c as int));
                        assert(line_end(out@, start as int) == e);
                        assert(warp_status_from(out@, start as int) == Some(trim(line@.skip(c + 1))));
                    }
                    return Some(trim_ws(rest));
                },
                None => return None,
            }
        }
        if e >= n {
            return None;
        }
        start = e + 1;
    }
    None
}

proof fn lemma_find_in_range(s: Seq<char>, c: char, i: int)
    ensures
        find_char(s, c, i) matches Some(j) ==> i <= j < s.len(),
    decreases s.len() - i,
{
    if 0 <= i < s.len() && s[i] != c {
        lemma_find_in_range(s, c, i + 1);
    }
}

proof fn lemma_find_is_line_end(s: Seq<char>, i: int)
    requires
        0 <= i <= s.len(),
    ensures
        line_end(s, i) == match find_char(s, '\n', i) { Some(j) => j, None => s.len() as int },
    decreases s.len() - i,
{
    if i < s.len() && s[i] != '\n' {
        lemma_find_is_line_end(s, i + 1);
    }
}

} // verus!
