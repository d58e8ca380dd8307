//! Reading active connections and listening ports out of the text that the
//! socket utilities print (`ss` on Linux, `lsof` on macOS).
use vstd::prelude::*;

use crate::observation::{ConnInfo, ListeningPort};
use crate::parse::{lines_of, parse_decimal, parse_uint, split_lines, split_words, words_of};
use crate::text::{
    chars_of, find, first_occurrence, has_infix, has_prefix, lemma_first_occurrence,
    starts_with, str_eq, trim, trimmed,
};

verus! {

/// `s` without the leading characters equal to `a` or `b`.
pub open spec fn strip_start(s: Seq<char>, a: char, b: char) -> Seq<char>
    decreases s.len(),
{
    if s.len() > 0 && (s[0] == a || s[0] == b) {
        strip_start(s.drop_first(), a, b)
    } else {
        s
    }
}

/// `s` without the trailing characters equal to `a` or `b`.
pub open spec fn strip_end(s: Seq<char>, a: char, b: char) -> Seq<char>
    decreases s.len(),
{
    if s.len() > 0 && (s.last() == a || s.last() == b) {
        strip_end(s.drop_last(), a, b)
    } else {
        s
    }
}

/// Removes leading characters equal to `a` or `b`, and trailing ones too
/// where `back`.
pub fn strip_chars(s: &str, a: char, b: char, front: bool, back: bool) -> (r: String)
    ensures
        r@ == {
            let f = if front {
                strip_start(s@, a, b)
            } else {
                s@
            };
            if back {
                strip_end(f, a, b)
            } else {
                f
            }
        },
{
    let sc = chars_of(s);
    let n = sc.len();
    let mut i: usize = 0;
    assert(s@.subrange(0, n as int) =~= s@);
    if front {
        while i < n && (sc[i] == a || sc[i] == b)
            invariant
                sc@ == s@,
                n == s@.len(),
                i <= n,
                strip_start(s@, a, b) == strip_start(s@.subrange(i as int, n as int), a, b),
            decreases n - i,
        {
            assert(s@.subrange(i as int, n as int).drop_first() =~= s@.subrange(i + 1, n as int));
            i = i + 1;
        }
    }
    let ghost f = s@.subrange(i as int, n as int);
    assert(front ==> strip_start(f, a, b) == f);
    let mut j: usize = n;
    assert(f.subrange(0, n - i) =~= f);
    if back {
        while j > i && (sc[j - 1] == a || sc[j - 1] == b)
            invariant
                sc@ == s@,
                n == s@.len(),
                i <= j <= n,
                f == s@.subrange(i as int, n as int),
                strip_end(f, a, b) == strip_end(f.subrange(0, j - i), a, b),
            decreases j,
        {
            assert(f.subrange(0, j - i).drop_last() =~= f.subrange(0, j - i - 1));
            assert(f[j - i - 1] == s@[j - 1]);
            j = j - 1;
        }
    }
    assert(f.subrange(0, j - i) =~= s@.subrange(i as int, j as int));
    s.substring_char(i, j).to_string()
}

/// The position of the last `c` in `s`, or -1.
pub open spec fn last_index(s: Seq<char>, c: char) -> int
    decreases s.len(),
{
    if s.len() == 0 {
        -1
    } else if s.last() == c {
        s.len() - 1
    } else {
        last_index(s.drop_last(), c)
    }
}

pub fn find_last_char(s: &Vec<char>, c: char) -> (r: Option<usize>)
    ensures
        r matches Some(i) ==> last_index(s@, c) == i && i < s@.len(),
        r is None ==> last_index(s@, c) == -1,
{
    let mut j: usize = s.len();
    assert(s@.subrange(0, j as int) =~= s@);
    while j > 0
        invariant
            j <= s@.len(),
            last_index(s@, c) == last_index(s@.subrange(0, j as int), c),
        decreases j,
    {
        if s[j - 1] == c {
            return Some(j - 1);
        }
        assert(s@.subrange(0, j as int).drop_last() =~= s@.subrange(0, j - 1));
        j = j - 1;
    }
    None
}

/// A host with the brackets of an IPv6 literal taken off both ends.
pub open spec fn normalized_host(h: Seq<char>) -> Seq<char> {
    strip_end(strip_start(h, '[', ']'), '[', ']')
}

pub fn normalize_host(input: &str) -> (r: String)
    ensures
        r@ == normalized_host(input@),
{
    strip_chars(input, '[', ']', true, true)
}

/// The host and port of an `address:port` endpoint, split at the last colon.
pub open spec fn host_port_of(input: Seq<char>) -> Option<(Seq<char>, nat)> {
    let t = strip_end(strip_start(trimmed(input), '[', '['), ']', ']');
    let k = last_index(t, ':');
    if k < 0 {
        None
    } else {
        match parse_decimal(t.subrange(k + 1, t.len() as int), 65535) {
            Some(p) => Some((normalized_host(t.subrange(0, k)), p)),
            None => None,
        }
    }
}

proof fn lemma_last_index_bounds(s: Seq<char>, c: char)
    ensures
        -1 <= last_index(s, c) < s.len(),
    decreases s.len(),
{
    if s.len() > 0 && s.last() != c {
        lemma_last_index_bounds(s.drop_last(), c);
    }
}

pub fn parse_host_port(input: &str) -> (r: Option<(String, u16)>)
    ensures
        match r {
            Some((h, p)) => host_port_of(input@) == Some((h@, p as nat)),
            None => host_port_of(input@) is None,
        },
{
    let t0 = trim(input);
    let t1 = strip_chars(t0.as_str(), '[', '[', true, false);
    let t = strip_chars(t1.as_str(), ']', ']', false, true);
    let tc = chars_of(t.as_str());
    proof {
        lemma_last_index_bounds(t@, ':');
    }
    match find_last_char(&tc, ':') {
        None => None,
        Some(k) => {
            assert(k < tc.len());
            let host = t.as_str().substring_char(0, k);
            let port = t.as_str().substring_char(k + 1, tc.len());
            match parse_uint(port, 65535) {
                Some(p) => Some((normalize_host(host), p as u16)),
                None => None,
            }
        },
    }
}

/// An address on this machine itself.
pub open spec fn is_loopback(addr: Seq<char>) -> bool {
    addr == "localhost"@ || addr == "::1"@ || has_prefix(addr, "127."@) || has_prefix(
        addr,
        "fe80::1%"@,
    ) || addr == "*"@
}

pub fn is_loopback_addr(addr: &str) -> (r: bool)
    ensures
        r == is_loopback(addr@),
{
    str_eq(addr, "localhost") || str_eq(addr, "::1") || starts_with(addr, "127.") || starts_with(
        addr,
        "fe80::1%",
    ) || str_eq(addr, "*")
}

/// What follows the first `p` in `s`, where `p` occurs.
pub open spec fn after_first(s: Seq<char>, p: Seq<char>) -> Option<Seq<char>> {
    if has_infix(s, p) {
        Some(s.subrange(first_occurrence(s, p) + p.len(), s.len() as int))
    } else {
        None
    }
}

/// What precedes the first `p` in `s`, or all of `s`.
pub open spec fn before_first(s: Seq<char>, p: Seq<char>) -> Seq<char> {
    if has_infix(s, p) {
        s.subrange(0, first_occurrence(s, p))
    } else {
        s
    }
}

pub fn after_first_str(s: &str, p: &str) -> (r: Option<String>)
    ensures
        match r {
            Some(v) => after_first(s@, p@) == Some(v@),
            None => after_first(s@, p@) is None,
        },
{
    match find(s, p) {
        Some(i) => {
            proof {
                lemma_first_occurrence(s@, p@, i as int);
            }
            let n = s.unicode_len();
            let m = p.unicode_len();
            Some(s.substring_char(i + m, n).to_string())
        },
        None => None,
    }
}

pub fn before_first_str(s: &str, p: &str) -> (r: String)
    ensures
        r@ == before_first(s@, p@),
{
    match find(s, p) {
        Some(i) => {
            proof {
                lemma_first_occurrence(s@, p@, i as int);
            }
            s.substring_char(0, i).to_string()
        },
        None => s.to_string(),
    }
}

/// The process name in the `users:(("name",pid=…))` column of `ss`.
pub open spec fn ss_process_name(input: Seq<char>) -> Seq<char> {
    match after_first(input, "\""@) {
        Some(rest) => before_first(rest, "\""@),
        None => "unknown"@,
    }
}

/// The process id in the `users:` column of `ss`, or 0.
pub open spec fn ss_process_pid(input: Seq<char>) -> nat {
    match after_first(input, "pid="@) {
        Some(rest) => match parse_decimal(before_first(before_first(rest, "pid="@), ","@), 4294967295) {
            Some(v) => v,
            None => 0,
        },
        None => 0,
    }
}

pub fn parse_ss_process(input: &str) -> (r: (String, u32))
    ensures
        r.0@ == ss_process_name(input@),
        r.1 == ss_process_pid(input@),
{
    let name = match after_first_str(input, "\"") {
        Some(rest) => before_first_str(rest.as_str(), "\""),
        None => String::from_str("unknown"),
    };
    let pid = match after_first_str(input, "pid=") {
        Some(rest) => {
            let piece = before_first_str(rest.as_str(), "pid=");
            let field = before_first_str(piece.as_str(), ",");
            match parse_uint(field.as_str(), 4294967295) {
                Some(v) => v as u32,
                None => 0,
            }
        },
        None => 0,
    };
    (name, pid)
}

/// What a connection record holds that varies: local port, remote address,
/// remote port, owning application and process id.
pub open spec fn conn_fields(c: ConnInfo) -> (nat, Seq<char>, nat, Seq<char>, nat) {
    (c.local_port as nat, c.remote_addr@, c.remote_port as nat, c.app@, c.pid as nat)
}

/// A record of an established TCP connection.
pub open spec fn is_tcp_established(c: ConnInfo) -> bool {
    c.proto@ == "tcp"@ && c.state@ == "ESTABLISHED"@
}

/// The connection an `ss -ntpH` line describes, where it is an established
/// one that is kept (loopback ones only when `all`).
pub open spec fn ss_established(line: Seq<char>, all: bool) -> Option<
    (nat, Seq<char>, nat, Seq<char>, nat),
> {
    let cols = words_of(line);
    if cols.len() < 6 || cols[0] != "ESTAB"@ {
        None
    } else {
        match (host_port_of(cols[3]), host_port_of(cols[4])) {
            (Some(l), Some(rm)) => if !all && (is_loopback(l.0) || is_loopback(rm.0)) {
                None
            } else {
                Some((l.1, rm.0, rm.1, ss_process_name(cols[5]), ss_process_pid(cols[5])))
            },
            _ => None,
        }
    }
}

fn tcp_conn(local_port: u16, remote_addr: String, remote_port: u16, pid: u32, app: String) -> (r: ConnInfo)
    ensures
        is_tcp_established(r),
        conn_fields(r) == (local_port as nat, remote_addr@, remote_port as nat, app@, pid as nat),
{
    ConnInfo {
        proto: String::from_str("tcp"),
        local_port,
        remote_addr,
        remote_port,
        pid,
        app,
        state: String::from_str("ESTABLISHED"),
    }
}

pub fn parse_ss_established_line(line: &str, all_connections: bool) -> (r: Option<ConnInfo>)
    ensures
        match r {
            Some(c) => is_tcp_established(c) && ss_established(line@, all_connections) == Some(
                conn_fields(c),
            ),
            None => ss_established(line@, all_connections) is None,
        },
{
    let cols = split_words(line);
    let ghost cv = cols@.map_values(|w: String| w@);
    if cols.len() < 6 || !str_eq(cols[0].as_str(), "ESTAB") {
        return None;
    }
    assert(cv[0] == cols@[0]@ && cv[3] == cols@[3]@ && cv[4] == cols@[4]@ && cv[5] == cols@[5]@);
    let local = parse_host_port(cols[3].as_str());
    let remote = parse_host_port(cols[4].as_str());
    match (local, remote) {
        (Some((local_addr, local_port)), Some((remote_addr, remote_port))) => {
            if !all_connections && (is_loopback_addr(local_addr.as_str()) || is_loopback_addr(
                remote_addr.as_str(),
            )) {
                return None;
            }
            let (app, pid) = parse_ss_process(cols[5].as_str());
            Some(tcp_conn(local_port, remote_addr, remote_port, pid, app))
        },
        _ => None,
    }
}

/// What a listening-port record holds that varies: port, owning
/// application, process id and address.
pub open spec fn port_fields(p: ListeningPort) -> (nat, Seq<char>, nat, Seq<char>) {
    (p.port as nat, p.app@, p.pid as nat, p.addr@)
}

/// The listening socket an `ss -lntpH` line describes, where it is one.
pub open spec fn ss_listening(line: Seq<char>) -> Option<(nat, Seq<char>, nat, Seq<char>)> {
    let cols = words_of(line);
    if cols.len() < 5 {
        None
    } else {
        let users = if cols.len() > 5 {
            cols[5]
        } else {
            Seq::empty()
        };
        match host_port_of(cols[3]) {
            Some(l) => Some((l.1, ss_process_name(users), ss_process_pid(users), l.0)),
            None => None,
        }
    }
}

pub fn parse_ss_listen_line(line: &str) -> (r: Option<ListeningPort>)
    ensures
        match r {
            Some(p) => p.proto@ == "tcp"@ && ss_listening(line@) == Some(port_fields(p)),
            None => ss_listening(line@) is None,
        },
{
    let cols = split_words(line);
    let ghost cv = cols@.map_values(|w: String| w@);
    if cols.len() < 5 {
        return None;
    }
    assert(cv[3] == cols@[3]@);
    let users = if cols.len() > 5 {
        assert(cv[5] == cols@[5]@);
        cols[5].clone()
    } else {
        String::new()
    };
    match parse_host_port(cols[3].as_str()) {
        Some((addr, port)) => {
            let (app, pid) = parse_ss_process(users.as_str());
            Some(ListeningPort { port, proto: String::from_str("tcp"), pid, app, addr })
        },
        None => None,
    }
}

} // verus!

verus! {

/// The lines after the first, which is a header.
pub open spec fn after_header(lines: Seq<Seq<char>>) -> Seq<Seq<char>> {
    if lines.len() > 0 {
        lines.drop_first()
    } else {
        lines
    }
}

/// `s` without the suffix `suf`, where it ends with it.
pub open spec fn without_suffix(s: Seq<char>, suf: Seq<char>) -> Seq<char> {
    if suf.len() <= s.len() && s.subrange(s.len() - suf.len(), s.len() as int) == suf {
        s.subrange(0, s.len() - suf.len())
    } else {
        s
    }
}

fn strip_suffix_str(s: &str, suf: &str) -> (r: String)
    ensures
        r@ == without_suffix(s@, suf@),
{
    let sc = chars_of(s);
    let pc = chars_of(suf);
    if pc.len() <= sc.len() {
        let tail = s.substring_char(sc.len() - pc.len(), sc.len());
        if str_eq(tail, suf) {
            return s.substring_char(0, sc.len() - pc.len()).to_string();
        }
    }
    s.to_string()
}

/// The position of the first of `cols` from `from` on that contains `p`.
pub open spec fn first_col_with(cols: Seq<Seq<char>>, p: Seq<char>, from: int) -> Option<int>
    decreases cols.len() - from,
{
    if from < 0 || from >= cols.len() {
        None
    } else if has_infix(cols[from], p) {
        Some(from)
    } else {
        first_col_with(cols, p, from + 1)
    }
}

fn find_col_with(cols: &Vec<String>, p: &str) -> (r: Option<usize>)
    ensures
        match r {
            Some(i) => first_col_with(cols@.map_values(|w: String| w@), p@, 0) == Some(i as int)
                && i < cols@.len(),
            None => first_col_with(cols@.map_values(|w: String| w@), p@, 0) is None,
        },
{
    let ghost cv = cols@.map_values(|w: String| w@);
    let mut k: usize = 0;
    while k < cols.len()
        invariant
            k <= cols@.len(),
            cv == cols@.map_values(|w: String| w@),
            first_col_with(cv, p@, 0) == first_col_with(cv, p@, k as int),
        decreases cols.len() - k,
    {
        assert(cv[k as int] == cols@[k as int]@);
        if crate::text::contains(cols[k].as_str(), p) {
            return Some(k);
        }
        k = k + 1;
    }
    None
}

/// The connection an `lsof` line describes, where it is one that is kept
/// (loopback ones only when `all`).
pub open spec fn lsof_established(line: Seq<char>, all: bool) -> Option<
    (nat, Seq<char>, nat, Seq<char>, nat),
> {
    let cols = words_of(line);
    if cols.len() < 9 {
        None
    } else {
        match first_col_with(cols, "->"@, 0) {
            Some(e) => {
                let endpoint = trimmed(without_suffix(cols[e], "(ESTABLISHED)"@));
                match after_first(endpoint, "->"@) {
                    Some(remote) => match (
                        host_port_of(before_first(endpoint, "->"@)),
                        host_port_of(remote),
                        parse_decimal(cols[1], 4294967295),
                    ) {
                        (Some(l), Some(rm), Some(pid)) => if !all && (is_loopback(l.0)
                            || is_loopback(rm.0)) {
                            None
                        } else {
                            Some((l.1, rm.0, rm.1, cols[0], pid))
                        },
                        _ => None,
                    },
                    None => None,
                }
            },
            None => None,
        }
    }
}

pub fn parse_established_line(line: &str, all_connections: bool) -> (r: Option<ConnInfo>)
    ensures
        match r {
            Some(c) => is_tcp_established(c) && lsof_established(line@, all_connections) == Some(
                conn_fields(c),
            ),
            None => lsof_established(line@, all_connections) is None,
        },
{
    let cols = split_words(line);
    let ghost cv = cols@.map_values(|w: String| w@);
    if cols.len() < 9 {
        return None;
    }
    assert(cv[0] == cols@[0]@ && cv[1] == cols@[1]@);
    let e = match find_col_with(&cols, "->") {
        Some(e) => e,
        None => return None,
    };
    assert(cv[e as int] == cols@[e as int]@);
    let stripped = strip_suffix_str(cols[e].as_str(), "(ESTABLISHED)");
    let endpoint = trim(stripped.as_str());
    let remote = match after_first_str(endpoint.as_str(), "->") {
        Some(r) => r,
        None => return None,
    };
    let local = before_first_str(endpoint.as_str(), "->");
    let l = parse_host_port(local.as_str());
    let rm = parse_host_port(remote.as_str());
    let pid = parse_uint(cols[1].as_str(), 4294967295);
    match (l, rm, pid) {
        (Some((local_addr, local_port)), Some((remote_addr, remote_port)), Some(pid)) => {
            if !all_connections && (is_loopback_addr(local_addr.as_str()) || is_loopback_addr(
                remote_addr.as_str(),
            )) {
                return None;
            }
            Some(tcp_conn(local_port, remote_addr, remote_port, pid as u32, cols[0].clone()))
        },
        _ => None,
    }
}

/// The listening socket an `lsof` line describes, where it is one.
pub open spec fn lsof_listening(line: Seq<char>) -> Option<(nat, Seq<char>, nat, Seq<char>)> {
    let cols = words_of(line);
    if cols.len() < 9 {
        None
    } else {
        match first_col_with(cols, ":"@, 0) {
            Some(e) => match (
                host_port_of(trimmed(without_suffix(cols[e], "(LISTEN)"@))),
                parse_decimal(cols[1], 4294967295),
            ) {
                (Some(l), Some(pid)) => Some((l.1, cols[0], pid, l.0)),
                _ => None,
            },
            None => None,
        }
    }
}

pub fn parse_listen_line(line: &str) -> (r: Option<ListeningPort>)
    ensures
        match r {
            Some(p) => p.proto@ == "tcp"@ && lsof_listening(line@) == Some(port_fields(p)),
            None => lsof_listening(line@) is None,
        },
{
    let cols = split_words(line);
    let ghost cv = cols@.map_values(|w: String| w@);
    if cols.len() < 9 {
        return None;
    }
    assert(cv[0] == cols@[0]@ && cv[1] == cols@[1]@);
    let e = match find_col_with(&cols, ":") {
        Some(e) => e,
        None => return None,
    };
    assert(cv[e as int] == cols@[e as int]@);
    let stripped = strip_suffix_str(cols[e].as_str(), "(LISTEN)");
    let endpoint = trim(stripped.as_str());
    let hp = parse_host_port(endpoint.as_str());
    let pid = parse_uint(cols[1].as_str(), 4294967295);
    match (hp, pid) {
        (Some((addr, port)), Some(pid)) => Some(
            ListeningPort {
                port,
                proto: String::from_str("tcp"),
                pid: pid as u32,
                app: cols[0].clone(),
                addr,
            },
        ),
        _ => None,
    }
}

/// The connections that the lines of `lsof` output describe, in order.
pub open spec fn lsof_connection_rows(lines: Seq<Seq<char>>, all: bool) -> Seq<
    (nat, Seq<char>, nat, Seq<char>, nat),
>
    decreases lines.len(),
{
    if lines.len() == 0 {
        Seq::empty()
    } else {
        match lsof_established(lines.last(), all) {
            Some(c) => lsof_connection_rows(lines.drop_last(), all).push(c),
            None => lsof_connection_rows(lines.drop_last(), all),
        }
    }
}

/// The listening sockets that the lines of `lsof` output describe, in order.
pub open spec fn lsof_listening_rows(lines: Seq<Seq<char>>) -> Seq<(nat, Seq<char>, nat, Seq<char>)>
    decreases lines.len(),
{
    if lines.len() == 0 {
        Seq::empty()
    } else {
        match lsof_listening(lines.last()) {
            Some(p) => lsof_listening_rows(lines.drop_last()).push(p),
            None => lsof_listening_rows(lines.drop_last()),
        }
    }
}

/// What each connection record holds that varies.
pub open spec fn conn_rows_of(s: Seq<ConnInfo>) -> Seq<(nat, Seq<char>, nat, Seq<char>, nat)> {
    s.map_values(|c: ConnInfo| conn_fields(c))
}

/// What each listening-port record holds that varies.
pub open spec fn port_rows_of(s: Seq<ListeningPort>) -> Seq<(nat, Seq<char>, nat, Seq<char>)> {
    s.map_values(|p: ListeningPort| port_fields(p))
}

/// The elements of `s` that do not occur earlier in `s`, in order.
pub open spec fn distinct_rows<A>(s: Seq<A>) -> Seq<A>
    decreases s.len(),
{
    if s.len() == 0 {
        s
    } else if s.drop_last().contains(s.last()) {
        distinct_rows(s.drop_last())
    } else {
        distinct_rows(s.drop_last()).push(s.last())
    }
}

/// The connections that the lines of `ss -ntpH` describe, in order.
pub open spec fn ss_connection_rows(lines: Seq<Seq<char>>, all: bool) -> Seq<
    (nat, Seq<char>, nat, Seq<char>, nat),
>
    decreases lines.len(),
{
    if lines.len() == 0 {
        Seq::empty()
    } else {
        match ss_established(lines.last(), all) {
            Some(c) => ss_connection_rows(lines.drop_last(), all).push(c),
            None => ss_connection_rows(lines.drop_last(), all),
        }
    }
}

/// The listening sockets that the lines of `ss -lntpH` describe, in order.
pub open spec fn ss_listening_rows(lines: Seq<Seq<char>>) -> Seq<(nat, Seq<char>, nat, Seq<char>)>
    decreases lines.len(),
{
    if lines.len() == 0 {
        Seq::empty()
    } else {
        match ss_listening(lines.last()) {
            Some(p) => ss_listening_rows(lines.drop_last()).push(p),
            None => ss_listening_rows(lines.drop_last()),
        }
    }
}

fn same_conn(a: &ConnInfo, b: &ConnInfo) -> (r: bool)
    ensures
        r == (conn_fields(*a) == conn_fields(*b)),
{
    a.local_port == b.local_port && str_eq(a.remote_addr.as_str(), b.remote_addr.as_str())
        && a.remote_port == b.remote_port && str_eq(a.app.as_str(), b.app.as_str()) && a.pid
        == b.pid
}

fn same_port(a: &ListeningPort, b: &ListeningPort) -> (r: bool)
    ensures
        r == (port_fields(*a) == port_fields(*b)),
{
    a.port == b.port && str_eq(a.app.as_str(), b.app.as_str()) && a.pid == b.pid && str_eq(
        a.addr.as_str(),
        b.addr.as_str(),
    )
}

proof fn lemma_distinct_push<A>(s: Seq<A>, x: A)
    ensures
        distinct_rows(s.push(x)) == (if s.contains(x) {
            distinct_rows(s)
        } else {
            distinct_rows(s).push(x)
        }),
{
    assert(s.push(x).drop_last() =~= s);
}

proof fn lemma_contains_push<A>(s: Seq<A>, x: A, y: A)
    ensures
        s.push(x).contains(y) <==> (s.contains(y) || y == x),
{
    if s.contains(y) {
        let i = choose|i: int| 0 <= i < s.len() && s[i] == y;
        assert(s.push(x)[i] == y);
    }
    if s.push(x).contains(y) && y != x {
        let i = choose|i: int| 0 <= i < s.len() + 1 && s.push(x)[i] == y;
        assert(s[i] == y);
    }
    assert(s.push(x)[s.len() as int] == x);
}

/// The established TCP connections in the output of `ss -ntpH`, each once,
/// loopback ones only when `all_connections`.
pub fn parse_established_ss(output: &str, all_connections: bool) -> (r: Vec<ConnInfo>)
    ensures
        conn_rows_of(r@) == distinct_rows(
            ss_connection_rows(lines_of(output@), all_connections),
        ),
        forall|i: int| 0 <= i < r@.len() ==> is_tcp_established(#[trigger] r@[i]),
{
    let lines = split_lines(output);
    let ghost lv = lines@.map_values(|w: String| w@);
    let mut kept: Vec<ConnInfo> = Vec::new();
    let mut i: usize = 0;
    while i < lines.len()
        invariant
            i <= lines@.len(),
            lv == lines@.map_values(|w: String| w@),
            conn_rows_of(kept@) == distinct_rows(
                ss_connection_rows(lv.subrange(0, i as int), all_connections),
            ),
            forall|x| #[trigger]
                conn_rows_of(kept@).contains(x) <==> ss_connection_rows(
                    lv.subrange(0, i as int),
                    all_connections,
                ).contains(x),
            forall|k: int| 0 <= k < kept@.len() ==> is_tcp_established(#[trigger] kept@[k]),
        decreases lines.len() - i,
    {
        let ghost rows = ss_connection_rows(lv.subrange(0, i as int), all_connections);
        let ghost kv = conn_rows_of(kept@);
        proof {
            assert(lv.subrange(0, i + 1).drop_last() =~= lv.subrange(0, i as int));
            assert(lv.subrange(0, i + 1).last() == lines@[i as int]@);
        }
        match parse_ss_established_line(lines[i].as_str(), all_connections) {
            Some(c) => {
                let mut seen = false;
                let mut k: usize = 0;
                while k < kept.len()
                    invariant
                        k <= kept@.len(),
                        kv == conn_rows_of(kept@),
                        seen <==> exists|j: int| 0 <= j < k && kv[j] == conn_fields(c),
                    decreases kept.len() - k,
                {
                    assert(kv[k as int] == conn_fields(kept@[k as int]));
                    if same_conn(&kept[k], &c) {
                        seen = true;
                    }
                    k = k + 1;
                }
                proof {
                    lemma_distinct_push(rows, conn_fields(c));
                    if kv.contains(conn_fields(c)) {
                        let j = choose|j: int| 0 <= j < kv.len() && kv[j] == conn_fields(c);
                        assert(exists|j: int| 0 <= j < k && kv[j] == conn_fields(c));
                    }
                }
                if !seen {
                    kept.push(c);
                    proof {
                        assert(conn_rows_of(kept@) =~= kv.push(
                            conn_fields(c),
                        ));
                        assert forall|x| #[trigger]
                            kv.push(conn_fields(c)).contains(x) <==> rows.push(
                                conn_fields(c),
                            ).contains(x) by {
                            lemma_contains_push(kv, conn_fields(c), x);
                            lemma_contains_push(rows, conn_fields(c), x);
                        }
                    }
                } else {
                    proof {
                        assert forall|x| #[trigger] kv.contains(x) <==> rows.push(
                            conn_fields(c),
                        ).contains(x) by {
                            lemma_contains_push(rows, conn_fields(c), x);
                        }
                    }
                }
            },
            None => {},
        }
        i = i + 1;
    }
    assert(lv.subrange(0, i as int) =~= lv);
    kept
}

/// The listening TCP sockets in the output of `ss -lntpH`, each once.
pub fn parse_listening_ss(output: &str) -> (r: Vec<ListeningPort>)
    ensures
        port_rows_of(r@) == distinct_rows(
            ss_listening_rows(lines_of(output@)),
        ),
        forall|i: int| 0 <= i < r@.len() ==> (#[trigger] r@[i]).proto@ == "tcp"@,
{
    let lines = split_lines(output);
    let ghost lv = lines@.map_values(|w: String| w@);
    let mut kept: Vec<ListeningPort> = Vec::new();
    let mut i: usize = 0;
    while i < lines.len()
        invariant
            i <= lines@.len(),
            lv == lines@.map_values(|w: String| w@),
            port_rows_of(kept@) == distinct_rows(
                ss_listening_rows(lv.subrange(0, i as int)),
            ),
            forall|x| #[trigger]
                port_rows_of(kept@).contains(x)
                    <==> ss_listening_rows(lv.subrange(0, i as int)).contains(x),
            forall|k: int| 0 <= k < kept@.len() ==> (#[trigger] kept@[k]).proto@ == "tcp"@,
        decreases lines.len() - i,
    {
        let ghost rows = ss_listening_rows(lv.subrange(0, i as int));
        let ghost kv = port_rows_of(kept@);
        proof {
            assert(lv.subrange(0, i + 1).drop_last() =~= lv.subrange(0, i as int));
            assert(lv.subrange(0, i + 1).last() == lines@[i as int]@);
        }
        match parse_ss_listen_line(lines[i].as_str()) {
            Some(p) => {
                let mut seen = false;
                let mut k: usize = 0;
                while k < kept.len()
                    invariant
                        k <= kept@.len(),
                        kv == port_rows_of(kept@),
                        seen <==> exists|j: int| 0 <= j < k && kv[j] == port_fields(p),
                    decreases kept.len() - k,
                {
                    assert(kv[k as int] == port_fields(kept@[k as int]));
                    if same_port(&kept[k], &p) {
                        seen = true;
                    }
                    k = k + 1;
                }
                proof {
                    lemma_distinct_push(rows, port_fields(p));
                    if kv.contains(port_fields(p)) {
                        let j = choose|j: int| 0 <= j < kv.len() && kv[j] == port_fields(p);
                        assert(exists|j: int| 0 <= j < k && kv[j] == port_fields(p));
                    }
                }
                if !seen {
                    kept.push(p);
                    proof {
                        assert(port_rows_of(kept@) =~= kv.push(
                            port_fields(p),
                        ));
                        assert forall|x| #[trigger]
                            kv.push(port_fields(p)).contains(x) <==> rows.push(
                                port_fields(p),
                            ).contains(x) by {
                            lemma_contains_push(kv, port_fields(p), x);
                            lemma_contains_push(rows, port_fields(p), x);
                        }
                    }
                } else {
                    proof {
                        assert forall|x| #[trigger] kv.contains(x) <==> rows.push(
                            port_fields(p),
                        ).contains(x) by {
                            lemma_contains_push(rows, port_fields(p), x);
                        }
                    }
                }
            },
            None => {},
        }
        i = i + 1;
    }
    assert(lv.subrange(0, i as int) =~= lv);
    kept
}

/// The established TCP connections in the output of `lsof -nP -iTCP
/// -sTCP:ESTABLISHED`, each once, loopback ones only when `all_connections`.
pub fn parse_established_lsof(output: &str, all_connections: bool) -> (r: Vec<ConnInfo>)
    ensures
        conn_rows_of(r@) == distinct_rows(
            lsof_connection_rows(after_header(lines_of(output@)), all_connections),
        ),
        forall|i: int| 0 <= i < r@.len() ==> is_tcp_established(#[trigger] r@[i]),
{
    let mut lines = split_lines(output);
    if lines.len() > 0 {
        let _header = lines.remove(0);
    }
    let ghost lv = lines@.map_values(|w: String| w@);
    assert(lv =~= after_header(lines_of(output@)));
    let mut kept: Vec<ConnInfo> = Vec::new();
    let mut i: usize = 0;
    while i < lines.len()
        invariant
            i <= lines@.len(),
            lv == lines@.map_values(|w: String| w@),
            conn_rows_of(kept@) == distinct_rows(
                lsof_connection_rows(lv.subrange(0, i as int), all_connections),
            ),
            forall|x| #[trigger]
                conn_rows_of(kept@).contains(x) <==> lsof_connection_rows(
                    lv.subrange(0, i as int),
                    all_connections,
                ).contains(x),
            forall|k: int| 0 <= k < kept@.len() ==> is_tcp_established(#[trigger] kept@[k]),
        decreases lines.len() - i,
    {
        let ghost rows = lsof_connection_rows(lv.subrange(0, i as int), all_connections);
        let ghost kv = conn_rows_of(kept@);
        proof {
            assert(lv.subrange(0, i + 1).drop_last() =~= lv.subrange(0, i as int));
            assert(lv.subrange(0, i + 1).last() == lines@[i as int]@);
        }
        match parse_established_line(lines[i].as_str(), all_connections) {
            Some(c) => {
                let mut seen = false;
                let mut k: usize = 0;
                while k < kept.len()
                    invariant
                        k <= kept@.len(),
                        kv == conn_rows_of(kept@),
                        seen <==> exists|j: int| 0 <= j < k && kv[j] == conn_fields(c),
                    decreases kept.len() - k,
                {
                    assert(kv[k as int] == conn_fields(kept@[k as int]));
                    if same_conn(&kept[k], &c) {
                        seen = true;
                    }
                    k = k + 1;
                }
                proof {
                    lemma_distinct_push(rows, conn_fields(c));
                    if kv.contains(conn_fields(c)) {
                        let j = choose|j: int| 0 <= j < kv.len() && kv[j] == conn_fields(c);
                        assert(exists|j: int| 0 <= j < k && kv[j] == conn_fields(c));
                    }
                }
                if !seen {
                    kept.push(c);
                    proof {
                        assert(conn_rows_of(kept@) =~= kv.push(
                            conn_fields(c),
                        ));
                        assert forall|x| #[trigger]
                            kv.push(conn_fields(c)).contains(x) <==> rows.push(
                                conn_fields(c),
                            ).contains(x) by {
                            lemma_contains_push(kv, conn_fields(c), x);
                            lemma_contains_push(rows, conn_fields(c), x);
                        }
                    }
                } else {
                    proof {
                        assert forall|x| #[trigger] kv.contains(x) <==> rows.push(
                            conn_fields(c),
                        ).contains(x) by {
                            lemma_contains_push(rows, conn_fields(c), x);
                        }
                    }
                }
            },
            None => {},
        }
        i = i + 1;
    }
    assert(lv.subrange(0, i as int) =~= lv);
    kept
}

/// The listening TCP sockets in the output of `lsof -nP -iTCP -sTCP:LISTEN`,
/// each once.
pub fn parse_listening_lsof(output: &str) -> (r: Vec<ListeningPort>)
    ensures
        port_rows_of(r@) == distinct_rows(
            lsof_listening_rows(after_header(lines_of(output@))),
        ),
        forall|i: int| 0 <= i < r@.len() ==> (#[trigger] r@[i]).proto@ == "tcp"@,
{
    let mut lines = split_lines(output);
    if lines.len() > 0 {
        let _header = lines.remove(0);
    }
    let ghost lv = lines@.map_values(|w: String| w@);
    assert(lv =~= after_header(lines_of(output@)));
    let mut kept: Vec<ListeningPort> = Vec::new();
    let mut i: usize = 0;
    while i < lines.len()
        invariant
            i <= lines@.len(),
            lv == lines@.map_values(|w: String| w@),
            port_rows_of(kept@) == distinct_rows(
                lsof_listening_rows(lv.subrange(0, i as int)),
            ),
            forall|x| #[trigger]
                port_rows_of(kept@).contains(x)
                    <==> lsof_listening_rows(lv.subrange(0, i as int)).contains(x),
            forall|k: int| 0 <= k < kept@.len() ==> (#[trigger] kept@[k]).proto@ == "tcp"@,
        decreases lines.len() - i,
    {
        let ghost rows = lsof_listening_rows(lv.subrange(0, i as int));
        let ghost kv = port_rows_of(kept@);
        proof {
            assert(lv.subrange(0, i + 1).drop_last() =~= lv.subrange(0, i as int));
            assert(lv.subrange(0, i + 1).last() == lines@[i as int]@);
        }
        match parse_listen_line(lines[i].as_str()) {
            Some(p) => {
                let mut seen = false;
                let mut k: usize = 0;
                while k < kept.len()
                    invariant
                        k <= kept@.len(),
                        kv == port_rows_of(kept@),
                        seen <==> exists|j: int| 0 <= j < k && kv[j] == port_fields(p),
                    decreases kept.len() - k,
                {
                    assert(kv[k as int] == port_fields(kept@[k as int]));
                    if same_port(&kept[k], &p) {
                        seen = true;
                    }
                    k = k + 1;
                }
                proof {
                    lemma_distinct_push(rows, port_fields(p));
                    if kv.contains(port_fields(p)) {
                        let j = choose|j: int| 0 <= j < kv.len() && kv[j] == port_fields(p);
                        assert(exists|j: int| 0 <= j < k && kv[j] == port_fields(p));
                    }
                }
                if !seen {
                    kept.push(p);
                    proof {
                        assert(port_rows_of(kept@) =~= kv.push(
                            port_fields(p),
                        ));
                        assert forall|x| #[trigger]
                            kv.push(port_fields(p)).contains(x) <==> rows.push(
                                port_fields(p),
                            ).contains(x) by {
                            lemma_contains_push(kv, port_fields(p), x);
                            lemma_contains_push(rows, port_fields(p), x);
                        }
                    }
                } else {
                    proof {
                        assert forall|x| #[trigger] kv.contains(x) <==> rows.push(
                            port_fields(p),
                        ).contains(x) by {
                            lemma_contains_push(rows, port_fields(p), x);
                        }
                    }
                }
            },
            None => {},
        }
        i = i + 1;
    }
    assert(lv.subrange(0, i as int) =~= lv);
    kept
}

} // verus!

verus! {

/// The tool whose output describes the host's sockets.
#[derive(Debug, Clone, Copy, PartialEq, Eq, Structural)]
pub enum SocketTool {
    /// `ss`, on Linux.
    Ss,
    /// `lsof`, on macOS.
    Lsof,
}

/// The established TCP connections that the tool printed, each once,
/// loopback ones only when `all_connections`.
pub fn collect_active_connections(tool: SocketTool, output: &str, all_connections: bool) -> (r: Vec<
    ConnInfo,
>)
    ensures
        conn_rows_of(r@) == (match tool {
            SocketTool::Ss => distinct_rows(ss_connection_rows(lines_of(output@), all_connections)),
            SocketTool::Lsof => distinct_rows(
                lsof_connection_rows(after_header(lines_of(output@)), all_connections),
            ),
        }),
        forall|i: int| 0 <= i < r@.len() ==> is_tcp_established(#[trigger] r@[i]),
{
    match tool {
        SocketTool::Ss => parse_established_ss(output, all_connections),
        SocketTool::Lsof => parse_established_lsof(output, all_connections),
    }
}

/// The listening TCP sockets that the tool printed, each once.
pub fn collect_listening_ports(tool: SocketTool, output: &str) -> (r: Vec<ListeningPort>)
    ensures
        port_rows_of(r@) == (match tool {
            SocketTool::Ss => distinct_rows(ss_listening_rows(lines_of(output@))),
            SocketTool::Lsof => distinct_rows(lsof_listening_rows(after_header(lines_of(output@)))),
        }),
        forall|i: int| 0 <= i < r@.len() ==> (#[trigger] r@[i]).proto@ == "tcp"@,
{
    match tool {
        SocketTool::Ss => parse_listening_ss(output),
        SocketTool::Lsof => parse_listening_lsof(output),
    }
}

} // verus!

verus! {

proof fn lemma_distinct_rows_contains<A>(s: Seq<A>, y: A)
    ensures
        distinct_rows(s).contains(y) <==> s.contains(y),
    decreases s.len(),
{
    if s.len() > 0 {
        let d = s.drop_last();
        lemma_distinct_rows_contains(d, y);
        assert(s =~= d.push(s.last()));
        lemma_contains_push(d, s.last(), y);
        if !d.contains(s.last()) {
            lemma_contains_push(distinct_rows(d), s.last(), y);
        }
    }
}

proof fn lemma_ss_rows_grow(lines: Seq<Seq<char>>, y: (nat, Seq<char>, nat, Seq<char>, nat))
    ensures
        ss_connection_rows(lines, false).contains(y) ==> ss_connection_rows(lines, true).contains(y),
    decreases lines.len(),
{
    if lines.len() > 0 {
        let d = lines.drop_last();
        lemma_ss_rows_grow(d, y);
        match ss_established(lines.last(), false) {
            Some(c) => {
                lemma_contains_push(ss_connection_rows(d, false), c, y);
                lemma_contains_push(ss_connection_rows(d, true), c, y);
            },
            None => {
                match ss_established(lines.last(), true) {
                    Some(c) => lemma_contains_push(ss_connection_rows(d, true), c, y),
                    None => {},
                }
            },
        }
    }
}

/// Every connection `ss` reports without loopback ones is also reported when
/// loopback ones are asked for.
pub proof fn lemma_all_connections_superset(
    output: Seq<char>,
    fewer: Seq<ConnInfo>,
    more: Seq<ConnInfo>,
)
    requires
        conn_rows_of(fewer) == distinct_rows(ss_connection_rows(lines_of(output), false)),
        conn_rows_of(more) == distinct_rows(ss_connection_rows(lines_of(output), true)),
    ensures
        forall|i: int|
            0 <= i < fewer.len() ==> conn_rows_of(more).contains(conn_fields(#[trigger] fewer[i])),
{
    let l = lines_of(output);
    assert forall|i: int| 0 <= i < fewer.len() implies conn_rows_of(more).contains(
        conn_fields(#[trigger] fewer[i]),
    ) by {
        let y = conn_fields(fewer[i]);
        assert(conn_rows_of(fewer)[i] == y);
        assert(conn_rows_of(fewer).contains(y));
        lemma_distinct_rows_contains(ss_connection_rows(l, false), y);
        lemma_ss_rows_grow(l, y);
        lemma_distinct_rows_contains(ss_connection_rows(l, true), y);
    }
}

} // verus!
