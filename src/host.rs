//! Reading host facts out of the text that system utilities print or that
//! system files hold.
use vstd::prelude::*;

use crate::compaction::{lex_order, sorted_strings, str_views};
use crate::order::sorted_form;
use crate::observation::{GpuInfo, HomeTreeEntry, InstalledApp, RecentFileInfo, RunningProcessInfo};
use crate::parse::{lines_of, parse_uint, parse_decimal, split_lines, split_words, words_of};
use crate::net::{
    after_first, after_first_str, before_first, before_first_str, find_last_char, last_index,
    strip_chars, strip_end, strip_start,
};
use crate::text::{contains, has_infix, has_prefix, starts_with, str_eq, trim, trimmed};

verus! {

/// The group names that `id -Gn` printed.
pub fn user_groups(id_output: &str) -> (r: Vec<String>)
    ensures
        r@.map_values(|g: String| g@) == words_of(id_output@),
{
    split_words(id_output)
}

/// The server a `resolv.conf` line names, where it is a `nameserver` line.
pub open spec fn nameserver_of(line: Seq<char>) -> Option<Seq<char>> {
    let t = trimmed(line);
    if has_prefix(t, "nameserver"@) && words_of(t).len() > 1 {
        Some(words_of(t)[1])
    } else {
        None
    }
}

/// The servers named by the lines of a `resolv.conf`, in order.
pub open spec fn nameservers(lines: Seq<Seq<char>>) -> Seq<Seq<char>>
    decreases lines.len(),
{
    if lines.len() == 0 {
        Seq::empty()
    } else {
        match nameserver_of(lines.last()) {
            Some(s) => nameservers(lines.drop_last()).push(s),
            None => nameservers(lines.drop_last()),
        }
    }
}

/// The DNS servers that a `resolv.conf` names.
pub fn dns_servers(resolv_conf: &str) -> (r: Vec<String>)
    ensures
        r@.map_values(|g: String| g@) == nameservers(lines_of(resolv_conf@)),
{
    let lines = split_lines(resolv_conf);
    let ghost lv = lines@.map_values(|w: String| w@);
    let mut r: Vec<String> = Vec::new();
    let mut i: usize = 0;
    while i < lines.len()
        invariant
            i <= lines@.len(),
            lv == lines@.map_values(|w: String| w@),
            lv == lines_of(resolv_conf@),
            r@.map_values(|g: String| g@) == nameservers(lv.subrange(0, i as int)),
        decreases lines.len() - i,
    {
        proof {
            assert(lv.subrange(0, i + 1).drop_last() =~= lv.subrange(0, i as int));
            assert(lv.subrange(0, i + 1).last() == lines@[i as int]@);
        }
        let t = trim(lines[i].as_str());
        if starts_with(t.as_str(), "nameserver") {
            let cols = split_words(t.as_str());
            if cols.len() > 1 {
                let ghost before = r@.map_values(|g: String| g@);
                assert(cols@.map_values(|w: String| w@)[1] == cols@[1]@);
                r.push(cols[1].clone());
                assert(r@.map_values(|g: String| g@) =~= before.push(cols@[1]@));
            }
        }
        i = i + 1;
    }
    assert(lv.subrange(0, i as int) =~= lv);
    r
}

/// The first position at which `w` stands in `cols`, where it does.
pub open spec fn first_word_at(cols: Seq<Seq<char>>, w: Seq<char>, from: int) -> Option<int>
    decreases cols.len() - from,
{
    if from < 0 || from >= cols.len() {
        None
    } else if cols[from] == w {
        Some(from)
    } else {
        first_word_at(cols, w, from + 1)
    }
}

/// The gateway of an `ip route` line: the word after `via`.
pub open spec fn gateway_of(line: Seq<char>) -> Option<Seq<char>> {
    let cols = words_of(line);
    match first_word_at(cols, "via"@, 0) {
        Some(k) => if k + 1 < cols.len() {
            Some(cols[k + 1])
        } else {
            None
        },
        None => None,
    }
}

/// The first gateway among the lines.
pub open spec fn first_gateway(lines: Seq<Seq<char>>) -> Option<Seq<char>>
    decreases lines.len(),
{
    if lines.len() == 0 {
        None
    } else {
        match gateway_of(lines[0]) {
            Some(g) => Some(g),
            None => first_gateway(lines.drop_first()),
        }
    }
}

fn gateway_in_line(line: &str) -> (r: Option<String>)
    ensures
        match r {
            Some(g) => gateway_of(line@) == Some(g@),
            None => gateway_of(line@) is None,
        },
{
    let cols = split_words(line);
    let ghost cv = cols@.map_values(|w: String| w@);
    let mut k: usize = 0;
    while k < cols.len()
        invariant
            k <= cols@.len(),
            cv == cols@.map_values(|w: String| w@),
            cv == words_of(line@),
            first_word_at(cv, "via"@, 0) == first_word_at(cv, "via"@, k as int),
        decreases cols.len() - k,
    {
        assert(cv[k as int] == cols@[k as int]@);
        if str_eq(cols[k].as_str(), "via") {
            if k + 1 < cols.len() {
                assert(cv[k + 1] == cols@[k + 1]@);
                return Some(cols[k + 1].clone());
            }
            return None;
        }
        k = k + 1;
    }
    None
}

/// The default gateway that `ip route show default` printed.
pub fn default_gateway(route_output: &str) -> (r: Option<String>)
    ensures
        match r {
            Some(g) => first_gateway(lines_of(route_output@)) == Some(g@),
            None => first_gateway(lines_of(route_output@)) is None,
        },
{
    let lines = split_lines(route_output);
    let ghost lv = lines@.map_values(|w: String| w@);
    let mut i: usize = 0;
    assert(lv.subrange(0, lv.len() as int) =~= lv);
    while i < lines.len()
        invariant
            i <= lines@.len(),
            lv == lines@.map_values(|w: String| w@),
            lv == lines_of(route_output@),
            first_gateway(lv) == first_gateway(lv.subrange(i as int, lv.len() as int)),
        decreases lines.len() - i,
    {
        let ghost rest = lv.subrange(i as int, lv.len() as int);
        assert(rest[0] == lines@[i as int]@);
        assert(rest.drop_first() =~= lv.subrange(i + 1, lv.len() as int));
        match gateway_in_line(lines[i].as_str()) {
            Some(g) => {
                return Some(g);
            },
            None => {},
        }
        i = i + 1;
    }
    None
}

} // verus!

verus! {

/// The first of `lines` that contains `p`.
pub open spec fn first_line_with(lines: Seq<Seq<char>>, p: Seq<char>) -> Option<Seq<char>>
    decreases lines.len(),
{
    if lines.len() == 0 {
        None
    } else if has_infix(lines[0], p) {
        Some(lines[0])
    } else {
        first_line_with(lines.drop_first(), p)
    }
}

fn find_line_with(lines: &Vec<String>, p: &str) -> (r: Option<String>)
    ensures
        match r {
            Some(l) => first_line_with(lines@.map_values(|w: String| w@), p@) == Some(l@),
            None => first_line_with(lines@.map_values(|w: String| w@), p@) is None,
        },
{
    let ghost lv = lines@.map_values(|w: String| w@);
    let mut i: usize = 0;
    assert(lv.subrange(0, lv.len() as int) =~= lv);
    while i < lines.len()
        invariant
            i <= lines@.len(),
            lv == lines@.map_values(|w: String| w@),
            first_line_with(lv, p@) == first_line_with(lv.subrange(i as int, lv.len() as int), p@),
        decreases lines.len() - i,
    {
        let ghost rest = lv.subrange(i as int, lv.len() as int);
        assert(rest[0] == lines@[i as int]@);
        assert(rest.drop_first() =~= lv.subrange(i + 1, lv.len() as int));
        if contains(lines[i].as_str(), p) {
            return Some(lines[i].clone());
        }
        i = i + 1;
    }
    None
}

/// Milliseconds since the last input event, from `ioreg -c IOHIDSystem`.
pub open spec fn idle_ms_of(output: Seq<char>) -> Option<int> {
    let marker = "\"HIDIdleTime\" = "@;
    match first_line_with(lines_of(output), marker) {
        Some(line) => match after_first(line, marker) {
            Some(rest) => match parse_decimal(trimmed(rest), 18446744073709551615) {
                Some(nanos) => Some((nanos / 1000000) as int),
                None => None,
            },
            None => None,
        },
        None => None,
    }
}

pub fn idle_ms(ioreg_output: &str) -> (r: Option<u64>)
    ensures
        match r {
            Some(v) => idle_ms_of(ioreg_output@) == Some(v as int),
            None => idle_ms_of(ioreg_output@) is None,
        },
{
    let lines = split_lines(ioreg_output);
    let line = match find_line_with(&lines, "\"HIDIdleTime\" = ") {
        Some(l) => l,
        None => return None,
    };
    let rest = match after_first_str(line.as_str(), "\"HIDIdleTime\" = ") {
        Some(r) => r,
        None => return None,
    };
    let t = trim(rest.as_str());
    match parse_uint(t.as_str(), 18446744073709551615) {
        Some(nanos) => Some(nanos / 1000000),
        None => None,
    }
}

/// Seconds since boot from `sysctl -n kern.boottime` at `now_s`, where the
/// boot time is plausible (after 2000 and not in the future).
pub open spec fn boottime_uptime(output: Seq<char>, now_s: u64) -> Option<int> {
    match after_first(output, "sec = "@) {
        Some(rest) => {
            let field = trimmed(before_first(before_first(rest, "sec = "@), ","@));
            match parse_decimal(field, 18446744073709551615) {
                Some(boot) => if boot < 946684800 || boot > now_s {
                    None
                } else {
                    Some(now_s - boot as int)
                },
                None => None,
            }
        },
        None => None,
    }
}

pub fn uptime_seconds_from_boottime(sysctl_output: &str, now_s: u64) -> (r: Option<u64>)
    ensures
        match r {
            Some(v) => boottime_uptime(sysctl_output@, now_s) == Some(v as int),
            None => boottime_uptime(sysctl_output@, now_s) is None,
        },
{
    let rest = match after_first_str(sysctl_output, "sec = ") {
        Some(r) => r,
        None => return None,
    };
    let piece = before_first_str(rest.as_str(), "sec = ");
    let field = before_first_str(piece.as_str(), ",");
    let t = trim(field.as_str());
    match parse_uint(t.as_str(), 18446744073709551615) {
        Some(boot) => {
            if boot < 946684800 || boot > now_s {
                None
            } else {
                Some(now_s - boot)
            }
        },
        None => None,
    }
}

/// The gateway of a `netstat -nr` line: the second word of a `default` route
/// that is not a link-local one.
pub open spec fn mac_gateway_of(line: Seq<char>) -> Option<Seq<char>> {
    let t = trimmed(line);
    let cols = words_of(t);
    if has_prefix(t, "default"@) && cols.len() > 1 && !has_prefix(cols[1], "link#"@) {
        Some(cols[1])
    } else {
        None
    }
}

/// The first gateway among the lines of `netstat -nr`.
pub open spec fn first_mac_gateway(lines: Seq<Seq<char>>) -> Option<Seq<char>>
    decreases lines.len(),
{
    if lines.len() == 0 {
        None
    } else {
        match mac_gateway_of(lines[0]) {
            Some(g) => Some(g),
            None => first_mac_gateway(lines.drop_first()),
        }
    }
}

fn mac_gateway_in_line(line: &str) -> (r: Option<String>)
    ensures
        match r {
            Some(g) => mac_gateway_of(line@) == Some(g@),
            None => mac_gateway_of(line@) is None,
        },
{
    let t = trim(line);
    if !starts_with(t.as_str(), "default") {
        return None;
    }
    let cols = split_words(t.as_str());
    if cols.len() <= 1 {
        return None;
    }
    assert(cols@.map_values(|w: String| w@)[1] == cols@[1]@);
    if starts_with(cols[1].as_str(), "link#") {
        return None;
    }
    Some(cols[1].clone())
}

/// The default gateway that `netstat -nr` printed.
pub fn mac_default_gateway(netstat_output: &str) -> (r: Option<String>)
    ensures
        match r {
            Some(g) => first_mac_gateway(lines_of(netstat_output@)) == Some(g@),
            None => first_mac_gateway(lines_of(netstat_output@)) is None,
        },
{
    let lines = split_lines(netstat_output);
    let ghost lv = lines@.map_values(|w: String| w@);
    let mut i: usize = 0;
    assert(lv.subrange(0, lv.len() as int) =~= lv);
    while i < lines.len()
        invariant
            i <= lines@.len(),
            lv == lines@.map_values(|w: String| w@),
            lv == lines_of(netstat_output@),
            first_mac_gateway(lv) == first_mac_gateway(lv.subrange(i as int, lv.len() as int)),
        decreases lines.len() - i,
    {
        let ghost rest = lv.subrange(i as int, lv.len() as int);
        assert(rest[0] == lines@[i as int]@);
        assert(rest.drop_first() =~= lv.subrange(i + 1, lv.len() as int));
        match mac_gateway_in_line(lines[i].as_str()) {
            Some(g) => {
                return Some(g);
            },
            None => {},
        }
        i = i + 1;
    }
    None
}

} // verus!

verus! {

/// The key and unquoted value of an `os-release` line, where it has an `=`.
pub open spec fn release_entry(line: Seq<char>) -> Option<(Seq<char>, Seq<char>)> {
    match after_first(line, "="@) {
        Some(v) => Some(
            (
                before_first(line, "="@),
                trimmed(strip_end(strip_start(v, '"', '"'), '"', '"')),
            ),
        ),
        None => None,
    }
}

/// The value the last line with `key` gives it.
pub open spec fn release_value(lines: Seq<Seq<char>>, key: Seq<char>) -> Option<Seq<char>>
    decreases lines.len(),
{
    if lines.len() == 0 {
        None
    } else {
        match release_entry(lines.last()) {
            Some(e) => if e.0 == key {
                Some(e.1)
            } else {
                release_value(lines.drop_last(), key)
            },
            None => release_value(lines.drop_last(), key),
        }
    }
}

/// The version an `os-release` file gives: `VERSION_ID`, else `PRETTY_NAME`.
pub open spec fn release_version(content: Seq<char>) -> Option<Seq<char>> {
    match release_value(lines_of(content), "VERSION_ID"@) {
        Some(v) => Some(v),
        None => release_value(lines_of(content), "PRETTY_NAME"@),
    }
}

proof fn lemma_release_step(pre: Seq<Seq<char>>, line: Seq<char>, key: Seq<char>)
    ensures
        release_value(pre.push(line), key) == (match release_entry(line) {
            Some(e) => if e.0 == key {
                Some(e.1)
            } else {
                release_value(pre, key)
            },
            None => release_value(pre, key),
        }),
{
    assert(pre.push(line).drop_last() =~= pre);
}

fn entry_of(line: &str) -> (r: Option<(String, String)>)
    ensures
        match r {
            Some((k, v)) => release_entry(line@) == Some((k@, v@)),
            None => release_entry(line@) is None,
        },
{
    match after_first_str(line, "=") {
        Some(v) => {
            let key = before_first_str(line, "=");
            let unquoted = strip_chars(v.as_str(), '"', '"', true, true);
            Some((key, trim(unquoted.as_str())))
        },
        None => None,
    }
}

#[verifier::rlimit(40)]
pub fn os_release_version(content: &str) -> (r: Option<String>)
    ensures
        match r {
            Some(v) => release_version(content@) == Some(v@),
            None => release_version(content@) is None,
        },
{
    let lines = split_lines(content);
    let ghost lv = lines@.map_values(|w: String| w@);
    let mut version: Option<String> = None;
    let mut pretty: Option<String> = None;
    let mut i: usize = 0;
    while i < lines.len()
        invariant
            i <= lines@.len(),
            lv == lines@.map_values(|w: String| w@),
            lv == lines_of(content@),
            match version {
                Some(v) => release_value(lv.subrange(0, i as int), "VERSION_ID"@) == Some(v@),
                None => release_value(lv.subrange(0, i as int), "VERSION_ID"@) is None,
            },
            match pretty {
                Some(v) => release_value(lv.subrange(0, i as int), "PRETTY_NAME"@) == Some(v@),
                None => release_value(lv.subrange(0, i as int), "PRETTY_NAME"@) is None,
            },
        decreases lines.len() - i,
    {
        proof {
            assert(lv.subrange(0, i + 1) =~= lv.subrange(0, i as int).push(lines@[i as int]@));
            lemma_release_step(lv.subrange(0, i as int), lines@[i as int]@, "VERSION_ID"@);
            lemma_release_step(lv.subrange(0, i as int), lines@[i as int]@, "PRETTY_NAME"@);
            reveal_strlit("VERSION_ID");
            reveal_strlit("PRETTY_NAME");
            assert("VERSION_ID"@.len() != "PRETTY_NAME"@.len());
        }
        match entry_of(lines[i].as_str()) {
            Some((k, v)) => {
                if str_eq(k.as_str(), "VERSION_ID") {
                    version = Some(v);
                } else if str_eq(k.as_str(), "PRETTY_NAME") {
                    pretty = Some(v);
                }
            },
            None => {},
        }
        i = i + 1;
    }
    assert(lv.subrange(0, i as int) =~= lv);
    match version {
        Some(v) => Some(v),
        None => pretty,
    }
}

/// `path` written relative to `home` as `~` or `~/…`, where it lies inside.
pub open spec fn tilde_form(home: Seq<char>, path: Seq<char>) -> Seq<char> {
    let prefix = if home.len() > 0 && home.last() == '/' {
        home
    } else {
        home + "/"@
    };
    if path == home {
        "~"@
    } else if has_prefix(path, prefix) {
        "~/"@ + path.subrange(prefix.len() as int, path.len() as int)
    } else {
        path
    }
}

pub fn tilde_path(home: &str, path: &str) -> (r: String)
    ensures
        r@ == tilde_form(home@, path@),
{
    if str_eq(path, home) {
        return String::from_str("~");
    }
    let hc = crate::text::chars_of(home);
    let prefix = if hc.len() > 0 && hc[hc.len() - 1] == '/' {
        home.to_string()
    } else {
        home.to_string().concat("/")
    };
    if starts_with(path, prefix.as_str()) {
        let n = path.unicode_len();
        let m = prefix.as_str().unicode_len();
        let rest = path.substring_char(m, n);
        String::from_str("~/").concat(rest)
    } else {
        path.to_string()
    }
}

} // verus!

verus! {

/// The command of a shell history line: what follows the first `;` (the
/// extended-history prefix), or the whole line, trimmed.
pub open spec fn history_command(line: Seq<char>) -> Seq<char> {
    match after_first(line, ";"@) {
        Some(c) => trimmed(c),
        None => trimmed(line),
    }
}

/// The non-empty commands of the lines, in order.
pub open spec fn history_commands(lines: Seq<Seq<char>>) -> Seq<Seq<char>>
    decreases lines.len(),
{
    if lines.len() == 0 {
        Seq::empty()
    } else if history_command(lines.last()).len() > 0 {
        history_commands(lines.drop_last()).push(history_command(lines.last()))
    } else {
        history_commands(lines.drop_last())
    }
}

fn history_command_of(line: &str) -> (r: String)
    ensures
        r@ == history_command(line@),
{
    match after_first_str(line, ";") {
        Some(c) => trim(c.as_str()),
        None => trim(line),
    }
}

proof fn lemma_history_step(pre: Seq<Seq<char>>, line: Seq<char>)
    ensures
        history_commands(pre.push(line)) == (if history_command(line).len() > 0 {
            history_commands(pre).push(history_command(line))
        } else {
            history_commands(pre)
        }),
{
    assert(pre.push(line).drop_last() =~= pre);
}

/// The last `max_items` commands of a shell history file.
pub fn history_lines(content: &str, max_items: usize) -> (r: Vec<String>)
    ensures
        r@.map_values(|w: String| w@) == {
            let all = history_commands(lines_of(content@));
            if all.len() <= max_items {
                all
            } else {
                all.subrange(all.len() - max_items, all.len() as int)
            }
        },
{
    let lines = split_lines(content);
    let ghost lv = lines@.map_values(|w: String| w@);
    let mut cmds: Vec<String> = Vec::new();
    let mut i: usize = 0;
    while i < lines.len()
        invariant
            i <= lines@.len(),
            lv == lines@.map_values(|w: String| w@),
            lv == lines_of(content@),
            cmds@.map_values(|w: String| w@) == history_commands(lv.subrange(0, i as int)),
        decreases lines.len() - i,
    {
        proof {
            assert(lv.subrange(0, i + 1) =~= lv.subrange(0, i as int).push(lines@[i as int]@));
            lemma_history_step(lv.subrange(0, i as int), lines@[i as int]@);
        }
        let cmd = history_command_of(lines[i].as_str());
        if cmd.as_str().unicode_len() > 0 {
            let ghost before = cmds@.map_values(|w: String| w@);
            cmds.push(cmd);
            assert(cmds@.map_values(|w: String| w@) =~= before.push(cmds@[cmds@.len() - 1]@));
        }
        i = i + 1;
    }
    assert(lv.subrange(0, i as int) =~= lv);
    let n = cmds.len();
    if n <= max_items {
        return cmds;
    }
    let tail = cmds.split_off(n - max_items);
    assert(tail@.map_values(|w: String| w@) =~= history_commands(lv).subrange(
        n - max_items,
        n as int,
    ));
    tail
}

} // verus!

verus! {

/// The applications looked for: display name, executable or identifier, and
/// kind.
pub open spec fn catalog() -> Seq<(Seq<char>, Seq<char>, Seq<char>)> {
    seq![
        ("Visual Studio Code"@, "code"@, "ide"@),
        ("Firefox"@, "firefox"@, "browser"@),
        ("Google Chrome"@, "google-chrome"@, "browser"@),
        ("Alacritty"@, "alacritty"@, "terminal"@),
        ("WezTerm"@, "wezterm"@, "terminal"@),
        ("Docker"@, "docker"@, "infra"@),
        ("Python"@, "python3"@, "runtime"@),
        ("Node"@, "node"@, "runtime"@),
        ("Git"@, "git"@, "other"@),
    ]
}

/// The catalog, in order: display name, executable or identifier, kind.
pub fn app_catalog() -> (r: Vec<(&'static str, &'static str, &'static str)>)
    ensures
        r@.map_values(|e: (&'static str, &'static str, &'static str)| (e.0@, e.1@, e.2@))
            == catalog(),
{
    let r = vec![
        ("Visual Studio Code", "code", "ide"),
        ("Firefox", "firefox", "browser"),
        ("Google Chrome", "google-chrome", "browser"),
        ("Alacritty", "alacritty", "terminal"),
        ("WezTerm", "wezterm", "terminal"),
        ("Docker", "docker", "infra"),
        ("Python", "python3", "runtime"),
        ("Node", "node", "runtime"),
        ("Git", "git", "other"),
    ];
    assert(r@.map_values(|e: (&'static str, &'static str, &'static str)| (e.0@, e.1@, e.2@))
        =~= catalog());
    r
}

/// The characters of an optional string.
pub open spec fn opt_view(o: Option<String>) -> Option<Seq<char>> {
    match o {
        Some(v) => Some(v@),
        None => None,
    }
}

/// What an application record says.
pub open spec fn app_view(a: InstalledApp) -> (Seq<char>, Seq<char>, Seq<char>, Option<Seq<char>>) {
    (
        a.name@,
        a.id@,
        a.kind@,
        opt_view(a.version),
    )
}

/// The records of the catalog entries marked present, in catalog order; only
/// Python carries a version.
pub open spec fn found_apps(present: Seq<bool>, python: Option<Seq<char>>) -> Seq<
    (Seq<char>, Seq<char>, Seq<char>, Option<Seq<char>>),
>
    decreases present.len(),
{
    if present.len() == 0 {
        Seq::empty()
    } else {
        let rest = found_apps(present.drop_last(), python);
        let i = present.len() - 1;
        if present.last() && i < catalog().len() {
            let e = catalog()[i];
            rest.push(
                (
                    e.0,
                    e.1,
                    e.2,
                    if e.1 == "python3"@ {
                        python
                    } else {
                        None
                    },
                ),
            )
        } else {
            rest
        }
    }
}

/// The catalog entries found on this host; `present[i]` says whether entry
/// `i` was found, and `python_version` is what Python reported.
pub fn installed_apps(present: &Vec<bool>, python_version: Option<String>) -> (r: Vec<InstalledApp>)
    ensures
        r@.map_values(|a: InstalledApp| app_view(a)) == found_apps(present@, opt_view(python_version)),
{
    let ghost py = opt_view(python_version);
    let cat = app_catalog();
    let ghost cv = cat@.map_values(|e: (&'static str, &'static str, &'static str)| (e.0@, e.1@, e.2@));
    let mut r: Vec<InstalledApp> = Vec::new();
    let mut i: usize = 0;
    while i < present.len()
        invariant
            i <= present@.len(),
            cv == catalog(),
            cv == cat@.map_values(|e: (&'static str, &'static str, &'static str)| (e.0@, e.1@, e.2@)),
            cat@.len() == catalog().len(),
            py == opt_view(python_version),
            r@.map_values(|a: InstalledApp| app_view(a)) == found_apps(present@.subrange(0, i as int), py),
        decreases present.len() - i,
    {
        proof {
            assert(present@.subrange(0, i + 1).drop_last() =~= present@.subrange(0, i as int));
        }
        if present[i] && i < cat.len() {
            let (name, id, kind) = cat[i];
            assert(cv[i as int] == (name@, id@, kind@));
            let version = if str_eq(id, "python3") {
                match &python_version {
                    Some(v) => Some(v.clone()),
                    None => None,
                }
            } else {
                None
            };
            let ghost before = r@.map_values(|a: InstalledApp| app_view(a));
            r.push(InstalledApp {
                name: name.to_string(),
                id: id.to_string(),
                kind: kind.to_string(),
                version,
            });
            assert(r@.map_values(|a: InstalledApp| app_view(a)) =~= before.push(app_view(r@[r@.len() - 1])));
        }
        i = i + 1;
    }
    assert(present@.subrange(0, i as int) =~= present@);
    r
}

} // verus!

verus! {

/// The GPU name of an `lspci` line, where it describes a display controller:
/// what follows its last colon, trimmed.
pub open spec fn gpu_name_of(line: Seq<char>) -> Option<Seq<char>> {
    if has_infix(line, "VGA"@) || has_infix(line, "3D controller"@) {
        let k = last_index(line, ':');
        Some(trimmed(line.subrange(k + 1, line.len() as int)))
    } else {
        None
    }
}

/// The GPU names of the lines, in order.
pub open spec fn gpu_names(lines: Seq<Seq<char>>) -> Seq<Seq<char>>
    decreases lines.len(),
{
    if lines.len() == 0 {
        Seq::empty()
    } else {
        match gpu_name_of(lines.last()) {
            Some(g) => gpu_names(lines.drop_last()).push(g),
            None => gpu_names(lines.drop_last()),
        }
    }
}

/// The display controllers that `lspci` listed.
pub fn gpu_info(lspci_output: &str) -> (r: Vec<GpuInfo>)
    ensures
        r@.map_values(|g: GpuInfo| g.name@) == gpu_names(lines_of(lspci_output@)),
        forall|i: int|
            0 <= i < r@.len() ==> (#[trigger] r@[i]).vram_cgb is None && r@[i].driver@
                == "unknown"@,
{
    let lines = split_lines(lspci_output);
    let ghost lv = lines@.map_values(|w: String| w@);
    let mut r: Vec<GpuInfo> = Vec::new();
    let mut i: usize = 0;
    while i < lines.len()
        invariant
            i <= lines@.len(),
            lv == lines@.map_values(|w: String| w@),
            lv == lines_of(lspci_output@),
            r@.map_values(|g: GpuInfo| g.name@) == gpu_names(lv.subrange(0, i as int)),
            forall|k: int|
                0 <= k < r@.len() ==> (#[trigger] r@[k]).vram_cgb is None && r@[k].driver@
                    == "unknown"@,
        decreases lines.len() - i,
    {
        proof {
            assert(lv.subrange(0, i + 1).drop_last() =~= lv.subrange(0, i as int));
            assert(lv.subrange(0, i + 1).last() == lines@[i as int]@);
        }
        let line = lines[i].as_str();
        if contains(line, "VGA") || contains(line, "3D controller") {
            let lc = crate::text::chars_of(line);
            let start = match find_last_char(&lc, ':') {
                Some(k) => {
                    assert(k < lc.len());
                    k + 1
                },
                None => 0,
            };
            let name = trim(line.substring_char(start, lc.len()));
            let ghost before = r@.map_values(|g: GpuInfo| g.name@);
            r.push(GpuInfo { name, vram_cgb: None, driver: String::from_str("unknown") });
            assert(r@.map_values(|g: GpuInfo| g.name@) =~= before.push(r@[r@.len() - 1].name@));
        }
        i = i + 1;
    }
    assert(lv.subrange(0, i as int) =~= lv);
    r
}

/// Whether the cgroup of process 1 names a container runtime.
pub open spec fn names_container(cgroup: Seq<char>) -> bool {
    has_infix(cgroup, "docker"@) || has_infix(cgroup, "containerd"@) || has_infix(
        cgroup,
        "kubepods"@,
    )
}

pub fn cgroup_names_container(cgroup: &str) -> (r: bool)
    ensures
        r == names_container(cgroup@),
{
    contains(cgroup, "docker") || contains(cgroup, "containerd") || contains(cgroup, "kubepods")
}

} // verus!

verus! {

/// A process and the time it started, in seconds since the Unix epoch.
#[derive(Debug, Clone, PartialEq, Eq)]
pub struct ProcessStart {
    pub pid: u32,
    pub app: String,
    pub start_time: u64,
}

/// `x` placed before the first element that started no earlier ago.
pub open spec fn insert_oldest_first(r: Seq<RunningProcessInfo>, x: RunningProcessInfo) -> Seq<
    RunningProcessInfo,
>
    decreases r.len(),
{
    if r.len() == 0 {
        seq![x]
    } else if r[0].started_ago_s > x.started_ago_s {
        seq![r[0]] + insert_oldest_first(r.drop_first(), x)
    } else {
        seq![x] + r
    }
}

/// The processes ordered from the longest running, as a stable sort by age
/// followed by a reversal leaves them (equal ages: later ones first).
pub open spec fn oldest_first(s: Seq<RunningProcessInfo>) -> Seq<RunningProcessInfo>
    decreases s.len(),
{
    if s.len() == 0 {
        s
    } else {
        insert_oldest_first(oldest_first(s.drop_last()), s.last())
    }
}

/// A process as it is reported, `now_s` being the time now.
pub open spec fn process_info(p: ProcessStart, now_s: u64) -> RunningProcessInfo {
    RunningProcessInfo {
        pid: p.pid,
        app: p.app,
        started_ago_s: if now_s >= p.start_time {
            (now_s - p.start_time) as u64
        } else {
            0
        },
    }
}

/// The processes that started within two minutes of boot, as reported.
pub open spec fn early_processes(s: Seq<ProcessStart>, boot_time: u64, now_s: u64) -> Seq<
    RunningProcessInfo,
>
    decreases s.len(),
{
    if s.len() == 0 {
        Seq::empty()
    } else if s.last().start_time <= boot_time + 120 {
        early_processes(s.drop_last(), boot_time, now_s).push(process_info(s.last(), now_s))
    } else {
        early_processes(s.drop_last(), boot_time, now_s)
    }
}

proof fn lemma_insert_at(r: Seq<RunningProcessInfo>, x: RunningProcessInfo, p: int)
    requires
        0 <= p <= r.len(),
        forall|k: int| 0 <= k < p ==> #[trigger] r[k].started_ago_s > x.started_ago_s,
        p == r.len() || r[p].started_ago_s <= x.started_ago_s,
    ensures
        insert_oldest_first(r, x) == r.insert(p, x),
    decreases p,
{
    if p == 0 {
        if r.len() > 0 {
            assert(seq![x] + r =~= r.insert(0, x));
        } else {
            assert(seq![x] =~= r.insert(0, x));
        }
    } else {
        let d = r.drop_first();
        assert forall|k: int| 0 <= k < p - 1 implies #[trigger] d[k].started_ago_s > x.started_ago_s by {
            assert(d[k] == r[k + 1]);
        }
        if p < r.len() {
            assert(d[p - 1] == r[p]);
        }
        lemma_insert_at(d, x, p - 1);
        assert(seq![r[0]] + d.insert(p - 1, x) =~= r.insert(p, x));
    }
}

/// The processes running since boot, longest running first, at most twenty.
pub fn running_since_boot(processes: Vec<ProcessStart>, boot_time: u64, now_s: u64) -> (r: Vec<
    RunningProcessInfo,
>)
    ensures
        boot_time == 0 ==> r@.len() == 0,
        boot_time != 0 ==> r@ == {
            let all = oldest_first(early_processes(processes@, boot_time, now_s));
            if all.len() <= 20 {
                all
            } else {
                all.subrange(0, 20)
            }
        },
{
    if boot_time == 0 {
        return Vec::new();
    }
    let limit: u64 = if boot_time <= u64::MAX - 120 {
        boot_time + 120
    } else {
        u64::MAX
    };
    let ghost s = processes@;
    let mut src = processes;
    let mut r: Vec<RunningProcessInfo> = Vec::new();
    let mut j: usize = 0;
    let n: usize = src.len();
    while src.len() > 0
        invariant
            n == s.len(),
            j <= s.len(),
            src@ == s.subrange(j as int, s.len() as int),
            limit == (if boot_time + 120 <= u64::MAX {
                boot_time + 120
            } else {
                u64::MAX as int
            }),
            r@ == oldest_first(early_processes(s.subrange(0, j as int), boot_time, now_s)),
        decreases src.len(),
    {
        let p = src.remove(0);
        proof {
            assert(s.subrange(0, j + 1).drop_last() =~= s.subrange(0, j as int));
            assert(s.subrange(0, j + 1).last() == p);
        }
        if p.start_time <= limit {
            assert(p.start_time <= boot_time + 120);
            let ghost pre = early_processes(s.subrange(0, j as int), boot_time, now_s);
            let ago = if now_s >= p.start_time {
                now_s - p.start_time
            } else {
                0
            };
            let info = RunningProcessInfo { pid: p.pid, app: p.app, started_ago_s: ago };
            let mut k: usize = 0;
            while k < r.len() && r[k].started_ago_s > ago
                invariant
                    k <= r@.len(),
                    forall|m: int| 0 <= m < k ==> #[trigger] r@[m].started_ago_s > ago,
                decreases r.len() - k,
            {
                k = k + 1;
            }
            proof {
                lemma_insert_at(r@, info, k as int);
                assert(pre.push(info).drop_last() =~= pre);
            }
            r.insert(k, info);
        } else {
            assert(!(p.start_time <= boot_time + 120));
        }
        j = j + 1;
        assert(src@ =~= s.subrange(j as int, s.len() as int));
    }
    assert(s.subrange(0, j as int) =~= s);
    r.truncate(20);
    r
}

} // verus!

verus! {

/// The columns of a `who` line that the session record is made from.
#[derive(Debug, Clone, PartialEq, Eq)]
pub struct WhoColumns {
    pub username: String,
    pub tty: String,
    pub month: String,
    pub day: String,
    pub time: String,
    /// Where the session came from.
    pub from: String,
}

/// Where a `who` session came from: on macOS the text in the first
/// parentheses (`local` where there are none), elsewhere the last column.
pub open spec fn session_origin(line: Seq<char>, parenthesized: bool) -> Seq<char> {
    if parenthesized {
        match after_first(line, "("@) {
            Some(rest) => before_first(before_first(rest, "("@), ")"@),
            None => "local"@,
        }
    } else {
        words_of(line).last()
    }
}

/// Splits a `who` line into its columns, where it has at least five.
pub fn parse_who_columns(line: &str, parenthesized: bool) -> (r: Option<WhoColumns>)
    ensures
        r is Some <==> words_of(line@).len() >= 5,
        r matches Some(c) ==> {
            let cols = words_of(line@);
            &&& c.username@ == cols[0]
            &&& c.tty@ == cols[1]
            &&& c.month@ == cols[2]
            &&& c.day@ == cols[3]
            &&& c.time@ == cols[4]
            &&& c.from@ == session_origin(line@, parenthesized)
        },
{
    let cols = split_words(line);
    let ghost cv = cols@.map_values(|w: String| w@);
    if cols.len() < 5 {
        return None;
    }
    let last = cols.len() - 1;
    assert(cv[0] == cols@[0]@ && cv[1] == cols@[1]@ && cv[2] == cols@[2]@);
    assert(cv[3] == cols@[3]@ && cv[4] == cols@[4]@ && cv[last as int] == cols@[last as int]@);
    let from = if parenthesized {
        match after_first_str(line, "(") {
            Some(rest) => {
                let piece = before_first_str(rest.as_str(), "(");
                before_first_str(piece.as_str(), ")")
            },
            None => String::from_str("local"),
        }
    } else {
        cols[last].clone()
    };
    Some(
        WhoColumns {
            username: cols[0].clone(),
            tty: cols[1].clone(),
            month: cols[2].clone(),
            day: cols[3].clone(),
            time: cols[4].clone(),
            from,
        },
    )
}

/// A local date and time to the minute.
#[derive(Debug, Clone, Copy, PartialEq, Eq, Structural)]
pub struct LocalMinute {
    pub year: i32,
    pub month: u32,
    pub day: u32,
    pub hour: u32,
    pub minute: u32,
}

/// Whether `y` is a leap year of the Gregorian calendar.
pub open spec fn is_leap(y: int) -> bool {
    (y % 4 == 0 && y % 100 != 0) || y % 400 == 0
}

/// The number of days in month `m` (1 to 12) of year `y`.
pub open spec fn days_in_month(y: int, m: nat) -> nat {
    if m == 2 {
        if is_leap(y) {
            29
        } else {
            28
        }
    } else if m == 4 || m == 6 || m == 9 || m == 11 {
        30
    } else {
        31
    }
}

/// The month (1 to 12) that a three-letter English abbreviation names, in
/// any case.
pub open spec fn month_of(s: Seq<char>) -> Option<nat> {
    let l = crate::text::ascii_lower(s);
    if l == "jan"@ {
        Some(1)
    } else if l == "feb"@ {
        Some(2)
    } else if l == "mar"@ {
        Some(3)
    } else if l == "apr"@ {
        Some(4)
    } else if l == "may"@ {
        Some(5)
    } else if l == "jun"@ {
        Some(6)
    } else if l == "jul"@ {
        Some(7)
    } else if l == "aug"@ {
        Some(8)
    } else if l == "sep"@ {
        Some(9)
    } else if l == "oct"@ {
        Some(10)
    } else if l == "nov"@ {
        Some(11)
    } else if l == "dec"@ {
        Some(12)
    } else {
        None
    }
}

/// A number of one or two decimal digits.
pub open spec fn two_digits(s: Seq<char>) -> Option<nat> {
    if 1 <= s.len() <= 2 && s[0] != '+' {
        parse_decimal(s, 99)
    } else {
        None
    }
}

/// The time `who` printed (`Mon D HH:MM`) as a date of year `year`, where
/// it names a real one.
pub open spec fn who_date(month: Seq<char>, day: Seq<char>, time: Seq<char>, year: int) -> Option<
    (int, nat, nat, nat, nat),
> {
    match (month_of(month), two_digits(day), after_first(time, ":"@)) {
        (Some(m), Some(d), Some(mins)) => match (
            two_digits(before_first(time, ":"@)),
            two_digits(mins),
        ) {
            (Some(h), Some(mi)) => if 1 <= d <= days_in_month(year, m) && h <= 23 && mi <= 59 {
                Some((year, m, d, h, mi))
            } else {
                None
            },
            _ => None,
        },
        _ => None,
    }
}

/// Whether `a` comes after `b`.
pub open spec fn later_than(a: (int, nat, nat, nat, nat), b: LocalMinute) -> bool {
    a.0 > b.year || (a.0 == b.year && (a.1 > b.month || (a.1 == b.month && (a.2 > b.day || (a.2
        == b.day && (a.3 > b.hour || (a.3 == b.hour && a.4 > b.minute)))))))
}

/// When a `who` login happened, seen at local time `now`: in this year,
/// unless that is still to come, in which case in the year before.
pub open spec fn who_login(month: Seq<char>, day: Seq<char>, time: Seq<char>, now: LocalMinute) -> Option<
    (int, nat, nat, nat, nat),
> {
    match who_date(month, day, time, now.year as int) {
        Some(d) => if later_than(d, now) {
            who_date(month, day, time, now.year - 1)
        } else {
            Some(d)
        },
        None => None,
    }
}

fn month_number(s: &str) -> (r: Option<u32>)
    ensures
        match r {
            Some(m) => month_of(s@) == Some(m as nat),
            None => month_of(s@) is None,
        },
{
    let l = crate::text::to_ascii_lower(s);
    if crate::text::chars_match(&l, "jan") {
        Some(1)
    } else if crate::text::chars_match(&l, "feb") {
        Some(2)
    } else if crate::text::chars_match(&l, "mar") {
        Some(3)
    } else if crate::text::chars_match(&l, "apr") {
        Some(4)
    } else if crate::text::chars_match(&l, "may") {
        Some(5)
    } else if crate::text::chars_match(&l, "jun") {
        Some(6)
    } else if crate::text::chars_match(&l, "jul") {
        Some(7)
    } else if crate::text::chars_match(&l, "aug") {
        Some(8)
    } else if crate::text::chars_match(&l, "sep") {
        Some(9)
    } else if crate::text::chars_match(&l, "oct") {
        Some(10)
    } else if crate::text::chars_match(&l, "nov") {
        Some(11)
    } else if crate::text::chars_match(&l, "dec") {
        Some(12)
    } else {
        None
    }
}

fn small_number(s: &str) -> (r: Option<u32>)
    ensures
        match r {
            Some(v) => two_digits(s@) == Some(v as nat),
            None => two_digits(s@) is None,
        },
{
    let n = s.unicode_len();
    if n < 1 || n > 2 || s.get_char(0) == '+' {
        return None;
    }
    match parse_uint(s, 99) {
        Some(v) => Some(v as u32),
        None => None,
    }
}

fn month_days(y: i32, m: u32) -> (r: u32)
    requires
        1 <= m <= 12,
    ensures
        r == days_in_month(y as int, m as nat),
{
    if m == 2 {
        if (y % 4 == 0 && y % 100 != 0) || y % 400 == 0 {
            29
        } else {
            28
        }
    } else if m == 4 || m == 6 || m == 9 || m == 11 {
        30
    } else {
        31
    }
}

fn date_in_year(month: &str, day: &str, time: &str, year: i32) -> (r: Option<LocalMinute>)
    ensures
        match r {
            Some(t) => who_date(month@, day@, time@, year as int) == Some(
                (t.year as int, t.month as nat, t.day as nat, t.hour as nat, t.minute as nat),
            ),
            None => who_date(month@, day@, time@, year as int) is None,
        },
{
    let m = month_number(month);
    let d = small_number(day);
    let mins = crate::net::after_first_str(time, ":");
    match (m, d, mins) {
        (Some(m), Some(d), Some(mins)) => {
            assert(1 <= m <= 12);
            let hours = crate::net::before_first_str(time, ":");
            match (small_number(hours.as_str()), small_number(mins.as_str())) {
                (Some(h), Some(mi)) => {
                    if 1 <= d && d <= month_days(year, m) && h <= 23 && mi <= 59 {
                        Some(LocalMinute { year, month: m, day: d, hour: h, minute: mi })
                    } else {
                        None
                    }
                },
                _ => None,
            }
        },
        _ => None,
    }
}

/// When a `who` login happened (its `Mon D HH:MM` columns), seen at local
/// time `now`: this year, or the year before where this year's date is still
/// to come.
pub fn who_login_time(month: &str, day: &str, time: &str, now: &LocalMinute) -> (r: Option<
    LocalMinute,
>)
    ensures
        match r {
            Some(t) => who_login(month@, day@, time@, *now) == Some(
                (t.year as int, t.month as nat, t.day as nat, t.hour as nat, t.minute as nat),
            ),
            None => who_login(month@, day@, time@, *now) is None || now.year == i32::MIN,
        },
{
    match date_in_year(month, day, time, now.year) {
        Some(t) => {
            let later = t.year > now.year || (t.year == now.year && (t.month > now.month || (
            t.month == now.month && (t.day > now.day || (t.day == now.day && (t.hour > now.hour
                || (t.hour == now.hour && t.minute > now.minute)))))));
            if later {
                if now.year == i32::MIN {
                    return None;
                }
                date_in_year(month, day, time, now.year - 1)
            } else {
                Some(t)
            }
        },
        None => None,
    }
}

} // verus!

verus! {

/// The server a `scutil --dns` line names, where it is a `nameserver[i] :`
/// line.
pub open spec fn scutil_server_of(line: Seq<char>) -> Option<Seq<char>> {
    match after_first(trimmed(line), "nameserver["@) {
        Some(rest) => match after_first(rest, ":"@) {
            Some(v) => Some(trimmed(v)),
            None => None,
        },
        None => None,
    }
}

/// The servers named by the lines of `scutil --dns`, in order.
pub open spec fn scutil_servers(lines: Seq<Seq<char>>) -> Seq<Seq<char>>
    decreases lines.len(),
{
    if lines.len() == 0 {
        Seq::empty()
    } else {
        match scutil_server_of(lines.last()) {
            Some(s) => scutil_servers(lines.drop_last()).push(s),
            None => scutil_servers(lines.drop_last()),
        }
    }
}

fn scutil_server_in_line(line: &str) -> (r: Option<String>)
    ensures
        match r {
            Some(v) => scutil_server_of(line@) == Some(v@),
            None => scutil_server_of(line@) is None,
        },
{
    let t = trim(line);
    match after_first_str(t.as_str(), "nameserver[") {
        Some(rest) => match after_first_str(rest.as_str(), ":") {
            Some(v) => Some(trim(v.as_str())),
            None => None,
        },
        None => None,
    }
}

proof fn lemma_scutil_step(pre: Seq<Seq<char>>, line: Seq<char>)
    ensures
        scutil_servers(pre.push(line)) == (match scutil_server_of(line) {
            Some(s) => scutil_servers(pre).push(s),
            None => scutil_servers(pre),
        }),
{
    assert(pre.push(line).drop_last() =~= pre);
}

/// The DNS servers that `scutil --dns` printed, sorted, each once.
pub fn scutil_dns_servers(scutil_output: &str) -> (r: Vec<String>)
    ensures
        str_views(r@) == sorted_form(scutil_servers(lines_of(scutil_output@)), lex_order()),
{
    let lines = split_lines(scutil_output);
    let ghost lv = lines@.map_values(|w: String| w@);
    let mut found: Vec<String> = Vec::new();
    let mut i: usize = 0;
    while i < lines.len()
        invariant
            i <= lines@.len(),
            lv == lines@.map_values(|w: String| w@),
            lv == lines_of(scutil_output@),
            str_views(found@) == scutil_servers(lv.subrange(0, i as int)),
        decreases lines.len() - i,
    {
        proof {
            assert(lv.subrange(0, i + 1) =~= lv.subrange(0, i as int).push(lines@[i as int]@));
            lemma_scutil_step(lv.subrange(0, i as int), lines@[i as int]@);
        }
        match scutil_server_in_line(lines[i].as_str()) {
            Some(v) => {
                let ghost before = str_views(found@);
                found.push(v);
                assert(str_views(found@) =~= before.push(found@[found@.len() - 1]@));
            },
            None => {},
        }
        i = i + 1;
    }
    assert(lv.subrange(0, i as int) =~= lv);
    sorted_strings(&found)
}

} // verus!

verus! {

/// One address of one network interface.
#[derive(Debug, Clone, PartialEq, Eq)]
pub struct InterfaceAddr {
    pub name: String,
    pub ip: String,
    pub is_loopback: bool,
}

/// The addresses of the interfaces that are not loopback ones.
pub open spec fn outward_ips(s: Seq<InterfaceAddr>) -> Seq<Seq<char>>
    decreases s.len(),
{
    if s.len() == 0 {
        Seq::empty()
    } else if s.last().is_loopback {
        outward_ips(s.drop_last())
    } else {
        outward_ips(s.drop_last()).push(s.last().ip@)
    }
}

/// The host's own addresses: loopback ones left out, sorted, each once.
pub fn local_ips(ifaces: &Vec<InterfaceAddr>) -> (r: Vec<String>)
    ensures
        str_views(r@) == sorted_form(outward_ips(ifaces@), lex_order()),
{
    let mut ips: Vec<String> = Vec::new();
    let mut i: usize = 0;
    while i < ifaces.len()
        invariant
            i <= ifaces@.len(),
            str_views(ips@) == outward_ips(ifaces@.subrange(0, i as int)),
        decreases ifaces.len() - i,
    {
        proof {
            assert(ifaces@.subrange(0, i + 1).drop_last() =~= ifaces@.subrange(0, i as int));
            assert(ifaces@.subrange(0, i + 1).last() == ifaces@[i as int]);
        }
        if !ifaces[i].is_loopback {
            let ghost before = str_views(ips@);
            ips.push(ifaces[i].ip.clone());
            assert(str_views(ips@) =~= before.push(ifaces@[i as int].ip@));
        }
        i = i + 1;
    }
    assert(ifaces@.subrange(0, i as int) =~= ifaces@);
    sorted_strings(&ips)
}

/// An interface name that belongs to a VPN tunnel.
pub open spec fn is_vpn_name(name: Seq<char>) -> bool {
    has_prefix(name, "tun"@) || has_prefix(name, "wg"@) || has_prefix(name, "utun"@)
}

/// The first interface whose name is a VPN tunnel's, where there is one.
pub open spec fn first_vpn(s: Seq<InterfaceAddr>) -> Option<Seq<char>>
    decreases s.len(),
{
    if s.len() == 0 {
        None
    } else if is_vpn_name(s[0].name@) {
        Some(s[0].name@)
    } else {
        first_vpn(s.drop_first())
    }
}

pub fn vpn_interface(ifaces: &Vec<InterfaceAddr>) -> (r: Option<String>)
    ensures
        match r {
            Some(n) => first_vpn(ifaces@) == Some(n@),
            None => first_vpn(ifaces@) is None,
        },
{
    let mut i: usize = 0;
    assert(ifaces@.subrange(0, ifaces@.len() as int) =~= ifaces@);
    while i < ifaces.len()
        invariant
            i <= ifaces@.len(),
            first_vpn(ifaces@) == first_vpn(ifaces@.subrange(i as int, ifaces@.len() as int)),
        decreases ifaces.len() - i,
    {
        let ghost rest = ifaces@.subrange(i as int, ifaces@.len() as int);
        assert(rest[0] == ifaces@[i as int]);
        assert(rest.drop_first() =~= ifaces@.subrange(i + 1, ifaces@.len() as int));
        let n = ifaces[i].name.as_str();
        if starts_with(n, "tun") || starts_with(n, "wg") || starts_with(n, "utun") {
            return Some(ifaces[i].name.clone());
        }
        i = i + 1;
    }
    None
}

/// The most children listed by name; a directory with more is given as a count.
pub const MAX_LISTED_CHILDREN: usize = 20;

/// The entry of a home directory's subdirectory, given the first names of its
/// children (up to one more than are listed).
pub fn home_tree_entry(path: String, child_names: Vec<String>) -> (r: HomeTreeEntry)
    ensures
        r.path == path,
        r.kind@ == "dir"@,
        child_names@.len() <= MAX_LISTED_CHILDREN ==> r.children == Some(child_names)
            && r.entry_count is None,
        child_names@.len() > MAX_LISTED_CHILDREN ==> r.children is None && r.entry_count == Some(
            child_names@.len() as usize,
        ),
{
    let n = child_names.len();
    if n <= MAX_LISTED_CHILDREN {
        HomeTreeEntry { path, kind: String::from_str("dir"), children: Some(child_names), entry_count: None }
    } else {
        HomeTreeEntry { path, kind: String::from_str("dir"), children: None, entry_count: Some(n) }
    }
}

} // verus!

verus! {

/// A file found under the home directory, with when it was last modified.
#[derive(Debug, Clone, PartialEq, Eq)]
pub struct FileStamp {
    pub path: String,
    /// Nanoseconds since the Unix epoch (negative before it).
    pub modified_ns: i128,
    pub modified_ago_s: u64,
}

/// `x` placed after every file modified no earlier than it.
pub open spec fn insert_newest_first(r: Seq<FileStamp>, x: FileStamp) -> Seq<FileStamp>
    decreases r.len(),
{
    if r.len() == 0 {
        seq![x]
    } else if r[0].modified_ns >= x.modified_ns {
        seq![r[0]] + insert_newest_first(r.drop_first(), x)
    } else {
        seq![x] + r
    }
}

/// The files ordered from the most recently modified, equal times in the
/// order they were found (a stable sort).
pub open spec fn newest_first(s: Seq<FileStamp>) -> Seq<FileStamp>
    decreases s.len(),
{
    if s.len() == 0 {
        s
    } else {
        insert_newest_first(newest_first(s.drop_last()), s.last())
    }
}

proof fn lemma_insert_newest_at(r: Seq<FileStamp>, x: FileStamp, p: int)
    requires
        0 <= p <= r.len(),
        forall|k: int| 0 <= k < p ==> #[trigger] r[k].modified_ns >= x.modified_ns,
        p == r.len() || r[p].modified_ns < x.modified_ns,
    ensures
        insert_newest_first(r, x) == r.insert(p, x),
    decreases p,
{
    if p == 0 {
        if r.len() > 0 {
            assert(seq![x] + r =~= r.insert(0, x));
        } else {
            assert(seq![x] =~= r.insert(0, x));
        }
    } else {
        let d = r.drop_first();
        assert forall|k: int| 0 <= k < p - 1 implies #[trigger] d[k].modified_ns >= x.modified_ns by {
            assert(d[k] == r[k + 1]);
        }
        if p < r.len() {
            assert(d[p - 1] == r[p]);
        }
        lemma_insert_newest_at(d, x, p - 1);
        assert(seq![r[0]] + d.insert(p - 1, x) =~= r.insert(p, x));
    }
}

/// The ten most recently modified files, newest first.
pub fn recent_files(files: Vec<FileStamp>) -> (r: Vec<RecentFileInfo>)
    ensures
        r@.len() == (if files@.len() <= 10 {
            files@.len()
        } else {
            10
        }),
        forall|i: int|
            0 <= i < r@.len() ==> (#[trigger] r@[i]).path == newest_first(files@)[i].path
                && r@[i].modified_ago_s == newest_first(files@)[i].modified_ago_s,
{
    let ghost s = files@;
    let mut src = files;
    let mut sorted: Vec<FileStamp> = Vec::new();
    let mut j: usize = 0;
    let n: usize = src.len();
    while src.len() > 0
        invariant
            n == s.len(),
            j <= s.len(),
            src@ == s.subrange(j as int, s.len() as int),
            sorted@ == newest_first(s.subrange(0, j as int)),
            sorted@.len() == j,
        decreases src.len(),
    {
        let x = src.remove(0);
        proof {
            assert(s.subrange(0, j + 1).drop_last() =~= s.subrange(0, j as int));
            assert(s.subrange(0, j + 1).last() == x);
        }
        let mut k: usize = 0;
        while k < sorted.len() && sorted[k].modified_ns >= x.modified_ns
            invariant
                k <= sorted@.len(),
                forall|m: int| 0 <= m < k ==> #[trigger] sorted@[m].modified_ns >= x.modified_ns,
            decreases sorted.len() - k,
        {
            k = k + 1;
        }
        proof {
            lemma_insert_newest_at(sorted@, x, k as int);
        }
        sorted.insert(k, x);
        j = j + 1;
        assert(src@ =~= s.subrange(j as int, s.len() as int));
    }
    assert(s.subrange(0, j as int) =~= s);
    sorted.truncate(10);
    let ghost top = sorted@;
    let mut r: Vec<RecentFileInfo> = Vec::new();
    let mut src = sorted;
    let mut i: usize = 0;
    let m: usize = src.len();
    while src.len() > 0
        invariant
            m == top.len(),
            i <= top.len(),
            src@ == top.subrange(i as int, top.len() as int),
            r@.len() == i,
            forall|q: int|
                0 <= q < i ==> (#[trigger] r@[q]).path == top[q].path && r@[q].modified_ago_s
                    == top[q].modified_ago_s,
        decreases src.len(),
    {
        let f = src.remove(0);
        assert(f == top[i as int]);
        r.push(RecentFileInfo { path: f.path, modified_ago_s: f.modified_ago_s });
        i = i + 1;
        assert(src@ =~= top.subrange(i as int, top.len() as int));
    }
    r
}

} // verus!
