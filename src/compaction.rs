//! The privacy compaction of a full profile: a pure, deterministic reduction
//! of a `WakeObservation` to a bounded default profile.
use vstd::prelude::*;

use crate::observation::{
    FilesystemInfo, HomeTreeEntry, ListeningPort, MountInfo, NetworkIdentity, RecentActivity,
    RecentFileInfo, SessionInfo, UserInfo, WakeObservation,
};
use crate::order::{
    at_most, keep, lemma_at_most_sorted, lemma_keep_all, lemma_keep_contains, lemma_keep_none,
    lemma_keep_push, lemma_push_to_set, lemma_sorted_form_of, lemma_sorted_form_exists,
    lemma_sorted_by_key_props, lemma_sorted_by_key_fixed, key_order, sort_by_key_unique, sorted_by,
    sorted_by_key, sorted_form, strict_order, SortKey,
};
use crate::text::{
    ascii_lower, contains, find, first_occurrence, lemma_first_occurrence,
    lemma_first_occurrence_exists, has_infix, has_prefix, lex_lt, lemma_lex_irreflexive,
    lemma_lex_total, lemma_lex_transitive, occurs_at, starts_with, str_eq,
    str_lt, to_ascii_lower, trim, trimmed, chars_match, chars_start_with,
};

verus! {

/// The characters of each string.
pub open spec fn str_views(s: Seq<String>) -> Seq<Seq<char>> {
    s.map_values(|x: String| x@)
}

/// The order of `str::cmp`, as a closure.
pub open spec fn lex_order() -> spec_fn(Seq<char>, Seq<char>) -> bool {
    |a: Seq<char>, b: Seq<char>| lex_lt(a, b)
}

pub proof fn lemma_lex_order()
    ensures
        strict_order(lex_order()),
        forall|a: Seq<char>, b: Seq<char>| a == b || lex_lt(a, b) || lex_lt(b, a),
{
    assert forall|a: Seq<char>| !#[trigger] lex_order()(a, a) by {
        lemma_lex_irreflexive(a);
    }
    assert forall|a: Seq<char>, b: Seq<char>, c: Seq<char>|
        #[trigger] lex_order()(a, b) && #[trigger] lex_order()(b, c) implies lex_order()(a, c) by {
        lemma_lex_transitive(a, b, c);
    }
    assert forall|a: Seq<char>, b: Seq<char>| a == b || lex_lt(a, b) || lex_lt(b, a) by {
        lemma_lex_total(a, b);
    }
}

/// Inserts `x` into the strictly sorted `r` unless it is there already.
fn insert_sorted_string(r: &mut Vec<String>, x: String)
    requires
        sorted_by(str_views(old(r)@), lex_order()),
    ensures
        sorted_by(str_views(final(r)@), lex_order()),
        str_views(final(r)@).to_set() == str_views(old(r)@).to_set().insert(x@),
{
    proof {
        lemma_lex_order();
    }
    let ghost v0 = str_views(r@);
    let mut p: usize = 0;
    while p < r.len() && str_lt(r[p].as_str(), x.as_str())
        invariant
            p <= r@.len(),
            str_views(r@) == v0,
            forall|k: int| 0 <= k < p ==> lex_lt(#[trigger] v0[k], x@),
        decreases r.len() - p,
    {
        p = p + 1;
    }
    if p < r.len() && str_eq(r[p].as_str(), x.as_str()) {
        assert(str_views(r@).to_set().insert(x@) =~= str_views(r@).to_set()) by {
            assert(str_views(r@)[p as int] == x@);
        }
        return;
    }
    r.insert(p, x);
    let ghost v1 = str_views(r@);
    assert(v1 =~= v0.insert(p as int, x@));
    proof {
        if p < v0.len() {
            assert(!lex_lt(v0[p as int], x@));
            assert(v0[p as int] != x@);
            assert(lex_lt(x@, v0[p as int]));
        }
        assert forall|i: int, j: int| 0 <= i < j < v1.len() implies #[trigger] lex_order()(
            v1[i],
            v1[j],
        ) by {
            if j < p {
                assert(lex_order()(v0[i], v0[j]));
            } else if j == p {
                assert(lex_lt(v0[i], x@));
            } else if i == p {
                if j - 1 > p {
                    assert(lex_order()(v0[p as int], v0[j - 1]));
                    lemma_lex_transitive(x@, v0[p as int], v0[j - 1]);
                }
            } else if i < p {
                assert(lex_lt(v0[i], x@));
                if j - 1 > p {
                    assert(lex_order()(v0[p as int], v0[j - 1]));
                    lemma_lex_transitive(x@, v0[p as int], v0[j - 1]);
                }
                assert(lex_lt(x@, v0[j - 1]));
                lemma_lex_transitive(v0[i], x@, v0[j - 1]);
            } else {
                assert(lex_order()(v0[i - 1], v0[j - 1]));
            }
        }
        assert(v1.to_set() =~= v0.to_set().insert(x@)) by {
            assert(v1[p as int] == x@);
            assert forall|y: Seq<char>| v0.to_set().contains(y) implies v1.to_set().contains(y) by {
                let k = choose|k: int| 0 <= k < v0.len() && v0[k] == y;
                if k < p {
                    assert(v1[k] == y);
                } else {
                    assert(v1[k + 1] == y);
                }
            }
            assert forall|y: Seq<char>| v1.to_set().contains(y) implies y == x@ || v0.to_set().contains(y) by {
                let k = choose|k: int| 0 <= k < v1.len() && v1[k] == y;
                if k < p {
                    assert(v0[k] == y);
                } else if k > p {
                    assert(v0[k - 1] == y);
                }
            }
        }
    }
}

/// Sorts `items`' strings by `str::cmp` and drops repeats.
pub fn sorted_strings(items: &Vec<String>) -> (r: Vec<String>)
    ensures
        str_views(r@) == sorted_form(str_views(items@), lex_order()),
{
    proof {
        lemma_lex_order();
    }
    let mut r: Vec<String> = Vec::new();
    let mut i: usize = 0;
    while i < items.len()
        invariant
            i <= items@.len(),
            sorted_by(str_views(r@), lex_order()),
            str_views(r@).to_set() == str_views(items@).subrange(0, i as int).to_set(),
        decreases items.len() - i,
    {
        insert_sorted_string(&mut r, items[i].clone());
        proof {
            let v = str_views(items@);
            assert(v.subrange(0, i + 1) =~= v.subrange(0, i as int).push(v[i as int]));
            lemma_push_to_set(v.subrange(0, i as int), v[i as int]);
        }
        i = i + 1;
    }
    proof {
        assert(str_views(items@).subrange(0, i as int) =~= str_views(items@));
        lemma_sorted_form_of(str_views(items@), str_views(r@), lex_order());
    }
    r
}

/// A group that names a system account rather than a role of the user.
pub open spec fn is_system_group(g: Seq<char>) -> bool {
    has_prefix(g, "_"@) || has_prefix(g, "com.apple."@) || g == "everyone"@ || g
        == "localaccounts"@ || g == "_appserverusr"@ || g == "_appserveradm"@
}

/// The groups that compaction looks at.
pub open spec fn user_groups(g: Seq<Seq<char>>) -> Seq<Seq<char>> {
    keep(g, |x: Seq<char>| !is_system_group(x))
}

/// Compacted groups: `["admin"]` where the user is an administrator, else
/// at most two of the remaining groups, sorted, without repeats.
pub open spec fn groups_compacted(g: Seq<Seq<char>>) -> Seq<Seq<char>> {
    if user_groups(g).contains("admin"@) {
        seq!["admin"@]
    } else {
        at_most(sorted_form(user_groups(g), lex_order()), 2)
    }
}

fn is_system_group_name(g: &str) -> (r: bool)
    ensures
        r == is_system_group(g@),
{
    starts_with(g, "_") || starts_with(g, "com.apple.") || str_eq(g, "everyone") || str_eq(
        g,
        "localaccounts",
    ) || str_eq(g, "_appserverusr") || str_eq(g, "_appserveradm")
}

pub fn compact_groups(groups: Vec<String>) -> (r: Vec<String>)
    ensures
        str_views(r@) == groups_compacted(str_views(groups@)),
{
    let ghost g = str_views(groups@);
    let mut filtered: Vec<String> = Vec::new();
    let mut has_admin = false;
    let mut i: usize = 0;
    while i < groups.len()
        invariant
            i <= groups@.len(),
            g == str_views(groups@),
            str_views(filtered@) == user_groups(g.subrange(0, i as int)),
            has_admin == user_groups(g.subrange(0, i as int)).contains("admin"@),
        decreases groups.len() - i,
    {
        let name = groups[i].as_str();
        proof {
            assert(g.subrange(0, i + 1) =~= g.subrange(0, i as int).push(g[i as int]));
            lemma_keep_push(g.subrange(0, i as int), g[i as int], |x: Seq<char>| !is_system_group(x));
        }
        if !is_system_group_name(name) {
            let is_admin = str_eq(name, "admin");
            let ghost before = user_groups(g.subrange(0, i as int));
            filtered.push(groups[i].clone());
            proof {
                assert(str_views(filtered@) =~= before.push(g[i as int]));
                assert(before.push(g[i as int]).contains("admin"@) <==> (before.contains("admin"@)
                    || g[i as int] == "admin"@)) by {
                    if before.push(g[i as int]).contains("admin"@) && g[i as int] != "admin"@ {
                        let k = choose|k: int| 0 <= k < before.len() + 1 && before.push(g[i as int])[k] == "admin"@;
                        assert(before[k] == "admin"@);
                    }
                    if before.contains("admin"@) {
                        let k = choose|k: int| 0 <= k < before.len() && before[k] == "admin"@;
                        assert(before.push(g[i as int])[k] == "admin"@);
                    }
                    assert(before.push(g[i as int])[before.len() as int] == g[i as int]);
                }
            }
            has_admin = has_admin || is_admin;
        }
        i = i + 1;
    }
    proof {
        assert(g.subrange(0, i as int) =~= g);
    }
    if has_admin {
        let r = vec![String::from_str("admin")];
        assert(str_views(r@) =~= seq!["admin"@]);
        return r;
    }
    let mut sorted = sorted_strings(&filtered);
    sorted.truncate(2);
    proof {
        assert(str_views(sorted@) =~= at_most(sorted_form(user_groups(g), lex_order()), 2));
    }
    sorted
}

/// Addresses in dotted IPv4 shape.
pub open spec fn ipv4_shaped(ips: Seq<Seq<char>>) -> Seq<Seq<char>> {
    keep(ips, |x: Seq<char>| has_infix(x, "."@))
}

/// Compacted local addresses: at most two IPv4-shaped ones, sorted, without
/// repeats.
pub open spec fn local_ips_compacted(ips: Seq<Seq<char>>) -> Seq<Seq<char>> {
    at_most(sorted_form(ipv4_shaped(ips), lex_order()), 2)
}

pub fn compact_local_ips(ips: Vec<String>) -> (r: Vec<String>)
    ensures
        str_views(r@) == local_ips_compacted(str_views(ips@)),
{
    let ghost g = str_views(ips@);
    let mut filtered: Vec<String> = Vec::new();
    let mut i: usize = 0;
    while i < ips.len()
        invariant
            i <= ips@.len(),
            g == str_views(ips@),
            str_views(filtered@) == ipv4_shaped(g.subrange(0, i as int)),
        decreases ips.len() - i,
    {
        proof {
            assert(g.subrange(0, i + 1) =~= g.subrange(0, i as int).push(g[i as int]));
            lemma_keep_push(g.subrange(0, i as int), g[i as int], |x: Seq<char>| has_infix(x, "."@));
        }
        if contains(ips[i].as_str(), ".") {
            filtered.push(ips[i].clone());
            assert(str_views(filtered@) =~= ipv4_shaped(g.subrange(0, i + 1)));
        }
        i = i + 1;
    }
    proof {
        assert(g.subrange(0, i as int) =~= g);
    }
    let mut sorted = sorted_strings(&filtered);
    sorted.truncate(2);
    proof {
        assert(str_views(sorted@) =~= local_ips_compacted(g));
    }
    sorted
}

} // verus!

verus! {

/// A path under a cache, configuration or package-manager directory.
pub open spec fn is_noise(p: Seq<char>) -> bool {
    has_infix(p, "/.cursor/"@) || has_infix(p, "/.yarn/"@) || has_infix(p, "/.docker/"@)
        || has_infix(p, "/Music Library.musiclibrary/"@) || has_infix(p, "/.cache/"@) || has_infix(
        p,
        "/.config/"@,
    )
}

pub fn is_noise_path(path: &str) -> (r: bool)
    ensures
        r == is_noise(path@),
{
    contains(path, "/.cursor/") || contains(path, "/.yarn/") || contains(path, "/.docker/")
        || contains(path, "/Music Library.musiclibrary/") || contains(path, "/.cache/")
        || contains(path, "/.config/")
}

/// The recent files outside the noisy directories.
pub open spec fn quiet_files(s: Seq<RecentFileInfo>) -> Seq<RecentFileInfo> {
    keep(s, |f: RecentFileInfo| !is_noise(f.path@))
}

/// Compacted recent files: the first five outside the noisy directories, or
/// the first five of all when every one is noisy.
pub open spec fn recent_files_compacted(s: Seq<RecentFileInfo>) -> Seq<RecentFileInfo> {
    if quiet_files(s).len() == 0 {
        at_most(s, 5)
    } else {
        at_most(quiet_files(s), 5)
    }
}

pub fn compact_recent_files(files: Vec<RecentFileInfo>) -> (r: Vec<RecentFileInfo>)
    ensures
        r@ == recent_files_compacted(files@),
{
    let ghost s = files@;
    let mut quiet: usize = 0;
    let mut i: usize = 0;
    while i < files.len()
        invariant
            s == files@,
            i <= s.len(),
            quiet == quiet_files(s.subrange(0, i as int)).len(),
            quiet <= i,
        decreases files.len() - i,
    {
        proof {
            assert(s.subrange(0, i + 1) =~= s.subrange(0, i as int).push(s[i as int]));
            lemma_keep_push(s.subrange(0, i as int), s[i as int], |f: RecentFileInfo| !is_noise(f.path@));
        }
        if !is_noise_path(files[i].path.as_str()) {
            quiet = quiet + 1;
        }
        i = i + 1;
    }
    assert(s.subrange(0, i as int) =~= s);
    let mut src = files;
    if quiet == 0 {
        src.truncate(5);
        return src;
    }
    let mut kept: Vec<RecentFileInfo> = Vec::new();
    let mut j: usize = 0;
    let n: usize = src.len();
    while src.len() > 0
        invariant
            n == s.len(),
            j <= s.len(),
            src@ == s.subrange(j as int, s.len() as int),
            kept@ == quiet_files(s.subrange(0, j as int)),
        decreases src.len(),
    {
        let f = src.remove(0);
        proof {
            assert(s.subrange(0, j + 1) =~= s.subrange(0, j as int).push(s[j as int]));
            lemma_keep_push(s.subrange(0, j as int), s[j as int], |f: RecentFileInfo| !is_noise(f.path@));
        }
        if !is_noise_path(f.path.as_str()) {
            kept.push(f);
        }
        j = j + 1;
        assert(src@ =~= s.subrange(j as int, s.len() as int));
    }
    assert(s.subrange(0, j as int) =~= s);
    kept.truncate(5);
    kept
}

/// A session origin that names this machine rather than a remote host.
pub open spec fn is_local_origin(from: Seq<char>) -> bool {
    let f = ascii_lower(trimmed(from));
    f.len() == 0 || f == "local"@ || f == "-"@
}

/// Compacted sessions: the first three that came from another host.
pub open spec fn sessions_compacted(s: Seq<SessionInfo>) -> Seq<SessionInfo> {
    at_most(keep(s, |x: SessionInfo| !is_local_origin(x.from@)), 3)
}

fn is_local_session_origin(from: &str) -> (r: bool)
    ensures
        r == is_local_origin(from@),
{
    let t = trim(from);
    let f = to_ascii_lower(t.as_str());
    f.len() == 0 || chars_match(&f, "local") || chars_match(&f, "-")
}

pub fn compact_sessions(sessions: Vec<SessionInfo>) -> (r: Vec<SessionInfo>)
    ensures
        r@ == sessions_compacted(sessions@),
{
    let ghost s = sessions@;
    let mut src = sessions;
    let mut kept: Vec<SessionInfo> = Vec::new();
    let mut j: usize = 0;
    let n: usize = src.len();
    while src.len() > 0
        invariant
            n == s.len(),
            j <= s.len(),
            src@ == s.subrange(j as int, s.len() as int),
            kept@ == keep(s.subrange(0, j as int), |x: SessionInfo| !is_local_origin(x.from@)),
        decreases src.len(),
    {
        let x = src.remove(0);
        proof {
            assert(s.subrange(0, j + 1) =~= s.subrange(0, j as int).push(s[j as int]));
            lemma_keep_push(s.subrange(0, j as int), s[j as int], |x: SessionInfo| !is_local_origin(x.from@));
        }
        if !is_local_session_origin(x.from.as_str()) {
            kept.push(x);
        }
        j = j + 1;
        assert(src@ =~= s.subrange(j as int, s.len() as int));
    }
    assert(s.subrange(0, j as int) =~= s);
    kept.truncate(3);
    kept
}

/// Rank of a home directory entry: project directories first, then the
/// usual user directories, then everything else.
pub open spec fn home_priority(p: Seq<char>) -> u8 {
    if p == "~/Code"@ || p == "~/code"@ || p == "~/Projects"@ || p == "~/projects"@ || p
        == "~/Work"@ || p == "~/work"@ {
        0
    } else if p == "~/Desktop"@ || p == "~/Downloads"@ || p == "~/Documents"@ {
        1
    } else {
        2
    }
}

pub fn home_tree_priority(path: &str) -> (r: u8)
    ensures
        r == home_priority(path@),
{
    if str_eq(path, "~/Code") || str_eq(path, "~/code") || str_eq(path, "~/Projects") || str_eq(
        path,
        "~/projects",
    ) || str_eq(path, "~/Work") || str_eq(path, "~/work") {
        0
    } else if str_eq(path, "~/Desktop") || str_eq(path, "~/Downloads") || str_eq(
        path,
        "~/Documents",
    ) {
        1
    } else {
        2
    }
}

/// An entry with its child list replaced by the count of children.
pub open spec fn entry_compacted(e: HomeTreeEntry) -> HomeTreeEntry {
    HomeTreeEntry {
        path: e.path,
        kind: e.kind,
        children: None,
        entry_count: match e.entry_count {
            Some(n) => Some(n),
            None => match e.children {
                Some(c) => Some(c@.len() as usize),
                None => None,
            },
        },
    }
}

/// Whether an entry is rooted at a dotfile.
pub open spec fn is_dot_entry(e: HomeTreeEntry) -> bool {
    has_prefix(e.path@, "~/."@)
}

/// The entries not rooted at a dotfile, each with its children counted.
pub open spec fn visible_entries(s: Seq<HomeTreeEntry>) -> Seq<HomeTreeEntry>
    decreases s.len(),
{
    if s.len() == 0 {
        s
    } else if is_dot_entry(s.last()) {
        visible_entries(s.drop_last())
    } else {
        visible_entries(s.drop_last()).push(entry_compacted(s.last()))
    }
}

/// The entries of rank `k`, in order.
pub open spec fn of_priority(s: Seq<HomeTreeEntry>, k: u8) -> Seq<HomeTreeEntry> {
    keep(s, |e: HomeTreeEntry| home_priority(e.path@) == k)
}

/// `s` sorted by rank, keeping the order of equal ranks.
pub open spec fn by_priority(s: Seq<HomeTreeEntry>) -> Seq<HomeTreeEntry> {
    of_priority(s, 0) + of_priority(s, 1) + of_priority(s, 2)
}

/// Compacted home tree: the first six visible entries by rank.
pub open spec fn home_tree_compacted(s: Seq<HomeTreeEntry>) -> Seq<HomeTreeEntry> {
    at_most(by_priority(visible_entries(s)), 6)
}

pub fn compact_home_tree(entries: Vec<HomeTreeEntry>) -> (r: Vec<HomeTreeEntry>)
    ensures
        r@ == home_tree_compacted(entries@),
{
    let ghost s = entries@;
    let mut src = entries;
    let mut b0: Vec<HomeTreeEntry> = Vec::new();
    let mut b1: Vec<HomeTreeEntry> = Vec::new();
    let mut b2: Vec<HomeTreeEntry> = Vec::new();
    let mut j: usize = 0;
    let n: usize = src.len();
    while src.len() > 0
        invariant
            n == s.len(),
            j <= s.len(),
            src@ == s.subrange(j as int, s.len() as int),
            b0@ == of_priority(visible_entries(s.subrange(0, j as int)), 0),
            b1@ == of_priority(visible_entries(s.subrange(0, j as int)), 1),
            b2@ == of_priority(visible_entries(s.subrange(0, j as int)), 2),
        decreases src.len(),
    {
        let e = src.remove(0);
        let ghost prev = visible_entries(s.subrange(0, j as int));
        proof {
            assert(s.subrange(0, j + 1) =~= s.subrange(0, j as int).push(s[j as int]));
            assert(s.subrange(0, j + 1).drop_last() =~= s.subrange(0, j as int));
        }
        if !starts_with(e.path.as_str(), "~/.") {
            let HomeTreeEntry { path, kind, children, entry_count } = e;
            let count = match entry_count {
                Some(n) => Some(n),
                None => match &children {
                    Some(c) => Some(c.len()),
                    None => None,
                },
            };
            let c = HomeTreeEntry { path, kind, children: None, entry_count: count };
            assert(c == entry_compacted(s[j as int]));
            let rank = home_tree_priority(c.path.as_str());
            proof {
                lemma_keep_push(prev, c, |e: HomeTreeEntry| home_priority(e.path@) == 0);
                lemma_keep_push(prev, c, |e: HomeTreeEntry| home_priority(e.path@) == 1);
                lemma_keep_push(prev, c, |e: HomeTreeEntry| home_priority(e.path@) == 2);
            }
            if rank == 0 {
                b0.push(c);
            } else if rank == 1 {
                b1.push(c);
            } else {
                b2.push(c);
            }
        }
        j = j + 1;
        assert(src@ =~= s.subrange(j as int, s.len() as int));
    }
    assert(s.subrange(0, j as int) =~= s);
    b0.append(&mut b1);
    b0.append(&mut b2);
    b0.truncate(6);
    b0
}

} // verus!

verus! {

/// The token a shell prompt integration appends to a command once it has run.
pub open spec fn prompt_marker() -> Seq<char> {
    ";                 EC="@
}

/// The token that marks internal command-completion lines.
pub open spec fn done_marker() -> Seq<char> {
    "___BEGIN___COMMAND_DONE_MARKER___"@
}

/// A trimmed line cut before the prompt marker, where there is one.
pub open spec fn cut_at_marker(v: Seq<char>) -> Seq<char> {
    if has_infix(v, prompt_marker()) {
        trimmed(v.subrange(0, first_occurrence(v, prompt_marker())))
    } else {
        v
    }
}

/// A history line as it is reported, or `None` where it is dropped: blank
/// lines, prompt variable assignments and internal completion markers.
pub open spec fn normalized_line(line: Seq<char>) -> Option<Seq<char>> {
    let v = trimmed(line);
    if v.len() == 0 {
        None
    } else {
        let w = cut_at_marker(v);
        if has_prefix(w, "PS1="@) || has_prefix(w, "PS2="@) || has_infix(w, done_marker())
            || w.len() == 0 {
            None
        } else {
            Some(w)
        }
    }
}

/// Every line normalized, the dropped ones left out.
pub open spec fn normalized_lines(h: Seq<Seq<char>>) -> Seq<Seq<char>>
    decreases h.len(),
{
    if h.len() == 0 {
        Seq::empty()
    } else {
        match normalized_line(h.last()) {
            Some(v) => normalized_lines(h.drop_last()).push(v),
            None => normalized_lines(h.drop_last()),
        }
    }
}

/// The test for elements other than `x`.
pub open spec fn other_than(x: Seq<char>) -> spec_fn(Seq<char>) -> bool {
    |y: Seq<char>| y != x
}

/// Each distinct element of `s` once, where it last occurs, in order.
pub open spec fn latest_distinct(s: Seq<Seq<char>>) -> Seq<Seq<char>>
    decreases s.len(),
{
    if s.len() == 0 {
        s
    } else {
        keep(latest_distinct(s.drop_last()), other_than(s.last())).push(s.last())
    }
}

/// The last `n` elements of `s`, or all of them when there are fewer.
pub open spec fn last_at_most(s: Seq<Seq<char>>, n: nat) -> Seq<Seq<char>> {
    if s.len() <= n {
        s
    } else {
        s.subrange(s.len() - n, s.len() as int)
    }
}

/// Compacted shell history: the normalized lines without repeats (each kept
/// where it last occurs), the last five of them in order.
pub open spec fn history_compacted(h: Seq<Seq<char>>) -> Seq<Seq<char>> {
    last_at_most(latest_distinct(normalized_lines(h)), 5)
}

pub fn normalize_shell_history_line(line: &str) -> (r: Option<String>)
    ensures
        match r {
            Some(v) => normalized_line(line@) == Some(v@),
            None => normalized_line(line@) is None,
        },
{
    let value = trim(line);
    if value.as_str().unicode_len() == 0 {
        return None;
    }
    let value = match find(value.as_str(), ";                 EC=") {
        Some(i) => {
            proof {
                lemma_first_occurrence(value@, prompt_marker(), i as int);
            }
            let prefix = value.as_str().substring_char(0, i);
            trim(prefix)
        },
        None => value,
    };
    if starts_with(value.as_str(), "PS1=") || starts_with(value.as_str(), "PS2=") {
        return None;
    }
    if contains(value.as_str(), "___BEGIN___COMMAND_DONE_MARKER___") {
        return None;
    }
    if value.as_str().unicode_len() == 0 {
        None
    } else {
        Some(value)
    }
}

/// `lines` without the ones equal to `v`.
fn without_line(lines: Vec<String>, v: &str) -> (r: Vec<String>)
    ensures
        str_views(r@) == keep(str_views(lines@), other_than(v@)),
{
    let ghost l = str_views(lines@);
    let mut r: Vec<String> = Vec::new();
    let mut i: usize = 0;
    while i < lines.len()
        invariant
            i <= lines@.len(),
            l == str_views(lines@),
            str_views(r@) == keep(l.subrange(0, i as int), other_than(v@)),
        decreases lines.len() - i,
    {
        proof {
            assert(l.subrange(0, i + 1) =~= l.subrange(0, i as int).push(l[i as int]));
            lemma_keep_push(l.subrange(0, i as int), l[i as int], other_than(v@));
        }
        if !str_eq(lines[i].as_str(), v) {
            let ghost before = str_views(r@);
            r.push(lines[i].clone());
            assert(str_views(r@) =~= before.push(l[i as int]));
        }
        i = i + 1;
    }
    assert(l.subrange(0, i as int) =~= l);
    r
}

pub fn compact_shell_history(history: Vec<String>) -> (r: Vec<String>)
    ensures
        str_views(r@) == history_compacted(str_views(history@)),
{
    let ghost h = str_views(history@);
    let mut lines: Vec<String> = Vec::new();
    let mut i: usize = 0;
    while i < history.len()
        invariant
            i <= history@.len(),
            h == str_views(history@),
            str_views(lines@) == latest_distinct(normalized_lines(h.subrange(0, i as int))),
        decreases history.len() - i,
    {
        let ghost prev = normalized_lines(h.subrange(0, i as int));
        proof {
            assert(h.subrange(0, i + 1).drop_last() =~= h.subrange(0, i as int));
            assert(h.subrange(0, i + 1).last() == h[i as int]);
        }
        match normalize_shell_history_line(history[i].as_str()) {
            Some(v) => {
                proof {
                    assert(prev.push(v@).drop_last() =~= prev);
                }
                let mut rest = without_line(lines, v.as_str());
                let ghost before = str_views(rest@);
                rest.push(v);
                assert(str_views(rest@) =~= before.push(rest@[rest@.len() - 1]@));
                lines = rest;
            },
            None => {},
        }
        i = i + 1;
    }
    assert(h.subrange(0, i as int) =~= h);
    let n = lines.len();
    if n <= 5 {
        return lines;
    }
    let tail = lines.split_off(n - 5);
    assert(str_views(tail@) =~= history_compacted(h));
    tail
}

} // verus!

verus! {

impl SortKey for MountInfo {
    type Key = Seq<char>;

    open spec fn key(self) -> Seq<char> {
        self.path@
    }

    open spec fn key_less(a: Seq<char>, b: Seq<char>) -> bool {
        lex_lt(a, b)
    }

    proof fn lemma_key_order(a: Seq<char>, b: Seq<char>, c: Seq<char>) {
        lemma_lex_irreflexive(a);
        lemma_lex_total(a, b);
        if lex_lt(a, b) && lex_lt(b, c) {
            lemma_lex_transitive(a, b, c);
        }
    }

    fn key_before(&self, other: &Self) -> (r: bool) {
        str_lt(self.path.as_str(), other.path.as_str())
    }

    fn same_key(&self, other: &Self) -> (r: bool) {
        str_eq(self.path.as_str(), other.path.as_str())
    }
}

/// A mount worth reporting: the root, the home mount or a removable volume.
pub open spec fn is_reported_mount(m: MountInfo) -> bool {
    m.path@ == "/"@ || m.path@ == "/home"@ || has_prefix(m.path@, "/Volumes/"@)
}

/// Compacted mounts: at most three reported mounts, one per path, by path.
pub open spec fn mounts_compacted(s: Seq<MountInfo>) -> Seq<MountInfo> {
    at_most(sorted_by_key(keep(s, |m: MountInfo| is_reported_mount(m))), 3)
}

pub fn compact_mounts(mounts: Vec<MountInfo>) -> (r: Vec<MountInfo>)
    ensures
        r@ == mounts_compacted(mounts@),
{
    let ghost s = mounts@;
    let mut src = mounts;
    let mut kept: Vec<MountInfo> = Vec::new();
    let mut j: usize = 0;
    let n: usize = src.len();
    while src.len() > 0
        invariant
            n == s.len(),
            j <= s.len(),
            src@ == s.subrange(j as int, s.len() as int),
            kept@ == keep(s.subrange(0, j as int), |m: MountInfo| is_reported_mount(m)),
        decreases src.len(),
    {
        let m = src.remove(0);
        proof {
            assert(s.subrange(0, j + 1) =~= s.subrange(0, j as int).push(s[j as int]));
            lemma_keep_push(s.subrange(0, j as int), s[j as int], |m: MountInfo| is_reported_mount(m));
        }
        let p = m.path.as_str();
        if str_eq(p, "/") || str_eq(p, "/home") || starts_with(p, "/Volumes/") {
            kept.push(m);
        }
        j = j + 1;
        assert(src@ =~= s.subrange(j as int, s.len() as int));
    }
    assert(s.subrange(0, j as int) =~= s);
    let mut sorted = sort_by_key_unique(kept);
    sorted.truncate(3);
    sorted
}

impl SortKey for ListeningPort {
    type Key = (u16, Seq<char>);

    open spec fn key(self) -> (u16, Seq<char>) {
        (self.port, self.app@)
    }

    open spec fn key_less(a: (u16, Seq<char>), b: (u16, Seq<char>)) -> bool {
        a.0 < b.0 || (a.0 == b.0 && lex_lt(a.1, b.1))
    }

    proof fn lemma_key_order(a: (u16, Seq<char>), b: (u16, Seq<char>), c: (u16, Seq<char>)) {
        lemma_lex_irreflexive(a.1);
        lemma_lex_total(a.1, b.1);
        if lex_lt(a.1, b.1) && lex_lt(b.1, c.1) {
            lemma_lex_transitive(a.1, b.1, c.1);
        }
    }

    fn key_before(&self, other: &Self) -> (r: bool) {
        self.port < other.port || (self.port == other.port && str_lt(
            self.app.as_str(),
            other.app.as_str(),
        ))
    }

    fn same_key(&self, other: &Self) -> (r: bool) {
        self.port == other.port && str_eq(self.app.as_str(), other.app.as_str())
    }
}

/// An owning application that only makes noise in the port list.
pub open spec fn is_noise_app(app: Seq<char>) -> bool {
    let a = ascii_lower(app);
    has_prefix(a, "controlce"@) || has_prefix(a, "rapportd"@) || has_prefix(a, "ardagent"@)
        || has_prefix(a, "identitys"@)
}

/// A port number worth reporting: a well-known development port or one
/// outside the ephemeral range.
pub open spec fn is_reported_port(port: u16) -> bool {
    port == 11434 || port == 8080 || port == 6379 || port == 5432 || port == 5173 || port == 3030
        || port == 3000 || port == 5000 || port <= 32768
}

/// A listening port that compaction keeps.
pub open spec fn is_kept_port(p: ListeningPort) -> bool {
    !is_noise_app(p.app@) && is_reported_port(p.port)
}

/// Compacted listening ports: at most twelve kept ones, one per port and
/// application, by port and then application.
pub open spec fn ports_compacted(s: Seq<ListeningPort>) -> Seq<ListeningPort> {
    at_most(sorted_by_key(keep(s, |p: ListeningPort| is_kept_port(p))), 12)
}

fn keeps_port(p: &ListeningPort) -> (r: bool)
    ensures
        r == is_kept_port(*p),
{
    let app = to_ascii_lower(p.app.as_str());
    let noise = chars_start_with(&app, "controlce") || chars_start_with(&app, "rapportd")
        || chars_start_with(&app, "ardagent") || chars_start_with(&app, "identitys");
    let n = p.port;
    let reported = n == 11434 || n == 8080 || n == 6379 || n == 5432 || n == 5173 || n == 3030
        || n == 3000 || n == 5000 || n <= 32768;
    !noise && reported
}

pub fn compact_listening_ports(ports: Vec<ListeningPort>) -> (r: Vec<ListeningPort>)
    ensures
        r@ == ports_compacted(ports@),
{
    let ghost s = ports@;
    let mut src = ports;
    let mut kept: Vec<ListeningPort> = Vec::new();
    let mut j: usize = 0;
    let n: usize = src.len();
    while src.len() > 0
        invariant
            n == s.len(),
            j <= s.len(),
            src@ == s.subrange(j as int, s.len() as int),
            kept@ == keep(s.subrange(0, j as int), |p: ListeningPort| is_kept_port(p)),
        decreases src.len(),
    {
        let p = src.remove(0);
        proof {
            assert(s.subrange(0, j + 1) =~= s.subrange(0, j as int).push(s[j as int]));
            lemma_keep_push(s.subrange(0, j as int), s[j as int], |p: ListeningPort| is_kept_port(p));
        }
        if keeps_port(&p) {
            kept.push(p);
        }
        j = j + 1;
        assert(src@ =~= s.subrange(j as int, s.len() as int));
    }
    assert(s.subrange(0, j as int) =~= s);
    let mut sorted = sort_by_key_unique(kept);
    sorted.truncate(12);
    sorted
}

} // verus!

verus! {

/// `c` is the compaction of `w`: the bounded fields reduced by their rules,
/// the processes alive since boot cleared, every other field unchanged.
pub open spec fn compacts_to(w: WakeObservation, c: WakeObservation) -> bool {
    &&& str_views(c.user.groups@) == groups_compacted(str_views(w.user.groups@))
    &&& c.filesystem.home_tree@ == home_tree_compacted(w.filesystem.home_tree@)
    &&& c.filesystem.recent_files@ == recent_files_compacted(w.filesystem.recent_files@)
    &&& c.filesystem.mounts@ == mounts_compacted(w.filesystem.mounts@)
    &&& str_views(c.network_identity.local_ips@) == local_ips_compacted(
        str_views(w.network_identity.local_ips@),
    )
    &&& c.listening_ports@ == ports_compacted(w.listening_ports@)
    &&& str_views(c.recent_activity.shell_history@) == history_compacted(
        str_views(w.recent_activity.shell_history@),
    )
    &&& c.recent_activity.running_since_boot@.len() == 0
    &&& c.other_sessions@ == sessions_compacted(w.other_sessions@)
    &&& c.schema_version == w.schema_version
    &&& c.ts == w.ts
    &&& c.machine == w.machine
    &&& c.user.username == w.user.username
    &&& c.user.full_name == w.user.full_name
    &&& c.user.home_dir == w.user.home_dir
    &&& c.user.shell == w.user.shell
    &&& c.user.uid == w.user.uid
    &&& c.datetime == w.datetime
    &&& c.installed_apps == w.installed_apps
    &&& c.network_identity.public_ip == w.network_identity.public_ip
    &&& c.network_identity.vpn_active == w.network_identity.vpn_active
    &&& c.network_identity.vpn_interface == w.network_identity.vpn_interface
    &&& c.network_identity.default_gateway == w.network_identity.default_gateway
    &&& c.network_identity.dns_servers == w.network_identity.dns_servers
    &&& c.network_identity.hostname_fqdn == w.network_identity.hostname_fqdn
    &&& c.resources == w.resources
}

impl WakeObservation {
    /// The default, privacy-bounded form of this profile.
    pub fn compact(self) -> (r: WakeObservation)
        ensures
            compacts_to(self, r),
    {
        let WakeObservation {
            schema_version,
            ts,
            machine,
            user,
            datetime,
            filesystem,
            installed_apps,
            network_identity,
            listening_ports,
            resources,
            recent_activity,
            other_sessions,
        } = self;
        let UserInfo { username, full_name, home_dir, shell, uid, groups } = user;
        let FilesystemInfo { home_tree, recent_files, mounts } = filesystem;
        let NetworkIdentity {
            local_ips,
            public_ip,
            vpn_active,
            vpn_interface,
            default_gateway,
            dns_servers,
            hostname_fqdn,
        } = network_identity;
        let RecentActivity { shell_history, running_since_boot: _ } = recent_activity;
        WakeObservation {
            schema_version,
            ts,
            machine,
            user: UserInfo {
                username,
                full_name,
                home_dir,
                shell,
                uid,
                groups: compact_groups(groups),
            },
            datetime,
            filesystem: FilesystemInfo {
                home_tree: compact_home_tree(home_tree),
                recent_files: compact_recent_files(recent_files),
                mounts: compact_mounts(mounts),
            },
            installed_apps,
            network_identity: NetworkIdentity {
                local_ips: compact_local_ips(local_ips),
                public_ip,
                vpn_active,
                vpn_interface,
                default_gateway,
                dns_servers,
                hostname_fqdn,
            },
            listening_ports: compact_listening_ports(listening_ports),
            resources,
            recent_activity: RecentActivity {
                shell_history: compact_shell_history(shell_history),
                running_since_boot: Vec::new(),
            },
            other_sessions: compact_sessions(other_sessions),
        }
    }
}

} // verus!

verus! {

/// A line that normalizes to itself.
pub open spec fn is_clean_line(x: Seq<char>) -> bool {
    normalized_line(x) == Some(x)
}

proof fn lemma_prompt_marker_len()
    ensures
        prompt_marker().len() == 21,
{
    reveal_strlit(";                 EC=");
}

proof fn lemma_no_marker_before_first(v: Seq<char>, f: int)
    requires
        0 <= f <= v.len(),
        forall|j: int| 0 <= j < f ==> !occurs_at(v, prompt_marker(), j),
    ensures
        !has_infix(trimmed(v.subrange(0, f)), prompt_marker()),
{
    let m = prompt_marker();
    let sub = v.subrange(0, f);
    let a = crate::text::lemma_trimmed_piece(sub);
    let t = trimmed(sub);
    if has_infix(t, m) {
        let i = choose|i: int| occurs_at(t, m, i);
        crate::text::lemma_occurs_in_piece(sub, a, a + t.len(), m, i);
        crate::text::lemma_occurs_in_piece(v, 0, f, m, a + i);
        lemma_prompt_marker_len();
        assert(!occurs_at(v, m, a + i));
    }
}

/// A normalized line normalizes to itself.
pub proof fn lemma_normalized_is_clean(line: Seq<char>)
    requires
        normalized_line(line) is Some,
    ensures
        is_clean_line(normalized_line(line)->Some_0),
{
    let v = trimmed(line);
    let w = cut_at_marker(v);
    crate::text::lemma_trimmed_idempotent(line);
    if has_infix(v, prompt_marker()) {
        let f = first_occurrence(v, prompt_marker());
        let i0 = choose|i: int| occurs_at(v, prompt_marker(), i);
        lemma_first_occurrence_exists(v, prompt_marker(), i0);
        assert(occurs_at(v, prompt_marker(), f) && forall|j: int|
            0 <= j < f ==> !occurs_at(v, prompt_marker(), j));
        crate::text::lemma_trimmed_idempotent(v.subrange(0, f));
        lemma_no_marker_before_first(v, f);
    }
    assert(trimmed(w) == w);
    assert(cut_at_marker(w) == w);
}

proof fn lemma_normalized_lines_clean(h: Seq<Seq<char>>)
    ensures
        forall|i: int|
            0 <= i < normalized_lines(h).len() ==> is_clean_line(#[trigger] normalized_lines(h)[i]),
    decreases h.len(),
{
    if h.len() > 0 {
        let d = normalized_lines(h.drop_last());
        lemma_normalized_lines_clean(h.drop_last());
        if normalized_line(h.last()) is Some {
            lemma_normalized_is_clean(h.last());
            let v = normalized_line(h.last())->Some_0;
            assert forall|i: int|
                0 <= i < normalized_lines(h).len() implies is_clean_line(
                #[trigger] normalized_lines(h)[i],
            ) by {
                if i < d.len() {
                    assert(normalized_lines(h)[i] == d[i]);
                } else {
                    assert(normalized_lines(h)[i] == v);
                }
            }
        }
    }
}

proof fn lemma_normalized_lines_of_clean(s: Seq<Seq<char>>)
    requires
        forall|i: int| 0 <= i < s.len() ==> is_clean_line(#[trigger] s[i]),
    ensures
        normalized_lines(s) == s,
    decreases s.len(),
{
    if s.len() > 0 {
        assert(is_clean_line(s[s.len() - 1]));
        lemma_normalized_lines_of_clean(s.drop_last());
        assert(s =~= s.drop_last().push(s.last()));
    }
}

proof fn lemma_keep_distinct(s: Seq<Seq<char>>, p: spec_fn(Seq<char>) -> bool)
    requires
        s.no_duplicates(),
    ensures
        keep(s, p).no_duplicates(),
    decreases s.len(),
{
    if s.len() > 0 {
        let d = s.drop_last();
        assert(d.no_duplicates()) by {
            assert forall|i: int, j: int| 0 <= i < d.len() && 0 <= j < d.len() && i != j implies d[i]
                != d[j] by {
                assert(d[i] == s[i] && d[j] == s[j]);
            }
        }
        lemma_keep_distinct(d, p);
        assert(s =~= d.push(s.last()));
        lemma_keep_push(d, s.last(), p);
        if p(s.last()) {
            lemma_keep_contains(d, p, s.last());
            if d.contains(s.last()) {
                let k = choose|k: int| 0 <= k < d.len() && d[k] == s.last();
                assert(s[k] == s[s.len() - 1]);
            }
            let kd = keep(d, p);
            assert forall|i: int, j: int|
                0 <= i < kd.len() + 1 && 0 <= j < kd.len() + 1 && i != j implies kd.push(
                s.last(),
            )[i] != kd.push(s.last())[j] by {
                if i == kd.len() {
                    assert(kd.contains(kd[j]));
                } else if j == kd.len() {
                    assert(kd.contains(kd[i]));
                }
            }
        }
    }
}

proof fn lemma_latest_distinct(s: Seq<Seq<char>>)
    ensures
        latest_distinct(s).no_duplicates(),
        forall|y: Seq<char>| latest_distinct(s).contains(y) <==> s.contains(y),
    decreases s.len(),
{
    if s.len() > 0 {
        let d = s.drop_last();
        let x = s.last();
        let ne = other_than(x);
        lemma_latest_distinct(d);
        let k = keep(latest_distinct(d), ne);
        lemma_keep_distinct(latest_distinct(d), ne);
        assert forall|y: Seq<char>| k.contains(y) <==> (latest_distinct(d).contains(y) && y != x) by {
            lemma_keep_contains(latest_distinct(d), ne, y);
        }
        assert(s =~= d.push(x));
        assert forall|i: int, j: int|
            0 <= i < k.len() + 1 && 0 <= j < k.len() + 1 && i != j implies k.push(x)[i] != k.push(
            x,
        )[j] by {
            if i == k.len() {
                assert(k.contains(k[j]));
            } else if j == k.len() {
                assert(k.contains(k[i]));
            }
        }
        assert forall|y: Seq<char>| latest_distinct(s).contains(y) <==> s.contains(y) by {
            if k.push(x).contains(y) && y != x {
                let i = choose|i: int| 0 <= i < k.len() + 1 && k.push(x)[i] == y;
                assert(k[i] == y);
                assert(k.contains(y));
                assert(latest_distinct(d).contains(y));
                assert(d.contains(y));
                let m = choose|m: int| 0 <= m < d.len() && d[m] == y;
                assert(s[m] == y);
            }
            if s.contains(y) && y != x {
                let m = choose|m: int| 0 <= m < s.len() && s[m] == y;
                assert(d[m] == y);
                assert(d.contains(y));
                assert(latest_distinct(d).contains(y));
                assert(k.contains(y));
                let i = choose|i: int| 0 <= i < k.len() && k[i] == y;
                assert(k.push(x)[i] == y);
            }
            assert(k.push(x)[k.len() as int] == x);
            assert(s[s.len() - 1] == x);
        }
    }
}

proof fn lemma_latest_distinct_of_distinct(s: Seq<Seq<char>>)
    requires
        s.no_duplicates(),
    ensures
        latest_distinct(s) == s,
    decreases s.len(),
{
    if s.len() > 0 {
        let d = s.drop_last();
        let x = s.last();
        assert(d.no_duplicates()) by {
            assert forall|i: int, j: int| 0 <= i < d.len() && 0 <= j < d.len() && i != j implies d[i]
                != d[j] by {
                assert(d[i] == s[i] && d[j] == s[j]);
            }
        }
        lemma_latest_distinct_of_distinct(d);
        let ne = other_than(x);
        assert forall|i: int| 0 <= i < d.len() implies #[trigger] ne(d[i]) by {
            assert(d[i] == s[i]);
            assert(s[s.len() - 1] == x);
        }
        lemma_keep_all(d, ne);
        assert(s =~= d.push(x));
    }
}

/// The compacted history holds at most five lines, none of them an internal
/// completion marker, and no line twice.
pub proof fn lemma_history_bound(h: Seq<Seq<char>>)
    ensures
        history_compacted(h).len() <= 5,
        history_compacted(h).no_duplicates(),
        forall|i: int|
            0 <= i < history_compacted(h).len() ==> !has_infix(
                #[trigger] history_compacted(h)[i],
                done_marker(),
            ),
{
    let n = normalized_lines(h);
    let d = latest_distinct(n);
    let c = history_compacted(h);
    lemma_normalized_lines_clean(h);
    lemma_latest_distinct(n);
    let off: int = if d.len() <= 5 {
        0
    } else {
        d.len() - 5
    };
    assert forall|i: int| 0 <= i < c.len() implies c[i] == d[off + i] by {}
    assert forall|i: int| 0 <= i < c.len() implies !has_infix(#[trigger] c[i], done_marker()) by {
        assert(d.contains(d[off + i]));
        assert(n.contains(d[off + i]));
        let m = choose|m: int| 0 <= m < n.len() && n[m] == d[off + i];
        assert(is_clean_line(n[m]));
    }
    assert forall|i: int, j: int| 0 <= i < c.len() && 0 <= j < c.len() && i != j implies c[i]
        != c[j] by {
        assert(c[i] == d[off + i] && c[j] == d[off + j]);
    }
}

/// Compacting the history of a compacted profile changes nothing.
pub proof fn lemma_history_idempotent(h: Seq<Seq<char>>)
    ensures
        history_compacted(history_compacted(h)) == history_compacted(h),
{
    let n = normalized_lines(h);
    let d = latest_distinct(n);
    let c = history_compacted(h);
    lemma_normalized_lines_clean(h);
    lemma_latest_distinct(n);
    lemma_history_bound(h);
    let off: int = if d.len() <= 5 {
        0
    } else {
        d.len() - 5
    };
    assert forall|i: int| 0 <= i < c.len() implies is_clean_line(#[trigger] c[i]) by {
        assert(c[i] == d[off + i]);
        assert(d.contains(d[off + i]));
        assert(n.contains(d[off + i]));
        let m = choose|m: int| 0 <= m < n.len() && n[m] == d[off + i];
        assert(is_clean_line(n[m]));
    }
    lemma_normalized_lines_of_clean(c);
    lemma_latest_distinct_of_distinct(c);
}

/// Compacted groups number at most two, and are exactly `["admin"]` where the
/// source holds `"admin"`.
pub proof fn lemma_groups_bound(g: Seq<Seq<char>>)
    ensures
        groups_compacted(g).len() <= 2,
        g.contains("admin"@) ==> groups_compacted(g) == seq!["admin"@],
{
    reveal_strlit("admin");
    reveal_strlit("_");
    reveal_strlit("com.apple.");
    reveal_strlit("everyone");
    reveal_strlit("localaccounts");
    reveal_strlit("_appserverusr");
    reveal_strlit("_appserveradm");
    assert(!is_system_group("admin"@)) by {
        assert("admin"@[0] != "_"@[0]);
        assert("admin"@.subrange(0, 1) != "_"@);
    }
    lemma_keep_contains(g, |x: Seq<char>| !is_system_group(x), "admin"@);
}

} // verus!

verus! {

proof fn lemma_string_sorted_form_props(s: Seq<Seq<char>>)
    ensures
        sorted_by(sorted_form(s, lex_order()), lex_order()),
        sorted_form(s, lex_order()).to_set() == s.to_set(),
{
    lemma_lex_order();
    lemma_sorted_form_exists(s, lex_order());
}

/// Sorting and bounding the elements of `u` twice gives what once gives.
proof fn lemma_bounded_sorted_strings(u: Seq<Seq<char>>, n: nat, p: spec_fn(Seq<char>) -> bool)
    requires
        forall|i: int| 0 <= i < u.len() ==> #[trigger] p(u[i]),
    ensures
        forall|i: int| 0 <= i < at_most(sorted_form(u, lex_order()), n).len() ==> #[trigger] p(
            at_most(sorted_form(u, lex_order()), n)[i],
        ) && u.contains(at_most(sorted_form(u, lex_order()), n)[i]),
        at_most(sorted_form(keep(at_most(sorted_form(u, lex_order()), n), p), lex_order()), n)
            == at_most(sorted_form(u, lex_order()), n),
{
    let c = at_most(sorted_form(u, lex_order()), n);
    lemma_string_sorted_form_props(u);
    lemma_lex_order();
    lemma_at_most_sorted(sorted_form(u, lex_order()), n, lex_order());
    assert forall|i: int| 0 <= i < c.len() implies #[trigger] p(c[i]) && u.contains(c[i]) by {
        assert(sorted_form(u, lex_order())[i] == c[i]);
        assert(sorted_form(u, lex_order()).to_set().contains(c[i]));
    }
    lemma_keep_all(c, p);
    lemma_sorted_form_of(c, c, lex_order());
}

pub proof fn lemma_groups_idempotent(g: Seq<Seq<char>>)
    ensures
        groups_compacted(groups_compacted(g)) == groups_compacted(g),
{
    let u = user_groups(g);
    let np = |x: Seq<char>| !is_system_group(x);
    lemma_groups_bound(g);
    if u.contains("admin"@) {
        lemma_groups_bound(seq!["admin"@]);
    } else {
        assert forall|i: int| 0 <= i < u.len() implies #[trigger] np(u[i]) by {
            lemma_keep_contains(g, np, u[i]);
        }
        lemma_bounded_sorted_strings(u, 2, np);
        let c = groups_compacted(g);
        lemma_keep_all(c, np);
        if c.contains("admin"@) {
            let i = choose|i: int| 0 <= i < c.len() && c[i] == "admin"@;
            assert(np(at_most(sorted_form(u, lex_order()), 2)[i]));
            assert(u.contains(c[i]));
        }
    }
}

pub proof fn lemma_local_ips_idempotent(ips: Seq<Seq<char>>)
    ensures
        local_ips_compacted(local_ips_compacted(ips)) == local_ips_compacted(ips),
{
    let u = ipv4_shaped(ips);
    let dotted = |x: Seq<char>| has_infix(x, "."@);
    assert forall|i: int| 0 <= i < u.len() implies #[trigger] dotted(u[i]) by {
        lemma_keep_contains(ips, dotted, u[i]);
    }
    lemma_bounded_sorted_strings(u, 2, dotted);
}

proof fn lemma_keep_empty<T>(s: Seq<T>, p: spec_fn(T) -> bool)
    requires
        forall|i: int| 0 <= i < s.len() ==> !#[trigger] p(s[i]),
    ensures
        keep(s, p).len() == 0,
{
    if keep(s, p).len() > 0 {
        lemma_keep_contains(s, p, keep(s, p)[0]);
    }
}

pub proof fn lemma_recent_files_idempotent(s: Seq<RecentFileInfo>)
    ensures
        recent_files_compacted(recent_files_compacted(s)) == recent_files_compacted(s),
{
    let quiet = |f: RecentFileInfo| !is_noise(f.path@);
    let q = quiet_files(s);
    let c = recent_files_compacted(s);
    if q.len() == 0 {
        lemma_keep_none(s, quiet);
        assert forall|i: int| 0 <= i < c.len() implies !#[trigger] quiet(c[i]) by {
            assert(c[i] == s[i]);
        }
        lemma_keep_empty(c, quiet);
    } else {
        assert forall|i: int| 0 <= i < c.len() implies #[trigger] quiet(c[i]) by {
            assert(c[i] == q[i]);
            lemma_keep_contains(s, quiet, q[i]);
        }
        lemma_keep_all(c, quiet);
    }
}

pub proof fn lemma_sessions_idempotent(s: Seq<SessionInfo>)
    ensures
        sessions_compacted(sessions_compacted(s)) == sessions_compacted(s),
{
    let remote = |x: SessionInfo| !is_local_origin(x.from@);
    let k = keep(s, remote);
    let c = sessions_compacted(s);
    assert forall|i: int| 0 <= i < c.len() implies #[trigger] remote(c[i]) by {
        assert(c[i] == k[i]);
        lemma_keep_contains(s, remote, k[i]);
    }
    lemma_keep_all(c, remote);
}

/// Bounding the key-sorted form of the kept elements twice gives what once gives.
proof fn lemma_bounded_by_key<T: SortKey>(s: Seq<T>, n: nat, p: spec_fn(T) -> bool)
    ensures
        at_most(sorted_by_key(keep(at_most(sorted_by_key(keep(s, p)), n), p)), n) == at_most(
            sorted_by_key(keep(s, p)),
            n,
        ),
{
    let k = keep(s, p);
    let c = at_most(sorted_by_key(k), n);
    lemma_sorted_by_key_props(k);
    lemma_at_most_sorted(sorted_by_key(k), n, key_order::<T>());
    assert forall|i: int| 0 <= i < c.len() implies #[trigger] p(c[i]) by {
        assert(sorted_by_key(k)[i] == c[i]);
        assert(k.contains(c[i]));
        lemma_keep_contains(s, p, c[i]);
    }
    lemma_keep_all(c, p);
    lemma_sorted_by_key_fixed(c);
}

pub proof fn lemma_mounts_idempotent(s: Seq<MountInfo>)
    ensures
        mounts_compacted(mounts_compacted(s)) == mounts_compacted(s),
{
    lemma_bounded_by_key(s, 3, |m: MountInfo| is_reported_mount(m));
}

pub proof fn lemma_ports_idempotent(s: Seq<ListeningPort>)
    ensures
        ports_compacted(ports_compacted(s)) == ports_compacted(s),
{
    lemma_bounded_by_key(s, 12, |p: ListeningPort| is_kept_port(p));
}

} // verus!

verus! {

/// An entry that compaction leaves as it is.
pub open spec fn is_settled_entry(e: HomeTreeEntry) -> bool {
    !is_dot_entry(e) && entry_compacted(e) == e
}

proof fn lemma_visible_settled(s: Seq<HomeTreeEntry>)
    ensures
        forall|i: int|
            0 <= i < visible_entries(s).len() ==> is_settled_entry(#[trigger] visible_entries(s)[i]),
    decreases s.len(),
{
    if s.len() > 0 {
        let d = visible_entries(s.drop_last());
        lemma_visible_settled(s.drop_last());
        if !is_dot_entry(s.last()) {
            let e = entry_compacted(s.last());
            assert(e.path == s.last().path);
            assert forall|i: int|
                0 <= i < visible_entries(s).len() implies is_settled_entry(
                #[trigger] visible_entries(s)[i],
            ) by {
                if i < d.len() {
                    assert(visible_entries(s)[i] == d[i]);
                } else {
                    assert(visible_entries(s)[i] == e);
                }
            }
        }
    }
}

proof fn lemma_visible_of_settled(s: Seq<HomeTreeEntry>)
    requires
        forall|i: int| 0 <= i < s.len() ==> is_settled_entry(#[trigger] s[i]),
    ensures
        visible_entries(s) == s,
    decreases s.len(),
{
    if s.len() > 0 {
        assert(is_settled_entry(s[s.len() - 1]));
        lemma_visible_of_settled(s.drop_last());
        assert(s =~= s.drop_last().push(s.last()));
    }
}

/// Ranks never decrease along `s`.
pub open spec fn rank_sorted(s: Seq<HomeTreeEntry>) -> bool {
    forall|i: int, j: int|
        0 <= i < j < s.len() ==> home_priority((#[trigger] s[i]).path@) <= home_priority(
            (#[trigger] s[j]).path@,
        )
}

proof fn lemma_of_priority_rank(s: Seq<HomeTreeEntry>, k: u8)
    ensures
        forall|i: int|
            0 <= i < of_priority(s, k).len() ==> home_priority(
                (#[trigger] of_priority(s, k)[i]).path@,
            ) == k && s.contains(of_priority(s, k)[i]),
{
    let p = |e: HomeTreeEntry| home_priority(e.path@) == k;
    assert forall|i: int| 0 <= i < of_priority(s, k).len() implies home_priority(
        (#[trigger] of_priority(s, k)[i]).path@,
    ) == k && s.contains(of_priority(s, k)[i]) by {
        lemma_keep_contains(s, p, of_priority(s, k)[i]);
    }
}

proof fn lemma_by_priority_props(s: Seq<HomeTreeEntry>)
    ensures
        rank_sorted(by_priority(s)),
        forall|i: int| 0 <= i < by_priority(s).len() ==> s.contains(#[trigger] by_priority(s)[i]),
{
    let a = of_priority(s, 0);
    let b = of_priority(s, 1);
    let c = of_priority(s, 2);
    lemma_of_priority_rank(s, 0);
    lemma_of_priority_rank(s, 1);
    lemma_of_priority_rank(s, 2);
    let r = by_priority(s);
    assert forall|i: int| 0 <= i < r.len() implies home_priority((#[trigger] r[i]).path@) == (
    if i < a.len() {
        0u8
    } else if i < a.len() + b.len() {
        1u8
    } else {
        2u8
    }) && s.contains(r[i]) by {
        if i < a.len() {
            assert(r[i] == a[i]);
        } else if i < a.len() + b.len() {
            assert(r[i] == b[i - a.len()]);
        } else {
            assert(r[i] == c[i - a.len() - b.len()]);
        }
    }
}

proof fn lemma_by_priority_of_sorted(s: Seq<HomeTreeEntry>)
    requires
        rank_sorted(s),
    ensures
        by_priority(s) == s,
    decreases s.len(),
{
    if s.len() > 0 {
        let d = s.drop_last();
        let y = s.last();
        assert(rank_sorted(d)) by {
            assert forall|i: int, j: int| 0 <= i < j < d.len() implies home_priority(
                (#[trigger] d[i]).path@,
            ) <= home_priority((#[trigger] d[j]).path@) by {
                assert(d[i] == s[i] && d[j] == s[j]);
            }
        }
        lemma_by_priority_of_sorted(d);
        assert(s =~= d.push(y));
        let k = home_priority(y.path@);
        lemma_keep_push(d, y, |e: HomeTreeEntry| home_priority(e.path@) == 0);
        lemma_keep_push(d, y, |e: HomeTreeEntry| home_priority(e.path@) == 1);
        lemma_keep_push(d, y, |e: HomeTreeEntry| home_priority(e.path@) == 2);
        assert forall|i: int| 0 <= i < d.len() implies home_priority((#[trigger] d[i]).path@)
            <= k by {
            assert(d[i] == s[i]);
            assert(s[s.len() - 1] == y);
        }
        let rank_two = |e: HomeTreeEntry| home_priority(e.path@) == 2;
        let rank_one = |e: HomeTreeEntry| home_priority(e.path@) == 1;
        if k < 2 {
            assert forall|i: int| 0 <= i < d.len() implies !#[trigger] rank_two(d[i]) by {
                assert(home_priority(d[i].path@) <= k);
            }
            lemma_keep_empty(d, rank_two);
        }
        if k < 1 {
            assert forall|i: int| 0 <= i < d.len() implies !#[trigger] rank_one(d[i]) by {
                assert(home_priority(d[i].path@) <= k);
            }
            lemma_keep_empty(d, rank_one);
        }
        assert(by_priority(s) =~= by_priority(d).push(y));
    }
}

pub proof fn lemma_home_tree_idempotent(s: Seq<HomeTreeEntry>)
    ensures
        home_tree_compacted(home_tree_compacted(s)) == home_tree_compacted(s),
{
    let v = visible_entries(s);
    let b = by_priority(v);
    let c = home_tree_compacted(s);
    lemma_visible_settled(s);
    lemma_by_priority_props(v);
    assert forall|i: int| 0 <= i < c.len() implies is_settled_entry(#[trigger] c[i]) by {
        assert(c[i] == b[i]);
        assert(v.contains(b[i]));
    }
    lemma_visible_of_settled(c);
    assert(rank_sorted(c)) by {
        assert forall|i: int, j: int| 0 <= i < j < c.len() implies home_priority(
            (#[trigger] c[i]).path@,
        ) <= home_priority((#[trigger] c[j]).path@) by {
            assert(c[i] == b[i] && c[j] == b[j]);
        }
    }
    lemma_by_priority_of_sorted(c);
}

} // verus!

verus! {

/// `a` and `b` hold the same profile: equal fields, lists compared element by
/// element and strings by their characters.
pub open spec fn same_profile(a: WakeObservation, b: WakeObservation) -> bool {
    &&& str_views(a.user.groups@) == str_views(b.user.groups@)
    &&& a.filesystem.home_tree@ == b.filesystem.home_tree@
    &&& a.filesystem.recent_files@ == b.filesystem.recent_files@
    &&& a.filesystem.mounts@ == b.filesystem.mounts@
    &&& str_views(a.network_identity.local_ips@) == str_views(b.network_identity.local_ips@)
    &&& a.listening_ports@ == b.listening_ports@
    &&& str_views(a.recent_activity.shell_history@) == str_views(
        b.recent_activity.shell_history@,
    )
    &&& a.recent_activity.running_since_boot@ == b.recent_activity.running_since_boot@
    &&& a.other_sessions@ == b.other_sessions@
    &&& a.schema_version == b.schema_version
    &&& a.ts == b.ts
    &&& a.machine == b.machine
    &&& a.user.username == b.user.username
    &&& a.user.full_name == b.user.full_name
    &&& a.user.home_dir == b.user.home_dir
    &&& a.user.shell == b.user.shell
    &&& a.user.uid == b.user.uid
    &&& a.datetime == b.datetime
    &&& a.installed_apps == b.installed_apps
    &&& a.network_identity.public_ip == b.network_identity.public_ip
    &&& a.network_identity.vpn_active == b.network_identity.vpn_active
    &&& a.network_identity.vpn_interface == b.network_identity.vpn_interface
    &&& a.network_identity.default_gateway == b.network_identity.default_gateway
    &&& a.network_identity.dns_servers == b.network_identity.dns_servers
    &&& a.network_identity.hostname_fqdn == b.network_identity.hostname_fqdn
    &&& a.resources == b.resources
}

/// Compaction is idempotent: compacting a compacted profile again yields the
/// same profile.
pub proof fn lemma_compaction_idempotent(w: WakeObservation, once: WakeObservation, twice: WakeObservation)
    requires
        compacts_to(w, once),
        compacts_to(once, twice),
    ensures
        same_profile(twice, once),
{
    lemma_groups_idempotent(str_views(w.user.groups@));
    lemma_home_tree_idempotent(w.filesystem.home_tree@);
    lemma_recent_files_idempotent(w.filesystem.recent_files@);
    lemma_mounts_idempotent(w.filesystem.mounts@);
    lemma_local_ips_idempotent(str_views(w.network_identity.local_ips@));
    lemma_ports_idempotent(w.listening_ports@);
    lemma_history_idempotent(str_views(w.recent_activity.shell_history@));
    lemma_sessions_idempotent(w.other_sessions@);
    assert(twice.recent_activity.running_since_boot@ =~= once.recent_activity.running_since_boot@);
}

/// The groups and history bounds of a compacted profile.
pub proof fn lemma_compacted_bounds(w: WakeObservation, c: WakeObservation)
    requires
        compacts_to(w, c),
    ensures
        c.user.groups@.len() <= 2,
        str_views(w.user.groups@).contains("admin"@) ==> str_views(c.user.groups@) == seq![
            "admin"@,
        ],
        c.recent_activity.shell_history@.len() <= 5,
        str_views(c.recent_activity.shell_history@).no_duplicates(),
        forall|i: int|
            0 <= i < c.recent_activity.shell_history@.len() ==> !has_infix(
                (#[trigger] c.recent_activity.shell_history@[i])@,
                done_marker(),
            ),
{
    lemma_groups_bound(str_views(w.user.groups@));
    lemma_history_bound(str_views(w.recent_activity.shell_history@));
    let h = c.recent_activity.shell_history@;
    assert forall|i: int| 0 <= i < h.len() implies !has_infix((#[trigger] h[i])@, done_marker()) by {
        assert(str_views(h)[i] == h[i]@);
    }
}

} // verus!
