//! The canonical tree form of records, structural patches over it, and what
//! applying a patch means.
use vstd::prelude::*;

verus! {

/// The names of the fields that occur in a momentary record's tree.
#[derive(Debug, Clone, Copy, PartialEq, Eq, Structural)]
pub enum Field {
    SchemaVersion,
    Ts,
    MonotonicMs,
    IdleMs,
    Focus,
    Windows,
    Cursor,
    Displays,
    TerminalCtx,
    NetConnections,
    FsEvents,
    Id,
    Title,
    App,
    Pid,
    Bounds,
    Workspace,
    IsMinimized,
    IsFullscreen,
    X,
    Y,
    W,
    H,
    IsPrimary,
    ScaleFactor,
    Cwd,
    Shell,
    Proto,
    LocalPort,
    RemoteAddr,
    RemotePort,
    State,
    Path,
    Kind,
}

/// The key under which each field is written.
pub open spec fn field_name(f: Field) -> Seq<char> {
    match f {
        Field::SchemaVersion => "schema_version"@,
        Field::Ts => "ts"@,
        Field::MonotonicMs => "monotonic_ms"@,
        Field::IdleMs => "idle_ms"@,
        Field::Focus => "focus"@,
        Field::Windows => "windows"@,
        Field::Cursor => "cursor"@,
        Field::Displays => "displays"@,
        Field::TerminalCtx => "terminal_ctx"@,
        Field::NetConnections => "net_connections"@,
        Field::FsEvents => "fs_events"@,
        Field::Id => "id"@,
        Field::Title => "title"@,
        Field::App => "app"@,
        Field::Pid => "pid"@,
        Field::Bounds => "bounds"@,
        Field::Workspace => "workspace"@,
        Field::IsMinimized => "is_minimized"@,
        Field::IsFullscreen => "is_fullscreen"@,
        Field::X => "x"@,
        Field::Y => "y"@,
        Field::W => "w"@,
        Field::H => "h"@,
        Field::IsPrimary => "is_primary"@,
        Field::ScaleFactor => "scale_factor"@,
        Field::Cwd => "cwd"@,
        Field::Shell => "shell"@,
        Field::Proto => "proto"@,
        Field::LocalPort => "local_port"@,
        Field::RemoteAddr => "remote_addr"@,
        Field::RemotePort => "remote_port"@,
        Field::State => "state"@,
        Field::Path => "path"@,
        Field::Kind => "kind"@,
    }
}

impl Field {
    /// The key under which the field is written.
    pub fn name(&self) -> (r: &'static str)
        ensures
            r@ == field_name(*self),
    {
        match self {
            Field::SchemaVersion => "schema_version",
            Field::Ts => "ts",
            Field::MonotonicMs => "monotonic_ms",
            Field::IdleMs => "idle_ms",
            Field::Focus => "focus",
            Field::Windows => "windows",
            Field::Cursor => "cursor",
            Field::Displays => "displays",
            Field::TerminalCtx => "terminal_ctx",
            Field::NetConnections => "net_connections",
            Field::FsEvents => "fs_events",
            Field::Id => "id",
            Field::Title => "title",
            Field::App => "app",
            Field::Pid => "pid",
            Field::Bounds => "bounds",
            Field::Workspace => "workspace",
            Field::IsMinimized => "is_minimized",
            Field::IsFullscreen => "is_fullscreen",
            Field::X => "x",
            Field::Y => "y",
            Field::W => "w",
            Field::H => "h",
            Field::IsPrimary => "is_primary",
            Field::ScaleFactor => "scale_factor",
            Field::Cwd => "cwd",
            Field::Shell => "shell",
            Field::Proto => "proto",
            Field::LocalPort => "local_port",
            Field::RemoteAddr => "remote_addr",
            Field::RemotePort => "remote_port",
            Field::State => "state",
            Field::Path => "path",
            Field::Kind => "kind",
        }
    }
}

/// A record as a tree. Timestamps (microseconds) and scale factors
/// (thousandths) are leaves of their own, since they are written as
/// fractional numbers.
pub enum Json {
    Bool(bool),
    Int(int),
    Time(int),
    Milli(int),
    Str(Seq<char>),
    Array(Seq<Json>),
    Object(Map<Field, Json>),
}

/// One step of a path into a tree.
#[derive(Debug, Clone, PartialEq, Eq)]
pub enum PathSeg {
    Key(Field),
    Index(usize),
}

/// The operations of a patch.
#[derive(Debug, Clone, Copy, PartialEq, Eq, Structural)]
pub enum PatchKind {
    Add,
    Remove,
    Replace,
}

/// One operation in tree terms.
pub struct Op {
    pub kind: PatchKind,
    pub path: Seq<PathSeg>,
    pub value: Json,
}

/// The node that one step leads to, where there is one.
pub open spec fn child(doc: Json, seg: PathSeg) -> Option<Json> {
    match (doc, seg) {
        (Json::Object(m), PathSeg::Key(k)) => if m.contains_key(k) {
            Some(m[k])
        } else {
            None
        },
        (Json::Array(s), PathSeg::Index(i)) => if i < s.len() {
            Some(s[i as int])
        } else {
            None
        },
        _ => None,
    }
}

/// `doc` with the node one step along replaced by `c`.
pub open spec fn with_child(doc: Json, seg: PathSeg, c: Json) -> Json {
    match (doc, seg) {
        (Json::Object(m), PathSeg::Key(k)) => Json::Object(m.insert(k, c)),
        (Json::Array(s), PathSeg::Index(i)) => Json::Array(s.update(i as int, c)),
        _ => doc,
    }
}

/// The operation applied at the end of its path: `add` inserts into an
/// array or sets a key, `replace` overwrites what is there, `remove` deletes
/// it. `None` where the path does not lead anywhere valid.
pub open spec fn apply_last(doc: Json, seg: PathSeg, kind: PatchKind, v: Json) -> Option<Json> {
    match (doc, seg) {
        (Json::Object(m), PathSeg::Key(k)) => match kind {
            PatchKind::Add => Some(Json::Object(m.insert(k, v))),
            PatchKind::Replace => if m.contains_key(k) {
                Some(Json::Object(m.insert(k, v)))
            } else {
                None
            },
            PatchKind::Remove => if m.contains_key(k) {
                Some(Json::Object(m.remove(k)))
            } else {
                None
            },
        },
        (Json::Array(s), PathSeg::Index(i)) => match kind {
            PatchKind::Add => if i <= s.len() {
                Some(Json::Array(s.insert(i as int, v)))
            } else {
                None
            },
            PatchKind::Replace => if i < s.len() {
                Some(Json::Array(s.update(i as int, v)))
            } else {
                None
            },
            PatchKind::Remove => if i < s.len() {
                Some(Json::Array(s.remove(i as int)))
            } else {
                None
            },
        },
        _ => None,
    }
}

/// The result of one operation at `path`.
pub open spec fn apply_at(doc: Json, path: Seq<PathSeg>, kind: PatchKind, v: Json) -> Option<Json>
    decreases path.len(),
{
    if path.len() == 0 {
        match kind {
            PatchKind::Remove => None,
            _ => Some(v),
        }
    } else if path.len() == 1 {
        apply_last(doc, path[0], kind, v)
    } else {
        match child(doc, path[0]) {
            Some(c) => match apply_at(c, path.drop_first(), kind, v) {
                Some(c2) => Some(with_child(doc, path[0], c2)),
                None => None,
            },
            None => None,
        }
    }
}

/// The result of applying the operations in order; `None` if one fails.
pub open spec fn apply_all(doc: Json, ops: Seq<Op>) -> Option<Json>
    decreases ops.len(),
{
    if ops.len() == 0 {
        Some(doc)
    } else {
        match apply_at(doc, ops[0].path, ops[0].kind, ops[0].value) {
            Some(d) => apply_all(d, ops.drop_first()),
            None => None,
        }
    }
}

/// The operations with `seg` put in front of each path.
pub open spec fn under(seg: PathSeg, ops: Seq<Op>) -> Seq<Op> {
    ops.map_values(|o: Op| Op { kind: o.kind, path: seq![seg] + o.path, value: o.value })
}

/// Every operation reaches below the root.
pub open spec fn below_root(ops: Seq<Op>) -> bool {
    forall|i: int| 0 <= i < ops.len() ==> (#[trigger] ops[i]).path.len() > 0
}

pub proof fn lemma_apply_concat(doc: Json, a: Seq<Op>, b: Seq<Op>)
    ensures
        apply_all(doc, a + b) == (match apply_all(doc, a) {
            Some(d) => apply_all(d, b),
            None => None,
        }),
    decreases a.len(),
{
    if a.len() == 0 {
        assert(a + b =~= b);
    } else {
        assert((a + b).drop_first() =~= a.drop_first() + b);
        assert((a + b)[0] == a[0]);
        match apply_at(doc, a[0].path, a[0].kind, a[0].value) {
            Some(d) => lemma_apply_concat(d, a.drop_first(), b),
            None => {},
        }
    }
}

proof fn lemma_with_own_child(doc: Json, seg: PathSeg)
    requires
        child(doc, seg) is Some,
    ensures
        with_child(doc, seg, child(doc, seg)->Some_0) == doc,
{
    match (doc, seg) {
        (Json::Object(m), PathSeg::Key(k)) => {
            assert(m.insert(k, m[k]) =~= m);
        },
        (Json::Array(s), PathSeg::Index(i)) => {
            assert(s.update(i as int, s[i as int]) =~= s);
        },
        _ => {},
    }
}

/// Operations under one step act on the node there and leave the rest.
pub proof fn lemma_apply_under(doc: Json, seg: PathSeg, ops: Seq<Op>)
    requires
        child(doc, seg) is Some,
        below_root(ops),
    ensures
        apply_all(doc, under(seg, ops)) == (match apply_all(child(doc, seg)->Some_0, ops) {
            Some(c) => Some(with_child(doc, seg, c)),
            None => None,
        }),
    decreases ops.len(),
{
    let c = child(doc, seg)->Some_0;
    if ops.len() == 0 {
        lemma_with_own_child(doc, seg);
    } else {
        let u = under(seg, ops);
        let o = ops[0];
        assert(o.path.len() > 0);
        assert(u[0].path == seq![seg] + o.path);
        assert(u[0].path.len() >= 2);
        assert((seq![seg] + o.path)[0] == seg);
        assert((seq![seg] + o.path).drop_first() =~= o.path);
        assert(apply_at(doc, u[0].path, u[0].kind, u[0].value) == (match apply_at(
            c,
            o.path,
            o.kind,
            o.value,
        ) {
            Some(c2) => Some(with_child(doc, seg, c2)),
            None => None,
        }));
        assert(u.drop_first() =~= under(seg, ops.drop_first()));
        assert(below_root(ops.drop_first())) by {
            assert forall|i: int| 0 <= i < ops.drop_first().len() implies (
            #[trigger] ops.drop_first()[i]).path.len() > 0 by {
                assert(ops.drop_first()[i] == ops[i + 1]);
            }
        }
        match apply_at(c, o.path, o.kind, o.value) {
            Some(c2) => {
                let d2 = with_child(doc, seg, c2);
                assert(child(d2, seg) == Some(c2));
                lemma_apply_under(d2, seg, ops.drop_first());
                assert(with_child(d2, seg, c2) == d2) by {
                    match (doc, seg) {
                        (Json::Object(m), PathSeg::Key(k)) => {
                            assert(m.insert(k, c2).insert(k, c2) =~= m.insert(k, c2));
                        },
                        (Json::Array(s), PathSeg::Index(i)) => {
                            assert(s.update(i as int, c2).update(i as int, c2) =~= s.update(
                                i as int,
                                c2,
                            ));
                        },
                        _ => {},
                    }
                }
                match apply_all(c2, ops.drop_first()) {
                    Some(c3) => {
                        assert(with_child(d2, seg, c3) == with_child(doc, seg, c3)) by {
                            match (doc, seg) {
                                (Json::Object(m), PathSeg::Key(k)) => {
                                    assert(m.insert(k, c2).insert(k, c3) =~= m.insert(k, c3));
                                },
                                (Json::Array(s), PathSeg::Index(i)) => {
                                    assert(s.update(i as int, c2).update(i as int, c3)
                                        =~= s.update(i as int, c3));
                                },
                                _ => {},
                            }
                        }
                    },
                    None => {},
                }
            },
            None => {},
        }
    }
}

} // verus!
