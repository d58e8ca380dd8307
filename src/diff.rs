//! The diff engine: the canonical tree of a momentary record, and a
//! structural patch from one record to the next that turns the first tree
//! into the second.
use vstd::prelude::*;

use crate::json::{
    apply_all, below_root, child, lemma_apply_concat, lemma_apply_under, under,
    Field, Json, Op, PatchKind, PathSeg,
};
use crate::observation::{
    fs_event_kind_name, Bounds, ConnInfo, DisplayInfo, FSEvent, Observation, Point, TerminalCtx,
    WindowInfo,
};
use crate::observer::copy_window;
use crate::text::str_eq;

verus! {

/// A value carried by an `add` or `replace` operation.
#[derive(Debug, Clone, PartialEq, Eq)]
pub enum PatchValue {
    Bool(bool),
    Int(i128),
    /// Microseconds since the Unix epoch.
    Time(u64),
    /// Thousandths.
    Milli(u32),
    Str(String),
    Window(WindowInfo),
    Display(DisplayInfo),
    Conn(ConnInfo),
    Event(FSEvent),
    Terminal(TerminalCtx),
    Point(Point),
    Bounds(Bounds),
}

/// One operation of a patch.
#[derive(Debug, Clone, PartialEq, Eq)]
pub struct PatchOp {
    pub op: PatchKind,
    pub path: Vec<PathSeg>,
    /// The value of an `add` or `replace`.
    pub value: Option<PatchValue>,
}

/// A patch between two momentary records, stamped with the later one's
/// timestamp and monotonic duration.
#[derive(Debug, Clone, PartialEq, Eq)]
pub struct DiffEnvelope {
    /// Microseconds since the Unix epoch.
    pub ts: u64,
    pub monotonic_ms: u64,
    pub patch: Vec<PatchOp>,
}

pub open spec fn bounds_json(b: Bounds) -> Json {
    Json::Object(
        Map::empty().insert(Field::X, Json::Int(b.x as int)).insert(
            Field::Y,
            Json::Int(b.y as int),
        ).insert(Field::W, Json::Int(b.w as int)).insert(Field::H, Json::Int(b.h as int)),
    )
}

pub open spec fn point_json(p: Point) -> Json {
    Json::Object(
        Map::empty().insert(Field::X, Json::Int(p.x as int)).insert(
            Field::Y,
            Json::Int(p.y as int),
        ),
    )
}

pub open spec fn window_json(w: WindowInfo) -> Json {
    Json::Object(
        Map::empty().insert(Field::Id, Json::Str(w.id@)).insert(
            Field::Title,
            Json::Str(w.title@),
        ).insert(Field::App, Json::Str(w.app@)).insert(Field::Pid, Json::Int(w.pid as int)).insert(
            Field::Bounds,
            bounds_json(w.bounds),
        ).insert(Field::Workspace, Json::Int(w.workspace as int)).insert(
            Field::IsMinimized,
            Json::Bool(w.is_minimized),
        ).insert(Field::IsFullscreen, Json::Bool(w.is_fullscreen)),
    )
}

pub open spec fn display_json(d: DisplayInfo) -> Json {
    Json::Object(
        Map::empty().insert(Field::Id, Json::Int(d.id as int)).insert(
            Field::Bounds,
            bounds_json(d.bounds),
        ).insert(Field::IsPrimary, Json::Bool(d.is_primary)).insert(
            Field::ScaleFactor,
            Json::Milli(d.scale_milli as int),
        ),
    )
}

pub open spec fn terminal_json(t: TerminalCtx) -> Json {
    Json::Object(
        Map::empty().insert(Field::Cwd, Json::Str(t.cwd@)).insert(Field::Shell, Json::Str(t.shell@)),
    )
}

pub open spec fn conn_json(c: ConnInfo) -> Json {
    Json::Object(
        Map::empty().insert(Field::Proto, Json::Str(c.proto@)).insert(
            Field::LocalPort,
            Json::Int(c.local_port as int),
        ).insert(Field::RemoteAddr, Json::Str(c.remote_addr@)).insert(
            Field::RemotePort,
            Json::Int(c.remote_port as int),
        ).insert(Field::Pid, Json::Int(c.pid as int)).insert(Field::App, Json::Str(c.app@)).insert(
            Field::State,
            Json::Str(c.state@),
        ),
    )
}

pub open spec fn event_json(e: FSEvent) -> Json {
    Json::Object(
        Map::empty().insert(Field::Path, Json::Str(e.path@)).insert(
            Field::Kind,
            Json::Str(fs_event_kind_name(e.kind)),
        ).insert(Field::Ts, Json::Time(e.ts as int)),
    )
}

/// The canonical tree of a momentary record; absent optional fields have no
/// key at all.
pub open spec fn observation_json(o: Observation) -> Json {
    let base = Map::empty().insert(Field::SchemaVersion, Json::Int(o.schema_version as int)).insert(
        Field::Ts,
        Json::Time(o.ts as int),
    ).insert(Field::MonotonicMs, Json::Int(o.monotonic_ms as int)).insert(
        Field::IdleMs,
        Json::Int(o.idle_ms as int),
    ).insert(Field::Windows, Json::Array(o.windows@.map_values(|w: WindowInfo| window_json(w)))).insert(
        Field::Cursor,
        point_json(o.cursor),
    ).insert(
        Field::Displays,
        Json::Array(o.displays@.map_values(|d: DisplayInfo| display_json(d))),
    ).insert(
        Field::NetConnections,
        Json::Array(o.net_connections@.map_values(|c: ConnInfo| conn_json(c))),
    ).insert(Field::FsEvents, Json::Array(o.fs_events@.map_values(|e: FSEvent| event_json(e))));
    let with_focus = match o.focus {
        Some(w) => base.insert(Field::Focus, window_json(w)),
        None => base,
    };
    Json::Object(
        match o.terminal_ctx {
            Some(t) => with_focus.insert(Field::TerminalCtx, terminal_json(t)),
            None => with_focus,
        },
    )
}

pub open spec fn value_json(v: PatchValue) -> Json {
    match v {
        PatchValue::Bool(b) => Json::Bool(b),
        PatchValue::Int(i) => Json::Int(i as int),
        PatchValue::Time(t) => Json::Time(t as int),
        PatchValue::Milli(m) => Json::Milli(m as int),
        PatchValue::Str(s) => Json::Str(s@),
        PatchValue::Window(w) => window_json(w),
        PatchValue::Display(d) => display_json(d),
        PatchValue::Conn(c) => conn_json(c),
        PatchValue::Event(e) => event_json(e),
        PatchValue::Terminal(t) => terminal_json(t),
        PatchValue::Point(p) => point_json(p),
        PatchValue::Bounds(b) => bounds_json(b),
    }
}

/// An operation in tree terms.
pub open spec fn op_view(o: PatchOp) -> Op {
    Op {
        kind: o.op,
        path: o.path@,
        value: match o.value {
            Some(v) => value_json(v),
            None => Json::Bool(false),
        },
    }
}

/// A patch in tree terms.
pub open spec fn ops_view(s: Seq<PatchOp>) -> Seq<Op> {
    s.map_values(|o: PatchOp| op_view(o))
}

fn copy_seg(s: &PathSeg) -> (r: PathSeg)
    ensures
        r == *s,
{
    match s {
        PathSeg::Key(k) => PathSeg::Key(*k),
        PathSeg::Index(i) => PathSeg::Index(*i),
    }
}

/// Appends `more` to `ops`.
fn extend(ops: &mut Vec<PatchOp>, more: Vec<PatchOp>)
    requires
        below_root(ops_view(old(ops)@)),
        below_root(ops_view(more@)),
    ensures
        ops_view(final(ops)@) == ops_view(old(ops)@) + ops_view(more@),
        below_root(ops_view(final(ops)@)),
{
    let mut more = more;
    let ghost a = ops_view(ops@);
    let ghost b = ops_view(more@);
    ops.append(&mut more);
    assert(ops_view(ops@) =~= a + b);
    assert forall|i: int| 0 <= i < (a + b).len() implies (#[trigger] (a + b)[i]).path.len() > 0 by {
        if i < a.len() {
            assert((a + b)[i] == a[i]);
        } else {
            assert((a + b)[i] == b[i - a.len()]);
        }
    }
}

/// A `replace` of the field `key` with `v` where `changed`, else nothing.
fn leaf_op(key: Field, changed: bool, v: PatchValue) -> (r: Vec<PatchOp>)
    ensures
        below_root(ops_view(r@)),
        forall|m: Map<Field, Json>|
            m.contains_key(key) && (changed || m[key] == value_json(v)) ==> #[trigger] apply_all(
                Json::Object(m),
                ops_view(r@),
            ) == Some(Json::Object(m.insert(key, value_json(v)))),
{
    if changed {
        let r = vec![PatchOp { op: PatchKind::Replace, path: vec![PathSeg::Key(key)], value: Some(v) }];
        assert forall|m: Map<Field, Json>|
            m.contains_key(key) && (changed || m[key] == value_json(v)) implies #[trigger] apply_all(
            Json::Object(m),
            ops_view(r@),
        ) == Some(Json::Object(m.insert(key, value_json(v)))) by {
            let ov = ops_view(r@);
            assert(ov.len() == 1);
            assert(ov.drop_first() =~= Seq::<Op>::empty());
            assert(ov[0].path =~= seq![PathSeg::Key(key)]);
            assert(ov[0].kind == PatchKind::Replace);
            assert(ov[0].value == value_json(v));
            let m2 = Json::Object(m.insert(key, value_json(v)));
            assert(apply_all(m2, Seq::<Op>::empty()) == Some(m2));
        }
        r
    } else {
        let r: Vec<PatchOp> = Vec::new();
        assert forall|m: Map<Field, Json>|
            m.contains_key(key) && (changed || m[key] == value_json(v)) implies #[trigger] apply_all(
            Json::Object(m),
            ops_view(r@),
        ) == Some(Json::Object(m.insert(key, value_json(v)))) by {
            assert(m.insert(key, value_json(v)) =~= m);
        }
        r
    }
}

/// `inner` with `seg` put in front of each path.
fn nest(seg: PathSeg, inner: Vec<PatchOp>) -> (r: Vec<PatchOp>)
    requires
        below_root(ops_view(inner@)),
    ensures
        ops_view(r@) == under(seg, ops_view(inner@)),
        below_root(ops_view(r@)),
{
    let ghost target = under(seg, ops_view(inner@));
    let mut src = inner;
    let ghost all = src@;
    let mut r: Vec<PatchOp> = Vec::new();
    let mut j: usize = 0;
    let n: usize = src.len();
    while src.len() > 0
        invariant
            n == all.len(),
            j <= all.len(),
            src@ == all.subrange(j as int, all.len() as int),
            target == under(seg, ops_view(all)),
            ops_view(r@) == target.subrange(0, j as int),
        decreases src.len(),
    {
        let o = src.remove(0);
        let ghost og = o;
        let PatchOp { op, path, value } = o;
        let mut path = path;
        let ghost r0 = r@;
        assert(ops_view(r0).len() == r0.len());
        path.insert(0, copy_seg(&seg));
        assert(path@ =~= seq![seg] + og.path@);
        let newop = PatchOp { op, path, value };
        assert(op_view(newop) == target[j as int]) by {
            assert(all[j as int] == og);
        }
        r.push(newop);
        assert(ops_view(r@) =~= ops_view(r0).push(target[j as int]));
        j = j + 1;
        assert(ops_view(r@) =~= target.subrange(0, j as int));
        assert(src@ =~= all.subrange(j as int, all.len() as int));
    }
    assert(target.subrange(0, j as int) =~= target);
    assert forall|i: int| 0 <= i < target.len() implies (#[trigger] target[i]).path.len() > 0 by {
        assert(target[i].path == seq![seg] + ops_view(all)[i].path);
    }
    r
}

/// A nested patch under the field `key` takes the field from `x` to `y`.
proof fn lemma_nested_field(m: Map<Field, Json>, key: Field, inner: Seq<Op>, y: Json)
    requires
        m.contains_key(key),
        below_root(inner),
        apply_all(m[key], inner) == Some(y),
    ensures
        apply_all(Json::Object(m), under(PathSeg::Key(key), inner)) == Some(
            Json::Object(m.insert(key, y)),
        ),
{
    lemma_apply_under(Json::Object(m), PathSeg::Key(key), inner);
}

} // verus!

verus! {

/// Appends the `replace` of a leaf field, where it changed.
fn add_leaf(
    ops: &mut Vec<PatchOp>,
    Ghost(start): Ghost<Json>,
    Ghost(cur): Ghost<Map<Field, Json>>,
    key: Field,
    changed: bool,
    v: PatchValue,
)
    requires
        below_root(ops_view(old(ops)@)),
        apply_all(start, ops_view(old(ops)@)) == Some(Json::Object(cur)),
        cur.contains_key(key),
        changed || cur[key] == value_json(v),
    ensures
        below_root(ops_view(final(ops)@)),
        apply_all(start, ops_view(final(ops)@)) == Some(Json::Object(cur.insert(key, value_json(v)))),
{
    let ghost vj = value_json(v);
    let more = leaf_op(key, changed, v);
    let ghost before = ops_view(ops@);
    let ghost added = ops_view(more@);
    assert(apply_all(Json::Object(cur), added) == Some(Json::Object(cur.insert(key, vj))));
    extend(ops, more);
    proof {
        lemma_apply_concat(start, before, added);
    }
}

/// Appends a patch of the field `key` that takes it to `y`.
fn add_nested(
    ops: &mut Vec<PatchOp>,
    Ghost(start): Ghost<Json>,
    Ghost(cur): Ghost<Map<Field, Json>>,
    key: Field,
    inner: Vec<PatchOp>,
    Ghost(y): Ghost<Json>,
)
    requires
        below_root(ops_view(old(ops)@)),
        apply_all(start, ops_view(old(ops)@)) == Some(Json::Object(cur)),
        cur.contains_key(key),
        below_root(ops_view(inner@)),
        apply_all(cur[key], ops_view(inner@)) == Some(y),
    ensures
        below_root(ops_view(final(ops)@)),
        apply_all(start, ops_view(final(ops)@)) == Some(Json::Object(cur.insert(key, y))),
{
    let ghost iv = ops_view(inner@);
    let more = nest(PathSeg::Key(key), inner);
    let ghost before = ops_view(ops@);
    let ghost added = ops_view(more@);
    proof {
        lemma_nested_field(cur, key, iv, y);
    }
    extend(ops, more);
    proof {
        lemma_apply_concat(start, before, added);
    }
}

/// Appends one operation at the field `key`.
fn add_at_key(
    ops: &mut Vec<PatchOp>,
    Ghost(start): Ghost<Json>,
    Ghost(cur): Ghost<Map<Field, Json>>,
    kind: PatchKind,
    key: Field,
    v: Option<PatchValue>,
)
    requires
        below_root(ops_view(old(ops)@)),
        apply_all(start, ops_view(old(ops)@)) == Some(Json::Object(cur)),
        kind == PatchKind::Add ==> v is Some,
        kind == PatchKind::Remove ==> cur.contains_key(key),
        kind != PatchKind::Replace,
    ensures
        below_root(ops_view(final(ops)@)),
        apply_all(start, ops_view(final(ops)@)) == Some(
            Json::Object(
                if kind == PatchKind::Add {
                    cur.insert(key, value_json(v->Some_0))
                } else {
                    cur.remove(key)
                },
            ),
        ),
{
    let more = vec![PatchOp { op: kind, path: vec![PathSeg::Key(key)], value: v }];
    let ghost before = ops_view(ops@);
    let ghost added = ops_view(more@);
    proof {
        assert(added.len() == 1);
        assert(added.drop_first() =~= Seq::<Op>::empty());
        assert(added[0].path =~= seq![PathSeg::Key(key)]);
        let end = Json::Object(
            if kind == PatchKind::Add {
                cur.insert(key, value_json(v->Some_0))
            } else {
                cur.remove(key)
            },
        );
        assert(apply_all(end, Seq::<Op>::empty()) == Some(end));
        assert(apply_all(Json::Object(cur), added) == Some(end));
        assert(below_root(added));
    }
    extend(ops, more);
    proof {
        lemma_apply_concat(start, before, added);
    }
}

/// The object map of a tree that is an object.
pub open spec fn fields_of(j: Json) -> Map<Field, Json> {
    match j {
        Json::Object(m) => m,
        _ => Map::empty(),
    }
}

fn diff_bounds(a: &Bounds, b: &Bounds) -> (r: Vec<PatchOp>)
    ensures
        below_root(ops_view(r@)),
        apply_all(bounds_json(*a), ops_view(r@)) == Some(bounds_json(*b)),
{
    let ghost s = bounds_json(*a);
    let ghost m0 = fields_of(s);
    let mut ops: Vec<PatchOp> = Vec::new();
    add_leaf(&mut ops, Ghost(s), Ghost(m0), Field::X, a.x != b.x, PatchValue::Int(b.x as i128));
    let ghost m1 = m0.insert(Field::X, Json::Int(b.x as int));
    add_leaf(&mut ops, Ghost(s), Ghost(m1), Field::Y, a.y != b.y, PatchValue::Int(b.y as i128));
    let ghost m2 = m1.insert(Field::Y, Json::Int(b.y as int));
    add_leaf(&mut ops, Ghost(s), Ghost(m2), Field::W, a.w != b.w, PatchValue::Int(b.w as i128));
    let ghost m3 = m2.insert(Field::W, Json::Int(b.w as int));
    add_leaf(&mut ops, Ghost(s), Ghost(m3), Field::H, a.h != b.h, PatchValue::Int(b.h as i128));
    let ghost m4 = m3.insert(Field::H, Json::Int(b.h as int));
    assert(m4 =~= fields_of(bounds_json(*b)));
    ops
}

fn diff_point(a: &Point, b: &Point) -> (r: Vec<PatchOp>)
    ensures
        below_root(ops_view(r@)),
        apply_all(point_json(*a), ops_view(r@)) == Some(point_json(*b)),
{
    let ghost s = point_json(*a);
    let ghost m0 = fields_of(s);
    let mut ops: Vec<PatchOp> = Vec::new();
    add_leaf(&mut ops, Ghost(s), Ghost(m0), Field::X, a.x != b.x, PatchValue::Int(b.x as i128));
    let ghost m1 = m0.insert(Field::X, Json::Int(b.x as int));
    add_leaf(&mut ops, Ghost(s), Ghost(m1), Field::Y, a.y != b.y, PatchValue::Int(b.y as i128));
    let ghost m2 = m1.insert(Field::Y, Json::Int(b.y as int));
    assert(m2 =~= fields_of(point_json(*b)));
    ops
}

/// Records that the diff engine compares element by element.
pub trait Diffable: Sized {
    /// The canonical tree of the record.
    spec fn tree(self) -> Json;

    /// A patch that takes this record's tree to `other`'s.
    fn diff_to(&self, other: &Self) -> (r: Vec<PatchOp>)
        ensures
            below_root(ops_view(r@)),
            apply_all(self.tree(), ops_view(r@)) == Some(other.tree()),
    ;

    /// The record as a patch value.
    fn to_value(&self) -> (r: PatchValue)
        ensures
            value_json(r) == self.tree(),
    ;

    /// A copy of the record.
    fn duplicate(&self) -> (r: Self)
        ensures
            r.tree() == self.tree(),
    ;
}

impl Diffable for WindowInfo {
    open spec fn tree(self) -> Json {
        window_json(self)
    }

    fn diff_to(&self, b: &Self) -> (r: Vec<PatchOp>) {
        let a = self;
        let ghost s = window_json(*a);
        let ghost m0 = fields_of(s);
        let mut ops: Vec<PatchOp> = Vec::new();
        add_leaf(
            &mut ops,
            Ghost(s),
            Ghost(m0),
            Field::Id,
            !str_eq(a.id.as_str(), b.id.as_str()),
            PatchValue::Str(b.id.clone()),
        );
        let ghost m1 = m0.insert(Field::Id, Json::Str(b.id@));
        add_leaf(
            &mut ops,
            Ghost(s),
            Ghost(m1),
            Field::Title,
            !str_eq(a.title.as_str(), b.title.as_str()),
            PatchValue::Str(b.title.clone()),
        );
        let ghost m2 = m1.insert(Field::Title, Json::Str(b.title@));
        add_leaf(
            &mut ops,
            Ghost(s),
            Ghost(m2),
            Field::App,
            !str_eq(a.app.as_str(), b.app.as_str()),
            PatchValue::Str(b.app.clone()),
        );
        let ghost m3 = m2.insert(Field::App, Json::Str(b.app@));
        add_leaf(
            &mut ops,
            Ghost(s),
            Ghost(m3),
            Field::Pid,
            a.pid != b.pid,
            PatchValue::Int(b.pid as i128),
        );
        let ghost m4 = m3.insert(Field::Pid, Json::Int(b.pid as int));
        let inner = diff_bounds(&a.bounds, &b.bounds);
        add_nested(&mut ops, Ghost(s), Ghost(m4), Field::Bounds, inner, Ghost(bounds_json(b.bounds)));
        let ghost m5 = m4.insert(Field::Bounds, bounds_json(b.bounds));
        add_leaf(
            &mut ops,
            Ghost(s),
            Ghost(m5),
            Field::Workspace,
            a.workspace != b.workspace,
            PatchValue::Int(b.workspace as i128),
        );
        let ghost m6 = m5.insert(Field::Workspace, Json::Int(b.workspace as int));
        add_leaf(
            &mut ops,
            Ghost(s),
            Ghost(m6),
            Field::IsMinimized,
            a.is_minimized != b.is_minimized,
            PatchValue::Bool(b.is_minimized),
        );
        let ghost m7 = m6.insert(Field::IsMinimized, Json::Bool(b.is_minimized));
        add_leaf(
            &mut ops,
            Ghost(s),
            Ghost(m7),
            Field::IsFullscreen,
            a.is_fullscreen != b.is_fullscreen,
            PatchValue::Bool(b.is_fullscreen),
        );
        let ghost m8 = m7.insert(Field::IsFullscreen, Json::Bool(b.is_fullscreen));
        assert(m8 =~= fields_of(window_json(*b)));
        ops
    }

    fn to_value(&self) -> (r: PatchValue) {
        PatchValue::Window(copy_window(self))
    }

    fn duplicate(&self) -> (r: Self) {
        copy_window(self)
    }
}

} // verus!

verus! {

impl Diffable for DisplayInfo {
    open spec fn tree(self) -> Json {
        display_json(self)
    }

    fn diff_to(&self, b: &Self) -> (r: Vec<PatchOp>) {
        let a = self;
        let ghost s = display_json(*a);
        let ghost m0 = fields_of(s);
        let mut ops: Vec<PatchOp> = Vec::new();
        add_leaf(&mut ops, Ghost(s), Ghost(m0), Field::Id, a.id != b.id, PatchValue::Int(b.id as i128));
        let ghost m1 = m0.insert(Field::Id, Json::Int(b.id as int));
        let inner = diff_bounds(&a.bounds, &b.bounds);
        add_nested(&mut ops, Ghost(s), Ghost(m1), Field::Bounds, inner, Ghost(bounds_json(b.bounds)));
        let ghost m2 = m1.insert(Field::Bounds, bounds_json(b.bounds));
        add_leaf(
            &mut ops,
            Ghost(s),
            Ghost(m2),
            Field::IsPrimary,
            a.is_primary != b.is_primary,
            PatchValue::Bool(b.is_primary),
        );
        let ghost m3 = m2.insert(Field::IsPrimary, Json::Bool(b.is_primary));
        add_leaf(
            &mut ops,
            Ghost(s),
            Ghost(m3),
            Field::ScaleFactor,
            a.scale_milli != b.scale_milli,
            PatchValue::Milli(b.scale_milli),
        );
        let ghost m4 = m3.insert(Field::ScaleFactor, Json::Milli(b.scale_milli as int));
        assert(m4 =~= fields_of(display_json(*b)));
        ops
    }

    fn to_value(&self) -> (r: PatchValue) {
        PatchValue::Display(self.duplicate())
    }

    fn duplicate(&self) -> (r: Self) {
        DisplayInfo {
            id: self.id,
            bounds: self.bounds,
            is_primary: self.is_primary,
            scale_milli: self.scale_milli,
        }
    }
}

impl Diffable for ConnInfo {
    open spec fn tree(self) -> Json {
        conn_json(self)
    }

    fn diff_to(&self, b: &Self) -> (r: Vec<PatchOp>) {
        let a = self;
        let ghost s = conn_json(*a);
        let ghost m0 = fields_of(s);
        let mut ops: Vec<PatchOp> = Vec::new();
        add_leaf(
            &mut ops,
            Ghost(s),
            Ghost(m0),
            Field::Proto,
            !str_eq(a.proto.as_str(), b.proto.as_str()),
            PatchValue::Str(b.proto.clone()),
        );
        let ghost m1 = m0.insert(Field::Proto, Json::Str(b.proto@));
        add_leaf(
            &mut ops,
            Ghost(s),
            Ghost(m1),
            Field::LocalPort,
            a.local_port != b.local_port,
            PatchValue::Int(b.local_port as i128),
        );
        let ghost m2 = m1.insert(Field::LocalPort, Json::Int(b.local_port as int));
        add_leaf(
            &mut ops,
            Ghost(s),
            Ghost(m2),
            Field::RemoteAddr,
            !str_eq(a.remote_addr.as_str(), b.remote_addr.as_str()),
            PatchValue::Str(b.remote_addr.clone()),
        );
        let ghost m3 = m2.insert(Field::RemoteAddr, Json::Str(b.remote_addr@));
        add_leaf(
            &mut ops,
            Ghost(s),
            Ghost(m3),
            Field::RemotePort,
            a.remote_port != b.remote_port,
            PatchValue::Int(b.remote_port as i128),
        );
        let ghost m4 = m3.insert(Field::RemotePort, Json::Int(b.remote_port as int));
        add_leaf(
            &mut ops,
            Ghost(s),
            Ghost(m4),
            Field::Pid,
            a.pid != b.pid,
            PatchValue::Int(b.pid as i128),
        );
        let ghost m5 = m4.insert(Field::Pid, Json::Int(b.pid as int));
        add_leaf(
            &mut ops,
            Ghost(s),
            Ghost(m5),
            Field::App,
            !str_eq(a.app.as_str(), b.app.as_str()),
            PatchValue::Str(b.app.clone()),
        );
        let ghost m6 = m5.insert(Field::App, Json::Str(b.app@));
        add_leaf(
            &mut ops,
            Ghost(s),
            Ghost(m6),
            Field::State,
            !str_eq(a.state.as_str(), b.state.as_str()),
            PatchValue::Str(b.state.clone()),
        );
        let ghost m7 = m6.insert(Field::State, Json::Str(b.state@));
        assert(m7 =~= fields_of(conn_json(*b)));
        ops
    }

    fn to_value(&self) -> (r: PatchValue) {
        PatchValue::Conn(self.duplicate())
    }

    fn duplicate(&self) -> (r: Self) {
        ConnInfo {
            proto: self.proto.clone(),
            local_port: self.local_port,
            remote_addr: self.remote_addr.clone(),
            remote_port: self.remote_port,
            pid: self.pid,
            app: self.app.clone(),
            state: self.state.clone(),
        }
    }
}

impl Diffable for FSEvent {
    open spec fn tree(self) -> Json {
        event_json(self)
    }

    fn diff_to(&self, b: &Self) -> (r: Vec<PatchOp>) {
        let a = self;
        let ghost s = event_json(*a);
        let ghost m0 = fields_of(s);
        let mut ops: Vec<PatchOp> = Vec::new();
        add_leaf(
            &mut ops,
            Ghost(s),
            Ghost(m0),
            Field::Path,
            !str_eq(a.path.as_str(), b.path.as_str()),
            PatchValue::Str(b.path.clone()),
        );
        let ghost m1 = m0.insert(Field::Path, Json::Str(b.path@));
        add_leaf(
            &mut ops,
            Ghost(s),
            Ghost(m1),
            Field::Kind,
            a.kind != b.kind,
            PatchValue::Str(String::from_str(b.kind.name())),
        );
        let ghost m2 = m1.insert(Field::Kind, Json::Str(fs_event_kind_name(b.kind)));
        add_leaf(&mut ops, Ghost(s), Ghost(m2), Field::Ts, a.ts != b.ts, PatchValue::Time(b.ts));
        let ghost m3 = m2.insert(Field::Ts, Json::Time(b.ts as int));
        assert(m3 =~= fields_of(event_json(*b)));
        ops
    }

    fn to_value(&self) -> (r: PatchValue) {
        PatchValue::Event(self.duplicate())
    }

    fn duplicate(&self) -> (r: Self) {
        FSEvent { path: self.path.clone(), kind: self.kind, ts: self.ts }
    }
}

impl Diffable for TerminalCtx {
    open spec fn tree(self) -> Json {
        terminal_json(self)
    }

    fn diff_to(&self, b: &Self) -> (r: Vec<PatchOp>) {
        let a = self;
        let ghost s = terminal_json(*a);
        let ghost m0 = fields_of(s);
        let mut ops: Vec<PatchOp> = Vec::new();
        add_leaf(
            &mut ops,
            Ghost(s),
            Ghost(m0),
            Field::Cwd,
            !str_eq(a.cwd.as_str(), b.cwd.as_str()),
            PatchValue::Str(b.cwd.clone()),
        );
        let ghost m1 = m0.insert(Field::Cwd, Json::Str(b.cwd@));
        add_leaf(
            &mut ops,
            Ghost(s),
            Ghost(m1),
            Field::Shell,
            !str_eq(a.shell.as_str(), b.shell.as_str()),
            PatchValue::Str(b.shell.clone()),
        );
        let ghost m2 = m1.insert(Field::Shell, Json::Str(b.shell@));
        assert(m2 =~= fields_of(terminal_json(*b)));
        ops
    }

    fn to_value(&self) -> (r: PatchValue) {
        PatchValue::Terminal(self.duplicate())
    }

    fn duplicate(&self) -> (r: Self) {
        TerminalCtx { cwd: self.cwd.clone(), shell: self.shell.clone() }
    }
}

/// The trees of the elements of `s`.
pub open spec fn trees<T: Diffable>(s: Seq<T>) -> Seq<Json> {
    s.map_values(|x: T| x.tree())
}

/// Appends one operation at an array index.
fn add_at_index(
    ops: &mut Vec<PatchOp>,
    Ghost(start): Ghost<Json>,
    Ghost(cur): Ghost<Seq<Json>>,
    kind: PatchKind,
    i: usize,
    v: Option<PatchValue>,
)
    requires
        below_root(ops_view(old(ops)@)),
        apply_all(start, ops_view(old(ops)@)) == Some(Json::Array(cur)),
        kind == PatchKind::Add ==> v is Some && i <= cur.len(),
        kind == PatchKind::Remove ==> i < cur.len(),
        kind != PatchKind::Replace,
    ensures
        below_root(ops_view(final(ops)@)),
        apply_all(start, ops_view(final(ops)@)) == Some(
            Json::Array(
                if kind == PatchKind::Add {
                    cur.insert(i as int, value_json(v->Some_0))
                } else {
                    cur.remove(i as int)
                },
            ),
        ),
{
    let more = vec![PatchOp { op: kind, path: vec![PathSeg::Index(i)], value: v }];
    let ghost before = ops_view(ops@);
    let ghost added = ops_view(more@);
    proof {
        assert(added.len() == 1);
        assert(added.drop_first() =~= Seq::<Op>::empty());
        assert(added[0].path =~= seq![PathSeg::Index(i)]);
        let end = Json::Array(
            if kind == PatchKind::Add {
                cur.insert(i as int, value_json(v->Some_0))
            } else {
                cur.remove(i as int)
            },
        );
        assert(apply_all(end, Seq::<Op>::empty()) == Some(end));
        assert(apply_all(Json::Array(cur), added) == Some(end));
        assert(below_root(added));
    }
    extend(ops, more);
    proof {
        lemma_apply_concat(start, before, added);
    }
}

/// A positional patch from one list of records to another: element patches
/// where both have an element, then additions at the end or removals from
/// the end.
fn diff_seq<T: Diffable>(a: &Vec<T>, b: &Vec<T>) -> (r: Vec<PatchOp>)
    ensures
        below_root(ops_view(r@)),
        apply_all(Json::Array(trees(a@)), ops_view(r@)) == Some(Json::Array(trees(b@))),
{
    let ghost s = Json::Array(trees(a@));
    let ghost ta = trees(a@);
    let ghost tb = trees(b@);
    let common = if a.len() < b.len() {
        a.len()
    } else {
        b.len()
    };
    let mut ops: Vec<PatchOp> = Vec::new();
    assert(ta =~= tb.subrange(0, 0) + ta.subrange(0, ta.len() as int));
    let mut i: usize = 0;
    while i < common
        invariant
            common <= a@.len(),
            common <= b@.len(),
            i <= common,
            ta == trees(a@),
            tb == trees(b@),
            s == Json::Array(ta),
            below_root(ops_view(ops@)),
            apply_all(s, ops_view(ops@)) == Some(
                Json::Array(tb.subrange(0, i as int) + ta.subrange(i as int, ta.len() as int)),
            ),
        decreases common - i,
    {
        let ghost cur = tb.subrange(0, i as int) + ta.subrange(i as int, ta.len() as int);
        let inner = a[i].diff_to(&b[i]);
        let ghost iv = ops_view(inner@);
        let more = nest(PathSeg::Index(i), inner);
        let ghost before = ops_view(ops@);
        let ghost added = ops_view(more@);
        proof {
            assert(cur[i as int] == a@[i as int].tree());
            assert(child(Json::Array(cur), PathSeg::Index(i)) == Some(a@[i as int].tree()));
            lemma_apply_under(Json::Array(cur), PathSeg::Index(i), iv);
            assert(cur.update(i as int, b@[i as int].tree()) =~= tb.subrange(0, i + 1)
                + ta.subrange(i + 1, ta.len() as int));
        }
        extend(&mut ops, more);
        proof {
            lemma_apply_concat(s, before, added);
        }
        i = i + 1;
    }
    if b.len() > a.len() {
        let mut k: usize = a.len();
        assert(tb.subrange(0, k as int) + ta.subrange(k as int, ta.len() as int) =~= tb.subrange(
            0,
            k as int,
        ));
        while k < b.len()
            invariant
                a@.len() <= k <= b@.len(),
                ta == trees(a@),
                tb == trees(b@),
                s == Json::Array(ta),
                below_root(ops_view(ops@)),
                apply_all(s, ops_view(ops@)) == Some(Json::Array(tb.subrange(0, k as int))),
            decreases b.len() - k,
        {
            let v = b[k].to_value();
            add_at_index(&mut ops, Ghost(s), Ghost(tb.subrange(0, k as int)), PatchKind::Add, k, Some(v));
            assert(tb.subrange(0, k as int).insert(k as int, b@[k as int].tree()) =~= tb.subrange(
                0,
                k + 1,
            ));
            k = k + 1;
        }
        assert(tb.subrange(0, k as int) =~= tb);
    } else {
        let mut k: usize = a.len();
        assert(tb.subrange(0, i as int) =~= tb);
        while k > b.len()
            invariant
                b@.len() <= k <= a@.len(),
                common == b@.len(),
                ta == trees(a@),
                tb == trees(b@),
                s == Json::Array(ta),
                below_root(ops_view(ops@)),
                apply_all(s, ops_view(ops@)) == Some(
                    Json::Array(tb + ta.subrange(b@.len() as int, k as int)),
                ),
            decreases k,
        {
            let ghost cur = tb + ta.subrange(b@.len() as int, k as int);
            add_at_index(&mut ops, Ghost(s), Ghost(cur), PatchKind::Remove, k - 1, None);
            assert(cur.remove(k - 1) =~= tb + ta.subrange(b@.len() as int, k - 1));
            k = k - 1;
        }
        assert(tb + ta.subrange(b@.len() as int, k as int) =~= tb);
    }
    ops
}

} // verus!

verus! {

/// Appends the patch of an optional field: an `add` where it appears, a
/// `remove` where it disappears, an element patch where both have it.
fn add_optional<T: Diffable>(
    ops: &mut Vec<PatchOp>,
    Ghost(start): Ghost<Json>,
    Ghost(cur): Ghost<Map<Field, Json>>,
    key: Field,
    a: &Option<T>,
    b: &Option<T>,
)
    requires
        below_root(ops_view(old(ops)@)),
        apply_all(start, ops_view(old(ops)@)) == Some(Json::Object(cur)),
        cur.contains_key(key) <==> a is Some,
        a is Some ==> cur[key] == a->Some_0.tree(),
    ensures
        below_root(ops_view(final(ops)@)),
        apply_all(start, ops_view(final(ops)@)) == Some(
            Json::Object(
                match b {
                    Some(y) => cur.insert(key, y.tree()),
                    None => cur.remove(key),
                },
            ),
        ),
{
    match (a, b) {
        (None, None) => {
            assert(cur.remove(key) =~= cur);
        },
        (None, Some(y)) => {
            add_at_key(ops, Ghost(start), Ghost(cur), PatchKind::Add, key, Some(y.to_value()));
        },
        (Some(_), None) => {
            add_at_key(ops, Ghost(start), Ghost(cur), PatchKind::Remove, key, None);
        },
        (Some(x), Some(y)) => {
            let inner = x.diff_to(y);
            add_nested(ops, Ghost(start), Ghost(cur), key, inner, Ghost(y.tree()));
        },
    }
}

proof fn lemma_trees_windows(s: Seq<WindowInfo>)
    ensures
        trees(s) == s.map_values(|w: WindowInfo| window_json(w)),
{
    assert(trees(s) =~= s.map_values(|w: WindowInfo| window_json(w)));
}

proof fn lemma_trees_displays(s: Seq<DisplayInfo>)
    ensures
        trees(s) == s.map_values(|d: DisplayInfo| display_json(d)),
{
    assert(trees(s) =~= s.map_values(|d: DisplayInfo| display_json(d)));
}

proof fn lemma_trees_conns(s: Seq<ConnInfo>)
    ensures
        trees(s) == s.map_values(|c: ConnInfo| conn_json(c)),
{
    assert(trees(s) =~= s.map_values(|c: ConnInfo| conn_json(c)));
}

proof fn lemma_trees_events(s: Seq<FSEvent>)
    ensures
        trees(s) == s.map_values(|e: FSEvent| event_json(e)),
{
    assert(trees(s) =~= s.map_values(|e: FSEvent| event_json(e)));
}

/// A structural patch that turns the canonical tree of `a` into that of `b`.
#[verifier::rlimit(80)]
pub fn diff_observations(a: &Observation, b: &Observation) -> (r: Vec<PatchOp>)
    ensures
        apply_all(observation_json(*a), ops_view(r@)) == Some(observation_json(*b)),
{
    proof {
        lemma_trees_windows(a.windows@);
        lemma_trees_windows(b.windows@);
        lemma_trees_displays(a.displays@);
        lemma_trees_displays(b.displays@);
        lemma_trees_conns(a.net_connections@);
        lemma_trees_conns(b.net_connections@);
        lemma_trees_events(a.fs_events@);
        lemma_trees_events(b.fs_events@);
    }
    let ghost s = observation_json(*a);
    let ghost m0 = fields_of(s);
    let mut ops: Vec<PatchOp> = Vec::new();
    add_leaf(
        &mut ops,
        Ghost(s),
        Ghost(m0),
        Field::SchemaVersion,
        a.schema_version != b.schema_version,
        PatchValue::Int(b.schema_version as i128),
    );
    let ghost m1 = m0.insert(Field::SchemaVersion, Json::Int(b.schema_version as int));
    add_leaf(&mut ops, Ghost(s), Ghost(m1), Field::Ts, a.ts != b.ts, PatchValue::Time(b.ts));
    let ghost m2 = m1.insert(Field::Ts, Json::Time(b.ts as int));
    add_leaf(
        &mut ops,
        Ghost(s),
        Ghost(m2),
        Field::MonotonicMs,
        a.monotonic_ms != b.monotonic_ms,
        PatchValue::Int(b.monotonic_ms as i128),
    );
    let ghost m3 = m2.insert(Field::MonotonicMs, Json::Int(b.monotonic_ms as int));
    add_leaf(
        &mut ops,
        Ghost(s),
        Ghost(m3),
        Field::IdleMs,
        a.idle_ms != b.idle_ms,
        PatchValue::Int(b.idle_ms as i128),
    );
    let ghost m4 = m3.insert(Field::IdleMs, Json::Int(b.idle_ms as int));
    add_optional(&mut ops, Ghost(s), Ghost(m4), Field::Focus, &a.focus, &b.focus);
    let ghost m5 = if b.focus is Some {
        m4.insert(Field::Focus, window_json(b.focus->Some_0))
    } else {
        m4.remove(Field::Focus)
    };
    let inner = diff_seq(&a.windows, &b.windows);
    add_nested(&mut ops, Ghost(s), Ghost(m5), Field::Windows, inner, Ghost(Json::Array(trees(b.windows@))));
    let ghost m6 = m5.insert(Field::Windows, Json::Array(trees(b.windows@)));
    let inner = diff_point(&a.cursor, &b.cursor);
    add_nested(&mut ops, Ghost(s), Ghost(m6), Field::Cursor, inner, Ghost(point_json(b.cursor)));
    let ghost m7 = m6.insert(Field::Cursor, point_json(b.cursor));
    let inner = diff_seq(&a.displays, &b.displays);
    add_nested(&mut ops, Ghost(s), Ghost(m7), Field::Displays, inner, Ghost(Json::Array(trees(b.displays@))));
    let ghost m8 = m7.insert(Field::Displays, Json::Array(trees(b.displays@)));
    add_optional(&mut ops, Ghost(s), Ghost(m8), Field::TerminalCtx, &a.terminal_ctx, &b.terminal_ctx);
    let ghost m9 = if b.terminal_ctx is Some {
        m8.insert(Field::TerminalCtx, terminal_json(b.terminal_ctx->Some_0))
    } else {
        m8.remove(Field::TerminalCtx)
    };
    let inner = diff_seq(&a.net_connections, &b.net_connections);
    add_nested(
        &mut ops,
        Ghost(s),
        Ghost(m9),
        Field::NetConnections,
        inner,
        Ghost(Json::Array(trees(b.net_connections@))),
    );
    let ghost m10 = m9.insert(Field::NetConnections, Json::Array(trees(b.net_connections@)));
    let inner = diff_seq(&a.fs_events, &b.fs_events);
    add_nested(&mut ops, Ghost(s), Ghost(m10), Field::FsEvents, inner, Ghost(Json::Array(trees(b.fs_events@))));
    let ghost m11 = m10.insert(Field::FsEvents, Json::Array(trees(b.fs_events@)));
    assert(m11 =~= fields_of(observation_json(*b)));
    ops
}

/// The patch from `previous` to `current`, stamped with `current`'s
/// timestamp and monotonic duration.
pub fn create_diff_envelope(previous: &Observation, current: &Observation) -> (r: DiffEnvelope)
    ensures
        r.ts == current.ts,
        r.monotonic_ms == current.monotonic_ms,
        apply_all(observation_json(*previous), ops_view(r.patch@)) == Some(
            observation_json(*current),
        ),
{
    DiffEnvelope {
        ts: current.ts,
        monotonic_ms: current.monotonic_ms,
        patch: diff_observations(previous, current),
    }
}

} // verus!

verus! {

fn duplicate_all<T: Diffable>(v: &Vec<T>) -> (r: Vec<T>)
    ensures
        trees(r@) == trees(v@),
{
    let mut r: Vec<T> = Vec::new();
    let mut i: usize = 0;
    while i < v.len()
        invariant
            i <= v@.len(),
            r@.len() == i,
            trees(r@) == trees(v@.subrange(0, i as int)),
        decreases v.len() - i,
    {
        let x = v[i].duplicate();
        let ghost r0 = r@;
        r.push(x);
        assert(trees(r@) =~= trees(v@.subrange(0, i + 1))) by {
            assert(trees(r0) =~= trees(v@.subrange(0, i as int)));
            assert(trees(r@).len() == i + 1);
            assert forall|k: int| 0 <= k < i + 1 implies trees(r@)[k] == trees(v@.subrange(0, i + 1))[k] by {
                if k < i {
                    assert(r@[k] == r0[k]);
                    assert(trees(r@)[k] == trees(r0)[k]);
                    assert(trees(r0)[k] == trees(v@.subrange(0, i as int))[k]);
                }
            }
        }
        i = i + 1;
    }
    assert(v@.subrange(0, i as int) =~= v@);
    r
}

fn duplicate_optional<T: Diffable>(v: &Option<T>) -> (r: Option<T>)
    ensures
        r is Some <==> v is Some,
        r is Some ==> r->Some_0.tree() == v->Some_0.tree(),
{
    match v {
        Some(x) => Some(x.duplicate()),
        None => None,
    }
}

/// A copy of a momentary record, with the same canonical tree.
pub fn duplicate_observation(o: &Observation) -> (r: Observation)
    ensures
        observation_json(r) == observation_json(*o),
        r.ts == o.ts,
        r.monotonic_ms == o.monotonic_ms,
        r.schema_version == o.schema_version,
{
    let r = Observation {
        schema_version: o.schema_version,
        ts: o.ts,
        monotonic_ms: o.monotonic_ms,
        idle_ms: o.idle_ms,
        focus: duplicate_optional(&o.focus),
        windows: duplicate_all(&o.windows),
        cursor: o.cursor,
        displays: duplicate_all(&o.displays),
        terminal_ctx: duplicate_optional(&o.terminal_ctx),
        net_connections: duplicate_all(&o.net_connections),
        fs_events: duplicate_all(&o.fs_events),
    };
    proof {
        lemma_trees_windows(r.windows@);
        lemma_trees_windows(o.windows@);
        lemma_trees_displays(r.displays@);
        lemma_trees_displays(o.displays@);
        lemma_trees_conns(r.net_connections@);
        lemma_trees_conns(o.net_connections@);
        lemma_trees_events(r.fs_events@);
        lemma_trees_events(o.fs_events@);
        assert(fields_of(observation_json(r)) =~= fields_of(observation_json(*o)));
    }
    r
}

} // verus!
