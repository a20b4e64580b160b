use vstd::prelude::*;

use crate::error::{EngineError, ErrorView};
use crate::expression::{conjoin, disjoin, ExprView, Expression};

verus! {

/// Where a module declares a group of nodes: their type and the file that lists them.
#[derive(Clone, Debug, PartialEq, Eq)]
pub struct NodeInfoLoc {
    pub ty: String,
    pub path: String,
}

/// Where a module declares a map.
#[derive(Clone, Debug, PartialEq, Eq)]
pub struct MapInfoLoc {
    pub id: String,
    pub path: String,
}

/// A user-settable module parameter.
#[derive(Clone, Debug, PartialEq, Eq)]
pub enum Param {
    TextBox { name: String },
    CheckBox { id: String, name: String },
}

/// A sub-objective of a node; it becomes a node of its own when the module is built.
#[derive(Clone, Debug, PartialEq, Eq)]
pub struct NodeCheck {
    pub ty: String,
    pub id: String,
    pub name: String,
    pub enabled_by: Expression,
    pub unlocked_by: Expression,
}

/// The declaration of one node.
#[derive(Clone, Debug, PartialEq, Eq)]
pub struct NodeInfo {
    pub id: String,
    pub ty: String,
    pub name: String,
    pub completed_by: Expression,
    pub enabled_by: Expression,
    pub unlocked_by: Expression,
    pub checks: Vec<NodeCheck>,
}

/// A named special list of nodes in a layout.
#[derive(Clone, Debug, PartialEq, Eq)]
pub enum NodeListSpecial {
    Checks,
}

/// The nodes a layout grid shows.
#[derive(Clone, Debug, PartialEq, Eq)]
pub enum NodeList {
    List(Vec<String>),
    Special(NodeListSpecial),
}

/// An image of the module and the id it is known by.
#[derive(Clone, Debug, PartialEq, Eq)]
pub struct AssetInfo {
    pub path: String,
    pub id: String,
}

/// The nodes read from one file of a module, with the type its manifest gives them.
#[derive(Clone, Debug, PartialEq, Eq)]
pub struct NodeFile {
    pub ty: String,
    pub path: String,
    pub nodes: Vec<NodeInfo>,
}

pub struct NodeCheckView {
    pub ty: Seq<char>,
    pub id: Seq<char>,
    pub name: Seq<char>,
    pub enabled_by: ExprView,
    pub unlocked_by: ExprView,
}

pub struct NodeView {
    pub id: Seq<char>,
    pub ty: Seq<char>,
    pub name: Seq<char>,
    pub completed_by: ExprView,
    pub enabled_by: ExprView,
    pub unlocked_by: ExprView,
    pub checks: Seq<NodeCheckView>,
}

impl View for NodeCheck {
    type V = NodeCheckView;

    open spec fn view(&self) -> NodeCheckView {
        NodeCheckView {
            ty: self.ty@,
            id: self.id@,
            name: self.name@,
            enabled_by: self.enabled_by@,
            unlocked_by: self.unlocked_by@,
        }
    }
}

impl View for NodeInfo {
    type V = NodeView;

    open spec fn view(&self) -> NodeView {
        NodeView {
            id: self.id@,
            ty: self.ty@,
            name: self.name@,
            completed_by: self.completed_by@,
            enabled_by: self.enabled_by@,
            unlocked_by: self.unlocked_by@,
            checks: check_views(self.checks@),
        }
    }
}

pub open spec fn check_views(v: Seq<NodeCheck>) -> Seq<NodeCheckView> {
    v.map_values(|c: NodeCheck| c@)
}

pub open spec fn node_views(v: Seq<NodeInfo>) -> Seq<NodeView> {
    v.map_values(|n: NodeInfo| n@)
}

pub open spec fn ids_of(v: Seq<NodeView>) -> Seq<Seq<char>> {
    v.map_values(|n: NodeView| n.id)
}

pub open spec fn distinct(ids: Seq<Seq<char>>) -> bool {
    forall|i: int, j: int| 0 <= i < j < ids.len() ==> ids[i] != ids[j]
}

/// `e`, or `d` where `e` was left unspecified.
pub open spec fn default_to(e: ExprView, d: ExprView) -> ExprView {
    if e == ExprView::Default {
        d
    } else {
        e
    }
}

pub open spec fn digit_char(d: nat) -> char {
    if d == 0 {
        '0'
    } else if d == 1 {
        '1'
    } else if d == 2 {
        '2'
    } else if d == 3 {
        '3'
    } else if d == 4 {
        '4'
    } else if d == 5 {
        '5'
    } else if d == 6 {
        '6'
    } else if d == 7 {
        '7'
    } else if d == 8 {
        '8'
    } else {
        '9'
    }
}

/// Decimal digits of `n`.
pub open spec fn decimal(n: nat) -> Seq<char>
    decreases n,
{
    if n < 10 {
        seq![digit_char(n)]
    } else {
        decimal(n / 10).push(digit_char(n % 10))
    }
}

/// Id of check `i` of node `o`: its own, or `<node id>:<i>`.
pub open spec fn check_id(o: NodeView, i: int) -> Seq<char> {
    if o.checks[i].id.len() == 0 {
        o.id + seq![':'] + decimal(i as nat)
    } else {
        o.checks[i].id
    }
}

/// The node that check `i` of `o` becomes.
pub open spec fn check_node(o: NodeView, i: int) -> NodeView {
    NodeView {
        id: check_id(o, i),
        ty: o.checks[i].ty,
        name: o.checks[i].name,
        completed_by: ExprView::Manual,
        enabled_by: default_to(o.checks[i].enabled_by, ExprView::True),
        unlocked_by: default_to(o.checks[i].unlocked_by, ExprView::True),
        checks: Seq::empty(),
    }
}

/// Some of the first `n` checks of `o` is enabled.
pub open spec fn checks_enabled(o: NodeView, n: int) -> ExprView
    decreases n,
{
    if n <= 0 {
        ExprView::False
    } else {
        disjoin(checks_enabled(o, n - 1), ExprView::Node(check_id(o, n - 1)))
    }
}

/// Some of the first `n` checks of `o` is exactly unlocked.
pub open spec fn checks_unlocked(o: NodeView, n: int) -> ExprView
    decreases n,
{
    if n <= 0 {
        ExprView::False
    } else {
        disjoin(checks_unlocked(o, n - 1), ExprView::NodeUnlocked(check_id(o, n - 1)))
    }
}

/// Each of the first `n` checks of `o` is complete or disabled.
pub open spec fn checks_completed(o: NodeView, n: int) -> ExprView
    decreases n,
{
    if n <= 0 {
        ExprView::True
    } else {
        conjoin(
            checks_completed(o, n - 1),
            ExprView::Or(
                Box::new(ExprView::NodeComplete(check_id(o, n - 1))),
                Box::new(ExprView::NodeDisabled(check_id(o, n - 1))),
            ),
        )
    }
}

/// The checks of `o` as the built node keeps them, with their ids filled in.
pub open spec fn named_checks(o: NodeView) -> Seq<NodeCheckView> {
    Seq::new(o.checks.len(), |i: int| NodeCheckView { id: check_id(o, i), ..o.checks[i] })
}

/// The node `o` becomes, in a group of type `ty`.
pub open spec fn parent_node(o: NodeView, ty: Seq<char>) -> NodeView {
    let n = o.checks.len() as int;
    if n == 0 {
        NodeView {
            id: o.id,
            ty: ty,
            name: o.name,
            completed_by: default_to(o.completed_by, ExprView::Manual),
            enabled_by: default_to(o.enabled_by, ExprView::True),
            unlocked_by: default_to(o.unlocked_by, ExprView::Manual),
            checks: named_checks(o),
        }
    } else {
        NodeView {
            id: o.id,
            ty: ty,
            name: o.name,
            completed_by: checks_completed(o, n),
            enabled_by: disjoin(default_to(o.enabled_by, ExprView::False), checks_enabled(o, n)),
            unlocked_by: disjoin(default_to(o.unlocked_by, ExprView::False), checks_unlocked(o, n)),
            checks: named_checks(o),
        }
    }
}

/// The nodes one declaration contributes: itself, then one node per check.
pub open spec fn expand(o: NodeView, ty: Seq<char>) -> Seq<NodeView> {
    seq![parent_node(o, ty)] + Seq::new(o.checks.len(), |i: int| check_node(o, i))
}

pub open spec fn expand_all(nodes: Seq<NodeView>, ty: Seq<char>) -> Seq<NodeView>
    decreases nodes.len(),
{
    if nodes.len() == 0 {
        Seq::empty()
    } else {
        expand_all(nodes.drop_last(), ty) + expand(nodes.last(), ty)
    }
}

pub open spec fn file_nodes(f: NodeFile) -> Seq<NodeView> {
    expand_all(node_views(f.nodes@), f.ty@)
}

/// Every node a module built from `files` holds, in order.
pub open spec fn module_nodes(files: Seq<NodeFile>) -> Seq<NodeView>
    decreases files.len(),
{
    if files.len() == 0 {
        Seq::empty()
    } else {
        module_nodes(files.drop_last()) + file_nodes(files.last())
    }
}

/// The path of the file each node of `module_nodes(files)` came from.
pub open spec fn module_sources(files: Seq<NodeFile>) -> Seq<Seq<char>>
    decreases files.len(),
{
    if files.len() == 0 {
        Seq::empty()
    } else {
        module_sources(files.drop_last()) + Seq::new(
            file_nodes(files.last()).len(),
            |i: int| files.last().path@,
        )
    }
}

/// `id` is the first id of `ids` that repeats an earlier one; `first` and
/// `second` are the sources of the two.
pub open spec fn first_clash(
    ids: Seq<Seq<char>>,
    sources: Seq<Seq<char>>,
    id: Seq<char>,
    first: Seq<char>,
    second: Seq<char>,
) -> bool {
    exists|i: int, j: int|
        0 <= i < j < ids.len() && distinct(ids.take(j)) && ids[i] == ids[j] && id == ids[j]
            && first == sources[i] && second == sources[j]
}

pub open spec fn text_views(v: Seq<String>) -> Seq<Seq<char>> {
    v.map_values(|t: String| t@)
}

pub open spec fn is_prefix<T>(a: Seq<T>, b: Seq<T>) -> bool {
    a.len() <= b.len() && b.take(a.len() as int) == a
}

proof fn lemma_prefix_trans<T>(a: Seq<T>, b: Seq<T>, c: Seq<T>)
    requires
        is_prefix(a, b),
        is_prefix(b, c),
    ensures
        is_prefix(a, c),
{
    assert(c.take(a.len() as int) =~= b.take(a.len() as int));
}

proof fn lemma_expand_all_step(ns: Seq<NodeView>, ty: Seq<char>, a: int)
    requires
        0 <= a < ns.len(),
    ensures
        expand_all(ns.take(a + 1), ty) == expand_all(ns.take(a), ty) + expand(ns[a], ty),
{
    assert(ns.take(a + 1).drop_last() =~= ns.take(a));
}

proof fn lemma_expand_all_prefix(ns: Seq<NodeView>, ty: Seq<char>, a: int)
    requires
        0 <= a <= ns.len(),
    ensures
        is_prefix(expand_all(ns.take(a), ty), expand_all(ns, ty)),
    decreases ns.len(),
{
    if a == ns.len() {
        assert(ns.take(a) =~= ns);
        assert(expand_all(ns, ty).take(expand_all(ns, ty).len() as int) =~= expand_all(ns, ty));
    } else {
        lemma_expand_all_prefix(ns.drop_last(), ty, a);
        assert(ns.drop_last().take(a) =~= ns.take(a));
        let x = expand_all(ns.take(a), ty);
        let y = expand_all(ns.drop_last(), ty);
        assert(expand_all(ns, ty).take(x.len() as int) =~= y.take(x.len() as int));
    }
}

proof fn lemma_module_step(files: Seq<NodeFile>, a: int)
    requires
        0 <= a < files.len(),
    ensures
        module_nodes(files.take(a + 1)) == module_nodes(files.take(a)) + file_nodes(files[a]),
        module_sources(files.take(a + 1)) == module_sources(files.take(a)) + Seq::new(
            file_nodes(files[a]).len(),
            |i: int| files[a].path@,
        ),
{
    assert(files.take(a + 1).drop_last() =~= files.take(a));
}

proof fn lemma_sources_len(files: Seq<NodeFile>)
    ensures
        module_sources(files).len() == module_nodes(files).len(),
    decreases files.len(),
{
    if files.len() > 0 {
        lemma_sources_len(files.drop_last());
    }
}

proof fn lemma_module_prefix(files: Seq<NodeFile>, a: int)
    requires
        0 <= a <= files.len(),
    ensures
        is_prefix(module_nodes(files.take(a)), module_nodes(files)),
        is_prefix(module_sources(files.take(a)), module_sources(files)),
    decreases files.len(),
{
    if a == files.len() {
        assert(files.take(a) =~= files);
        assert(module_nodes(files).take(module_nodes(files).len() as int) =~= module_nodes(files));
        assert(module_sources(files).take(module_sources(files).len() as int) =~= module_sources(
            files,
        ));
    } else {
        lemma_module_prefix(files.drop_last(), a);
        assert(files.drop_last().take(a) =~= files.take(a));
        let x = module_nodes(files.take(a));
        let y = module_nodes(files.drop_last());
        assert(module_nodes(files).take(x.len() as int) =~= y.take(x.len() as int));
        let u = module_sources(files.take(a));
        let v = module_sources(files.drop_last());
        assert(module_sources(files).take(u.len() as int) =~= v.take(u.len() as int));
    }
}

/// The first entry whose id is taken, by the module or by an earlier entry,
/// and the source of the earlier holder.
fn first_taken(m: &Module, entries: &Vec<NodeInfo>, path: &String) -> (r: Option<(usize, String)>)
    requires
        m.wf(),
    ensures
        ({
            let p = node_views(m.nodes@) + node_views(entries@);
            let ps = text_views(m.sources@) + Seq::new(entries@.len(), |i: int| path@);
            match r {
                None => distinct(ids_of(p)),
                Some((k, first)) => {
                    &&& k < entries.len()
                    &&& exists|i: int|
                        0 <= i < m.nodes.len() + k && distinct(ids_of(p.take(m.nodes.len() + k)))
                            && #[trigger] p[i].id == p[m.nodes.len() + k].id && first@ == ps[i]
                }
            }
        }),
{
    let ghost before = node_views(m.nodes@);
    let ghost ev = node_views(entries@);
    let ghost p = before + ev;
    let ghost ps = text_views(m.sources@) + Seq::new(entries@.len(), |i: int| path@);
    let mut k: usize = 0;
    proof {
        assert(p.take(before.len() as int) =~= before);
    }
    while k < entries.len()
        invariant
            k <= entries.len(),
            m.wf(),
            before == node_views(m.nodes@),
            ev == node_views(entries@),
            p == before + ev,
            ps == text_views(m.sources@) + Seq::new(entries@.len(), |i: int| path@),
            distinct(ids_of(p.take(before.len() + k))),
        decreases entries.len() - k,
    {
        let id = &entries[k].id;
        assert(p[before.len() + k].id == id@);
        match m.find(id) {
            Some(q) => {
                assert(p[q as int].id == id@);
                return Some((k, m.sources[q].clone()));
            },
            None => {},
        }
        match position(entries, k, id) {
            Some(q) => {
                assert(p[before.len() + q].id == id@);
                return Some((k, path.clone()));
            },
            None => {},
        }
        proof {
            let ids = ids_of(p.take(before.len() + k + 1));
            let prev = ids_of(p.take(before.len() + k));
            assert forall|i: int, j: int| 0 <= i < j < ids.len() implies ids[i] != ids[j] by {
                if j == before.len() + k {
                    if i < before.len() {
                        assert(ids[i] == m.nodes@[i].id@);
                    } else {
                        assert(ids[i] == entries@[i - before.len()].id@);
                    }
                } else {
                    assert(ids[i] == prev[i]);
                    assert(ids[j] == prev[j]);
                }
            }
        }
        k = k + 1;
    }
    assert(p.take(before.len() + k) =~= p);
    None
}

/// Appends `entries`, all read from `path`, to the module.
fn add_entries(m: &mut Module, entries: Vec<NodeInfo>, path: &String)
    requires
        old(m).wf(),
        distinct(ids_of(node_views(old(m).nodes@) + node_views(entries@))),
    ensures
        final(m).wf(),
        node_views(final(m).nodes@) == node_views(old(m).nodes@) + node_views(entries@),
        text_views(final(m).sources@) == text_views(old(m).sources@) + Seq::new(
            entries@.len(),
            |i: int| path@,
        ),
{
    let ghost ev = node_views(entries@);
    let ghost before = node_views(m.nodes@);
    let ghost before_src = text_views(m.sources@);
    let count = entries.len();
    let mut entries = entries;
    m.nodes.append(&mut entries);
    assert(node_views(m.nodes@) =~= before + ev);
    let mut t: usize = 0;
    assert(text_views(m.sources@) =~= before_src + Seq::new(0, |i: int| path@));
    while t < count
        invariant
            t <= count,
            m.sources.len() == before_src.len() + t,
            text_views(m.sources@) == before_src + Seq::new(t as nat, |i: int| path@),
            node_views(m.nodes@) == before + ev,
            count == ev.len(),
            before_src.len() == before.len(),
        decreases count - t,
    {
        let ghost old_src = m.sources@;
        let c = path.clone();
        m.sources.push(c);
        assert(text_views(m.sources@) =~= before_src + Seq::new((t + 1) as nat, |i: int| path@)) by {
            assert(text_views(old_src) =~= before_src + Seq::new(t as nat, |i: int| path@));
            assert(m.sources@ == old_src.push(c));
            assert forall|i: int| 0 <= i < old_src.len() implies #[trigger] text_views(m.sources@)[i]
                == text_views(old_src)[i] by {
                assert(m.sources@[i] == old_src[i]);
            }
            assert(text_views(m.sources@)[old_src.len() as int] == path@);
        }
        t = t + 1;
    }
}

proof fn lemma_clash(
    full: Seq<NodeView>,
    srcs: Seq<Seq<char>>,
    p: Seq<NodeView>,
    ps: Seq<Seq<char>>,
    i: int,
    j: int,
)
    requires
        is_prefix(p, full),
        is_prefix(ps, srcs),
        p.len() == ps.len(),
        0 <= i < j < p.len(),
        distinct(ids_of(p.take(j))),
        p[i].id == p[j].id,
    ensures
        first_clash(ids_of(full), srcs, p[j].id, ps[i], ps[j]),
        !distinct(ids_of(full)),
{
    assert(ids_of(full).take(j) =~= ids_of(p.take(j)));
    assert(full[i] == p[i]);
    assert(full[j] == p[j]);
    assert(srcs[i] == ps[i]);
    assert(srcs[j] == ps[j]);
    assert(ids_of(full)[i] == ids_of(full)[j]);
}

/// The nodes read so far, up to and including declaration `b` of file `a`,
/// stand at the front of the whole module.
proof fn lemma_read_so_far(files: Seq<NodeFile>, a: int, b: int)
    requires
        0 <= a < files.len(),
        0 <= b < files[a].nodes.len(),
    ensures
        ({
            let ns = node_views(files[a].nodes@);
            let done = expand_all(ns.take(b + 1), files[a].ty@);
            &&& is_prefix(module_nodes(files.take(a)) + done, module_nodes(files))
            &&& is_prefix(
                module_sources(files.take(a)) + Seq::new(done.len(), |i: int| files[a].path@),
                module_sources(files),
            )
        }),
{
    let f = files[a];
    let ns = node_views(f.nodes@);
    let done = expand_all(ns.take(b + 1), f.ty@);
    let all = file_nodes(f);
    lemma_expand_all_prefix(ns, f.ty@, b + 1);
    lemma_module_step(files, a);
    lemma_module_prefix(files, a + 1);
    let p = module_nodes(files.take(a));
    assert(is_prefix(p + done, p + all)) by {
        assert((p + all).take((p + done).len() as int) =~= p + done);
    }
    lemma_prefix_trans(p + done, module_nodes(files.take(a + 1)), module_nodes(files));
    let q = module_sources(files.take(a));
    let sd = Seq::new(done.len(), |i: int| f.path@);
    let sa = Seq::new(all.len(), |i: int| f.path@);
    assert(is_prefix(q + sd, q + sa)) by {
        assert((q + sa).take((q + sd).len() as int) =~= q + sd);
    }
    lemma_prefix_trans(q + sd, module_sources(files.take(a + 1)), module_sources(files));
}

/// The nodes of a module, each with the file it came from; no id twice.
pub struct Module {
    pub nodes: Vec<NodeInfo>,
    pub sources: Vec<String>,
}

impl Module {
    pub open spec fn wf(&self) -> bool {
        &&& self.nodes.len() == self.sources.len()
        &&& distinct(ids_of(node_views(self.nodes@)))
    }

    pub fn new() -> (r: Module)
        ensures
            r.wf(),
            r.nodes@.len() == 0,
    {
        let r = Module { nodes: Vec::new(), sources: Vec::new() };
        assert(ids_of(node_views(r.nodes@)) =~= Seq::<Seq<char>>::empty());
        r
    }

    /// Builds a module from the node files of its manifest, in order. Each
    /// declaration becomes a node, followed by one node per check; the build
    /// fails at the first id that was already taken.
    pub fn from_files(files: &Vec<NodeFile>) -> (r: Result<Module, EngineError>)
        ensures
            match r {
                Ok(m) => {
                    &&& m.wf()
                    &&& distinct(ids_of(module_nodes(files@)))
                    &&& node_views(m.nodes@) == module_nodes(files@)
                    &&& text_views(m.sources@) == module_sources(files@)
                },
                Err(e) => match e@ {
                    ErrorView::DuplicateId { id, first, second } => {
                        &&& !distinct(ids_of(module_nodes(files@)))
                        &&& first_clash(
                            ids_of(module_nodes(files@)),
                            module_sources(files@),
                            id,
                            first,
                            second,
                        )
                    },
                    _ => false,
                },
            },
    {
        let mut m = Module::new();
        let mut a: usize = 0;
        proof {
            assert(files@.take(0) =~= Seq::<NodeFile>::empty());
            assert(text_views(m.sources@) =~= Seq::<Seq<char>>::empty());
            assert(node_views(m.nodes@) =~= Seq::<NodeView>::empty());
        }
        while a < files.len()
            invariant
                a <= files.len(),
                m.wf(),
                node_views(m.nodes@) == module_nodes(files@.take(a as int)),
                text_views(m.sources@) == module_sources(files@.take(a as int)),
            decreases files.len() - a,
        {
            let f = &files[a];
            let ghost ns = node_views(f.nodes@);
            let mut b: usize = 0;
            proof {
                assert(ns.take(0) =~= Seq::<NodeView>::empty());
                assert(module_nodes(files@.take(a as int)) + expand_all(ns.take(0), f.ty@)
                    =~= module_nodes(files@.take(a as int)));
                assert(module_sources(files@.take(a as int)) + Seq::new(
                    expand_all(ns.take(0), f.ty@).len(),
                    |i: int| f.path@,
                ) =~= module_sources(files@.take(a as int)));
            }
            while b < f.nodes.len()
                invariant
                    a < files.len(),
                    f == files@[a as int],
                    ns == node_views(f.nodes@),
                    b <= f.nodes.len(),
                    m.wf(),
                    node_views(m.nodes@) == module_nodes(files@.take(a as int)) + expand_all(
                        ns.take(b as int),
                        f.ty@,
                    ),
                    text_views(m.sources@) == module_sources(files@.take(a as int)) + Seq::new(
                        expand_all(ns.take(b as int), f.ty@).len(),
                        |i: int| f.path@,
                    ),
                decreases f.nodes.len() - b,
            {
                let mut entries = expand_node(&f.nodes[b], &f.ty);
                proof {
                    lemma_expand_all_step(ns, f.ty@, b as int);
                    lemma_read_so_far(files@, a as int, b as int);
                    lemma_sources_len(files@);
                }
                let ghost before = node_views(m.nodes@);
                let ghost before_src = text_views(m.sources@);
                let ghost ev = node_views(entries@);
                proof {
                    assert(before + ev =~= module_nodes(files@.take(a as int)) + expand_all(
                        ns.take(b + 1),
                        f.ty@,
                    ));
                    assert(before_src + Seq::new(ev.len(), |i: int| f.path@) =~= module_sources(
                        files@.take(a as int),
                    ) + Seq::new(expand_all(ns.take(b + 1), f.ty@).len(), |i: int| f.path@));
                    assert(ev.take(0) =~= Seq::<NodeView>::empty());
                    assert(before + ev.take(0) =~= before);
                }
                match first_taken(&m, &entries, &f.path) {
                    Some((k, first)) => {
                        proof {
                            let p = before + ev;
                            let ps = before_src + Seq::new(ev.len(), |i: int| f.path@);
                            let i = choose|i: int|
                                0 <= i < before.len() + k && distinct(
                                    ids_of(p.take(before.len() + k)),
                                ) && #[trigger] p[i].id == ev[k as int].id && first@ == ps[i];
                            lemma_clash(
                                module_nodes(files@),
                                module_sources(files@),
                                p,
                                ps,
                                i,
                                before.len() + k,
                            );
                        }
                        return Err(
                            EngineError::DuplicateId {
                                id: entries[k].id.clone(),
                                first,
                                second: f.path.clone(),
                            },
                        );
                    },
                    None => {},
                }
                add_entries(&mut m, entries, &f.path);
                b = b + 1;
            }
            proof {
                assert(ns.take(f.nodes.len() as int) =~= ns);
                lemma_module_step(files@, a as int);
            }
            a = a + 1;
        }
        proof {
            assert(files@.take(files.len() as int) =~= files@);
        }
        Ok(m)
    }

    /// Position of the node with id `id`.
    pub fn find(&self, id: &String) -> (r: Option<usize>)
        ensures
            match r {
                Some(i) => i < self.nodes.len() && self.nodes[i as int].id@ == id@,
                None => forall|i: int| 0 <= i < self.nodes.len() ==> self.nodes[i].id@ != id@,
            },
    {
        position(&self.nodes, self.nodes.len(), id)
    }

    /// The node with id `id`.
    pub fn get(&self, id: &String) -> (r: Option<&NodeInfo>)
        ensures
            match r {
                Some(n) => exists|i: int|
                    0 <= i < self.nodes.len() && self.nodes[i] == *n && n.id@ == id@,
                None => forall|i: int| 0 <= i < self.nodes.len() ==> self.nodes[i].id@ != id@,
            },
    {
        match self.find(id) {
            Some(i) => Some(&self.nodes[i]),
            None => None,
        }
    }
}

/// Position of the first of `v[0..end]` with id `id`.
fn position(v: &Vec<NodeInfo>, end: usize, id: &String) -> (r: Option<usize>)
    requires
        end <= v.len(),
    ensures
        match r {
            Some(i) => i < end && v[i as int].id@ == id@,
            None => forall|i: int| 0 <= i < end ==> v[i].id@ != id@,
        },
{
    let mut i: usize = 0;
    while i < end
        invariant
            end <= v.len(),
            i <= end,
            forall|j: int| 0 <= j < i ==> v[j].id@ != id@,
        decreases end - i,
    {
        if v[i].id == *id {
            return Some(i);
        }
        i = i + 1;
    }
    None
}

fn digit_text(d: usize) -> (r: &'static str)
    requires
        d < 10,
    ensures
        r@ == seq![digit_char(d as nat)],
{
    if d == 0 {
        proof {
            reveal_strlit("0");
        }
        "0"
    } else if d == 1 {
        proof {
            reveal_strlit("1");
        }
        "1"
    } else if d == 2 {
        proof {
            reveal_strlit("2");
        }
        "2"
    } else if d == 3 {
        proof {
            reveal_strlit("3");
        }
        "3"
    } else if d == 4 {
        proof {
            reveal_strlit("4");
        }
        "4"
    } else if d == 5 {
        proof {
            reveal_strlit("5");
        }
        "5"
    } else if d == 6 {
        proof {
            reveal_strlit("6");
        }
        "6"
    } else if d == 7 {
        proof {
            reveal_strlit("7");
        }
        "7"
    } else if d == 8 {
        proof {
            reveal_strlit("8");
        }
        "8"
    } else {
        proof {
            reveal_strlit("9");
        }
        "9"
    }
}

/// Appends the decimal digits of `n`.
fn append_decimal(s: &mut String, n: usize)
    ensures
        final(s)@ == old(s)@ + decimal(n as nat),
    decreases n,
{
    if n >= 10 {
        append_decimal(s, n / 10);
    }
    s.append(digit_text(n % 10));
    proof {
        if n < 10 {
            assert(decimal(n as nat) == seq![digit_char(n as nat)]);
        } else {
            assert(old(s)@ + decimal(n as nat) =~= old(s)@ + decimal((n / 10) as nat) + seq![
                digit_char((n % 10) as nat),
            ]);
        }
    }
}

fn check_id_text(o: &NodeInfo, i: usize) -> (r: String)
    requires
        i < o.checks.len(),
    ensures
        r@ == check_id(o@, i as int),
{
    let c = &o.checks[i];
    assert(o@.checks[i as int] == c@);
    if c.id.as_str().unicode_len() == 0 {
        let mut s = o.id.clone();
        proof {
            reveal_strlit(":");
        }
        s.append(":");
        append_decimal(&mut s, i);
        s
    } else {
        c.id.clone()
    }
}

/// The nodes that the declaration `o` contributes to a group of type `ty`.
pub fn expand_node(o: &NodeInfo, ty: &String) -> (r: Vec<NodeInfo>)
    ensures
        node_views(r@) == expand(o@, ty@),
{
    let n = o.checks.len();
    let mut check_nodes: Vec<NodeInfo> = Vec::new();
    let mut named: Vec<NodeCheck> = Vec::new();
    let mut enabled = Expression::False;
    let mut unlocked = Expression::False;
    let mut completed = Expression::True;
    let mut i: usize = 0;
    while i < n
        invariant
            n == o.checks.len(),
            i <= n,
            check_nodes@.len() == i,
            named@.len() == i,
            node_views(check_nodes@) == Seq::new(i as nat, |k: int| check_node(o@, k)),
            check_views(named@) == named_checks(o@).take(i as int),
            enabled@ == checks_enabled(o@, i as int),
            unlocked@ == checks_unlocked(o@, i as int),
            completed@ == checks_completed(o@, i as int),
        decreases n - i,
    {
        let c = &o.checks[i];
        assert(o@.checks[i as int] == c@);
        let id = check_id_text(o, i);
        let node = NodeInfo {
            id: id.clone(),
            ty: c.ty.clone(),
            name: c.name.clone(),
            completed_by: Expression::Manual,
            enabled_by: c.enabled_by.duplicate().eval_default(Expression::True),
            unlocked_by: c.unlocked_by.duplicate().eval_default(Expression::True),
            checks: Vec::new(),
        };
        assert(check_views(node.checks@) =~= Seq::<NodeCheckView>::empty());
        assert(node@ == check_node(o@, i as int));
        let ghost before_nodes = check_nodes@;
        let ghost nv = node@;
        check_nodes.push(node);
        assert(node_views(check_nodes@) =~= Seq::new((i + 1) as nat, |k: int| check_node(o@, k))) by {
            assert(node_views(before_nodes) =~= Seq::new(i as nat, |k: int| check_node(o@, k)));
            assert(check_nodes@ == before_nodes.push(check_nodes@[i as int]));
            assert(node_views(check_nodes@)[i as int] == nv);
            assert forall|k: int| 0 <= k < i implies #[trigger] node_views(check_nodes@)[k] == node_views(before_nodes)[k] by {
                assert(check_nodes@[k] == before_nodes[k]);
            }
        }
        let named_check = NodeCheck {
            ty: c.ty.clone(),
            id: id.clone(),
            name: c.name.clone(),
            enabled_by: c.enabled_by.duplicate(),
            unlocked_by: c.unlocked_by.duplicate(),
        };
        let ghost before_named = named@;
        let ghost cv = named_check@;
        assert(cv == named_checks(o@)[i as int]);
        named.push(named_check);
        assert(check_views(named@) =~= named_checks(o@).take(i + 1)) by {
            assert(check_views(before_named) =~= named_checks(o@).take(i as int));
            assert(check_views(named@)[i as int] == cv);
            assert forall|k: int| 0 <= k < i implies #[trigger] check_views(named@)[k] == check_views(before_named)[k] by {
                assert(named@[k] == before_named[k]);
            }
        }
        enabled = enabled.or(Expression::Node(id.clone()));
        unlocked = unlocked.or(Expression::NodeUnlocked(id.clone()));
        let term = Expression::Or(
            Box::new(Expression::NodeComplete(id.clone())),
            Box::new(Expression::NodeDisabled(id)),
        );
        proof {
            reveal_with_fuel(crate::expression::expr_view, 2);
        }
        completed = completed.and(term);
        i = i + 1;
    }
    assert(named_checks(o@).take(n as int) =~= named_checks(o@));
    let parent = if n == 0 {
        NodeInfo {
            id: o.id.clone(),
            ty: ty.clone(),
            name: o.name.clone(),
            completed_by: o.completed_by.duplicate().eval_default(Expression::Manual),
            enabled_by: o.enabled_by.duplicate().eval_default(Expression::True),
            unlocked_by: o.unlocked_by.duplicate().eval_default(Expression::Manual),
            checks: named,
        }
    } else {
        NodeInfo {
            id: o.id.clone(),
            ty: ty.clone(),
            name: o.name.clone(),
            completed_by: completed,
            enabled_by: o.enabled_by.duplicate().eval_default(Expression::False).or(enabled),
            unlocked_by: o.unlocked_by.duplicate().eval_default(Expression::False).or(unlocked),
            checks: named,
        }
    };
    assert(parent@ == parent_node(o@, ty@));
    let mut r: Vec<NodeInfo> = Vec::new();
    r.push(parent);
    r.append(&mut check_nodes);
    assert(node_views(r@) =~= expand(o@, ty@));
    r
}

} // verus!
