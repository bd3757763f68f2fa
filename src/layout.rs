//! Placement of graph nodes in one column, and arrows routed between them.
use vstd::prelude::*;
use vstd::string::*;
use crate::excalidraw::{
    black, fresh_id, ElementKind, ExcalidrawBinding, ExcalidrawDocument, ExcalidrawElement,
    ExcalidrawPoint,
};
use crate::graph::{DependencyGraph, EntryView, FileNode, NodeView};

verus! {

/// The largest graph, in files plus imports, that a layout accepts; it keeps
/// every coordinate well inside `i64`.
pub const MAX_GRAPH_SIZE: usize = 1_000_000_000;

/// The largest value of a spacing setting, in tenths; with the largest graph
/// it keeps every coordinate inside `i64`.
pub const MAX_SPACING: i64 = 1_000_000_000;

/// Spacing and colors of a diagram, in tenths of a unit.
pub struct DiagramConfig {
    /// Vertical distance between two node slots.
    pub y_increment: i64,
    /// Horizontal offset of the first arrow's vertical run.
    pub base_offset: i64,
    /// How much further out each following arrow runs.
    pub offset_step: i64,
    pub background_color: String,
}

impl DiagramConfig {
    /// Slots 50 apart, arrows 50 out and 12.5 further for each next one, on
    /// a white background.
    pub fn new() -> (r: Self)
        ensures
            r.y_increment == 500,
            r.base_offset == 500,
            r.offset_step == 125,
            r.background_color@ == "#ffffff"@,
            r.wf(),
    {
        DiagramConfig {
            y_increment: 500,
            base_offset: 500,
            offset_step: 125,
            background_color: String::from_str("#ffffff"),
        }
    }

    pub open spec fn wf(&self) -> bool {
        0 <= self.y_increment <= MAX_SPACING && 0 <= self.base_offset <= MAX_SPACING && 0
            <= self.offset_step <= MAX_SPACING
    }
}

/// The identities of a sequence of nodes.
pub open spec fn paths(s: Seq<NodeView>) -> Seq<Seq<char>> {
    s.map_values(|n: NodeView| n.path)
}

/// `order` with `n` added at the end unless a node of its path is there.
pub open spec fn add_node(order: Seq<NodeView>, n: NodeView) -> Seq<NodeView> {
    if paths(order).contains(n.path) {
        order
    } else {
        order.push(n)
    }
}

/// `order` with the nodes of `ns` added one after another.
pub open spec fn add_nodes(order: Seq<NodeView>, ns: Seq<NodeView>) -> Seq<NodeView>
    decreases ns.len(),
{
    if ns.len() == 0 {
        order
    } else {
        add_node(add_nodes(order, ns.drop_last()), ns.last())
    }
}

/// The file node of each entry, in graph order.
pub open spec fn keys(g: Seq<EntryView>) -> Seq<NodeView> {
    g.map_values(|e: EntryView| e.file)
}

/// Every import of the graph, entry after entry, each in import order.
pub open spec fn all_deps(g: Seq<EntryView>) -> Seq<NodeView>
    decreases g.len(),
{
    if g.len() == 0 {
        Seq::empty()
    } else {
        all_deps(g.drop_last()) + g.last().deps
    }
}

/// `order` with the imports of each entry of `g` added, entry after entry.
pub open spec fn add_deps_of(order: Seq<NodeView>, g: Seq<EntryView>) -> Seq<NodeView>
    decreases g.len(),
{
    if g.len() == 0 {
        order
    } else {
        add_nodes(add_deps_of(order, g.drop_last()), g.last().deps)
    }
}

/// The nodes in slot order: the files in graph order, then each import not
/// yet placed, in the order first met.
pub open spec fn node_order(g: Seq<EntryView>) -> Seq<NodeView> {
    add_deps_of(keys(g), g)
}

/// Every distinct identity that the graph names, as a file or an import.
pub open spec fn graph_paths(g: Seq<EntryView>) -> Set<Seq<char>> {
    paths(keys(g)).to_set() + paths(all_deps(g)).to_set()
}

/// Files plus imports.
pub open spec fn graph_size(g: Seq<EntryView>) -> nat {
    g.len() + all_deps(g).len()
}

/// The slot of the node with identity `p`.
pub open spec fn slot_of(order: Seq<NodeView>, p: Seq<char>) -> int {
    choose|i: int| 0 <= i < order.len() && order[i].path == p
}

/// The anchor of slot `i`.
pub open spec fn slot_point(i: int, cfg: DiagramConfig) -> ExcalidrawPoint {
    ExcalidrawPoint { x: 0, y: (i * cfg.y_increment) as i64 }
}

/// The horizontal offset of the vertical run of the arrow of edge number `k`.
pub open spec fn edge_offset(k: int, cfg: DiagramConfig) -> int {
    cfg.base_offset + k * cfg.offset_step
}

/// Every edge as (importing path, imported path), in the order of
/// `all_deps`.
pub open spec fn edges(g: Seq<EntryView>) -> Seq<(Seq<char>, Seq<char>)>
    decreases g.len(),
{
    if g.len() == 0 {
        Seq::empty()
    } else {
        edges(g.drop_last()) + g.last().deps.map_values(
            |d: NodeView| (g.last().file.path, d.path),
        )
    }
}

/// `e` is the label of the node with identity `id` and text `label`,
/// anchored at `p`.
pub open spec fn is_text_element(e: ExcalidrawElement, id: Seq<char>, label: Seq<char>, p: ExcalidrawPoint) -> bool {
    &&& e.id@ == id
    &&& e.kind == ElementKind::Text
    &&& e.x == p.x && e.y == p.y
    &&& e.width == 10 && e.height == 10
    &&& e.text@ == label
    &&& e.bound_elements@.len() == 0
    &&& e.points@.len() == 0
    &&& e.start_binding.element_id@.len() == 0 && e.start_binding.focus == 0 && e.start_binding.gap == 0
    &&& e.end_binding.element_id@.len() == 0 && e.end_binding.focus == 0 && e.end_binding.gap == 0
    &&& e.stroke_color@ == black()
}

/// The four points of an arrow from `a` to `b` whose vertical run stands
/// `offset` to the left.
pub open spec fn comb_points(a: ExcalidrawPoint, b: ExcalidrawPoint, offset: int) -> Seq<ExcalidrawPoint> {
    seq![
        a,
        ExcalidrawPoint { x: (a.x - offset) as i64, y: a.y },
        ExcalidrawPoint { x: (b.x - offset) as i64, y: b.y },
        b,
    ]
}

/// The anchor of an arrow from `a` to `b`: its start, whichever way it runs.
/// Earlier renderings anchored an arrow that runs up the column at the origin,
/// which drew it away from its nodes; every arrow here is anchored where it
/// leaves its source.
pub open spec fn arrow_anchor(a: ExcalidrawPoint, b: ExcalidrawPoint) -> ExcalidrawPoint {
    a
}

/// `e` is the arrow with id `id` from the element `from` at `a` to the
/// element `to` at `b`, with its vertical run `offset` to the left.
pub open spec fn is_arrow_element(
    e: ExcalidrawElement,
    id: Seq<char>,
    a: ExcalidrawPoint,
    b: ExcalidrawPoint,
    offset: int,
    from: Seq<char>,
    to: Seq<char>,
) -> bool {
    &&& e.id@ == id
    &&& e.kind == ElementKind::Arrow
    &&& e.x == arrow_anchor(a, b).x && e.y == arrow_anchor(a, b).y
    &&& e.width == 20 && e.height == 20
    &&& e.text@.len() == 0
    &&& e.bound_elements@.len() == 0
    &&& e.points@ == comb_points(a, b, offset)
    &&& e.start_binding.element_id@ == from && e.start_binding.focus == 0 && e.start_binding.gap == 0
    &&& e.end_binding.element_id@ == to && e.end_binding.focus == 0 && e.end_binding.gap == 0
    &&& e.stroke_color@ == black()
}

proof fn lemma_paths_push(s: Seq<NodeView>, n: NodeView)
    ensures
        paths(s.push(n)) == paths(s).push(n.path),
{
    assert(paths(s.push(n)) =~= paths(s).push(n.path));
}

/// Adding nodes keeps the nodes already there in their slots, adds every
/// identity of `ns` and no other, and never adds an identity twice.
pub proof fn lemma_add_nodes(o: Seq<NodeView>, ns: Seq<NodeView>)
    ensures
        o.len() <= add_nodes(o, ns).len() <= o.len() + ns.len(),
        forall|i: int| 0 <= i < o.len() ==> add_nodes(o, ns)[i] == o[i],
        paths(o).no_duplicates() ==> paths(add_nodes(o, ns)).no_duplicates(),
        paths(add_nodes(o, ns)).to_set() == paths(o).to_set() + paths(ns).to_set(),
    decreases ns.len(),
{
    if ns.len() == 0 {
        assert(paths(ns).to_set() =~= Set::<Seq<char>>::empty());
        assert(paths(o).to_set() + paths(ns).to_set() =~= paths(o).to_set());
    } else {
        let prev = add_nodes(o, ns.drop_last());
        let n = ns.last();
        lemma_add_nodes(o, ns.drop_last());
        lemma_paths_push(prev, n);
        assert(paths(ns) =~= paths(ns.drop_last()).push(n.path));
        paths(ns.drop_last()).lemma_push_to_set_commute(n.path);
        if paths(prev).contains(n.path) {
            assert(paths(prev).to_set().contains(n.path));
            assert(paths(add_nodes(o, ns)).to_set() =~= paths(o).to_set() + paths(ns).to_set());
        } else {
            paths(prev).lemma_push_to_set_commute(n.path);
            assert(paths(add_nodes(o, ns)).to_set() =~= paths(o).to_set() + paths(ns).to_set());
            if paths(o).no_duplicates() {
                assert(paths(prev.push(n)).no_duplicates());
            }
        }
    }
}

proof fn lemma_add_deps_of(o: Seq<NodeView>, g: Seq<EntryView>)
    ensures
        o.len() <= add_deps_of(o, g).len() <= o.len() + all_deps(g).len(),
        forall|i: int| 0 <= i < o.len() ==> add_deps_of(o, g)[i] == o[i],
        paths(o).no_duplicates() ==> paths(add_deps_of(o, g)).no_duplicates(),
        paths(add_deps_of(o, g)).to_set() == paths(o).to_set() + paths(all_deps(g)).to_set(),
    decreases g.len(),
{
    if g.len() == 0 {
        assert(paths(all_deps(g)).to_set() =~= Set::<Seq<char>>::empty());
        assert(paths(o).to_set() + paths(all_deps(g)).to_set() =~= paths(o).to_set());
    } else {
        let prev = add_deps_of(o, g.drop_last());
        lemma_add_deps_of(o, g.drop_last());
        lemma_add_nodes(prev, g.last().deps);
        let a = all_deps(g.drop_last());
        let d = g.last().deps;
        assert(paths(a + d) =~= paths(a) + paths(d));
        assert forall|x: Seq<char>| (paths(a) + paths(d)).contains(x) <==> (paths(a).contains(x)
            || paths(d).contains(x)) by {
            vstd::seq_lib::lemma_seq_concat_contains_all_elements(paths(a), paths(d), x);
        }
        assert((paths(a) + paths(d)).to_set() =~= paths(a).to_set() + paths(d).to_set());
        assert(paths(add_deps_of(o, g)).to_set() =~= paths(o).to_set() + paths(all_deps(g)).to_set());
    }
}

/// The keys of a graph with sorted entries are distinct.
proof fn lemma_keys_distinct(g: Seq<EntryView>)
    requires
        crate::graph::sorted_entries(g),
    ensures
        paths(keys(g)).no_duplicates(),
{
    assert forall|i: int, j: int| 0 <= i < paths(keys(g)).len() && 0 <= j < paths(keys(g)).len() && i != j
        implies paths(keys(g))[i] != paths(keys(g))[j] by {
        let (lo, hi) = if i < j { (i, j) } else { (j, i) };
        crate::graph::lemma_less_irreflexive(g[lo].file.path);
        assert(crate::graph::key_of(g[lo]) == g[lo].file.path);
        assert(crate::graph::key_of(g[hi]) == g[hi].file.path);
        assert(crate::graph::seq_less(crate::graph::key_of(g[lo]), crate::graph::key_of(g[hi])));
    }
}

/// Facts about the node order that placement and routing rely on.
pub proof fn lemma_node_order(g: Seq<EntryView>)
    requires
        crate::graph::sorted_entries(g),
    ensures
        paths(node_order(g)).no_duplicates(),
        paths(node_order(g)).to_set() == graph_paths(g),
        g.len() <= node_order(g).len() <= graph_size(g),
        forall|i: int| 0 <= i < g.len() ==> node_order(g)[i] == g[i].file,
{
    lemma_keys_distinct(g);
    lemma_add_deps_of(keys(g), g);
    assert(keys(g).len() == g.len());
    assert forall|i: int| 0 <= i < g.len() implies node_order(g)[i] == g[i].file by {
        assert(keys(g)[i] == g[i].file);
    }
}

/// Where each node of a graph stands.
pub struct PlacedNode {
    pub path: String,
    pub point: ExcalidrawPoint,
}

/// The anchor of every node of a graph, in slot order.
pub struct NodePlacement {
    pub nodes: Vec<PlacedNode>,
}

impl NodePlacement {
    /// The placement holds the nodes of `order`, slot `i` anchored at
    /// `slot_point(i, cfg)`.
    pub open spec fn places(&self, order: Seq<NodeView>, cfg: DiagramConfig) -> bool {
        &&& self.nodes@.len() == order.len()
        &&& forall|i: int| 0 <= i < order.len() ==> #[trigger] self.nodes@[i].path@ == order[i].path
            && self.nodes@[i].point == slot_point(i, cfg)
    }

    /// The slot of the node `path`, if it is placed.
    pub fn find(&self, path: &String) -> (r: Option<usize>)
        ensures
            match r {
                Some(i) => i < self.nodes@.len() && self.nodes@[i as int].path@ == path@,
                None => forall|i: int| 0 <= i < self.nodes@.len() ==> self.nodes@[i].path@ != path@,
            },
    {
        let mut i: usize = 0;
        while i < self.nodes.len()
            invariant
                i <= self.nodes@.len(),
                forall|j: int| 0 <= j < i ==> self.nodes@[j].path@ != path@,
            decreases self.nodes@.len() - i,
        {
            if self.nodes[i].path == *path {
                return Some(i);
            }
            i = i + 1;
        }
        None
    }
}

proof fn lemma_all_deps_prefix(g: Seq<EntryView>, i: int)
    requires
        0 <= i <= g.len(),
    ensures
        all_deps(g.take(i)).len() <= all_deps(g).len(),
        forall|k: int| 0 <= k < all_deps(g.take(i)).len() ==> all_deps(g.take(i))[k] == all_deps(g)[k],
        edges(g.take(i)).len() <= edges(g).len(),
        forall|k: int| 0 <= k < edges(g.take(i)).len() ==> edges(g.take(i))[k] == edges(g)[k],
    decreases g.len(),
{
    if i == g.len() {
        assert(g.take(i) =~= g);
    } else {
        assert(g.take(i) =~= g.drop_last().take(i));
        lemma_all_deps_prefix(g.drop_last(), i);
    }
}

proof fn lemma_step(g: Seq<EntryView>, i: int)
    requires
        0 <= i < g.len(),
    ensures
        all_deps(g.take(i + 1)) == all_deps(g.take(i)) + g[i].deps,
        edges(g.take(i + 1)) == edges(g.take(i)) + g[i].deps.map_values(
            |d: NodeView| (g[i].file.path, d.path),
        ),
        add_deps_of(keys(g), g.take(i + 1)) == add_nodes(add_deps_of(keys(g), g.take(i)), g[i].deps),
{
    assert(g.take(i + 1).drop_last() =~= g.take(i));
    assert(g.take(i + 1).last() == g[i]);
}

proof fn lemma_edges_len(g: Seq<EntryView>)
    ensures
        edges(g).len() == all_deps(g).len(),
    decreases g.len(),
{
    if g.len() > 0 {
        lemma_edges_len(g.drop_last());
    }
}

/// The slot of a placed node is the one index that holds its identity.
proof fn lemma_slot_of(order: Seq<NodeView>, x: int)
    requires
        paths(order).no_duplicates(),
        0 <= x < order.len(),
    ensures
        slot_of(order, order[x].path) == x,
{
    let p = order[x].path;
    assert(paths(order)[x] == p);
    let y = slot_of(order, p);
    assert(0 <= y < order.len() && order[y].path == p);
    assert(paths(order)[y] == p);
}

/// `nodes` and `texts` hold the placement and labels of `order`.
pub open spec fn shows(
    nodes: Seq<PlacedNode>,
    texts: Seq<ExcalidrawElement>,
    order: Seq<NodeView>,
    cfg: DiagramConfig,
) -> bool {
    &&& nodes.len() == order.len()
    &&& texts.len() == order.len()
    &&& forall|i: int| 0 <= i < order.len() ==> #[trigger] nodes[i].path@ == order[i].path
        && nodes[i].point == slot_point(i, cfg)
    &&& forall|i: int| 0 <= i < order.len() ==> is_text_element(
        #[trigger] texts[i],
        order[i].path,
        order[i].name,
        slot_point(i, cfg),
    )
}

fn place_node(
    nodes: &mut Vec<PlacedNode>,
    texts: &mut Vec<ExcalidrawElement>,
    n: &FileNode,
    cfg: &DiagramConfig,
    Ghost(order): Ghost<Seq<NodeView>>,
)
    requires
        cfg.wf(),
        shows(old(nodes)@, old(texts)@, order, *cfg),
        old(nodes)@.len() <= MAX_GRAPH_SIZE,
    ensures
        shows(final(nodes)@, final(texts)@, order.push(n@), *cfg),
{
    let i = nodes.len();
    assert((i as int) * (cfg.y_increment as int) <= 1_000_000_000_000_000_000) by (nonlinear_arith)
        requires
            0 <= i <= 1_000_000_000,
            0 <= cfg.y_increment <= 1_000_000_000,
    ;
    assert(0 <= (i as int) * (cfg.y_increment as int)) by (nonlinear_arith)
        requires
            0 <= i,
            0 <= cfg.y_increment,
    ;
    let y: i64 = (i as i64) * cfg.y_increment;
    let point = ExcalidrawPoint::new(0, y);
    let text = ExcalidrawElement::new_text(n.name.as_str(), 0, y, n.source.as_str());
    nodes.push(PlacedNode { path: n.source.clone(), point });
    texts.push(text);
    assert(point == slot_point(i as int, *cfg));
    let ghost o2 = order.push(n@);
    assert forall|k: int| 0 <= k < o2.len() implies #[trigger] nodes@[k].path@ == o2[k].path
        && nodes@[k].point == slot_point(k, *cfg) by {
        if k < i {
            assert(nodes@[k] == old(nodes)@[k]);
        }
    }
    assert forall|k: int| 0 <= k < o2.len() implies is_text_element(
        #[trigger] texts@[k],
        o2[k].path,
        o2[k].name,
        slot_point(k, *cfg),
    ) by {
        if k < i {
            assert(texts@[k] == old(texts)@[k]);
        }
    }
}

/// Places every node of the graph in one column: the files in graph order,
/// then each import not yet placed, in the order first met. Slot `i` is
/// anchored at `(0, i * y_increment)` and labelled with its node's name.
pub fn layout(g: &DependencyGraph, cfg: &DiagramConfig) -> (r: (NodePlacement, Vec<ExcalidrawElement>))
    requires
        g.wf(),
        cfg.wf(),
        graph_size(g@) <= MAX_GRAPH_SIZE,
    ensures
        shows(r.0.nodes@, r.1@, node_order(g@), *cfg),
        r.0.places(node_order(g@), *cfg),
{
    let ghost gv = g@;
    let ghost ks = keys(gv);
    let mut nodes: Vec<PlacedNode> = Vec::new();
    let mut texts: Vec<ExcalidrawElement> = Vec::new();
    let n = g.entries.len();
    let mut i: usize = 0;
    while i < n
        invariant
            n == gv.len(),
            gv == g@,
            ks == keys(gv),
            cfg.wf(),
            graph_size(gv) <= MAX_GRAPH_SIZE,
            i <= n,
            shows(nodes@, texts@, ks.take(i as int), *cfg),
        decreases n - i,
    {
        assert(g.entries@[i as int].file@ == ks[i as int]);
        place_node(&mut nodes, &mut texts, &g.entries[i].file, cfg, Ghost(ks.take(i as int)));
        assert(ks.take(i as int).push(ks[i as int]) =~= ks.take(i + 1));
        i = i + 1;
    }
    assert(ks.take(n as int) =~= ks);
    assert(add_deps_of(ks, gv.take(0)) == ks);
    let mut i: usize = 0;
    while i < n
        invariant
            n == gv.len(),
            gv == g@,
            ks == keys(gv),
            cfg.wf(),
            graph_size(gv) <= MAX_GRAPH_SIZE,
            i <= n,
            shows(nodes@, texts@, add_deps_of(ks, gv.take(i as int)), *cfg),
        decreases n - i,
    {
        proof {
            lemma_step(gv, i as int);
            lemma_all_deps_prefix(gv, i + 1);
            lemma_add_deps_of(ks, gv.take(i as int));
        }
        let ghost base = add_deps_of(ks, gv.take(i as int));
        let ghost ds = gv[i as int].deps;
        let deps = &g.entries[i].deps;
        let m = deps.len();
        assert(ds.len() == m);
        assert(add_nodes(base, ds.take(0)) == base);
        let mut j: usize = 0;
        while j < m
            invariant
                m == ds.len(),
                m == deps@.len(),
                ds == deps@.map_values(|d: FileNode| d@),
                cfg.wf(),
                j <= m,
                base.len() + m <= MAX_GRAPH_SIZE,
                shows(nodes@, texts@, add_nodes(base, ds.take(j as int)), *cfg),
            decreases m - j,
        {
            let ghost cur = add_nodes(base, ds.take(j as int));
            proof {
                lemma_add_nodes(base, ds.take(j as int));
                assert(ds.take(j + 1).drop_last() =~= ds.take(j as int));
                assert(ds.take(j + 1).last() == ds[j as int]);
            }
            let dep = &deps[j];
            assert(dep@ == ds[j as int]);
            let placement = NodePlacement { nodes };
            let found = placement.find(&dep.source);
            nodes = placement.nodes;
            match found {
                Some(k) => {
                    assert(paths(cur)[k as int] == dep@.path);
                },
                None => {
                    assert(!paths(cur).contains(dep@.path)) by {
                        if paths(cur).contains(dep@.path) {
                            let k = choose|k: int| 0 <= k < paths(cur).len() && paths(cur)[k] == dep@.path;
                            assert(nodes@[k].path@ == cur[k].path);
                        }
                    }
                    place_node(&mut nodes, &mut texts, dep, cfg, Ghost(cur));
                },
            }
            j = j + 1;
        }
        assert(ds.take(m as int) =~= ds);
        i = i + 1;
    }
    assert(gv.take(n as int) =~= gv);
    let placement = NodePlacement { nodes };
    (placement, texts)
}

/// The arrow with id `id` from the node at `a` to the node at `b`, its
/// vertical run `offset` to the left, its ends bound to the elements `from`
/// and `to`.
pub fn build_dependency_arrow(
    a: &ExcalidrawPoint,
    b: &ExcalidrawPoint,
    offset: i64,
    id: String,
    from: String,
    to: String,
) -> (r: ExcalidrawElement)
    requires
        i64::MIN <= a.x - offset <= i64::MAX,
        i64::MIN <= b.x - offset <= i64::MAX,
    ensures
        is_arrow_element(r, id@, *a, *b, offset as int, from@, to@),
{
    let ax = a.x - offset;
    let bx = b.x - offset;
    let points = vec![
        ExcalidrawPoint::new(a.x, a.y),
        ExcalidrawPoint::new(ax, a.y),
        ExcalidrawPoint::new(bx, b.y),
        ExcalidrawPoint::new(b.x, b.y),
    ];
    assert(points@ =~= comb_points(*a, *b, offset as int));
    ExcalidrawElement::new_arrow_with_id(
        id,
        points,
        a.x,
        a.y,
        String::from_str("#000000"),
        ExcalidrawBinding::attached_to(from),
        ExcalidrawBinding::attached_to(to),
    )
}

/// The arrow of edge number `k`, from its importing node to its imported node.
pub open spec fn is_edge_arrow(
    e: ExcalidrawElement,
    id: Seq<char>,
    g: Seq<EntryView>,
    k: int,
    cfg: DiagramConfig,
) -> bool {
    let order = node_order(g);
    let (from, to) = edges(g)[k];
    is_arrow_element(
        e,
        id,
        slot_point(slot_of(order, from), cfg),
        slot_point(slot_of(order, to), cfg),
        edge_offset(k, cfg),
        from,
        to,
    )
}

proof fn lemma_offset_bound(k: int, cfg: DiagramConfig)
    requires
        cfg.wf(),
        0 <= k <= MAX_GRAPH_SIZE,
    ensures
        0 <= edge_offset(k, cfg) <= 1_000_000_001_000_000_000,
{
    assert(0 <= k * cfg.offset_step <= 1_000_000_000_000_000_000) by (nonlinear_arith)
        requires
            0 <= k <= 1_000_000_000,
            0 <= cfg.offset_step <= 1_000_000_000,
    ;
}

/// Routes one arrow for every edge, in the order of `edges`: arrow `k` takes
/// the id `ids[k]`, runs from the anchor of its importing node to that of its
/// imported node, and fans out `base_offset + k * offset_step` to the left.
pub fn route_with_ids(
    g: &DependencyGraph,
    placement: &NodePlacement,
    cfg: &DiagramConfig,
    ids: Vec<String>,
) -> (r: Vec<ExcalidrawElement>)
    requires
        g.wf(),
        cfg.wf(),
        graph_size(g@) <= MAX_GRAPH_SIZE,
        placement.places(node_order(g@), *cfg),
        ids@.len() == edges(g@).len(),
    ensures
        r@.len() == edges(g@).len(),
        forall|k: int| 0 <= k < r@.len() ==> is_edge_arrow(#[trigger] r@[k], ids@[k]@, g@, k, *cfg),
{
    let ghost gv = g@;
    let ghost order = node_order(gv);
    proof {
        lemma_node_order(gv);
        lemma_edges_len(gv);
    }
    let mut arrows: Vec<ExcalidrawElement> = Vec::new();
    let n = g.entries.len();
    let mut i: usize = 0;
    while i < n
        invariant
            n == gv.len(),
            gv == g@,
            order == node_order(gv),
            cfg.wf(),
            graph_size(gv) <= MAX_GRAPH_SIZE,
            placement.places(order, *cfg),
            paths(order).no_duplicates(),
            paths(order).to_set() == graph_paths(gv),
            forall|t: int| 0 <= t < gv.len() ==> order[t] == gv[t].file,
            gv.len() <= order.len(),
            ids@.len() == edges(gv).len(),
            edges(gv).len() == all_deps(gv).len(),
            i <= n,
            arrows@.len() == edges(gv.take(i as int)).len(),
            forall|k: int| 0 <= k < arrows@.len() ==> is_edge_arrow(#[trigger] arrows@[k], ids@[k]@, gv, k, *cfg),
        decreases n - i,
    {
        proof {
            lemma_step(gv, i as int);
            lemma_all_deps_prefix(gv, i + 1);
            lemma_edges_len(gv.take(i + 1));
            lemma_edges_len(gv.take(i as int));
            lemma_slot_of(order, i as int);
        }
        let ghost done = edges(gv.take(i as int)).len();
        let ghost src = gv[i as int].file.path;
        let ghost ds = gv[i as int].deps;
        let entry = &g.entries[i];
        assert(entry.file.source@ == src);
        assert(order[i as int] == gv[i as int].file);
        assert(placement.nodes@[i as int].path@ == order[i as int].path);
        let start = placement.nodes[i].point;
        let m = entry.deps.len();
        let mut j: usize = 0;
        while j < m
            invariant
                m == ds.len(),
                m == entry.deps@.len(),
                ds == entry.deps@.map_values(|d: FileNode| d@),
                entry.file.source@ == src,
                src == gv[i as int].file.path,
                ds == gv[i as int].deps,
                start == slot_point(slot_of(order, src), *cfg),
                i < n,
                n == gv.len(),
                gv == g@,
                order == node_order(gv),
                cfg.wf(),
                graph_size(gv) <= MAX_GRAPH_SIZE,
                placement.places(order, *cfg),
                paths(order).no_duplicates(),
                paths(order).to_set() == graph_paths(gv),
                ids@.len() == edges(gv).len(),
                edges(gv).len() == all_deps(gv).len(),
                edges(gv.take(i + 1)) == edges(gv.take(i as int)) + ds.map_values(|d: NodeView| (src, d.path)),
                all_deps(gv.take(i + 1)) == all_deps(gv.take(i as int)) + ds,
                edges(gv.take(i as int)).len() == done,
                all_deps(gv.take(i as int)).len() == done,
                edges(gv.take(i + 1)).len() <= edges(gv).len(),
                forall|k: int| 0 <= k < edges(gv.take(i + 1)).len() ==> edges(gv.take(i + 1))[k] == edges(gv)[k],
                forall|k: int| 0 <= k < all_deps(gv.take(i + 1)).len() ==> all_deps(gv.take(i + 1))[k] == all_deps(gv)[k],
                j <= m,
                arrows@.len() == done + j,
                forall|k: int| 0 <= k < arrows@.len() ==> is_edge_arrow(#[trigger] arrows@[k], ids@[k]@, gv, k, *cfg),
            decreases m - j,
        {
            let ghost k = done + j;
            let dep = &entry.deps[j];
            assert(dep@ == ds[j as int]);
            let ghost dpath = ds[j as int].path;
            proof {
                assert(all_deps(gv.take(i + 1))[done + j] == ds[j as int]);
                assert(all_deps(gv)[done + j] == ds[j as int]);
                assert(paths(all_deps(gv))[done + j] == dpath);
                assert(graph_paths(gv).contains(dpath));
                assert(paths(order).to_set().contains(dpath));
                let x = choose|x: int| 0 <= x < paths(order).len() && paths(order)[x] == dpath;
                assert(order[x].path == dpath);
                lemma_slot_of(order, x);
                assert(edges(gv)[k] == (src, dpath));
                lemma_offset_bound(k, *cfg);
            }
            let found = placement.find(&dep.source);
            proof {
                if found is None {
                    let x = slot_of(order, dpath);
                    assert(placement.nodes@[x].path@ == dpath);
                }
            }
            let t = match found {
                Some(t) => t,
                None => 0,
            };
            proof {
                assert(order[t as int].path == dpath);
                lemma_slot_of(order, t as int);
            }
            let end = placement.nodes[t].point;
            let offset: i64 = cfg.base_offset + (arrows.len() as i64) * cfg.offset_step;
            let arrow = build_dependency_arrow(
                &start,
                &end,
                offset,
                ids[arrows.len()].clone(),
                entry.file.source.clone(),
                dep.source.clone(),
            );
            arrows.push(arrow);
            j = j + 1;
        }
        i = i + 1;
    }
    assert(gv.take(n as int) =~= gv);
    arrows
}

/// The number of edges of the graph.
fn edge_count(g: &DependencyGraph) -> (r: usize)
    requires
        graph_size(g@) <= MAX_GRAPH_SIZE,
    ensures
        r == edges(g@).len(),
{
    let ghost gv = g@;
    proof {
        lemma_edges_len(gv);
    }
    let mut total: usize = 0;
    let mut i: usize = 0;
    while i < g.entries.len()
        invariant
            gv == g@,
            graph_size(gv) <= MAX_GRAPH_SIZE,
            edges(gv).len() == all_deps(gv).len(),
            i <= gv.len(),
            total == all_deps(gv.take(i as int)).len(),
        decreases gv.len() - i,
    {
        proof {
            lemma_step(gv, i as int);
            lemma_all_deps_prefix(gv, i + 1);
        }
        assert(g.entries@[i as int].deps@.len() == gv[i as int].deps.len());
        total = total + g.entries[i].deps.len();
        i = i + 1;
    }
    assert(gv.take(i as int) =~= gv);
    total
}

/// Routes one arrow for every edge as `route_with_ids` does, each with a
/// freshly generated id.
pub fn route(g: &DependencyGraph, placement: &NodePlacement, cfg: &DiagramConfig) -> (r: Vec<ExcalidrawElement>)
    requires
        g.wf(),
        cfg.wf(),
        graph_size(g@) <= MAX_GRAPH_SIZE,
        placement.places(node_order(g@), *cfg),
    ensures
        r@.len() == edges(g@).len(),
        forall|k: int| 0 <= k < r@.len() ==> #[trigger] r@[k].id@.len() == 36 && is_edge_arrow(r@[k], r@[k].id@, g@, k, *cfg),
{
    let count = edge_count(g);
    let mut ids: Vec<String> = Vec::new();
    while ids.len() < count
        invariant
            ids@.len() <= count,
            forall|k: int| 0 <= k < ids@.len() ==> #[trigger] ids@[k]@.len() == 36,
        decreases count - ids@.len(),
    {
        ids.push(fresh_id());
    }
    let ghost idv = ids@;
    let r = route_with_ids(g, placement, cfg, ids);
    assert forall|k: int| 0 <= k < r@.len() implies #[trigger] r@[k].id@.len() == 36 && is_edge_arrow(r@[k], r@[k].id@, g@, k, *cfg) by {
        assert(idv[k]@.len() == 36);
    }
    r
}

/// The diagram of a graph: one label per node in slot order, then one arrow
/// per edge in edge order, on the configured background.
pub fn build_document(g: &DependencyGraph, cfg: &DiagramConfig) -> (r: ExcalidrawDocument)
    requires
        g.wf(),
        cfg.wf(),
        graph_size(g@) <= MAX_GRAPH_SIZE,
    ensures
        r.doc_type@ == "excalidraw"@,
        r.version@ == "2.0.0"@,
        r.source@ == "https://excalidraw.com"@,
        r.app_state.view_background_color@ == cfg.background_color@,
        r.elements@.len() == node_order(g@).len() + edges(g@).len(),
        forall|i: int| 0 <= i < node_order(g@).len() ==> is_text_element(
            #[trigger] r.elements@[i],
            node_order(g@)[i].path,
            node_order(g@)[i].name,
            slot_point(i, *cfg),
        ),
        forall|k: int| 0 <= k < edges(g@).len() ==> #[trigger] r.elements@[node_order(g@).len() + k].id@.len() == 36
            && is_edge_arrow(r.elements@[node_order(g@).len() + k], r.elements@[node_order(g@).len() + k].id@, g@, k, *cfg),
{
    let ghost order = node_order(g@);
    let mut document = ExcalidrawDocument::new();
    document.app_state.view_background_color = cfg.background_color.clone();
    let (placement, texts) = layout(g, cfg);
    let arrows = route(g, &placement, cfg);
    let mut texts = texts;
    let mut arrows = arrows;
    let ghost tv = texts@;
    let ghost av = arrows@;
    let ghost mut i: int = 0;
    while texts.len() > 0
        invariant
            i + texts@.len() == tv.len(),
            0 <= i,
            texts@ == tv.skip(i),
            document.elements@ == tv.take(i),
            document.doc_type@ == "excalidraw"@,
            document.version@ == "2.0.0"@,
            document.source@ == "https://excalidraw.com"@,
            document.app_state.view_background_color@ == cfg.background_color@,
        decreases texts@.len(),
    {
        let t = texts.remove(0);
        document.add_element(t);
        assert(tv.take(i + 1) =~= tv.take(i).push(t));
        proof {
            i = i + 1;
        }
        assert(texts@ =~= tv.skip(i));
    }
    assert(tv.take(i) =~= tv);
    let ghost mut j: int = 0;
    while arrows.len() > 0
        invariant
            j + arrows@.len() == av.len(),
            0 <= j,
            arrows@ == av.skip(j),
            document.elements@ == tv + av.take(j),
            document.doc_type@ == "excalidraw"@,
            document.version@ == "2.0.0"@,
            document.source@ == "https://excalidraw.com"@,
            document.app_state.view_background_color@ == cfg.background_color@,
        decreases arrows@.len(),
    {
        let a = arrows.remove(0);
        document.add_element(a);
        assert(tv + av.take(j + 1) =~= (tv + av.take(j)).push(a));
        proof {
            j = j + 1;
        }
        assert(arrows@ =~= av.skip(j));
    }
    assert(tv + av.take(j) =~= tv + av);
    assert(tv.len() == order.len());
    assert forall|k: int| 0 <= k < edges(g@).len() implies #[trigger] document.elements@[order.len() + k].id@.len() == 36
        && is_edge_arrow(document.elements@[order.len() + k], document.elements@[order.len() + k].id@, g@, k, *cfg) by {
        assert(document.elements@[order.len() + k] == av[k]);
        assert(av[k].id@.len() == 36);
    }
    document
}

/// One label per node: a layout draws as many labels as the graph has
/// distinct identities among its files and imports, with no label twice.
pub proof fn lemma_one_label_per_node(
    g: DependencyGraph,
    cfg: DiagramConfig,
    nodes: Seq<PlacedNode>,
    texts: Seq<ExcalidrawElement>,
)
    requires
        g.wf(),
        shows(nodes, texts, node_order(g@), cfg),
    ensures
        texts.len() == graph_paths(g@).len(),
        forall|i: int, j: int| 0 <= i < j < texts.len() ==> texts[i].id@ != texts[j].id@,
{
    lemma_node_order(g@);
    paths(node_order(g@)).unique_seq_to_set();
    let order = node_order(g@);
    assert forall|i: int, j: int| 0 <= i < j < texts.len() implies texts[i].id@ != texts[j].id@ by {
        assert(paths(order)[i] == order[i].path);
        assert(paths(order)[j] == order[j].path);
    }
}

/// One arrow per edge: routing draws as many arrows as there are (file,
/// import) pairs, repeated imports and self-imports included.
pub proof fn lemma_one_arrow_per_edge(g: DependencyGraph, arrows: Seq<ExcalidrawElement>)
    requires
        arrows.len() == edges(g@).len(),
    ensures
        arrows.len() == all_deps(g@).len(),
        all_deps(g@).len() == g@.fold_left(0nat, |n: nat, e: EntryView| n + e.deps.len()),
{
    lemma_edges_len(g@);
    lemma_deps_total(g@);
}

proof fn lemma_deps_total(g: Seq<EntryView>)
    ensures
        all_deps(g).len() == g.fold_left(0nat, |n: nat, e: EntryView| n + e.deps.len()),
    decreases g.len(),
{
    if g.len() > 0 {
        lemma_deps_total(g.drop_last());
    }
}

/// Placement depends on the graph alone: two layouts of equal graphs with the
/// same settings place the same nodes at the same points with the same labels.
pub proof fn lemma_layout_deterministic(
    g1: DependencyGraph,
    g2: DependencyGraph,
    cfg: DiagramConfig,
    nodes1: Seq<PlacedNode>,
    texts1: Seq<ExcalidrawElement>,
    nodes2: Seq<PlacedNode>,
    texts2: Seq<ExcalidrawElement>,
)
    requires
        g1@ == g2@,
        shows(nodes1, texts1, node_order(g1@), cfg),
        shows(nodes2, texts2, node_order(g2@), cfg),
    ensures
        nodes1.len() == nodes2.len(),
        forall|i: int| 0 <= i < nodes1.len() ==> nodes1[i].path@ == nodes2[i].path@ && nodes1[i].point
            == nodes2[i].point,
        forall|i: int| 0 <= i < texts1.len() ==> texts1[i].text@ == texts2[i].text@ && texts1[i].x
            == texts2[i].x && texts1[i].y == texts2[i].y,
{
}

/// Successive arrows fan out: with a positive step, a later edge's vertical
/// run stands further left than an earlier edge's.
pub proof fn lemma_arrows_fan_out(
    g: Seq<EntryView>,
    cfg: DiagramConfig,
    e1: ExcalidrawElement,
    id1: Seq<char>,
    k1: int,
    e2: ExcalidrawElement,
    id2: Seq<char>,
    k2: int,
)
    requires
        cfg.wf(),
        cfg.offset_step > 0,
        0 <= k1 < k2 <= MAX_GRAPH_SIZE,
        is_edge_arrow(e1, id1, g, k1, cfg),
        is_edge_arrow(e2, id2, g, k2, cfg),
    ensures
        edge_offset(k1, cfg) < edge_offset(k2, cfg),
        e2.points@[1].x < e1.points@[1].x,
        e2.points@[2].x < e1.points@[2].x,
{
    lemma_offset_bound(k1, cfg);
    lemma_offset_bound(k2, cfg);
    assert(k1 * cfg.offset_step < k2 * cfg.offset_step) by (nonlinear_arith)
        requires
            k1 < k2,
            cfg.offset_step > 0,
    ;
}

} // verus!
