//! Import resolution and the ordered dependency graph.
use vstd::prelude::*;
use vstd::string::*;

verus! {

/// Lexicographic order of character sequences, by code point; a proper prefix
/// comes first. This is the order of `String`'s `Ord`.
pub open spec fn seq_less(a: Seq<char>, b: Seq<char>) -> bool
    decreases a.len(),
{
    if a.len() == 0 {
        b.len() > 0
    } else if b.len() == 0 {
        false
    } else if a[0] != b[0] {
        (a[0] as int) < (b[0] as int)
    } else {
        seq_less(a.drop_first(), b.drop_first())
    }
}

pub proof fn lemma_less_irreflexive(a: Seq<char>)
    ensures
        !seq_less(a, a),
    decreases a.len(),
{
    if a.len() > 0 {
        lemma_less_irreflexive(a.drop_first());
    }
}

pub proof fn lemma_less_transitive(a: Seq<char>, b: Seq<char>, c: Seq<char>)
    requires
        seq_less(a, b),
        seq_less(b, c),
    ensures
        seq_less(a, c),
    decreases a.len(),
{
    if a.len() > 0 && b.len() > 0 && c.len() > 0 && a[0] == b[0] && b[0] == c[0] {
        lemma_less_transitive(a.drop_first(), b.drop_first(), c.drop_first());
    }
}

pub proof fn lemma_less_total(a: Seq<char>, b: Seq<char>)
    ensures
        a == b || seq_less(a, b) || seq_less(b, a),
    decreases a.len(),
{
    if a.len() == 0 || b.len() == 0 {
        if a.len() == 0 && b.len() == 0 {
            assert(a =~= b);
        }
    } else if a[0] == b[0] {
        lemma_less_total(a.drop_first(), b.drop_first());
        if a.drop_first() == b.drop_first() {
            assert(a =~= seq![a[0]] + a.drop_first());
            assert(b =~= seq![b[0]] + b.drop_first());
        }
    } else {
        assert((a[0] as int) != (b[0] as int));
    }
}

proof fn lemma_less_skip(a: Seq<char>, b: Seq<char>, i: int)
    requires
        0 <= i <= a.len(),
        i <= b.len(),
        forall|j: int| 0 <= j < i ==> a[j] == b[j],
    ensures
        seq_less(a, b) == seq_less(a.skip(i), b.skip(i)),
    decreases i,
{
    if i > 0 {
        lemma_less_skip(a.drop_first(), b.drop_first(), i - 1);
        assert(a.drop_first().skip(i - 1) =~= a.skip(i));
        assert(b.drop_first().skip(i - 1) =~= b.skip(i));
    } else {
        assert(a.skip(0) =~= a);
        assert(b.skip(0) =~= b);
    }
}

/// Whether `a` comes before `b` in the order of paths.
pub fn path_less(a: &str, b: &str) -> (r: bool)
    ensures
        r == seq_less(a@, b@),
{
    let la = a.unicode_len();
    let lb = b.unicode_len();
    let mut i: usize = 0;
    while i < la && i < lb
        invariant
            la == a@.len(),
            lb == b@.len(),
            i <= la,
            i <= lb,
            forall|j: int| 0 <= j < i ==> a@[j] == b@[j],
        decreases la - i,
    {
        let ca = a.get_char(i);
        let cb = b.get_char(i);
        if ca != cb {
            proof {
                lemma_less_skip(a@, b@, i as int);
                assert(a@.skip(i as int)[0] == ca);
                assert(b@.skip(i as int)[0] == cb);
            }
            return (ca as u32) < (cb as u32);
        }
        i = i + 1;
    }
    proof {
        lemma_less_skip(a@, b@, i as int);
    }
    i == la && i < lb
}

/// The last `/`-separated segment of `s`.
pub open spec fn last_segment(s: Seq<char>) -> Seq<char>
    decreases s.len(),
{
    if s.len() == 0 {
        s
    } else if s.last() == '/' {
        Seq::empty()
    } else {
        last_segment(s.drop_last()).push(s.last())
    }
}

/// The text after the last `/` of `s`, or all of `s` when it has none.
pub fn last_segment_of(s: &str) -> (r: String)
    ensures
        r@ == last_segment(s@),
{
    let n = s.unicode_len();
    let mut start: usize = 0;
    let mut i: usize = 0;
    while i < n
        invariant
            n == s@.len(),
            start <= i <= n,
            last_segment(s@.take(i as int)) == s@.subrange(start as int, i as int),
        decreases n - i,
    {
        let c = s.get_char(i);
        proof {
            assert(s@.take(i + 1).drop_last() =~= s@.take(i as int));
            assert(s@.take(i + 1).last() == c);
        }
        if c == '/' {
            start = i + 1;
            assert(s@.subrange(start as int, i + 1) =~= Seq::<char>::empty());
        } else {
            assert(s@.subrange(start as int, i + 1) =~= s@.subrange(start as int, i as int).push(c));
        }
        i = i + 1;
    }
    assert(s@.take(n as int) =~= s@);
    String::from_str(s.substring_char(start, n))
}

/// Whether an import specifier is written as a path (`.`, `..`, or starting
/// with `./`, `../` or `/`) rather than naming a package.
pub open spec fn is_relative(s: Seq<char>) -> bool {
    s == seq!['.'] || s == seq!['.', '.'] || (s.len() >= 1 && s[0] == '/') || (s.len() >= 2 && s[0]
        == '.' && s[1] == '/') || (s.len() >= 3 && s[0] == '.' && s[1] == '.' && s[2] == '/')
}

pub fn is_relative_specifier(s: &str) -> (r: bool)
    ensures
        r == is_relative(s@),
{
    let n = s.unicode_len();
    if n == 0 {
        return false;
    }
    let c0 = s.get_char(0);
    if c0 == '/' {
        return true;
    }
    if c0 != '.' {
        return false;
    }
    if n == 1 {
        assert(s@ =~= seq!['.']);
        return true;
    }
    let c1 = s.get_char(1);
    if c1 == '/' {
        return true;
    }
    if c1 != '.' {
        return false;
    }
    if n == 2 {
        assert(s@ =~= seq!['.', '.']);
        return true;
    }
    s.get_char(2) == '/'
}

/// A node of the dependency graph. Its identity is `source`, the canonical
/// path of a file, or the specifier itself when the import did not resolve to
/// a file; `name` is its display label.
#[derive(Debug)]
pub struct FileNode {
    pub name: String,
    pub source: String,
    pub resolved: bool,
}

impl FileNode {
    /// A node for a file that exists at the canonical path `source`.
    pub fn new(name: String, source: String) -> (r: Self)
        ensures
            r.name == name,
            r.source == source,
            r.resolved,
    {
        FileNode { name, source, resolved: true }
    }

    /// A node for an import that names no file found on disk.
    pub fn unresolved(name: String, source: String) -> (r: Self)
        ensures
            r.name == name,
            r.source == source,
            !r.resolved,
    {
        FileNode { name, source, resolved: false }
    }

    /// The node of a scanned file, labelled by the last segment of its path.
    pub fn for_file(path: &str) -> (r: Self)
        ensures
            r@ == file_node(path@),
    {
        FileNode::new(last_segment_of(path), String::from_str(path))
    }
}

/// What a node holds: its label, its identity, and whether it names a file.
pub ghost struct NodeView {
    pub name: Seq<char>,
    pub path: Seq<char>,
    pub resolved: bool,
}

impl View for FileNode {
    type V = NodeView;

    open spec fn view(&self) -> NodeView {
        NodeView { name: self.name@, path: self.source@, resolved: self.resolved }
    }
}

/// The node of a scanned file at `path`.
pub open spec fn file_node(path: Seq<char>) -> NodeView {
    NodeView { name: last_segment(path), path, resolved: true }
}

/// The node that an import specifier stands for, given what canonicalizing
/// the specifier against the importing file's directory produced.
pub open spec fn resolved_node(specifier: Seq<char>, canonical: Option<Seq<char>>) -> NodeView {
    if is_relative(specifier) && canonical is Some {
        NodeView { name: last_segment(specifier), path: canonical->0, resolved: true }
    } else {
        NodeView { name: last_segment(specifier), path: specifier, resolved: false }
    }
}

/// Resolves one import specifier. `canonical` is the canonical path of the
/// specifier joined to the importing file's directory, or `None` where that
/// path does not exist or could not be read. A specifier that is not written
/// as a path never resolves.
pub fn resolve(specifier: &str, canonical: Option<String>) -> (r: FileNode)
    ensures
        r@ == resolved_node(
            specifier@,
            match canonical {
                Some(c) => Some(c@),
                None => None,
            },
        ),
{
    let name = last_segment_of(specifier);
    if is_relative_specifier(specifier) {
        match canonical {
            Some(c) => FileNode::new(name, c),
            None => FileNode::unresolved(name, String::from_str(specifier)),
        }
    } else {
        FileNode::unresolved(name, String::from_str(specifier))
    }
}

/// One file of the graph and the nodes it imports, in import order.
pub struct GraphEntry {
    pub file: FileNode,
    pub deps: Vec<FileNode>,
}

pub ghost struct EntryView {
    pub file: NodeView,
    pub deps: Seq<NodeView>,
}

impl View for GraphEntry {
    type V = EntryView;

    open spec fn view(&self) -> EntryView {
        EntryView { file: self.file@, deps: self.deps@.map_values(|n: FileNode| n@) }
    }
}

pub open spec fn key_of(e: EntryView) -> Seq<char> {
    e.file.path
}

/// Keys strictly increasing: unique, and in path order.
pub open spec fn sorted_entries(s: Seq<EntryView>) -> bool {
    forall|i: int, j: int| 0 <= i < j < s.len() ==> seq_less(key_of(s[i]), key_of(s[j]))
}

/// The entries after putting `e` in its place by key, replacing an entry with
/// the same key.
pub open spec fn insert_sorted(s: Seq<EntryView>, e: EntryView) -> Seq<EntryView>
    decreases s.len(),
{
    if s.len() == 0 {
        seq![e]
    } else if seq_less(key_of(e), key_of(s[0])) {
        seq![e] + s
    } else if key_of(e) == key_of(s[0]) {
        seq![e] + s.drop_first()
    } else {
        seq![s[0]] + insert_sorted(s.drop_first(), e)
    }
}

proof fn lemma_insert_at(s: Seq<EntryView>, e: EntryView, p: int)
    requires
        sorted_entries(s),
        0 <= p <= s.len(),
        forall|i: int| 0 <= i < p ==> seq_less(key_of(s[i]), key_of(e)),
        p == s.len() || !seq_less(key_of(s[p]), key_of(e)),
    ensures
        insert_sorted(s, e) == if p < s.len() && key_of(s[p]) == key_of(e) {
            s.update(p, e)
        } else {
            s.insert(p, e)
        },
        sorted_entries(insert_sorted(s, e)),
    decreases p,
{
    if p == 0 {
        if s.len() == 0 {
            assert(s.insert(0, e) =~= seq![e]);
        } else {
            lemma_less_total(key_of(e), key_of(s[0]));
            if key_of(s[0]) == key_of(e) {
                assert(seq![e] + s.drop_first() =~= s.update(0, e));
            } else {
                assert(seq![e] + s =~= s.insert(0, e));
                assert forall|j: int| 0 < j < s.len() implies seq_less(key_of(e), key_of(s[j])) by {
                    lemma_less_transitive(key_of(e), key_of(s[0]), key_of(s[j]));
                }
            }
        }
    } else {
        let k = key_of(e);
        let k0 = key_of(s[0]);
        lemma_less_irreflexive(k0);
        if seq_less(k, k0) {
            lemma_less_transitive(k0, k, k0);
        }
        let t = s.drop_first();
        assert forall|i: int| 0 <= i < p - 1 implies seq_less(key_of(t[i]), key_of(e)) by {
            assert(t[i] == s[i + 1]);
        }
        lemma_insert_at(t, e, p - 1);
        if p < s.len() && key_of(s[p]) == key_of(e) {
            assert(seq![s[0]] + t.update(p - 1, e) =~= s.update(p, e));
        } else {
            assert(seq![s[0]] + t.insert(p - 1, e) =~= s.insert(p, e));
        }
        let r = insert_sorted(s, e);
        let rt = insert_sorted(t, e);
        assert(r == seq![s[0]] + rt);
        assert forall|i: int, j: int| 0 <= i < j < r.len() implies seq_less(key_of(r[i]), key_of(r[j])) by {
            if i == 0 {
                if p < s.len() && key_of(s[p]) == key_of(e) {
                    assert(key_of(r[j]) == key_of(s[j]));
                } else if j <= p {
                    assert(j == p || key_of(r[j]) == key_of(s[j]));
                } else {
                    assert(r[j] == s[j - 1]);
                }
            } else {
                assert(r[i] == rt[i - 1]);
                assert(r[j] == rt[j - 1]);
            }
        }
    }
}

/// An ordered mapping from the canonical path of each scanned file to the
/// nodes it imports. Entries are kept in path order with unique keys.
pub struct DependencyGraph {
    pub entries: Vec<GraphEntry>,
}

impl View for DependencyGraph {
    type V = Seq<EntryView>;

    open spec fn view(&self) -> Seq<EntryView> {
        self.entries@.map_values(|e: GraphEntry| e@)
    }
}

impl DependencyGraph {
    pub open spec fn wf(&self) -> bool {
        sorted_entries(self@)
    }

    /// A graph with no files.
    pub fn new() -> (r: Self)
        ensures
            r.wf(),
            r@.len() == 0,
    {
        let r = DependencyGraph { entries: Vec::new() };
        assert(r@ =~= Seq::<EntryView>::empty());
        r
    }

    /// Records the imports of `file`, in place of any earlier record for the
    /// same path.
    pub fn insert(&mut self, file: FileNode, deps: Vec<FileNode>)
        requires
            old(self).wf(),
        ensures
            final(self).wf(),
            final(self)@ == insert_sorted(
                old(self)@,
                EntryView { file: file@, deps: deps@.map_values(|n: FileNode| n@) },
            ),
    {
        let ghost e = EntryView { file: file@, deps: deps@.map_values(|n: FileNode| n@) };
        let n = self.entries.len();
        let mut p: usize = 0;
        let mut done = false;
        while !done && p < n
            invariant
                n == self.entries@.len(),
                p <= n,
                self.wf(),
                key_of(e) == file.source@,
                forall|i: int| 0 <= i < p ==> seq_less(key_of(self@[i]), key_of(e)),
                done ==> p < n && !seq_less(key_of(self@[p as int]), key_of(e)),
            decreases n - p + (if done { 0int } else { 1int }),
        {
            assert(key_of(self@[p as int]) == self.entries@[p as int].file.source@);
            assert(key_of(e) == file.source@);
            let less = path_less(self.entries[p].file.source.as_str(), file.source.as_str());
            assert(less == seq_less(key_of(self@[p as int]), key_of(e)));
            if less {
                p = p + 1;
            } else {
                done = true;
            }
        }
        proof {
            lemma_insert_at(self@, e, p as int);
        }
        let entry = GraphEntry { file, deps };
        assert(entry@ == e);
        assert(p < n ==> key_of(self@[p as int]) == self.entries@[p as int].file.source@);
        if p < n && self.entries[p].file.source == entry.file.source {
            self.entries.set(p, entry);
            assert(self@ =~= old(self)@.update(p as int, e));
        } else {
            self.entries.insert(p, entry);
            assert(self@ =~= old(self)@.insert(p as int, e));
        }
    }
}

/// A scanned file: its canonical path, and its imports resolved to nodes, or
/// `None` where the file did not parse.
pub struct ScannedFile {
    pub path: String,
    pub imports: Option<Vec<FileNode>>,
}

/// The graph that recording `files` in order into an empty graph gives; files
/// that did not parse are left out.
pub open spec fn graph_of(files: Seq<ScannedFile>) -> Seq<EntryView>
    decreases files.len(),
{
    if files.len() == 0 {
        Seq::empty()
    } else {
        let prev = graph_of(files.drop_last());
        match files.last().imports {
            Some(d) => insert_sorted(
                prev,
                EntryView { file: file_node(files.last().path@), deps: d@.map_values(|n: FileNode| n@) },
            ),
            None => prev,
        }
    }
}

/// Builds the dependency graph of the scanned files. A later record of a path
/// replaces an earlier one.
pub fn build_dependency_map(files: Vec<ScannedFile>) -> (r: DependencyGraph)
    ensures
        r.wf(),
        r@ == graph_of(files@),
{
    let mut graph = DependencyGraph::new();
    let mut rest = files;
    let ghost all = rest@;
    let ghost mut i: int = 0;
    while rest.len() > 0
        invariant
            0 <= i <= all.len(),
            rest@ == all.skip(i),
            graph.wf(),
            graph@ == graph_of(all.take(i)),
        decreases rest@.len(),
    {
        let f = rest.remove(0);
        proof {
            assert(all.take(i + 1).drop_last() =~= all.take(i));
            assert(all.take(i + 1).last() == f);
        }
        match f.imports {
            Some(deps) => {
                let node = FileNode::for_file(f.path.as_str());
                graph.insert(node, deps);
            },
            None => {},
        }
        proof {
            i = i + 1;
            assert(rest@ =~= all.skip(i));
        }
    }
    assert(all.take(i) =~= all);
    graph
}

} // verus!
