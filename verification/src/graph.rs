use indexmap::IndexMap;
use vstd::prelude::*;

use crate::object::{key_fits, FileObject, KeyView, Node, NodeRef, Object, ObjectKey, WikiPage};

verus! {

#[verifier::external_type_specification]
#[verifier::external_body]
#[verifier::reject_recursive_types(K)]
#[verifier::reject_recursive_types(V)]
#[verifier::reject_recursive_types(S)]
pub struct ExIndexMap<K, V, S>(IndexMap<K, V, S>);

/// The entries of a node map, in their order: each key by its view, with its node.
pub uninterp spec fn node_entries(m: IndexMap<ObjectKey, Node>) -> Seq<(KeyView, Node)>;

/// `IndexMap::new`: a map with no entries.
#[verifier::external_body]
fn node_map_new() -> (m: IndexMap<ObjectKey, Node>)
    ensures
        node_entries(m) == Seq::<(KeyView, Node)>::empty(),
{
    IndexMap::new()
}

/// `IndexMap::len`: the number of entries.
#[verifier::external_body]
pub(crate) fn node_map_len(m: &IndexMap<ObjectKey, Node>) -> (n: usize)
    ensures
        n == node_entries(*m).len(),
{
    m.len()
}

/// `IndexMap::get_index_of`: the position of an entry whose key equals `key` (the derived
/// `Eq` of `ObjectKey` compares the kind and the text), or `None` when no key equals it.
#[verifier::external_body]
fn node_map_index_of(m: &IndexMap<ObjectKey, Node>, key: &ObjectKey) -> (r: Option<usize>)
    ensures
        match r {
            Some(i) => i < node_entries(*m).len() && node_entries(*m)[i as int].0 == key@,
            None => forall|i: int|
                0 <= i < node_entries(*m).len() ==> node_entries(*m)[i].0 != key@,
        },
{
    m.get_index_of(key)
}

/// `Index<usize>` of `IndexMap`: the node of the entry at position `i` (it panics past the end).
#[verifier::external_body]
pub(crate) fn node_map_value(m: &IndexMap<ObjectKey, Node>, i: usize) -> (v: Node)
    requires
        i < node_entries(*m).len(),
    ensures
        v == node_entries(*m)[i as int].1,
{
    m[i]
}

/// `IndexMap::get_index`: the key of the entry at position `i`, `None` past the end.
#[verifier::external_body]
pub(crate) fn node_map_key(m: &IndexMap<ObjectKey, Node>, i: usize) -> (r: Option<&ObjectKey>)
    ensures
        match r {
            Some(k) => i < node_entries(*m).len() && k@ == node_entries(*m)[i as int].0,
            None => i >= node_entries(*m).len(),
        },
{
    m.get_index(i).map(|(k, _)| k)
}

/// `IndexMut<usize>` of `IndexMap`: replaces the node of the entry at position `i`, keeping
/// its key and every other entry (it panics past the end).
#[verifier::external_body]
fn node_map_set_value(m: &mut IndexMap<ObjectKey, Node>, i: usize, v: Node)
    requires
        i < node_entries(*old(m)).len(),
    ensures
        node_entries(*final(m)) == node_entries(*old(m)).update(
            i as int,
            (node_entries(*old(m))[i as int].0, v),
        ),
{
    m[i] = v;
}

/// `IndexMap::insert_full`: where a key equal to `key` is present, its node is replaced in
/// place and the old node returned with its position; otherwise the entry is appended
/// and its position returned with `None`.
#[verifier::external_body]
fn node_map_insert_full(m: &mut IndexMap<ObjectKey, Node>, key: ObjectKey, v: Node) -> (r: (
    usize,
    Option<Node>,
))
    ensures
        ({
            let before = node_entries(*old(m));
            let after = node_entries(*final(m));
            match r.1 {
                Some(prev) => r.0 < before.len() && before[r.0 as int].0 == key@ && prev
                    == before[r.0 as int].1 && after == before.update(r.0 as int, (key@, v)),
                None => r.0 == before.len() && (forall|i: int|
                    0 <= i < before.len() ==> before[i].0 != key@) && after == before.push(
                    (key@, v),
                ),
            }
        }),
{
    m.insert_full(key, v)
}

/// Whether some entry has key `k`.
pub open spec fn has_key(e: Seq<(KeyView, Node)>, k: KeyView) -> bool {
    exists|i: int| 0 <= i < e.len() && e[i].0 == k
}

/// The position of the entry with key `k`.
pub open spec fn key_index(e: Seq<(KeyView, Node)>, k: KeyView) -> int {
    choose|i: int| 0 <= i < e.len() && e[i].0 == k
}

/// No two entries share a key.
pub open spec fn keys_unique(e: Seq<(KeyView, Node)>) -> bool {
    forall|i: int, j: int| 0 <= i < e.len() && 0 <= j < e.len() && e[i].0 == e[j].0 ==> i == j
}

/// The entries once `k` is interned with object `o`: in place where `k` is present,
/// appended otherwise.
pub open spec fn interned(e: Seq<(KeyView, Node)>, k: KeyView, o: Object) -> Seq<(KeyView, Node)> {
    if has_key(e, k) {
        e.update(key_index(e, k), (k, Node { object: o }))
    } else {
        e.push((k, Node { object: o }))
    }
}

/// The position at which `k` is interned.
pub open spec fn interned_pos(e: Seq<(KeyView, Node)>, k: KeyView) -> int {
    if has_key(e, k) {
        key_index(e, k)
    } else {
        e.len() as int
    }
}

/// The object known under `k`, if any.
pub open spec fn lookup(e: Seq<(KeyView, Node)>, k: KeyView) -> Option<Object> {
    if has_key(e, k) {
        Some(e[key_index(e, k)].1.object)
    } else {
        None
    }
}

/// The object a file becomes when it is seen as a link target that exists (or not):
/// a wiki page stays a wiki page.
pub open spec fn mystery_merge(prev: Option<Object>, found: bool) -> Object {
    match prev {
        Some(Object::File(FileObject::WikiPage(w))) => Object::File(FileObject::WikiPage(w)),
        _ => Object::File(FileObject::Mystery { found }),
    }
}

/// Interning `k` keeps every key in its place, puts `k` at `interned_pos` and touches no
/// other entry.
pub proof fn lemma_interned(e: Seq<(KeyView, Node)>, k: KeyView, o: Object)
    ensures
        interned(e, k, o).len() == (if has_key(e, k) {
            e.len() as int
        } else {
            e.len() + 1int
        }),
        0 <= interned_pos(e, k) < interned(e, k, o).len(),
        interned(e, k, o)[interned_pos(e, k)] == (k, Node { object: o }),
        has_key(e, k) ==> e[interned_pos(e, k)].0 == k,
        forall|i: int| 0 <= i < e.len() ==> (#[trigger] interned(e, k, o)[i]).0 == e[i].0,
        forall|i: int|
            0 <= i < e.len() && i != interned_pos(e, k) ==> #[trigger] interned(e, k, o)[i] == e[i],
{
}

/// Interning keeps keys unique; afterwards `k` holds the object it was interned with, every
/// other key holds what it held before, and interning `k` again finds the same position
/// without growing the entries.
pub proof fn lemma_lookup_interned(e: Seq<(KeyView, Node)>, k: KeyView, o: Object, other: KeyView)
    requires
        keys_unique(e),
    ensures
        keys_unique(interned(e, k, o)),
        lookup(interned(e, k, o), k) == Some(o),
        other != k ==> lookup(interned(e, k, o), other) == lookup(e, other),
        has_key(interned(e, k, o), k),
        interned_pos(interned(e, k, o), k) == interned_pos(e, k),
        interned(interned(e, k, o), k, o).len() == interned(e, k, o).len(),
{
    let f = interned(e, k, o);
    let p = interned_pos(e, k);
    lemma_interned(e, k, o);
    assert forall|i: int, j: int| 0 <= i < f.len() && 0 <= j < f.len() && f[i].0 == f[j].0 implies i == j by {
        if i < e.len() && j < e.len() {
            assert(f[i].0 == e[i].0);
            assert(f[j].0 == e[j].0);
        } else if i < e.len() {
            assert(f[i].0 == e[i].0);
            assert(!has_key(e, k));
        } else if j < e.len() {
            assert(f[j].0 == e[j].0);
            assert(!has_key(e, k));
        }
    }
    assert(has_key(f, k));
    let q = key_index(f, k);
    assert(q == p);
    if other != k && has_key(e, other) {
        let r = key_index(e, other);
        assert(f[r].0 == other);
        assert(has_key(f, other));
        let r2 = key_index(f, other);
        assert(r2 == r);
        assert(r != p);
    }
    if other != k && has_key(f, other) {
        let r2 = key_index(f, other);
        assert(r2 < e.len());
        assert(e[r2].0 == other);
    }
}

/// A file that is only linked to never turns a known wiki page back into a plain file.
pub proof fn lemma_links_keep_pages(e: Seq<(KeyView, Node)>, path: Seq<char>, w: WikiPage, found: bool)
    requires
        keys_unique(e),
        lookup(e, KeyView::File(path)) == Some(Object::File(FileObject::WikiPage(w))),
    ensures
        lookup(
            interned(e, KeyView::File(path), mystery_merge(lookup(e, KeyView::File(path)), found)),
            KeyView::File(path),
        ) == Some(Object::File(FileObject::WikiPage(w))),
{
    lemma_lookup_interned(
        e,
        KeyView::File(path),
        mystery_merge(lookup(e, KeyView::File(path)), found),
        KeyView::File(path),
    );
}

/// The objects a wiki links to and the links between them.
#[non_exhaustive]
pub struct LinkGraph {
    pub nodes: IndexMap<ObjectKey, Node>,
    pub edges: Vec<(NodeRef, NodeRef)>,
    pub shortest_paths: Vec<Vec<usize>>,
    pub scc: Vec<usize>,
}

impl LinkGraph {
    /// The node entries, in order.
    pub open spec fn entries(self) -> Seq<(KeyView, Node)> {
        node_entries(self.nodes)
    }

    /// Keys are unique and each is of the kind its object calls for.
    pub open spec fn wf(self) -> bool {
        &&& keys_unique(self.entries())
        &&& forall|i: int|
            0 <= i < self.entries().len() ==> key_fits(
                #[trigger] self.entries()[i].0,
                self.entries()[i].1.object,
            )
    }

    /// An empty graph.
    pub fn new() -> (g: LinkGraph)
        ensures
            g.wf(),
            g.entries() == Seq::<(KeyView, Node)>::empty(),
            g.edges@ == Seq::<(NodeRef, NodeRef)>::empty(),
            g.shortest_paths@ == Seq::<Vec<usize>>::empty(),
            g.scc@ == Seq::<usize>::empty(),
    {
        LinkGraph {
            nodes: node_map_new(),
            edges: Vec::new(),
            scc: Vec::new(),
            shortest_paths: Vec::new(),
        }
    }

    fn insert_object(&mut self, key: ObjectKey, combinator: impl FnOnce(Option<&Object>) -> Object) -> (r: NodeRef)
        requires
            old(self).wf(),
            call_requires(
                combinator,
                (match lookup(old(self).entries(), key@) {
                    Some(p) => Some(&p),
                    None => None,
                },),
            ),
            forall|res: Object|
                call_ensures(
                    combinator,
                    (match lookup(old(self).entries(), key@) {
                        Some(p) => Some(&p),
                        None => None,
                    },),
                    res,
                ) ==> key_fits(key@, res),
        ensures
            final(self).wf(),
            final(self).edges == old(self).edges,
            final(self).shortest_paths == old(self).shortest_paths,
            final(self).scc == old(self).scc,
            r@ == interned_pos(old(self).entries(), key@) as u32,
            exists|o: Object|
                call_ensures(
                    combinator,
                    (match lookup(old(self).entries(), key@) {
                        Some(p) => Some(&p),
                        None => None,
                    },),
                    o,
                ) && final(self).entries() == interned(old(self).entries(), key@, o),
    {
        let ghost before = self.entries();
        match node_map_index_of(&self.nodes, &key) {
            Some(i) => {
                let mut node = node_map_value(&self.nodes, i);
                proof {
                    assert(has_key(before, key@));
                    assert(key_index(before, key@) == i);
                }
                let obj = combinator(Some(&node.object));
                node.object = obj;
                node_map_set_value(&mut self.nodes, i, node);
                assert(self.entries() =~= interned(before, key@, obj));
                NodeRef::new(i)
            },
            None => {
                let obj = combinator(None);
                let (i, _) = node_map_insert_full(&mut self.nodes, key, Node::from(obj));
                assert(!has_key(before, key@));
                assert(self.entries() =~= interned(before, key@, obj));
                NodeRef::new(i)
            },
        }
    }
}

impl LinkGraph {
    fn intern_file(&mut self, path: String, combinator: impl FnOnce(Option<&FileObject>) -> FileObject) -> (r: NodeRef)
        requires
            old(self).wf(),
            call_requires(
                combinator,
                (match lookup(old(self).entries(), KeyView::File(path@)) {
                    Some(Object::File(f)) => Some(&f),
                    _ => None,
                },),
            ),
        ensures
            final(self).wf(),
            final(self).edges == old(self).edges,
            final(self).shortest_paths == old(self).shortest_paths,
            final(self).scc == old(self).scc,
            r@ == interned_pos(old(self).entries(), KeyView::File(path@)) as u32,
            exists|f: FileObject|
                call_ensures(
                    combinator,
                    (match lookup(old(self).entries(), KeyView::File(path@)) {
                        Some(Object::File(f)) => Some(&f),
                        _ => None,
                    },),
                    f,
                ) && final(self).entries() == interned(
                    old(self).entries(),
                    KeyView::File(path@),
                    Object::File(f),
                ),
    {
        let ghost k = KeyView::File(path@);
        let ghost prev = lookup(self.entries(), k);
        proof {
            if has_key(self.entries(), k) {
                let i = key_index(self.entries(), k);
                assert(key_fits(self.entries()[i].0, self.entries()[i].1.object));
            }
        }
        let wrapped = move |obj: Option<&Object>| -> (res: Object)
            requires
                obj == (match prev {
                    Some(p) => Some(&p),
                    None => None,
                }),
                prev matches Some(p) ==> p is File,
                call_requires(
                    combinator,
                    (match prev {
                        Some(Object::File(f)) => Some(&f),
                        _ => None,
                    },),
                ),
            ensures
                exists|f: FileObject|
                    call_ensures(
                        combinator,
                        (match prev {
                            Some(Object::File(f)) => Some(&f),
                            _ => None,
                        },),
                        f,
                    ) && res == Object::File(f),
            {
                match obj {
                    Some(Object::File(f)) => Object::File(combinator(Some(f))),
                    _ => Object::File(combinator(None)),
                }
            };
        self.insert_object(ObjectKey::File(path), wrapped)
    }

    /// Interns an outside URL, returning its node.
    pub fn intern_external(&mut self, url: String) -> (r: NodeRef)
        requires
            old(self).wf(),
        ensures
            final(self).wf(),
            final(self).edges == old(self).edges,
            final(self).shortest_paths == old(self).shortest_paths,
            final(self).scc == old(self).scc,
            r@ == interned_pos(old(self).entries(), KeyView::External(url@)) as u32,
            final(self).entries() == interned(
                old(self).entries(),
                KeyView::External(url@),
                Object::External,
            ),
    {
        let make = |_obj: Option<&Object>| -> (res: Object)
            ensures
                res == Object::External,
            {
                Object::External
            };
        self.insert_object(ObjectKey::External(url), make)
    }

    /// Interns a file that a link leads to, found on disk or not; a known wiki page stays one.
    pub fn intern_mystery_file(&mut self, path: String, found: bool) -> (r: NodeRef)
        requires
            old(self).wf(),
        ensures
            final(self).wf(),
            final(self).edges == old(self).edges,
            final(self).shortest_paths == old(self).shortest_paths,
            final(self).scc == old(self).scc,
            r@ == interned_pos(old(self).entries(), KeyView::File(path@)) as u32,
            final(self).entries() == interned(
                old(self).entries(),
                KeyView::File(path@),
                mystery_merge(lookup(old(self).entries(), KeyView::File(path@)), found),
            ),
    {
        let merge = |obj: Option<&FileObject>| -> (res: FileObject)
            ensures
                res == (match obj {
                    Some(FileObject::WikiPage(w)) => FileObject::WikiPage(*w),
                    _ => FileObject::Mystery { found },
                }),
            {
                if let Some(FileObject::WikiPage(wiki)) = obj {
                    FileObject::WikiPage(wiki.clone())
                } else {
                    FileObject::Mystery { found }
                }
            };
        self.intern_file(path, merge)
    }

    /// Interns a wiki page; a file known so far only as a link target becomes a page.
    pub fn intern_markdown(&mut self, path: String, page: WikiPage) -> (r: NodeRef)
        requires
            old(self).wf(),
        ensures
            final(self).wf(),
            final(self).edges == old(self).edges,
            final(self).shortest_paths == old(self).shortest_paths,
            final(self).scc == old(self).scc,
            r@ == interned_pos(old(self).entries(), KeyView::File(path@)) as u32,
            final(self).entries() == interned(
                old(self).entries(),
                KeyView::File(path@),
                Object::File(FileObject::WikiPage(page)),
            ),
    {
        let make = |_obj: Option<&FileObject>| -> (res: FileObject)
            ensures
                res == FileObject::WikiPage(page),
            {
                FileObject::WikiPage(page)
            };
        self.intern_file(path, make)
    }

    /// Replaces what is known of the wiki page at `index` (it must be a wiki page).
    pub fn update_markdown(&mut self, index: NodeRef, page: WikiPage)
        requires
            old(self).wf(),
            index@ < old(self).entries().len(),
            old(self).entries()[index@ as int].1.object.is_markdown_spec(),
        ensures
            final(self).wf(),
            final(self).edges == old(self).edges,
            final(self).shortest_paths == old(self).shortest_paths,
            final(self).scc == old(self).scc,
            final(self).entries() == old(self).entries().update(
                index@ as int,
                (
                    old(self).entries()[index@ as int].0,
                    Node { object: Object::File(FileObject::WikiPage(page)) },
                ),
            ),
    {
        let i = usize::from(index);
        let mut node = node_map_value(&self.nodes, i);
        node.object = Object::File(FileObject::WikiPage(page));
        node_map_set_value(&mut self.nodes, i, node);
        proof {
            assert forall|j: int| 0 <= j < self.entries().len() implies key_fits(
                #[trigger] self.entries()[j].0,
                self.entries()[j].1.object,
            ) by {
                if j != i {
                    assert(self.entries()[j] == old(self).entries()[j]);
                }
            }
        }
    }

    /// Records a link from `from` to `to`.
    pub fn link(&mut self, from: NodeRef, to: NodeRef)
        ensures
            final(self).edges@ == old(self).edges@.push((from, to)),
            final(self).nodes == old(self).nodes,
            final(self).shortest_paths == old(self).shortest_paths,
            final(self).scc == old(self).scc,
    {
        self.edges.push((from, to));
    }
}

} // verus!
