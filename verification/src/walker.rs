use std::ops::ControlFlow;
use std::path::{Path, PathBuf};
use vstd::prelude::*;

use crate::graph::{
    has_key, interned, interned_pos, key_index, keys_unique, lemma_interned, lookup, mystery_merge,
    LinkGraph,
};
use crate::links::{lexical_normalize_relative_to, link_components, normalize_spec};
use crate::markdown::{
    first_link, lemma_first_link, lemma_page_links_len, lemma_page_links_prefix, lemma_words_of_step,
    lemma_page_links_skip, markdown_events, page_links, walk,
    word_modulus, words_of, LinkWalker,
};
use crate::object::{KeyView, Node, NodeRef, Object, ObjectKey, WikiPage};
use crate::paths::{
    extend_path_with_link, extend_spec, extended_path, link_of_pieces, path_buf_as_path,
    path_buf_bytes, path_buf_drop_extension, path_buf_encoded_bytes, path_bytes, path_pieces_of,
    path_strip_prefix, path_to_owned, relative_path_to_link, stripped_path, without_extension,
    permute_markdown_aliases, pieces_relative,
};

verus! {

/// What is left of `s` once every trailing `/` is cut off.
pub open spec fn trim_slashes(s: Seq<char>) -> Seq<char>
    decreases s.len(),
{
    if s.len() > 0 && s.last() == '/' {
        trim_slashes(s.drop_last())
    } else {
        s
    }
}

/// `s` without the prefix `root` when it starts with it, `s` itself otherwise.
pub open spec fn strip_root_spec(root: Option<Seq<char>>, s: Seq<char>) -> Seq<char> {
    match root {
        Some(r) => if r.is_prefix_of(s) {
            s.skip(r.len() as int)
        } else {
            s
        },
        None => s,
    }
}

/// Whether `p` is a prefix of `s`.
fn str_starts_with(s: &str, p: &str) -> (b: bool)
    ensures
        b == p@.is_prefix_of(s@),
{
    let n = p.unicode_len();
    let m = s.unicode_len();
    if n > m {
        return false;
    }
    let mut i: usize = 0;
    while i < n
        invariant
            n == p@.len(),
            m == s@.len(),
            n <= m,
            0 <= i <= n,
            forall|j: int| 0 <= j < i ==> p@[j] == s@[j],
        decreases n - i,
    {
        if p.get_char(i) != s.get_char(i) {
            return false;
        }
        i = i + 1;
    }
    true
}

/// The wiki being scraped: its directory and the URL it is served under, if given.
pub struct Corpus {
    path: PathBuf,
    url_root: Option<String>,
}

impl Corpus {
    /// The URL root, if any.
    pub closed spec fn url_root_view(self) -> Option<Seq<char>> {
        match self.url_root {
            Some(r) => Some(r@),
            None => None,
        }
    }

    /// The directory of the wiki.
    pub closed spec fn path_view(self) -> PathBuf {
        self.path
    }

    /// The corpus at the (canonical) directory `path`, served under `url_root` with its
    /// trailing slashes cut off.
    pub fn from_args(url_root: Option<&str>, path: PathBuf) -> (c: Corpus)
        ensures
            c.url_root_view() == (match url_root {
                Some(r) => Some(trim_slashes(r@)),
                None => None,
            }),
            c.path_view() == path,
    {
        let url_root = match url_root {
            Some(r) => {
                let mut n = r.unicode_len();
                assert(r@.take(n as int) =~= r@);
                while n > 0 && r.get_char(n - 1) == '/'
                    invariant
                        0 <= n <= r@.len(),
                        trim_slashes(r@.take(n as int)) == trim_slashes(r@),
                    decreases n,
                {
                    assert(r@.take(n as int).drop_last() =~= r@.take(n - 1));
                    n = n - 1;
                }
                assert(trim_slashes(r@.take(n as int)) == r@.take(n as int));
                Some(r.substring_char(0, n).to_owned())
            },
            None => None,
        };
        Corpus { path, url_root }
    }

    /// The directory of the wiki.
    pub fn path(&self) -> (p: &PathBuf)
        ensures
            *p == self.path_view(),
    {
        &self.path
    }

    /// A link without the URL root, when it starts with it.
    pub fn strip_url_root<'a>(&'a self, s: &'a str) -> (r: &'a str)
        ensures
            r@ == strip_root_spec(self.url_root_view(), s@),
    {
        match &self.url_root {
            Some(root) => {
                if str_starts_with(s, root.as_str()) {
                    s.substring_char(root.as_str().unicode_len(), s.unicode_len())
                } else {
                    s
                }
            },
            None => s,
        }
    }
}

/// Whether the walk passes over a directory entry with this file name: one without a name,
/// or one whose name is empty or starts with `.`.
pub fn is_hidden_entry(name: Option<&[u8]>) -> (b: bool)
    ensures
        b == match name {
            None => true,
            Some(n) => n@.len() == 0 || n@[0] == 46u8,
        },
{
    match name {
        None => true,
        Some(n) => n.len() == 0 || n[0] == 46u8,
    }
}

/// Whether a file with this extension is a wiki page: its extension is `md`.
pub fn has_markdown_extension(extension: Option<&[u8]>) -> (b: bool)
    ensures
        b == (extension matches Some(e) && e@ == seq![109u8, 100u8]),
{
    match extension {
        Some(e) => {
            let r = e.len() == 2 && e[0] == 109u8 && e[1] == 100u8;
            assert(r ==> e@ =~= seq![109u8, 100u8]);
            r
        },
        None => false,
    }
}

/// The location a page at the relative path with these bytes gets: `None` when the path
/// cannot be written as a link, `Some(None)` when the link climbs out of the wiki, else the
/// normalised link.
pub open spec fn location_of(relative: Seq<u8>) -> Option<Option<Seq<char>>> {
    let pieces = path_pieces_of(relative);
    if !pieces_relative(pieces) {
        None
    } else {
        match link_of_pieces(pieces) {
            None => None,
            Some(link) => Some(normalize_spec(link, Seq::empty())),
        }
    }
}

/// The abstract value of a computed location.
pub open spec fn location_view(r: Option<Option<String>>) -> Option<Option<Seq<char>>> {
    match r {
        None => None,
        Some(None) => Some(None),
        Some(Some(l)) => Some(Some(l@)),
    }
}

/// The location of a wiki page from its canonical path and the wiki's canonical directory:
/// the extension dropped, the directory cut off its front, and the rest written as a link
/// and normalised. `None` when the directory is not a prefix of the path or the rest cannot
/// be written as a link; `Some(None)` when the link climbs out of the wiki.
pub fn page_location_in(canonical: &Path, corpus: &Path) -> (r: Option<Option<String>>)
    ensures
        location_view(r) == match stripped_path(without_extension(path_bytes(canonical)), path_bytes(corpus)) {
            Some(rel) => location_of(rel),
            None => None,
        },
{
    let mut p = path_to_owned(canonical);
    path_buf_drop_extension(&mut p);
    let pp = path_buf_as_path(&p);
    match path_strip_prefix(pp, corpus) {
        Some(rel) => page_location(rel),
        None => None,
    }
}

/// The location of a wiki page from its path relative to the wiki's directory, extension
/// dropped: the path written as a link and normalised against the empty root. `None` when
/// the path cannot be written as a link (it holds a root or a prefix, or a component that is
/// not valid UTF-8); `Some(None)` when the link climbs out of the wiki.
pub fn page_location(relative: &Path) -> (r: Option<Option<String>>)
    ensures
        r is None <==> !(pieces_relative(path_pieces_of(path_bytes(relative))) && link_of_pieces(
            path_pieces_of(path_bytes(relative)),
        ) is Some),
        r matches Some(l) ==> match link_of_pieces(path_pieces_of(path_bytes(relative))) {
            Some(link) => match l {
                Some(loc) => normalize_spec(link, Seq::empty()) == Some(loc@),
                None => normalize_spec(link, Seq::empty()) is None,
            },
            None => false,
        },
        location_view(r) == location_of(path_bytes(relative)),
{
    match relative_path_to_link(relative) {
        Some(Some(link)) => {
            proof {
                reveal_strlit("");
            }
            assert(""@ =~= Seq::<char>::empty());
            match lexical_normalize_relative_to(link.as_str(), "") {
                Ok(l) => Some(Some(l)),
                Err(_) => Some(None),
            }
        },
        _ => None,
    }
}

/// Where on disk a link of the wiki leads: the link followed from the wiki's directory.
pub open spec fn disk_path_spec(corpus: Corpus, link: Seq<char>) -> Seq<u8> {
    extend_spec(path_buf_bytes(corpus.path_view()), link_components(link))
}

/// Whether a disk path can be probed for markdown aliases: it must not end in `/`.
pub open spec fn probe_ok(p: Seq<u8>) -> bool {
    p.len() == 0 || p.last() != 47u8
}

/// What probing the disk for the file a link leads to tells, given `is_file`: when `found`,
/// `is_file` held of the link's disk path or of that path with `.md` added; otherwise it
/// failed for both.
pub open spec fn probed<F: Fn(&Path) -> bool>(corpus: Corpus, is_file: F, link: Seq<char>, found: bool) -> bool {
    let d = disk_path_spec(corpus, link);
    &&& found ==> exists|q: &Path|
        {
            &&& (path_bytes(q) == d || path_bytes(q) == extended_path(d, seq!['m', 'd']))
            &&& call_ensures(is_file, (q,), true)
        }
    &&& !found ==> exists|q1: &Path, q2: &Path|
        {
            &&& path_bytes(q1) == d
            &&& path_bytes(q2) == extended_path(d, seq!['m', 'd'])
            &&& call_ensures(is_file, (q1,), false)
            &&& call_ensures(is_file, (q2,), false)
        }
}

/// The object a link target becomes: an outside URL stays one; a file is merged with what
/// was known of it, found on disk or not.
pub open spec fn link_object(prev: Option<Object>, key: KeyView, found: bool) -> Object {
    match key {
        KeyView::External(_) => Object::External,
        KeyView::File(_) => mystery_merge(prev, found),
    }
}

/// The entries once the link targets `keys` are interned in turn, the `j`-th found on disk
/// or not as `found[j]` says.
pub open spec fn interned_links(e: Seq<(KeyView, Node)>, keys: Seq<KeyView>, found: Seq<bool>) -> Seq<
    (KeyView, Node),
>
    decreases keys.len(),
{
    if keys.len() == 0 {
        e
    } else {
        let before = interned_links(e, keys.drop_last(), found);
        let k = keys.last();
        interned(before, k, link_object(lookup(before, k), k, found[keys.len() - 1]))
    }
}

/// Only the flags of the keys matter.
proof fn lemma_interned_links_flags(
    e: Seq<(KeyView, Node)>,
    keys: Seq<KeyView>,
    f1: Seq<bool>,
    f2: Seq<bool>,
)
    requires
        forall|j: int| 0 <= j < keys.len() ==> f1[j] == f2[j],
    ensures
        interned_links(e, keys, f1) == interned_links(e, keys, f2),
    decreases keys.len(),
{
    if keys.len() > 0 {
        lemma_interned_links_flags(e, keys.drop_last(), f1, f2);
    }
}

/// Whether every file among the link targets `keys` has a disk path that can be probed.
pub open spec fn links_probe_ok(corpus: Corpus, keys: Seq<KeyView>) -> bool {
    forall|j: int|
        0 <= j < keys.len() && (#[trigger] keys[j]) is File ==> probe_ok(
            disk_path_spec(corpus, keys[j].text()),
        )
}

/// Probing through a reference to `is_file` tells what probing with it tells.
proof fn lemma_probed_ref<F: Fn(&Path) -> bool>(corpus: Corpus, is_file: F, link: Seq<char>, found: bool)
    requires
        probed(corpus, &is_file, link, found),
    ensures
        probed(corpus, is_file, link, found),
{
}

/// Whether the flags `found` say what probing the disk told of each file among `keys`.
pub open spec fn probes_match<F: Fn(&Path) -> bool>(
    corpus: Corpus,
    is_file: F,
    keys: Seq<KeyView>,
    found: Seq<bool>,
) -> bool {
    forall|j: int|
        0 <= j < keys.len() && (#[trigger] keys[j]) is File ==> probed(
            corpus,
            is_file,
            keys[j].text(),
            found[j],
        )
}

/// The entries once the page at `location` is added to `e` with the link targets `keys`
/// (found on disk as `found` says) and then given its word count `words`.
pub open spec fn processed_entries(
    e: Seq<(KeyView, Node)>,
    location: Seq<char>,
    keys: Seq<KeyView>,
    found: Seq<bool>,
    words: u64,
) -> Seq<(KeyView, Node)> {
    let page = KeyView::File(location);
    interned_links(
        interned(e, page, Object::File(crate::object::FileObject::WikiPage(WikiPage { words: 0 }))),
        keys,
        found,
    ).update(
        interned_pos(e, page),
        (page, Node { object: Object::File(crate::object::FileObject::WikiPage(WikiPage { words })) }),
    )
}

/// A corpus being walked, and the graph built from it so far.
pub struct CorpusWalker<'a> {
    pub corpus: &'a Corpus,
    pub g: LinkGraph,
}

impl<'a> CorpusWalker<'a> {
    /// The directory of the wiki.
    fn path(&self) -> (p: &Path)
        ensures
            path_bytes(p) == path_buf_bytes(self.corpus.path_view()),
    {
        path_buf_as_path(&self.corpus.path)
    }

    /// Whether the disk path of link `link` does not end in `/`.
    fn disk_path_ok(&self, link: &str) -> (b: bool)
        ensures
            b == probe_ok(disk_path_spec(*self.corpus, link@)),
    {
        let on_disk = extend_path_with_link(self.path(), self.path(), link);
        let bytes = path_buf_encoded_bytes(&on_disk);
        bytes.len() == 0 || bytes[bytes.len() - 1] != 47u8
    }

    /// Interns the object a link leads to: an outside URL as it is; a file as found on
    /// disk when `is_file` holds of its path or of that path with `.md` added.
    pub fn intern_unknown(&mut self, key: ObjectKey, is_file: impl Fn(&Path) -> bool) -> (r:
        NodeRef)
        requires
            old(self).g.wf(),
            forall|p: &Path| call_requires(is_file, (p,)),
            key matches ObjectKey::File(path) ==> probe_ok(disk_path_spec(*old(self).corpus, path@)),
        ensures
            final(self).g.wf(),
            final(self).corpus == old(self).corpus,
            final(self).g.edges == old(self).g.edges,
            r@ == interned_pos(old(self).g.entries(), key@) as u32,
            key is External ==> final(self).g.entries() == interned(
                old(self).g.entries(),
                key@,
                Object::External,
            ),
            key is File ==> exists|found: bool|
                {
                    &&& final(self).g.entries() == interned(
                        old(self).g.entries(),
                        key@,
                        mystery_merge(lookup(old(self).g.entries(), key@), found),
                    )
                    &&& probed(*old(self).corpus, is_file, key@.text(), found)
                },
    {
        let ghost key_v = key@;
        match key {
            ObjectKey::File(path) => {
                assert(key_v.text() == path@);
                let on_disk = extend_path_with_link(self.path(), self.path(), path.as_str());
                let probe_file = &is_file;
                let probe = |p: &Path| -> (c: ControlFlow<()>)
                    requires
                        call_requires(probe_file, (p,)),
                    ensures
                        c is Break ==> call_ensures(probe_file, (p,), true),
                        c is Continue ==> call_ensures(probe_file, (p,), false),
                    {
                        if probe_file(p) {
                            ControlFlow::Break(())
                        } else {
                            ControlFlow::Continue(())
                        }
                    };
                let found = match permute_markdown_aliases(on_disk, probe) {
                    ControlFlow::Break(_) => true,
                    ControlFlow::Continue(_) => false,
                };
                let ghost before = self.g.entries();
                assert(probed(*self.corpus, is_file, path@, found));
                let r = self.g.intern_mystery_file(path, found);
                assert(self.g.entries() == interned(before, key_v, mystery_merge(lookup(before, key_v), found)));
                r
            },
            ObjectKey::External(link_str) => self.g.intern_external(link_str),
        }
    }
}

impl<'a> CorpusWalker<'a> {
    /// Adds the wiki page at `location` with content `content` to the graph: the page, a
    /// node for each link of it with an edge from the page, and the page's word count.
    /// Returns `false`, having stopped, at a link to a file whose disk path ends in `/`.
    #[verifier::rlimit(60)]
    pub fn process_markdown_file(
        &mut self,
        content: &str,
        location: &str,
        is_file: impl Fn(&Path) -> bool,
    ) -> (ok: bool)
        requires
            old(self).g.wf(),
            old(self).g.entries().len() < u32::MAX,
            forall|p: &Path| call_requires(is_file, (p,)),
        ensures
            final(self).g.wf(),
            final(self).corpus == old(self).corpus,
            old(self).g.entries().len() <= final(self).g.entries().len(),
            forall|i: int|
                0 <= i < old(self).g.entries().len() ==> (#[trigger] final(self).g.entries()[i]).0
                    == old(self).g.entries()[i].0,
            has_key(final(self).g.entries(), KeyView::File(location@)),
            final(self).g.edges@.take(old(self).g.edges@.len() as int) == old(self).g.edges@,
            interned_pos(old(self).g.entries(), KeyView::File(location@)) < final(self).g.entries().len(),
            final(self).g.entries()[interned_pos(old(self).g.entries(), KeyView::File(location@))].0
                == KeyView::File(location@),
            ok == links_probe_ok(
                *old(self).corpus,
                page_links(markdown_events(content@), old(self).corpus.url_root_view(), location@),
            ),
            ok ==> exists|found: Seq<bool>|
                {
                    &&& found.len() == page_links(
                        markdown_events(content@),
                        old(self).corpus.url_root_view(),
                        location@,
                    ).len()
                    &&& probes_match(
                        *old(self).corpus,
                        is_file,
                        page_links(markdown_events(content@), old(self).corpus.url_root_view(), location@),
                        found,
                    )
                    &&& final(self).g.entries() == #[trigger] processed_entries(
                        old(self).g.entries(),
                        location@,
                        page_links(markdown_events(content@), old(self).corpus.url_root_view(), location@),
                        found,
                        (words_of(markdown_events(content@)) as int % word_modulus()) as u64,
                    )
                },
            ok ==> final(self).g.entries()[interned_pos(
                old(self).g.entries(),
                KeyView::File(location@),
            )].1.object == Object::File(
                crate::object::FileObject::WikiPage(
                    WikiPage {
                        words: (words_of(markdown_events(content@)) as int % word_modulus()) as u64,
                    },
                ),
            ),
            ok ==> final(self).g.edges@.len() - old(self).g.edges@.len() == page_links(
                markdown_events(content@),
                old(self).corpus.url_root_view(),
                location@,
            ).len(),
            !ok ==> final(self).g.edges@.len() - old(self).g.edges@.len() <= page_links(
                markdown_events(content@),
                old(self).corpus.url_root_view(),
                location@,
            ).len(),
            forall|j: int|
                old(self).g.edges@.len() <= j < final(self).g.edges@.len() ==> (
                #[trigger] final(self).g.edges@[j]).0@ == interned_pos(
                    old(self).g.entries(),
                    KeyView::File(location@),
                ),
            final(self).g.entries().len() < u32::MAX ==> forall|j: int|
                old(self).g.edges@.len() <= j < final(self).g.edges@.len() ==> {
                    &&& (#[trigger] final(self).g.edges@[j]).1@ < final(self).g.entries().len()
                    &&& final(self).g.entries()[final(self).g.edges@[j].1@ as int].0 == page_links(
                        markdown_events(content@),
                        old(self).corpus.url_root_view(),
                        location@,
                    )[j - old(self).g.edges@.len()]
                },
    {
        let ghost e0 = self.g.entries();
        let ghost edges0 = self.g.edges@;
        let ghost root = self.corpus.url_root_view();
        let ghost all = markdown_events(content@);
        let ghost loc = location@;
        let ghost page_key = KeyView::File(location@);
        let from = self.g.intern_markdown(location.to_owned(), WikiPage::default());
        let ghost p = interned_pos(e0, page_key);
        proof {
            if has_key(e0, page_key) {
                assert(e0[key_index(e0, page_key)].0 == page_key);
            }
            assert(self.g.entries()[p].0 == page_key);
        }
        let mut links = walk(self.corpus, location, content);
        let ghost mut poss: Seq<int> = Seq::empty();
        let ghost mut founds: Seq<bool> = Seq::empty();
        let ghost e_page = interned(
            e0,
            page_key,
            Object::File(crate::object::FileObject::WikiPage(WikiPage { words: 0 })),
        );
        assert(self.g.entries() == interned_links(e_page, page_links(all.take(0), root, loc), founds));
        loop
            invariant
                self.g.wf(),
                self.corpus == old(self).corpus,
                forall|q: &Path| call_requires(is_file, (q,)),
                links.wf(),
                links.events_view() == all,
                0 <= links.position() <= all.len(),
                links.root_view() == root,
                links.location_view() == loc,
                all == markdown_events(content@),
                root == self.corpus.url_root_view(),
                loc == location@,
                page_key == KeyView::File(location@),
                e0 == old(self).g.entries(),
                edges0 == old(self).g.edges@,
                e0.len() < u32::MAX,
                p == interned_pos(e0, page_key),
                from@ == p,
                0 <= p < self.g.entries().len(),
                self.g.entries()[p].0 == page_key,
                self.g.entries()[p].1.object.is_markdown_spec(),
                e0.len() <= self.g.entries().len(),
                forall|i: int|
                    0 <= i < e0.len() ==> (#[trigger] self.g.entries()[i]).0 == e0[i].0,
                self.g.edges@.take(edges0.len() as int) == edges0,
                self.g.edges@.len() == edges0.len() + poss.len(),
                poss.len() == page_links(all.take(links.position()), root, loc).len(),
                founds.len() == poss.len(),
                e_page == interned(
                    e0,
                    page_key,
                    Object::File(crate::object::FileObject::WikiPage(WikiPage { words: 0 })),
                ),
                self.g.entries() == interned_links(
                    e_page,
                    page_links(all.take(links.position()), root, loc),
                    founds,
                ),
                probes_match(
                    *old(self).corpus,
                    is_file,
                    page_links(all.take(links.position()), root, loc),
                    founds,
                ),
                links_probe_ok(*old(self).corpus, page_links(all.take(links.position()), root, loc)),
                links.page_view().words == words_of(all.take(links.position())) as int % word_modulus(),
                forall|j: int|
                    0 <= j < poss.len() ==> {
                        &&& 0 <= #[trigger] poss[j] < self.g.entries().len()
                        &&& self.g.entries()[poss[j]].0 == page_links(
                            all.take(links.position()),
                            root,
                            loc,
                        )[j]
                        &&& self.g.edges@[edges0.len() + j].0 == from
                        &&& self.g.edges@[edges0.len() + j].1@ == #[verifier::truncate] (poss[j] as u32)
                    },
            decreases all.len() - links.position(),
        {
            let ghost pos0 = links.position();
            let ghost e1 = self.g.entries();
            let ghost edges1 = self.g.edges@;
            let ghost w1 = links.page_view().words;
            proof {
                lemma_first_link(all.skip(pos0), root, loc);
                if first_link(all.skip(pos0), root, loc) < all.len() - pos0 {
                    lemma_words_of_step(
                        all,
                        pos0,
                        first_link(all.skip(pos0), root, loc) + 1,
                        w1 as int,
                    );
                }
                lemma_words_of_step(all, pos0, all.len() - pos0, w1 as int);
                assert(all.skip(pos0).take(all.len() - pos0) =~= all.skip(pos0));
            }
            match links.next() {
                None => {
                    proof {
                        assert forall|j: int| pos0 <= j < all.len() implies crate::markdown::event_link(
                            #[trigger] all[j],
                            root,
                            loc,
                        ) is None by {
                            assert(all.skip(pos0)[j - pos0] == all[j]);
                        }
                        lemma_page_links_skip(all, root, loc, pos0, all.len() as int);
                        assert(all.take(all.len() as int) =~= all);
                    }
                    let page = WikiPage::from(links);
                    self.g.update_markdown(from, page);
                    proof {
                        assert(page.words == words_of(all) as int % word_modulus());
                        assert(page == WikiPage {
                            words: (words_of(all) as int % word_modulus()) as u64,
                        });
                        let e = self.g.entries();
                        assert forall|i: int| 0 <= i < e1.len() implies (#[trigger] e[i]).0 == e1[i].0 by {}
                        assert forall|j: int|
                            edges0.len() <= j < self.g.edges@.len() implies (
                            #[trigger] self.g.edges@[j]).0@ == p by {
                            let jj = j - edges0.len();
                            assert(0 <= poss[jj]);
                        }
                        if e.len() < u32::MAX {
                            assert forall|j: int|
                                edges0.len() <= j < self.g.edges@.len() implies {
                                &&& (#[trigger] self.g.edges@[j]).1@ < e.len()
                                &&& e[self.g.edges@[j].1@ as int].0 == page_links(all, root, loc)[j
                                    - edges0.len()]
                            } by {
                                let jj = j - edges0.len();
                                assert(0 <= poss[jj] < e.len());
                                assert(e[poss[jj]].0 == e1[poss[jj]].0);
                            }
                        }
                    }
                    proof {
                        let keys = page_links(all, root, loc);
                        assert(page_links(all.take(pos0), root, loc) == keys);
                        assert(self.g.entries() =~= processed_entries(
                            e0,
                            loc,
                            keys,
                            founds,
                            (words_of(all) as int % word_modulus()) as u64,
                        ));
                    }
                    return true;
                },
                Some((_, key)) => {
                    let ghost k = first_link(all.skip(pos0), root, loc);
                    let ghost kv = key@;
                    proof {
                        assert forall|j: int| pos0 <= j < pos0 + k implies crate::markdown::event_link(
                            #[trigger] all[j],
                            root,
                            loc,
                        ) is None by {
                            assert(all.skip(pos0)[j - pos0] == all[j]);
                        }
                        lemma_page_links_skip(all, root, loc, pos0, pos0 + k);
                        assert(all.skip(pos0)[k] == all[pos0 + k]);
                        assert(all.take(pos0 + k + 1).drop_last() =~= all.take(pos0 + k));
                        assert(all.take(pos0 + k + 1).last() == all[pos0 + k]);
                        assert(page_links(all.take(pos0 + k + 1), root, loc) =~= page_links(
                            all.take(pos0),
                            root,
                            loc,
                        ).push(kv));
                    }
                    if let ObjectKey::File(path) = &key {
                        if !self.disk_path_ok(path.as_str()) {
                            proof {
                                let e = self.g.entries();
                                lemma_page_links_len(all, root, loc, pos0);
                                assert forall|j: int|
                                    edges0.len() <= j < self.g.edges@.len() implies (
                                    #[trigger] self.g.edges@[j]).0@ == p by {
                                    let jj = j - edges0.len();
                                    assert(0 <= poss[jj]);
                                }
                                if e.len() < u32::MAX {
                                    assert forall|j: int|
                                        edges0.len() <= j < self.g.edges@.len() implies {
                                        &&& (#[trigger] self.g.edges@[j]).1@ < e.len()
                                        &&& e[self.g.edges@[j].1@ as int].0 == page_links(
                                            all,
                                            root,
                                            loc,
                                        )[j - edges0.len()]
                                    } by {
                                        let jj = j - edges0.len();
                                        assert(0 <= poss[jj] < e.len());
                                        lemma_page_links_prefix(all, root, loc, pos0, jj);
                                    }
                                }
                            }
                            proof {
                                let j = poss.len() as int;
                                lemma_page_links_prefix(all, root, loc, pos0 + k + 1, j);
                                assert(page_links(all.take(pos0 + k + 1), root, loc)[j] == kv);
                                assert(page_links(all, root, loc)[j] is File);
                                assert(!links_probe_ok(*old(self).corpus, page_links(all, root, loc)));
                            }
                            return false;
                        }
                    }
                    let to = self.intern_unknown(key, &is_file);
                    proof {
                        let e2 = self.g.entries();
                        let o = e2[interned_pos(e1, kv)].1.object;
                        lemma_interned(e1, kv, o);
                        if kv == page_key {
                            assert(e1[p].0 == page_key);
                            assert(has_key(e1, kv));
                            assert(interned_pos(e1, kv) == p);
                        }
                        poss = poss.push(interned_pos(e1, kv));
                        let pl_old = page_links(all.take(pos0), root, loc);
                        let pl_new = page_links(all.take(pos0 + k + 1), root, loc);
                        let f: bool = if kv is File {
                            choose|found: bool|
                                e2 == interned(e1, kv, mystery_merge(lookup(e1, kv), found)) && probed(
                                    *old(self).corpus,
                                    &is_file,
                                    kv.text(),
                                    found,
                                )
                        } else {
                            true
                        };
                        if kv is File {
                            lemma_probed_ref(*old(self).corpus, is_file, kv.text(), f);
                        }
                        let founds_old = founds;
                        founds = founds.push(f);
                        lemma_interned_links_flags(e_page, pl_old, founds_old, founds);
                        assert(pl_new.drop_last() =~= pl_old);
                        assert(pl_new.last() == kv);
                        assert(e2 == interned_links(e_page, pl_new, founds));
                        assert forall|j: int|
                            0 <= j < pl_new.len() && (#[trigger] pl_new[j]) is File implies probed(
                                *old(self).corpus,
                                is_file,
                                pl_new[j].text(),
                                founds[j],
                            ) by {
                            if j < pl_old.len() {
                                assert(pl_new[j] == pl_old[j]);
                                assert(founds[j] == founds_old[j]);
                            }
                        }
                        assert(links_probe_ok(*old(self).corpus, pl_new)) by {
                            assert forall|j: int|
                                0 <= j < pl_new.len() && (#[trigger] pl_new[j]) is File implies probe_ok(
                                disk_path_spec(*old(self).corpus, pl_new[j].text()),
                            ) by {
                                if j < pl_old.len() {
                                    assert(pl_new[j] == pl_old[j]);
                                }
                            }
                        }
                    }
                    self.g.link(from, to);
                    proof {
                        let e2 = self.g.entries();
                        let pl = page_links(all.take(links.position()), root, loc);
                        assert forall|j: int| 0 <= j < poss.len() implies {
                            &&& 0 <= #[trigger] poss[j] < e2.len()
                            &&& e2[poss[j]].0 == pl[j]
                            &&& self.g.edges@[edges0.len() + j].0 == from
                            &&& self.g.edges@[edges0.len() + j].1@ == #[verifier::truncate] (
                            poss[j] as u32)
                        } by {
                            if j < poss.len() - 1 {
                                assert(0 <= poss.drop_last()[j]);
                                assert(poss.drop_last()[j] == poss[j]);
                                assert(self.g.edges@[edges0.len() + j] == edges1[edges0.len() + j]);
                            }
                        }
                        assert(self.g.edges@.take(edges0.len() as int) =~= edges1.take(
                            edges0.len() as int,
                        ));
                    }
                }
            }
        }
    }
}

} // verus!
