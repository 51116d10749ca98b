use vstd::prelude::*;
use vstd::std_specs::convert::FromSpecImpl;

use crate::links::{
    first_pos, find_char, lemma_absolute_link_ignores_root, lemma_first_pos, lemma_first_pos_unique,
    lexical_normalize_relative_to, normalize_spec,
};

verus! {

/// A reference to a node of a link graph, by its position.
#[derive(Debug, Clone, Copy, PartialEq, Eq, PartialOrd, Ord, Hash, Structural)]
pub struct NodeRef(u32);

impl View for NodeRef {
    type V = u32;

    closed spec fn view(&self) -> u32 {
        self.0
    }
}

impl NodeRef {
    /// The reference to position `n`, truncated to 32 bits.
    pub fn new(n: usize) -> (r: NodeRef)
        ensures
            r@ == n as u32,
    {
        NodeRef::from(n as u32)
    }

    /// The position this reference stands for.
    pub fn index(self) -> (i: usize)
        ensures
            i == self@,
    {
        self.0 as usize
    }
}

/// Two references are the same exactly when they stand for the same position.
pub proof fn lemma_node_ref_eq(a: NodeRef, b: NodeRef)
    ensures
        a == b <==> a@ == b@,
{
}

impl From<u32> for NodeRef {
    fn from(value: u32) -> (r: NodeRef) {
        NodeRef(value)
    }
}

impl FromSpecImpl<u32> for NodeRef {
    open spec fn obeys_from_spec() -> bool {
        true
    }

    closed spec fn from_spec(v: u32) -> NodeRef {
        NodeRef(v)
    }
}

impl From<NodeRef> for u32 {
    fn from(value: NodeRef) -> (r: u32) {
        value.0
    }
}

impl FromSpecImpl<NodeRef> for u32 {
    open spec fn obeys_from_spec() -> bool {
        true
    }

    open spec fn from_spec(v: NodeRef) -> u32 {
        v@
    }
}

impl From<NodeRef> for usize {
    fn from(value: NodeRef) -> (r: usize) {
        value.0 as usize
    }
}

impl FromSpecImpl<NodeRef> for usize {
    open spec fn obeys_from_spec() -> bool {
        true
    }

    open spec fn from_spec(v: NodeRef) -> usize {
        v@ as usize
    }
}


/// What is known of a wiki page.
#[derive(Debug, Clone, Copy, PartialEq, Eq, Structural)]
#[non_exhaustive]
pub struct WikiPage {
    pub words: u64,
}

impl Default for WikiPage {
    fn default() -> (page: WikiPage)
        ensures
            page.words == 0,
    {
        WikiPage { words: 0 }
    }
}

/// A file of the wiki: a page, or some other file that may or may not exist.
#[derive(Debug, Clone, Copy, PartialEq, Eq, Structural)]
pub enum FileObject {
    WikiPage(WikiPage),
    Mystery { found: bool },
}

/// What a link leads to.
#[derive(Debug, Clone, Copy, PartialEq, Eq, Structural)]
pub enum Object {
    File(FileObject),
    External,
}

/// The abstract value of an object key.
pub enum KeyView {
    File(Seq<char>),
    External(Seq<char>),
}

impl KeyView {
    pub open spec fn text(self) -> Seq<char> {
        match self {
            KeyView::File(s) => s,
            KeyView::External(s) => s,
        }
    }
}

/// The key under which an object is known: a path in the wiki, or an outside URL.
#[derive(Debug, Clone, PartialEq, Eq, Hash)]
pub enum ObjectKey {
    File(String),
    External(String),
}

impl View for ObjectKey {
    type V = KeyView;

    open spec fn view(&self) -> KeyView {
        match self {
            ObjectKey::File(s) => KeyView::File(s@),
            ObjectKey::External(s) => KeyView::External(s@),
        }
    }
}

/// A node of the link graph.
#[derive(Debug, Clone, Copy, PartialEq, Eq, Structural)]
pub struct Node {
    pub object: Object,
}

impl From<Object> for Node {
    fn from(object: Object) -> (node: Node) {
        Node { object }
    }
}

impl FromSpecImpl<Object> for Node {
    open spec fn obeys_from_spec() -> bool {
        true
    }

    open spec fn from_spec(object: Object) -> Node {
        Node { object }
    }
}

/// Whether a key has the kind that an object calls for: a file key for a file.
pub open spec fn key_fits(key: KeyView, object: Object) -> bool {
    (key is File) == (object is File)
}

impl Object {
    pub open spec fn is_markdown_spec(self) -> bool {
        self matches Object::File(FileObject::WikiPage(_))
    }

    /// Whether this is a wiki page.
    pub fn is_markdown(&self) -> (b: bool)
        ensures
            b == self.is_markdown_spec(),
    {
        match self {
            Object::File(FileObject::WikiPage(_)) => true,
            _ => false,
        }
    }

    /// Whether a link to this object probably works: everything but a missing file.
    pub fn is_probably_live(&self) -> (b: bool)
        ensures
            b == !(self matches Object::File(FileObject::Mystery { found: false })),
    {
        match self {
            Object::File(FileObject::WikiPage(_)) => true,
            Object::File(FileObject::Mystery { found: true }) => true,
            Object::External => true,
            _ => false,
        }
    }

    /// A short description of the kind of object.
    pub fn describe(&self) -> (d: &'static str)
        ensures
            d@ == match self {
                Object::File(FileObject::WikiPage(_)) => "wiki page"@,
                Object::File(FileObject::Mystery { found: true }) => "internal attachment"@,
                Object::File(FileObject::Mystery { found: false }) => "dead link"@,
                Object::External => "external link"@,
            },
    {
        match self {
            Object::File(FileObject::WikiPage(_)) => "wiki page",
            Object::File(FileObject::Mystery { found: true }) => "internal attachment",
            Object::File(FileObject::Mystery { found: false }) => "dead link",
            Object::External => "external link",
        }
    }

    /// The key of this object under the given text: a file key for a file.
    pub fn materialize_key(&self, key: String) -> (k: ObjectKey)
        ensures
            k@.text() == key@,
            key_fits(k@, *self),
    {
        match self {
            Object::File(_) => ObjectKey::File(key),
            Object::External => ObjectKey::External(key),
        }
    }
}

/// What is left of a link once its `#` fragment is cut off.
pub open spec fn strip_fragment(l: Seq<char>) -> Seq<char> {
    l.take(first_pos(l, '#'))
}

/// The key that a link from `location` leads to: an outside URL when the link (fragment
/// cut off) is not absolute and holds a `:`; otherwise the lexically normalised path,
/// `None` when that is empty or escapes the root.
pub open spec fn link_key_spec(link: Seq<char>, location: Seq<char>) -> Option<KeyView> {
    let l = strip_fragment(link);
    if !(l.len() > 0 && l[0] == '/') && l.contains(':') {
        Some(KeyView::External(l))
    } else if l.len() == 0 {
        None
    } else {
        match normalize_spec(l, location) {
            Some(p) => Some(KeyView::File(p)),
            None => None,
        }
    }
}

/// A link that does not start with `/` and holds a `:` anywhere (before its fragment) leads
/// to an outside URL: the link itself, fragment cut off, whatever follows the `:` and
/// wherever it is found (so `mailto:` and `tel:` links are outside URLs too).
pub proof fn lemma_colon_links_are_external(link: Seq<char>, fragment: Seq<char>, location: Seq<char>)
    requires
        !link.contains('#'),
        !(link.len() > 0 && link[0] == '/'),
        link.contains(':'),
    ensures
        link_key_spec(link, location) == Some(KeyView::External(link)),
        link_key_spec(link + seq!['#'] + fragment, location) == Some(KeyView::External(link)),
{
    lemma_link_key_ignores_fragment(link, fragment, location);
    lemma_first_pos(link, '#');
    assert(strip_fragment(link) =~= link);
}

/// A `#` fragment makes no difference to where a link leads.
pub proof fn lemma_link_key_ignores_fragment(link: Seq<char>, fragment: Seq<char>, location: Seq<char>)
    requires
        !link.contains('#'),
    ensures
        link_key_spec(link + seq!['#'] + fragment, location) == link_key_spec(link, location),
{
    let l = link + seq!['#'] + fragment;
    lemma_first_pos(link, '#');
    assert forall|j: int| 0 <= j < link.len() implies l[j] != '#' by {
        assert(l[j] == link[j]);
    }
    lemma_first_pos_unique(l, '#', link.len() as int);
    assert(strip_fragment(l) =~= link);
    assert(strip_fragment(link) =~= link);
}

/// A link that starts with `/` leads to the same key from every location.
pub proof fn lemma_absolute_link_key(link: Seq<char>, location1: Seq<char>, location2: Seq<char>)
    requires
        link.len() > 0,
        link[0] == '/',
    ensures
        link_key_spec(link, location1) == link_key_spec(link, location2),
{
    let l = strip_fragment(link);
    lemma_first_pos(link, '#');
    if l.len() > 0 {
        assert(l[0] == '/');
        lemma_absolute_link_ignores_root(l, location1, location2);
    }
}

impl ObjectKey {
    /// The text of the key.
    pub fn as_str(&self) -> (s: &str)
        ensures
            s@ == self@.text(),
    {
        match self {
            ObjectKey::File(s) => s.as_str(),
            ObjectKey::External(s) => s.as_str(),
        }
    }

    /// The URL of the object: a file key below `root`, an outside URL as it stands.
    pub fn to_url(&self, root: &str) -> (url: std::borrow::Cow<'_, str>)
        ensures
            url@ == match self@ {
                KeyView::File(s) => root@ + s,
                KeyView::External(s) => s,
            },
            self is File ==> url is Owned,
            self is External ==> url is Borrowed,
    {
        match self {
            ObjectKey::File(s) => {
                let mut url = root.to_owned();
                url.append(s.as_str());
                std::borrow::Cow::Owned(url)
            },
            ObjectKey::External(s) => std::borrow::Cow::Borrowed(s.as_str()),
        }
    }

    /// The key that the link `link_str` found at `location` leads to, if any.
    pub fn from_link_str(link_str: &str, location: &str) -> (k: Option<ObjectKey>)
        ensures
            match k {
                Some(key) => link_key_spec(link_str@, location@) == Some(key@),
                None => link_key_spec(link_str@, location@) is None,
            },
    {
        let mut link = link_str;
        let n = find_char(link, '#');
        proof {
            lemma_first_pos(link@, '#');
        }
        link = link.substring_char(0, n);
        let len = link.unicode_len();
        let absolute = len > 0 && link.get_char(0) == '/';
        let colon = find_char(link, ':');
        proof {
            lemma_first_pos(link@, ':');
        }
        if !absolute && colon < len {
            return Some(ObjectKey::External(link.to_owned()));
        }
        if len == 0 {
            return None;
        }
        match lexical_normalize_relative_to(link, location) {
            Ok(s) => Some(ObjectKey::File(s)),
            Err(_) => None,
        }
    }
}

} // verus!
