use std::ops::ControlFlow;
use std::path::{Component, Path, PathBuf};
use vstd::prelude::*;
use vstd::utf8::{decode_utf8, valid_utf8};

use crate::links::{components, ComponentView, LinkComponent};

verus! {

#[verifier::external_type_specification]
#[verifier::external_body]
pub struct ExPath(Path);

#[verifier::external_type_specification]
#[verifier::external_body]
pub struct ExPathBuf(PathBuf);

/// The bytes of a path as the platform encodes them (`as_os_str().as_encoded_bytes()`).
pub uninterp spec fn path_bytes(p: &Path) -> Seq<u8>;

/// The bytes of an owned path as the platform encodes them.
pub uninterp spec fn path_buf_bytes(p: PathBuf) -> Seq<u8>;

/// The path that `PathBuf::push` makes of `base` and a piece of text.
pub uninterp spec fn pushed_path(base: Seq<u8>, piece: Seq<char>) -> Seq<u8>;

/// The path that `PathBuf::pop` makes of `base`.
pub uninterp spec fn popped_path(base: Seq<u8>) -> Seq<u8>;

/// The path that `PathBuf::add_extension` makes of `base` and an extension.
pub uninterp spec fn extended_path(base: Seq<u8>, ext: Seq<char>) -> Seq<u8>;

/// `Path::to_owned`: an owned path with the same bytes.
#[verifier::external_body]
pub(crate) fn path_to_owned(p: &Path) -> (r: PathBuf)
    ensures
        path_buf_bytes(r) == path_bytes(p),
{
    p.to_owned()
}

/// `PathBuf::as_path`: the borrowed path with the same bytes.
#[verifier::external_body]
pub(crate) fn path_buf_as_path(p: &PathBuf) -> (r: &Path)
    ensures
        path_bytes(r) == path_buf_bytes(*p),
{
    p.as_path()
}

/// `OsStr::as_encoded_bytes` of an owned path: its bytes.
#[verifier::external_body]
pub(crate) fn path_buf_encoded_bytes(p: &PathBuf) -> (b: &[u8])
    ensures
        b@ == path_buf_bytes(*p),
{
    p.as_os_str().as_encoded_bytes()
}

/// `PathBuf::push` of a piece of text.
#[verifier::external_body]
fn path_buf_push(p: &mut PathBuf, piece: &str)
    ensures
        path_buf_bytes(*final(p)) == pushed_path(path_buf_bytes(*old(p)), piece@),
{
    p.push(piece)
}

/// `PathBuf::pop`, its result dropped.
#[verifier::external_body]
fn path_buf_pop(p: &mut PathBuf)
    ensures
        path_buf_bytes(*final(p)) == popped_path(path_buf_bytes(*old(p))),
{
    p.pop();
}

/// `PathBuf::add_extension`, its result dropped (it panics on an extension that holds a
/// path separator, so the extension must hold neither `/` nor `\\`).
#[verifier::external_body]
fn path_buf_add_extension(p: &mut PathBuf, ext: &str)
    requires
        !ext@.contains('/'),
        !ext@.contains('\\'),
    ensures
        path_buf_bytes(*final(p)) == extended_path(path_buf_bytes(*old(p)), ext@),
{
    p.add_extension(ext);
}

/// The path that `PathBuf::set_extension` with the empty extension makes of `base`: the
/// path with its extension removed.
pub uninterp spec fn without_extension(base: Seq<u8>) -> Seq<u8>;

/// What `Path::strip_prefix` leaves of the path `p` once `base` is cut off its front, `None`
/// when `base` is not a prefix of it.
pub uninterp spec fn stripped_path(p: Seq<u8>, base: Seq<u8>) -> Option<Seq<u8>>;

/// `PathBuf::set_extension` with the empty extension, its result dropped.
#[verifier::external_body]
pub(crate) fn path_buf_drop_extension(p: &mut PathBuf)
    ensures
        path_buf_bytes(*final(p)) == without_extension(path_buf_bytes(*old(p))),
{
    p.set_extension("");
}

/// `Path::strip_prefix`, its error taken as `None`.
#[verifier::external_body]
pub(crate) fn path_strip_prefix<'a>(p: &'a Path, base: &Path) -> (r: Option<&'a Path>)
    ensures
        match r {
            Some(q) => stripped_path(path_bytes(p), path_bytes(base)) == Some(path_bytes(q)),
            None => stripped_path(path_bytes(p), path_bytes(base)) is None,
        },
{
    p.strip_prefix(base).ok()
}

/// The components of a path link: starting from `start`, `..` pops, a text component is
/// pushed, and `.` (or a leading root) leaves the path as it is.
pub open spec fn extend_spec(start: Seq<u8>, comps: Seq<ComponentView>) -> Seq<u8>
    decreases comps.len(),
{
    if comps.len() == 0 {
        start
    } else {
        let next = match comps[0] {
            ComponentView::Parent => popped_path(start),
            ComponentView::Text(t) => pushed_path(start, t),
            _ => start,
        };
        extend_spec(next, comps.drop_first())
    }
}

/// Following two runs of components in turn is following them joined.
pub proof fn lemma_extend_spec_concat(start: Seq<u8>, c1: Seq<ComponentView>, c2: Seq<ComponentView>)
    ensures
        extend_spec(start, c1 + c2) == extend_spec(extend_spec(start, c1), c2),
    decreases c1.len(),
{
    if c1.len() > 0 {
        assert((c1 + c2).drop_first() =~= c1.drop_first() + c2);
        assert((c1 + c2)[0] == c1[0]);
        let next = match c1[0] {
            ComponentView::Parent => popped_path(start),
            ComponentView::Text(t) => pushed_path(start, t),
            _ => start,
        };
        lemma_extend_spec_concat(next, c1.drop_first(), c2);
    } else {
        assert(c1 + c2 =~= c2);
    }
}

/// Following the link `l1/l2` from a path is following `l1` and then `l2` from where it led,
/// when neither link is absolute and `l1` is not empty.
pub proof fn lemma_extend_links_compose(start: Seq<u8>, l1: Seq<char>, l2: Seq<char>)
    requires
        l1.len() > 0,
        l1[0] != '/',
        l2.len() == 0 || l2[0] != '/',
    ensures
        extend_spec(start, crate::links::link_components(l1 + seq!['/'] + l2)) == extend_spec(
            extend_spec(start, crate::links::link_components(l1)),
            crate::links::link_components(l2),
        ),
{
    let u = l1 + seq!['/'] + l2;
    assert(u[0] == l1[0]);
    crate::links::lemma_split_components_join(l1, l2);
    lemma_extend_spec_concat(
        start,
        crate::links::split_components(l1),
        crate::links::split_components(l2),
    );
}

/// The link text of two runs of path components is the text of the first followed by that
/// of the second, and there is none when either has none.
pub proof fn lemma_link_of_pieces_concat(p1: Seq<PieceView>, p2: Seq<PieceView>)
    ensures
        link_of_pieces(p1 + p2) == match (link_of_pieces(p1), link_of_pieces(p2)) {
            (Some(x), Some(y)) => Some(x + y),
            _ => None,
        },
    decreases p2.len(),
{
    if p2.len() == 0 {
        assert(p1 + p2 =~= p1);
        if let Some(x) = link_of_pieces(p1) {
            assert(x + Seq::<char>::empty() =~= x);
        }
    } else {
        assert((p1 + p2).drop_last() =~= p1 + p2.drop_last());
        assert((p1 + p2).last() == p2.last());
        lemma_link_of_pieces_concat(p1, p2.drop_last());
        if let (Some(x), Some(y)) = (link_of_pieces(p1), link_of_pieces(p2.drop_last())) {
            assert((x + y) + seq!['.', '/'] =~= x + (y + seq!['.', '/']));
            assert((x + y) + seq!['.', '.', '/'] =~= x + (y + seq!['.', '.', '/']));
            if let PieceView::Normal(b) = p2.last() {
                assert((x + y) + decode_utf8(b) + seq!['/'] =~= x + (y + decode_utf8(b) + seq!['/']));
            }
        }
    }
}

/// Follows `link` on disk: from `root` when it starts with `/`, from `path` otherwise.
pub fn extend_path_with_link(root: &Path, path: &Path, link: &str) -> (r: PathBuf)
    ensures
        path_buf_bytes(r) == extend_spec(
            if crate::links::link_components(link@).len() > 0
                && crate::links::link_components(link@)[0] is Root {
                path_bytes(root)
            } else {
                path_bytes(path)
            },
            crate::links::link_components(link@),
        ),
{
    let ghost all = crate::links::link_components(link@);
    let ghost start = if all.len() > 0 && all[0] is Root {
        path_bytes(root)
    } else {
        path_bytes(path)
    };
    let mut comps = components(link);
    let mut peeked = comps;
    let mut buf = match peeked.next() {
        Some(LinkComponent::Root) => {
            comps.next();
            path_to_owned(root)
        },
        _ => path_to_owned(path),
    };
    assert(extend_spec(path_buf_bytes(buf), comps.remaining()) == extend_spec(start, all));
    loop
        invariant
            extend_spec(path_buf_bytes(buf), comps.remaining()) == extend_spec(start, all),
            all == crate::links::link_components(link@),
            start == (if all.len() > 0 && all[0] is Root {
                path_bytes(root)
            } else {
                path_bytes(path)
            }),
        decreases comps.remaining().len(),
    {
        let ghost before = comps.remaining();
        match comps.next() {
            None => {
                return buf;
            },
            Some(comp) => {
                assert(comps.remaining() =~= before.drop_first());
                match comp {
                    LinkComponent::Parent => path_buf_pop(&mut buf),
                    LinkComponent::Text(s) => path_buf_push(&mut buf, s),
                    _ => {},
                }
            },
        }
    }
}

/// A component of a file-system path, held as plain values.
pub enum PathPiece {
    Prefix,
    RootDir,
    CurDir,
    ParentDir,
    Normal(Vec<u8>),
}

/// The abstract value of a path component.
pub enum PieceView {
    Prefix,
    RootDir,
    CurDir,
    ParentDir,
    Normal(Seq<u8>),
}

impl View for PathPiece {
    type V = PieceView;

    open spec fn view(&self) -> PieceView {
        match self {
            PathPiece::Prefix => PieceView::Prefix,
            PathPiece::RootDir => PieceView::RootDir,
            PathPiece::CurDir => PieceView::CurDir,
            PathPiece::ParentDir => PieceView::ParentDir,
            PathPiece::Normal(b) => PieceView::Normal(b@),
        }
    }
}

/// The components that `Path::components` yields for a path with these bytes.
pub uninterp spec fn path_pieces_of(bytes: Seq<u8>) -> Seq<PieceView>;

/// `Path::components`, each component by its kind (a normal one with its bytes).
#[verifier::external_body]
fn path_pieces(p: &Path) -> (v: Vec<PathPiece>)
    ensures
        v@.map_values(|x: PathPiece| x@) == path_pieces_of(path_bytes(p)),
{
    let mut v = Vec::new();
    for c in p.components() {
        v.push(match c {
            Component::Prefix(_) => PathPiece::Prefix,
            Component::RootDir => PathPiece::RootDir,
            Component::CurDir => PathPiece::CurDir,
            Component::ParentDir => PathPiece::ParentDir,
            Component::Normal(s) => PathPiece::Normal(s.as_encoded_bytes().to_vec()),
        });
    }
    v
}

/// `str::from_utf8`: the text when the bytes are valid UTF-8.
#[verifier::external_body]
fn text_of_utf8(b: &[u8]) -> (r: Option<&str>)
    ensures
        r is Some <==> valid_utf8(b@),
        r matches Some(t) ==> t@ == decode_utf8(b@),
{
    std::str::from_utf8(b).ok()
}

/// Whether a path holds no root and no prefix.
pub open spec fn pieces_relative(pieces: Seq<PieceView>) -> bool {
    forall|i: int| 0 <= i < pieces.len() ==> !(pieces[i] is Prefix) && !(pieces[i] is RootDir)
}

/// The link text of relative path components: `./`, `../` or the component and a `/`
/// for each; `None` when a component is not valid UTF-8.
pub open spec fn link_of_pieces(pieces: Seq<PieceView>) -> Option<Seq<char>>
    decreases pieces.len(),
{
    if pieces.len() == 0 {
        Some(Seq::empty())
    } else {
        let last = pieces.last();
        match link_of_pieces(pieces.drop_last()) {
            None => None,
            Some(t) => match last {
                PieceView::CurDir => Some(t + seq!['.', '/']),
                PieceView::ParentDir => Some(t + seq!['.', '.', '/']),
                PieceView::Normal(b) => if valid_utf8(b) {
                    Some(t + decode_utf8(b) + seq!['/'])
                } else {
                    None
                },
                _ => Some(t),
            },
        }
    }
}

/// Once a prefix of the components has no link text, neither has the whole.
proof fn lemma_link_of_pieces_none(pieces: Seq<PieceView>, k: int)
    requires
        0 <= k <= pieces.len(),
        link_of_pieces(pieces.take(k)) is None,
    ensures
        link_of_pieces(pieces) is None,
    decreases pieces.len(),
{
    if k < pieces.len() {
        assert(pieces.drop_last().take(k) =~= pieces.take(k));
        lemma_link_of_pieces_none(pieces.drop_last(), k);
    } else {
        assert(pieces.take(k) =~= pieces);
    }
}

/// Writes a relative path as a link, each component followed by `/`; `None` when a
/// component is not valid UTF-8.
pub fn path_to_link(path: &Path) -> (r: Option<String>)
    requires
        pieces_relative(path_pieces_of(path_bytes(path))),
    ensures
        match r {
            Some(t) => link_of_pieces(path_pieces_of(path_bytes(path))) == Some(t@),
            None => link_of_pieces(path_pieces_of(path_bytes(path))) is None,
        },
{
    let pieces = path_pieces(path);
    let ghost all = path_pieces_of(path_bytes(path));
    assert(pieces@.len() == all.len());
    let mut t = String::new();
    let mut i: usize = 0;
    while i < pieces.len()
        invariant
            0 <= i <= pieces@.len(),
            pieces@.map_values(|x: PathPiece| x@) == all,
            pieces_relative(all),
            all == path_pieces_of(path_bytes(path)),
            link_of_pieces(all.take(i as int)) == Some(t@),
        decreases pieces@.len() - i,
    {
        assert(all.take(i + 1).drop_last() =~= all.take(i as int));
        assert(all.take(i + 1).last() == pieces@[i as int]@);
        match &pieces[i] {
            PathPiece::Prefix => {
                assert(all[i as int] is Prefix);
            },
            PathPiece::RootDir => {
                assert(all[i as int] is RootDir);
            },
            PathPiece::CurDir => {
                proof {
                    reveal_strlit("./");
                }
                t.append("./");
            },
            PathPiece::ParentDir => {
                proof {
                    reveal_strlit("../");
                }
                t.append("../");
            },
            PathPiece::Normal(b) => {
                match text_of_utf8(b.as_slice()) {
                    Some(s) => {
                        proof {
                            reveal_strlit("/");
                        }
                        t.append(s);
                        t.append("/");
                    },
                    None => {
                        proof {
                            assert(all[i as int] == PieceView::Normal(b@));
                            assert(all.take(i + 1).last() == all[i as int]);
                            assert(link_of_pieces(all.take(i + 1)) is None);
                            lemma_link_of_pieces_none(all, i + 1);
                        }
                        return None;
                    },
                }
            },
        }
        i = i + 1;
    }
    assert(all.take(i as int) =~= all);
    Some(t)
}

/// Writes a path as a link like `path_to_link` when it holds no root and no prefix;
/// `None` when it does (where `path_to_link` must not be called).
pub fn relative_path_to_link(path: &Path) -> (r: Option<Option<String>>)
    ensures
        r is None <==> !pieces_relative(path_pieces_of(path_bytes(path))),
        r matches Some(Some(t)) ==> link_of_pieces(path_pieces_of(path_bytes(path))) == Some(t@),
        r matches Some(None) ==> link_of_pieces(path_pieces_of(path_bytes(path))) is None,
{
    let pieces = path_pieces(path);
    let ghost all = path_pieces_of(path_bytes(path));
    assert(pieces@.len() == all.len());
    let mut i: usize = 0;
    while i < pieces.len()
        invariant
            0 <= i <= pieces@.len(),
            pieces@.map_values(|x: PathPiece| x@) == all,
            forall|j: int| 0 <= j < i ==> !(all[j] is Prefix) && !(all[j] is RootDir),
            all == path_pieces_of(path_bytes(path)),
        decreases pieces@.len() - i,
    {
        match &pieces[i] {
            PathPiece::Prefix => {
                assert(all[i as int] is Prefix);
                return None;
            },
            PathPiece::RootDir => {
                assert(all[i as int] is RootDir);
                return None;
            },
            _ => {},
        }
        i = i + 1;
    }
    Some(path_to_link(path))
}

/// Calls `f` on `owned` and then on `owned` with the extension `md` added, stopping at the
/// first call that breaks; `owned` must not end in `/`.
pub fn permute_markdown_aliases<B>(owned: PathBuf, f: impl FnMut(&Path) -> ControlFlow<B>) -> (r:
    ControlFlow<B>)
    requires
        path_buf_bytes(owned).len() == 0 || path_buf_bytes(owned).last() != 47u8,
        forall|p: &Path| call_requires(f, (p,)),
    ensures
        exists|p1: &Path, r1: ControlFlow<B>|
            path_bytes(p1) == path_buf_bytes(owned) && call_ensures(f, (p1,), r1) && (
            match r1 {
                ControlFlow::Break(b) => r == ControlFlow::<B>::Break(b),
                ControlFlow::Continue(_) => exists|p2: &Path, r2: ControlFlow<B>|
                    path_bytes(p2) == extended_path(path_buf_bytes(owned), seq!['m', 'd'])
                        && call_ensures(f, (p2,), r2) && r == r2,
            }),
{
    let mut owned = owned;
    let mut f = f;
    let ghost bytes0 = path_buf_bytes(owned);
    let first = path_buf_as_path(&owned);
    let r1 = f(first);
    if let ControlFlow::Break(b) = r1 {
        assert(path_bytes(first) == bytes0 && call_ensures(f, (first,), r1));
        return ControlFlow::Break(b);
    }
    proof {
        reveal_strlit("md");
        assert(!"md"@.contains('/')) by {
            if "md"@.contains('/') {
                let i = choose|i: int| 0 <= i < "md"@.len() && "md"@[i] == '/';
            }
        }
        assert(!"md"@.contains('\\')) by {
            if "md"@.contains('\\') {
                let i = choose|i: int| 0 <= i < "md"@.len() && "md"@[i] == '\\';
            }
        }
    }
    path_buf_add_extension(&mut owned, "md");
    let second = path_buf_as_path(&owned);
    let r2 = f(second);
    let r = r2;
    assert("md"@ =~= seq!['m', 'd']);
    assert(path_bytes(second) == extended_path(bytes0, seq!['m', 'd']) && call_ensures(
        f,
        (second,),
        r2,
    ) && r == r2);
    assert(path_bytes(first) == bytes0 && call_ensures(f, (first,), r1));
    r
}

} // verus!
