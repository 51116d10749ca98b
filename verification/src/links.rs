use vstd::prelude::*;
use vstd::utf8::encode_utf8;

pub use crate::paths::{
    extend_path_with_link, path_to_link, permute_markdown_aliases, relative_path_to_link,
};

verus! {

/// The abstract value of one component of a link.
pub enum ComponentView {
    Root,
    Current,
    Parent,
    Text(Seq<char>),
}

/// Index of the first `c` in `s`, or `s.len()` when there is none.
pub open spec fn first_pos(s: Seq<char>, c: char) -> int
    decreases s.len(),
{
    if s.len() == 0 {
        0
    } else if s[0] == c {
        0
    } else {
        1 + first_pos(s.drop_first(), c)
    }
}

pub proof fn lemma_first_pos(s: Seq<char>, c: char)
    ensures
        0 <= first_pos(s, c) <= s.len(),
        forall|j: int| 0 <= j < first_pos(s, c) ==> s[j] != c,
        first_pos(s, c) < s.len() ==> s[first_pos(s, c)] == c,
        first_pos(s, c) == s.len() <==> !s.contains(c),
    decreases s.len(),
{
    if s.len() > 0 && s[0] != c {
        lemma_first_pos(s.drop_first(), c);
        assert forall|j: int| 0 <= j < first_pos(s, c) implies s[j] != c by {
            if j > 0 {
                assert(s[j] == s.drop_first()[j - 1]);
            }
        }
        if s.drop_first().contains(c) {
            let k = choose|k: int| 0 <= k < s.drop_first().len() && s.drop_first()[k] == c;
            assert(s[k + 1] == c);
        }
        if s.contains(c) {
            let k = choose|k: int| 0 <= k < s.len() && s[k] == c;
            assert(s.drop_first()[k - 1] == c);
        }
    }
    if s.len() > 0 && s[0] == c {
        assert(s.contains(c));
    }
}

/// `first_pos` is the only index before which no `c` occurs and at which one does (or the end).
pub proof fn lemma_first_pos_unique(s: Seq<char>, c: char, i: int)
    requires
        0 <= i <= s.len(),
        forall|j: int| 0 <= j < i ==> s[j] != c,
        i < s.len() ==> s[i] == c,
    ensures
        first_pos(s, c) == i,
    decreases s.len(),
{
    if s.len() > 0 && i > 0 {
        assert(s[0] != c);
        assert forall|j: int| 0 <= j < i - 1 implies s.drop_first()[j] != c by {
            assert(s.drop_first()[j] == s[j + 1]);
        }
        lemma_first_pos_unique(s.drop_first(), c, i - 1);
    }
}

/// The UTF-8 encoding of a concatenation is the concatenation of the encodings.
pub proof fn lemma_encode_utf8_concat(a: Seq<char>, b: Seq<char>)
    ensures
        encode_utf8(a + b) =~= encode_utf8(a) + encode_utf8(b),
    decreases a.len(),
{
    if a.len() > 0 {
        assert((a + b).drop_first() =~= a.drop_first() + b);
        lemma_encode_utf8_concat(a.drop_first(), b);
    }
}

/// A non-empty char sequence has a non-empty encoding.
pub proof fn lemma_encode_utf8_nonempty(a: Seq<char>)
    requires
        a.len() > 0,
    ensures
        encode_utf8(a).len() > 0,
{
}

/// Char index of the first `c` in `s`, or the char length of `s` when there is none.
pub(crate) fn find_char(s: &str, c: char) -> (i: usize)
    ensures
        i == first_pos(s@, c),
{
    let len = s.unicode_len();
    let mut i: usize = 0;
    while i < len && s.get_char(i) != c
        invariant
            len == s@.len(),
            0 <= i <= len,
            forall|j: int| 0 <= j < i ==> s@[j] != c,
        decreases len - i,
    {
        i = i + 1;
    }
    proof {
        lemma_first_pos_unique(s@, c, i as int);
    }
    i
}

/// What one `/`-separated piece of a link stands for; empty pieces stand for nothing.
pub open spec fn piece_view(p: Seq<char>) -> Option<ComponentView> {
    if p =~= seq!['.', '.'] {
        Some(ComponentView::Parent)
    } else if p =~= seq!['.'] {
        Some(ComponentView::Current)
    } else if p.len() == 0 {
        None
    } else {
        Some(ComponentView::Text(p))
    }
}

/// What follows the first piece of `s` and its separating `/`.
pub open spec fn after_piece(s: Seq<char>) -> Seq<char> {
    if first_pos(s, '/') < s.len() {
        s.subrange(first_pos(s, '/') + 1, s.len() as int)
    } else {
        Seq::empty()
    }
}

/// The components of `s` split on `/`, empty pieces dropped.
pub open spec fn split_components(s: Seq<char>) -> Seq<ComponentView>
    decreases s.len(),
{
    if s.len() == 0 {
        Seq::empty()
    } else {
        proof {
            lemma_first_pos(s, '/');
        }
        let tail = split_components(after_piece(s));
        match piece_view(s.take(first_pos(s, '/'))) {
            Some(c) => seq![c] + tail,
            None => tail,
        }
    }
}

/// The components of a link: a leading `/` makes a root component.
pub open spec fn link_components(s: Seq<char>) -> Seq<ComponentView> {
    if s.len() > 0 && s[0] == '/' {
        seq![ComponentView::Root] + split_components(s.drop_first())
    } else {
        split_components(s)
    }
}


/// One component of a link.
#[derive(Debug)]
pub enum LinkComponent<'a> {
    Root,
    Current,
    Parent,
    Text(&'a str),
}

impl<'a> View for LinkComponent<'a> {
    type V = ComponentView;

    open spec fn view(&self) -> ComponentView {
        match self {
            LinkComponent::Root => ComponentView::Root,
            LinkComponent::Current => ComponentView::Current,
            LinkComponent::Parent => ComponentView::Parent,
            LinkComponent::Text(t) => ComponentView::Text(t@),
        }
    }
}

/// The components of a link, handed out one at a time.
#[derive(Clone, Copy)]
pub struct LinkComponents<'a> {
    s: &'a str,
    uprooted: bool,
}

impl<'a> LinkComponents<'a> {
    /// The text of the link that has not been consumed yet.
    pub closed spec fn rest(self) -> Seq<char> {
        self.s@
    }

    /// The components that are still to come.
    pub closed spec fn remaining(self) -> Seq<ComponentView> {
        if self.uprooted {
            split_components(self.s@)
        } else {
            link_components(self.s@)
        }
    }

    /// Splits off the first piece: the number of chars it takes with its `/`, and its component.
    fn next_piece(&self) -> (res: (usize, Option<LinkComponent<'a>>))
        ensures
            res.0 == (if first_pos(self.s@, '/') < self.s@.len() {
                first_pos(self.s@, '/') + 1
            } else {
                self.s@.len() as int
            }),
            res.1 matches Some(c) ==> piece_view(self.s@.take(first_pos(self.s@, '/'))) == Some(c@),
            res.1 is None ==> piece_view(self.s@.take(first_pos(self.s@, '/'))) is None,
            res.1 matches Some(c) ==> (c is Text ==> c->Text_0@ == self.s@.take(first_pos(self.s@, '/'))),
    {
        let len = self.s.unicode_len();
        let i = find_char(self.s, '/');
        proof {
            lemma_first_pos(self.s@, '/');
        }
        let extra: usize = if i < len {
            1
        } else {
            0
        };
        let comp = self.s.substring_char(0, i);
        let n = comp.unicode_len();
        let parsed = if n == 2 && comp.get_char(0) == '.' && comp.get_char(1) == '.' {
            assert(comp@ =~= seq!['.', '.']);
            Some(LinkComponent::Parent)
        } else if n == 1 && comp.get_char(0) == '.' {
            assert(comp@ =~= seq!['.']);
            Some(LinkComponent::Current)
        } else if n == 0 {
            None
        } else {
            assert(!(comp@ =~= seq!['.', '.'])) by {
                if comp@ =~= seq!['.', '.'] {
                    assert(comp@[0] == '.' && comp@[1] == '.');
                }
            }
            assert(!(comp@ =~= seq!['.'])) by {
                if comp@ =~= seq!['.'] {
                    assert(comp@[0] == '.');
                }
            }
            Some(LinkComponent::Text(comp))
        };
        (i + extra, parsed)
    }

    /// Reads the first piece of the unconsumed text without consuming it: the number of
    /// bytes it takes together with its `/`, and the component it stands for (`None` for an
    /// empty piece).
    pub fn next_component(&mut self) -> (res: (usize, Option<LinkComponent<'a>>))
        requires
            encode_utf8(old(self).rest()).len() <= usize::MAX,
        ensures
            *final(self) == *old(self),
            res.0 == encode_utf8(old(self).rest().take(first_pos(old(self).rest(), '/'))).len() + (
            if first_pos(old(self).rest(), '/') < old(self).rest().len() {
                1int
            } else {
                0int
            }),
            res.1 matches Some(c) ==> piece_view(old(self).rest().take(first_pos(old(self).rest(), '/')))
                == Some(c@),
            res.1 is None ==> piece_view(old(self).rest().take(first_pos(old(self).rest(), '/'))) is None,
    {
        let (_, parsed) = self.next_piece();
        let len = self.s.unicode_len();
        let i = find_char(self.s, '/');
        proof {
            lemma_first_pos(self.s@, '/');
            let a = self.s@.take(i as int);
            let b = self.s@.skip(i as int);
            assert(self.s@ =~= a + b);
            lemma_encode_utf8_concat(a, b);
            if i < len {
                lemma_encode_utf8_nonempty(b);
            }
        }
        let comp = self.s.substring_char(0, i);
        let n = comp.len();
        if i < len {
            (n + 1, parsed)
        } else {
            (n, parsed)
        }
    }

    /// Hands out the next component, or `None` once the link is used up.
    pub fn next(&mut self) -> (res: Option<LinkComponent<'a>>)
        ensures
            old(self).remaining().len() == 0 ==> res is None && final(self).remaining().len() == 0,
            old(self).remaining().len() > 0 ==> (res matches Some(c) && c@ == old(
                self,
            ).remaining()[0]),
            old(self).remaining().len() > 0 ==> final(self).remaining() =~= old(
                self,
            ).remaining().drop_first(),
    {
        loop
            invariant
                self.remaining() == old(self).remaining(),
            decreases self.s@.len() + (if self.uprooted {
                0int
            } else {
                1int
            }),
        {
            if self.s.is_empty() {
                return None;
            }
            let len = self.s.unicode_len();
            if self.uprooted {
                let (n, comp) = self.next_piece();
                proof {
                    lemma_first_pos(self.s@, '/');
                }
                let ghost before = self.s@;
                self.s = self.s.substring_char(n, len);
                assert(self.s@ =~= after_piece(before));
                match comp {
                    Some(c) => {
                        return Some(c);
                    },
                    None => {},
                }
            } else {
                self.uprooted = true;
                if self.s.get_char(0) == '/' {
                    self.s = self.s.substring_char(1, len);
                    return Some(LinkComponent::Root);
                }
                if len == 2 && self.s.get_char(0) == '.' && self.s.get_char(1) == '/' {
                    let ghost before = self.s@;
                    proof {
                        lemma_first_pos_unique(before, '/', 1);
                        assert(before.take(1) =~= seq!['.']);
                        assert(after_piece(before) =~= Seq::<char>::empty());
                    }
                    self.s = self.s.substring_char(2, 2);
                    return Some(LinkComponent::Current);
                }
            }
        }
    }
}


impl<'a> LinkComponents<'a> {
    /// Runs the components to the end and hands out all of them, in order; the iteration
    /// is used up afterwards, so `next` then gives `None`.
    pub fn collect(&mut self) -> (v: Vec<LinkComponent<'a>>)
        ensures
            v@.map_values(|c: LinkComponent<'a>| c@) == old(self).remaining(),
            final(self).remaining().len() == 0,
    {
        let mut v: Vec<LinkComponent<'a>> = Vec::new();
        loop
            invariant
                v@.map_values(|c: LinkComponent<'a>| c@) + self.remaining() == old(self).remaining(),
            decreases self.remaining().len(),
        {
            let ghost before = self.remaining();
            match self.next() {
                None => {
                    assert(v@.map_values(|c: LinkComponent<'a>| c@) + before =~= v@.map_values(
                        |c: LinkComponent<'a>| c@,
                    ));
                    return v;
                },
                Some(c) => {
                    let ghost pre = v@.map_values(|c: LinkComponent<'a>| c@);
                    v.push(c);
                    assert(v@.map_values(|c: LinkComponent<'a>| c@) =~= pre.push(c@));
                    assert(pre.push(c@) + self.remaining() =~= pre + before);
                },
            }
        }
    }
}

/// The components of a link, first to last.
pub fn components(s: &str) -> (res: LinkComponents<'_>)
    ensures
        res.remaining() == link_components(s@),
        res.rest() == s@,
{
    LinkComponents { s, uprooted: false }
}


/// Index of the last `/` in `s`, or `0` when there is none.
pub open spec fn last_slash(s: Seq<char>) -> int
    decreases s.len(),
{
    if s.len() == 0 {
        0
    } else if s.last() == '/' {
        s.len() - 1
    } else {
        last_slash(s.drop_last())
    }
}

pub proof fn lemma_last_slash_unique(s: Seq<char>, i: int)
    requires
        0 <= i <= s.len(),
        forall|j: int| i <= j < s.len() ==> s[j] != '/',
        i > 0 ==> s[i - 1] == '/',
    ensures
        last_slash(s) == (if i == 0 {
            0
        } else {
            i - 1
        }),
    decreases s.len(),
{
    if s.len() > 0 && i < s.len() {
        assert(s.last() != '/');
        assert forall|j: int| i <= j < s.drop_last().len() implies s.drop_last()[j] != '/' by {
            assert(s.drop_last()[j] == s[j]);
        }
        if i > 0 {
            assert(s.drop_last()[i - 1] == s[i - 1]);
        }
        lemma_last_slash_unique(s.drop_last(), i);
    }
}

/// The lexical parent: everything before the last `/` (nothing when there is no `/`).
pub open spec fn lexical_parent(s: Seq<char>) -> Seq<char> {
    s.take(last_slash(s))
}

/// Appends a text component, with a `/` between it and a non-empty path that lacks one.
pub open spec fn push_text(lex: Seq<char>, t: Seq<char>) -> Seq<char> {
    if lex.len() > 0 && lex.last() != '/' {
        lex + seq!['/'] + t
    } else {
        lex + t
    }
}

/// Applies components to a lexical path; `None` when a parent is taken of the empty path.
pub open spec fn apply_components(lex: Seq<char>, comps: Seq<ComponentView>) -> Option<Seq<char>>
    decreases comps.len(),
{
    if comps.len() == 0 {
        Some(lex)
    } else {
        let rest = comps.drop_first();
        match comps[0] {
            ComponentView::Parent => {
                if lex.len() == 0 {
                    None
                } else {
                    apply_components(lexical_parent(lex), rest)
                }
            },
            ComponentView::Text(t) => apply_components(push_text(lex, t), rest),
            _ => apply_components(lex, rest),
        }
    }
}

/// A base path loses one trailing `/`, unless it is the single char `/`.
pub open spec fn trim_base(root: Seq<char>) -> Seq<char> {
    if root.len() > 1 && root.last() == '/' {
        root.drop_last()
    } else {
        root
    }
}

/// A link loses a `.md` suffix.
pub open spec fn strip_md(s: Seq<char>) -> Seq<char> {
    if s.len() >= 3 && s.subrange(s.len() - 3, s.len() as int) =~= seq!['.', 'm', 'd'] {
        s.take(s.len() - 3)
    } else {
        s
    }
}

/// The empty path is written `.`.
pub open spec fn unempty(s: Seq<char>) -> Seq<char> {
    if s.len() == 0 {
        seq!['.']
    } else {
        s
    }
}

/// The lexical normal form of link `s` seen from `root`: components are applied to the
/// root (or to the empty path for an absolute link); `None` when the link climbs above it.
pub open spec fn normalize_spec(s: Seq<char>, root: Seq<char>) -> Option<Seq<char>> {
    let comps = link_components(strip_md(s));
    let start = if comps.len() > 0 && comps[0] is Root {
        Seq::empty()
    } else {
        trim_base(root)
    };
    match apply_components(start, comps) {
        Some(l) => Some(unempty(l)),
        None => None,
    }
}

/// The components after the first one never include a root.
pub proof fn lemma_split_components_no_root(s: Seq<char>)
    ensures
        forall|i: int| 0 <= i < split_components(s).len() ==> !(split_components(s)[i] is Root),
    decreases s.len(),
{
    if s.len() > 0 {
        lemma_first_pos(s, '/');
        lemma_split_components_no_root(after_piece(s));
        let tail = split_components(after_piece(s));
        match piece_view(s.take(first_pos(s, '/'))) {
            Some(c) => {
                assert forall|i: int| 0 <= i < split_components(s).len() implies !(split_components(
                    s,
                )[i] is Root) by {
                    if i > 0 {
                        assert(split_components(s)[i] == tail[i - 1]);
                    }
                }
            },
            None => {},
        }
    }
}

/// Returned when a link climbs above the root it is resolved against.
#[derive(Clone, Copy, Debug, PartialEq)]
pub struct NormalizeError;

fn unempty_string(s: String) -> (res: String)
    ensures
        res@ == unempty(s@),
{
    if s.as_str().is_empty() {
        proof {
            reveal_strlit(".");
        }
        ".".to_owned()
    } else {
        s
    }
}

/// Char index of the last `/` of `s`, or `0`.
fn rfind_slash(s: &str) -> (i: usize)
    ensures
        i == last_slash(s@),
{
    let mut i = s.unicode_len();
    while i > 0 && s.get_char(i - 1) != '/'
        invariant
            0 <= i <= s@.len(),
            forall|j: int| i <= j < s@.len() ==> s@[j] != '/',
        decreases i,
    {
        i = i - 1;
    }
    proof {
        lemma_last_slash_unique(s@, i as int);
    }
    if i == 0 {
        0
    } else {
        i - 1
    }
}

/// Resolves link `s` against the location `root` without touching the file system:
/// `.` components vanish, `..` drops the last segment, a leading `/` starts from the empty
/// path, a `.md` suffix is dropped, and the empty result is written `.`. Fails when `..`
/// climbs above the empty path.
pub fn lexical_normalize_relative_to(s: &str, root: &str) -> (res: Result<String, NormalizeError>)
    ensures
        match res {
            Ok(out) => normalize_spec(s@, root@) == Some(out@),
            Err(_) => normalize_spec(s@, root@) is None,
        },
{
    let ghost s0 = s@;
    let ghost root0 = root@;
    let mut link = s;
    let mut base = root;
    let rlen = base.unicode_len();
    if rlen > 1 && base.get_char(rlen - 1) == '/' {
        base = base.substring_char(0, rlen - 1);
    }
    assert(base@ =~= trim_base(root0));
    let slen = link.unicode_len();
    if slen >= 3 && link.get_char(slen - 3) == '.' && link.get_char(slen - 2) == 'm' && link.get_char(
        slen - 1,
    ) == 'd' {
        assert(link@.subrange(slen - 3, slen as int) =~= seq!['.', 'm', 'd']);
        link = link.substring_char(0, slen - 3);
    } else {
        assert(!(slen >= 3 && link@.subrange(slen - 3, slen as int) =~= seq!['.', 'm', 'd'])) by {
            if slen >= 3 && link@.subrange(slen - 3, slen as int) =~= seq!['.', 'm', 'd'] {
                assert(link@.subrange(slen - 3, slen as int)[0] == link@[slen - 3]);
                assert(link@.subrange(slen - 3, slen as int)[1] == link@[slen - 2]);
                assert(link@.subrange(slen - 3, slen as int)[2] == link@[slen - 1]);
            }
        }
    }
    assert(link@ =~= strip_md(s0));
    let ghost all = link_components(link@);
    let mut comps = components(link);
    let mut peeked = comps;
    let mut lexical = match peeked.next() {
        Some(LinkComponent::Root) => {
            comps.next();
            String::new()
        },
        Some(LinkComponent::Current) => {
            comps.next();
            base.to_owned()
        },
        None => {
            return Ok(unempty_string(base.to_owned()));
        },
        Some(_) => base.to_owned(),
    };
    proof {
        lemma_split_components_no_root(link@);
        lemma_split_components_no_root(link@.drop_first());
        let start = if all.len() > 0 && all[0] is Root {
            Seq::<char>::empty()
        } else {
            trim_base(root0)
        };
        assert(apply_components(lexical@, comps.remaining()) == apply_components(start, all));
    }
    loop
        invariant
            apply_components(lexical@, comps.remaining()) == apply_components(
                if all.len() > 0 && all[0] is Root {
                    Seq::<char>::empty()
                } else {
                    trim_base(root0)
                },
                all,
            ),
            all == link_components(strip_md(s0)),
            s0 == s@,
            root0 == root@,
            forall|i: int| 0 <= i < comps.remaining().len() ==> !(comps.remaining()[i] is Root),
        decreases comps.remaining().len(),
    {
        let ghost before = comps.remaining();
        match comps.next() {
            None => {
                return Ok(unempty_string(lexical));
            },
            Some(comp) => {
                assert(comps.remaining() =~= before.drop_first());
                assert(forall|i: int|
                    0 <= i < comps.remaining().len() ==> comps.remaining()[i] == before[i + 1]);
                assert(comp@ == before[0]);
                assert(apply_components(lexical@, before) == match before[0] {
                    ComponentView::Parent => {
                        if lexical@.len() == 0 {
                            None
                        } else {
                            apply_components(lexical_parent(lexical@), comps.remaining())
                        }
                    },
                    ComponentView::Text(t) => apply_components(push_text(lexical@, t), comps.remaining()),
                    _ => apply_components(lexical@, comps.remaining()),
                });
                match comp {
                    LinkComponent::Root => {
                        assert(before[0] is Root);
                    },
                    LinkComponent::Current => {},
                    LinkComponent::Parent => {
                        if lexical.as_str().is_empty() {
                            return Err(NormalizeError);
                        }
                        let last = rfind_slash(lexical.as_str());
                        proof {
                            lemma_last_slash_bound(lexical@);
                        }
                        let ghost old_lex = lexical@;
                        lexical = lexical.as_str().substring_char(0, last).to_owned();
                        assert(lexical@ =~= lexical_parent(old_lex));
                    },
                    LinkComponent::Text(t) => {
                        let ghost old_lex = lexical@;
                        let n = lexical.as_str().unicode_len();
                        if n > 0 && lexical.as_str().get_char(n - 1) != '/' {
                            proof {
                                reveal_strlit("/");
                            }
                            lexical.append("/");
                        }
                        lexical.append(t);
                        assert(lexical@ =~= push_text(old_lex, t@));
                    },
                }
            },
        }
    }
}

pub proof fn lemma_last_slash_bound(s: Seq<char>)
    ensures
        0 <= last_slash(s) <= s.len(),
    decreases s.len(),
{
    if s.len() > 0 && s.last() != '/' {
        lemma_last_slash_bound(s.drop_last());
    }
}

/// A `.md` suffix makes no difference to any link, absolute or relative: the link with it
/// resolves as the link without it (unless that one ends in `.md` itself, as a suffix is
/// dropped once).
pub proof fn lemma_md_suffix_ignored(t: Seq<char>, root: Seq<char>)
    requires
        !(t.len() >= 3 && t.subrange(t.len() - 3, t.len() as int) =~= seq!['.', 'm', 'd']),
    ensures
        normalize_spec(t + seq!['.', 'm', 'd'], root) == normalize_spec(t, root),
{
    let u = t + seq!['.', 'm', 'd'];
    assert(u.subrange(u.len() - 3, u.len() as int) =~= seq!['.', 'm', 'd']);
    assert(u.take(u.len() - 3) =~= t);
    assert(strip_md(u) == t);
    assert(strip_md(t) == t);
}

/// A normalised link is never empty: the empty path is written `.`.
pub proof fn lemma_normalized_never_empty(s: Seq<char>, root: Seq<char>)
    ensures
        normalize_spec(s, root) matches Some(out) ==> out.len() > 0,
{
}

/// A `/` at the end of a link makes no further component.
pub proof fn lemma_split_components_trailing_slash(t: Seq<char>)
    ensures
        split_components(t.push('/')) == split_components(t),
    decreases t.len(),
{
    let u = t.push('/');
    lemma_first_pos(t, '/');
    let i = first_pos(t, '/');
    assert forall|j: int| 0 <= j < i implies u[j] != '/' by {
        assert(u[j] == t[j]);
    }
    if i < t.len() {
        assert(u[i] == t[i]);
    }
    lemma_first_pos_unique(u, '/', i);
    assert(u.take(i) =~= t.take(i));
    if t.len() == 0 {
        assert(after_piece(u) =~= Seq::<char>::empty());
        assert(split_components(Seq::<char>::empty()) =~= Seq::<ComponentView>::empty());
    } else if i < t.len() {
        assert(after_piece(u) =~= after_piece(t).push('/'));
        lemma_split_components_trailing_slash(after_piece(t));
    } else {
        assert(after_piece(u) =~= Seq::<char>::empty());
        assert(after_piece(t) =~= Seq::<char>::empty());
    }
}

/// A `/` between two texts splits them: the components of the whole are those of the
/// first followed by those of the second.
pub proof fn lemma_split_components_join(l1: Seq<char>, l2: Seq<char>)
    ensures
        split_components(l1 + seq!['/'] + l2) == split_components(l1) + split_components(l2),
    decreases l1.len(),
{
    let u = l1 + seq!['/'] + l2;
    lemma_first_pos(l1, '/');
    let i = first_pos(l1, '/');
    assert forall|j: int| 0 <= j < i implies u[j] != '/' by {
        assert(u[j] == l1[j]);
    }
    if i < l1.len() {
        assert(u[i] == l1[i]);
    }
    lemma_first_pos_unique(u, '/', i);
    assert(u.take(i) =~= l1.take(i));
    if i < l1.len() {
        assert(after_piece(u) =~= after_piece(l1) + seq!['/'] + l2);
        lemma_split_components_join(after_piece(l1), l2);
        if l1.len() > 0 {
            assert(split_components(l1) == match piece_view(l1.take(i)) {
                Some(c) => seq![c] + split_components(after_piece(l1)),
                None => split_components(after_piece(l1)),
            });
        }
    } else {
        assert(after_piece(u) =~= l2);
        assert(after_piece(l1) =~= Seq::<char>::empty());
        assert(split_components(Seq::<char>::empty()) =~= Seq::<ComponentView>::empty());
        if l1.len() == 0 {
            assert(l1.take(0) =~= Seq::<char>::empty());
        }
    }
    assert(split_components(u) =~= split_components(l1) + split_components(l2));
}

/// An absolute link (one that starts with `/`) resolves the same way from every root.
pub proof fn lemma_absolute_link_ignores_root(s: Seq<char>, root1: Seq<char>, root2: Seq<char>)
    requires
        s.len() > 0,
        s[0] == '/',
    ensures
        normalize_spec(s, root1) == normalize_spec(s, root2),
{
    let t = strip_md(s);
    assert(t.len() > 0 && t[0] == '/') by {
        if s.len() >= 3 && s.subrange(s.len() - 3, s.len() as int) =~= seq!['.', 'm', 'd'] {
            if s.len() == 3 {
                assert(s[0] == s.subrange(0, 3)[0]);
            }
        }
    }
    assert(link_components(t)[0] is Root);
}

/// One `/` at the end of the root makes no difference (the root `/` itself aside).
pub proof fn lemma_root_trailing_slash(s: Seq<char>, root: Seq<char>)
    requires
        root.len() > 0,
        root.last() != '/',
    ensures
        normalize_spec(s, root.push('/')) == normalize_spec(s, root),
{
    assert(root.push('/').drop_last() =~= root);
}

/// A `/` at the end of a non-empty link without a `.md` suffix makes no difference.
pub proof fn lemma_link_trailing_slash(s: Seq<char>, root: Seq<char>)
    requires
        s.len() > 0,
        strip_md(s) == s,
    ensures
        normalize_spec(s.push('/'), root) == normalize_spec(s, root),
{
    let u = s.push('/');
    assert(strip_md(u) == u) by {
        if u.len() >= 3 && u.subrange(u.len() - 3, u.len() as int) =~= seq!['.', 'm', 'd'] {
            assert(u.last() == u.subrange(u.len() - 3, u.len() as int)[2]);
        }
    }
    assert(u[0] == s[0]);
    if s[0] == '/' {
        assert(u.drop_first() =~= s.drop_first().push('/'));
        lemma_split_components_trailing_slash(s.drop_first());
    } else {
        lemma_split_components_trailing_slash(s);
    }
    assert(link_components(u) == link_components(s));
}

/// A leading `./` makes no difference to a link that does not go on with `/`.
pub proof fn lemma_current_dir_prefix(s: Seq<char>, root: Seq<char>)
    requires
        s.len() == 0 || s[0] != '/',
    ensures
        normalize_spec(seq!['.', '/'] + s, root) == normalize_spec(s, root),
{
    let u = seq!['.', '/'] + s;
    assert(strip_md(u) =~= seq!['.', '/'] + strip_md(s)) by {
        if s.len() >= 3 {
            assert(u.subrange(u.len() - 3, u.len() as int) =~= s.subrange(s.len() - 3, s.len() as int));
            if s.subrange(s.len() - 3, s.len() as int) =~= seq!['.', 'm', 'd'] {
                assert(u.take(u.len() - 3) =~= seq!['.', '/'] + s.take(s.len() - 3));
            }
        } else {
            if u.len() >= 3 && u.subrange(u.len() - 3, u.len() as int) =~= seq!['.', 'm', 'd'] {
                if s.len() == 1 {
                    assert(u[1] == u.subrange(u.len() - 3, u.len() as int)[1]);
                } else {
                    assert(u[2] == u.subrange(u.len() - 3, u.len() as int)[0]);
                }
            }
        }
    }
    let t = strip_md(s);
    assert(t.len() == 0 || t[0] == s[0]);
    let v = seq!['.', '/'] + t;
    lemma_first_pos_unique(v, '/', 1);
    assert(v.take(1) =~= seq!['.']);
    assert(after_piece(v) =~= t);
    assert(split_components(v) =~= seq![ComponentView::Current] + split_components(t));
    lemma_split_components_no_root(t);
    assert(link_components(v) == seq![ComponentView::Current] + link_components(t));
    let comps = link_components(t);
    let start = trim_base(root);
    assert((seq![ComponentView::Current] + comps).drop_first() =~= comps);
    assert(apply_components(start, seq![ComponentView::Current] + comps) == apply_components(start, comps));
}

} // verus!
