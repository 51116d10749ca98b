use pulldown_cmark::{Event, LinkType, Parser, Tag};
use vstd::prelude::*;

use crate::object::{link_key_spec, KeyView, ObjectKey, WikiPage};
use crate::walker::{strip_root_spec, Corpus};

verus! {

#[verifier::external_type_specification]
#[verifier::external_body]
pub struct ExLinkType(LinkType);

/// Whether `c` is white space in the sense of `char::is_whitespace` (the Unicode
/// `White_Space` property).
pub open spec fn is_white_space(c: char) -> bool {
    ||| '\t' <= c <= '\r'
    ||| c == ' '
    ||| c == '\u{85}'
    ||| c == '\u{a0}'
    ||| c == '\u{1680}'
    ||| '\u{2000}' <= c <= '\u{200a}'
    ||| c == '\u{2028}'
    ||| c == '\u{2029}'
    ||| c == '\u{202f}'
    ||| c == '\u{205f}'
    ||| c == '\u{3000}'
}

/// Whether a word starts at position `i` of `s`.
pub open spec fn word_starts_at(s: Seq<char>, i: int) -> bool {
    !is_white_space(s[i]) && (i == 0 || is_white_space(s[i - 1]))
}

/// The number of words of `s`: maximal runs of chars that are not white space.
pub open spec fn word_count(s: Seq<char>) -> nat
    decreases s.len(),
{
    if s.len() == 0 {
        0
    } else {
        word_count(s.drop_last()) + if word_starts_at(s, s.len() - 1) {
            1nat
        } else {
            0nat
        }
    }
}

/// The code points of the Unicode `White_Space` property, the ones `char::is_whitespace`
/// accepts.
pub open spec fn unicode_white_space_code(u: u32) -> bool {
    ||| 0x9 <= u <= 0xD
    ||| u == 0x20
    ||| u == 0x85
    ||| u == 0xA0
    ||| u == 0x1680
    ||| 0x2000 <= u <= 0x200A
    ||| u == 0x2028
    ||| u == 0x2029
    ||| u == 0x202F
    ||| u == 0x205F
    ||| u == 0x3000
}

/// `is_white_space` holds of exactly the Unicode `White_Space` code points.
pub proof fn lemma_white_space_code(c: char)
    ensures
        is_white_space(c) <==> unicode_white_space_code(c as u32),
{
    assert(c as u32 == c as int);
    assert('\t' as int == 9);
    assert('\r' as int == 13);
    assert(' ' as int == 32);
    assert('\u{85}' as int == 0x85);
    assert('\u{a0}' as int == 0xA0);
    assert('\u{1680}' as int == 0x1680);
    assert('\u{2000}' as int == 0x2000);
    assert('\u{200a}' as int == 0x200A);
    assert('\u{2028}' as int == 0x2028);
    assert('\u{2029}' as int == 0x2029);
    assert('\u{202f}' as int == 0x202F);
    assert('\u{205f}' as int == 0x205F);
    assert('\u{3000}' as int == 0x3000);
}

/// A non-empty text none of whose chars is Unicode white space is one word (so `-`, `_`
/// and letters never split words), and a text all of whose chars are white space has no
/// word.
pub proof fn lemma_word_count_by_white_space(s: Seq<char>)
    ensures
        s.len() > 0 && (forall|i: int| 0 <= i < s.len() ==> !unicode_white_space_code(#[trigger] s[i] as u32))
            ==> word_count(s) == 1,
        (forall|i: int| 0 <= i < s.len() ==> unicode_white_space_code(#[trigger] s[i] as u32))
            ==> word_count(s) == 0,
    decreases s.len(),
{
    if s.len() > 0 {
        let t = s.drop_last();
        lemma_word_count_by_white_space(t);
        assert forall|i: int| 0 <= i < t.len() implies t[i] == s[i] by {}
        let c = s[s.len() - 1];
        lemma_white_space_code(c);
        if s.len() >= 2 {
            let d = s[s.len() - 2];
            assert(d == t[t.len() - 1]);
            lemma_white_space_code(d);
        }
    }
}

/// Words do not run across white space: after a text that is empty or ends in white space,
/// the words of what follows simply add up.
pub proof fn lemma_word_count_concat(x: Seq<char>, y: Seq<char>)
    requires
        x.len() == 0 || is_white_space(x.last()),
    ensures
        word_count(x + y) == word_count(x) + word_count(y),
    decreases y.len(),
{
    if y.len() == 0 {
        assert(x + y =~= x);
    } else {
        let xy = x + y;
        assert(xy.drop_last() =~= x + y.drop_last());
        lemma_word_count_concat(x, y.drop_last());
        assert(xy[xy.len() - 1] == y[y.len() - 1]);
        if y.len() >= 2 {
            assert(xy[xy.len() - 2] == y[y.len() - 2]);
        } else if x.len() > 0 {
            assert(xy[xy.len() - 2] == x.last());
        }
    }
}

/// Two texts joined by a blank have the words of both.
pub proof fn lemma_word_count_blank(a: Seq<char>, b: Seq<char>)
    ensures
        word_count(a + seq![' '] + b) == word_count(a) + word_count(b),
{
    let a1 = a + seq![' '];
    assert(a1.drop_last() =~= a);
    assert(!word_starts_at(a1, a1.len() - 1));
    assert(word_count(a1) == word_count(a));
    lemma_word_count_concat(a1, b);
}

fn is_white_space_char(c: char) -> (b: bool)
    ensures
        b == is_white_space(c),
{
    ('\t' <= c && c <= '\r') || c == ' ' || c == '\u{85}' || c == '\u{a0}' || c == '\u{1680}' || (
    '\u{2000}' <= c && c <= '\u{200a}') || c == '\u{2028}' || c == '\u{2029}' || c == '\u{202f}'
        || c == '\u{205f}' || c == '\u{3000}'
}

/// The number of words of `s`, as `s.split_whitespace().count()` counts them.
pub fn count_words(s: &str) -> (n: usize)
    ensures
        n == word_count(s@),
{
    let len = s.unicode_len();
    let mut n: usize = 0;
    let mut i: usize = 0;
    let mut prev_white = true;
    while i < len
        invariant
            len == s@.len(),
            0 <= i <= len,
            n <= i,
            n == word_count(s@.take(i as int)),
            i > 0 ==> prev_white == is_white_space(s@[i - 1]),
            i == 0 ==> prev_white,
        decreases len - i,
    {
        let c = s.get_char(i);
        let white = is_white_space_char(c);
        proof {
            let t = s@.take(i + 1);
            assert(t.drop_last() =~= s@.take(i as int));
            assert(t[i as int] == c);
            if i > 0 {
                assert(t[i - 1] == s@[i - 1]);
            }
        }
        if !white && prev_white {
            n = n + 1;
        }
        prev_white = white;
        i = i + 1;
    }
    assert(s@.take(len as int) =~= s@);
    n
}

/// A markdown event, held as plain values: the start of a link, a text, or anything else.
pub enum MdEvent {
    Link { link_type: LinkType, dest_url: String },
    Text(String),
    Other,
}

/// The abstract value of a markdown event.
pub enum MdEventView {
    Link { link_type: LinkType, dest_url: Seq<char> },
    Text(Seq<char>),
    Other,
}

impl View for MdEvent {
    type V = MdEventView;

    open spec fn view(&self) -> MdEventView {
        match self {
            MdEvent::Link { link_type, dest_url } => MdEventView::Link {
                link_type: *link_type,
                dest_url: dest_url@,
            },
            MdEvent::Text(t) => MdEventView::Text(t@),
            MdEvent::Other => MdEventView::Other,
        }
    }
}

/// The events that `pulldown_cmark::Parser::new` yields for a markdown text.
pub uninterp spec fn markdown_events(content: Seq<char>) -> Seq<MdEventView>;

/// `pulldown_cmark::Parser::new` run to its end, each event taken as a plain value.
#[verifier::external_body]
fn parse_markdown(content: &str) -> (v: Vec<MdEvent>)
    ensures
        v@.map_values(|e: MdEvent| e@) == markdown_events(content@),
{
    Parser::new(content).map(|ev| match ev {
        Event::Start(Tag::Link { link_type, dest_url, .. }) => MdEvent::Link {
            link_type,
            dest_url: dest_url.to_string(),
        },
        Event::Text(t) => MdEvent::Text(t.to_string()),
        _ => MdEvent::Other,
    }).collect()
}

/// The link that an event stands for, seen from `location` with the URL root cut off, if any.
pub open spec fn event_link(e: MdEventView, root: Option<Seq<char>>, location: Seq<char>) -> Option<
    (LinkType, KeyView),
> {
    match e {
        MdEventView::Link { link_type, dest_url } => match link_key_spec(
            strip_root_spec(root, dest_url),
            location,
        ) {
            Some(k) => Some((link_type, k)),
            None => None,
        },
        _ => None,
    }
}

/// The words an event adds to the page: those of a text.
pub open spec fn event_words(e: MdEventView) -> nat {
    match e {
        MdEventView::Text(t) => word_count(t),
        _ => 0,
    }
}

/// The words of a run of events.
pub open spec fn words_of(es: Seq<MdEventView>) -> nat
    decreases es.len(),
{
    if es.len() == 0 {
        0
    } else {
        words_of(es.drop_last()) + event_words(es.last())
    }
}

/// The words of two runs of events add up.
pub proof fn lemma_words_of_concat(a: Seq<MdEventView>, b: Seq<MdEventView>)
    ensures
        words_of(a + b) == words_of(a) + words_of(b),
    decreases b.len(),
{
    if b.len() > 0 {
        assert((a + b).drop_last() =~= a + b.drop_last());
        lemma_words_of_concat(a, b.drop_last());
    }
}

/// Counting on from the words of a prefix, modulo 2 to the 64th, gives the words of a
/// longer prefix.
pub proof fn lemma_words_of_step(es: Seq<MdEventView>, i: int, n: int, w: int)
    requires
        0 <= i,
        0 <= n,
        i + n <= es.len(),
        w == words_of(es.take(i)) as int % word_modulus(),
    ensures
        (w + words_of(es.skip(i).take(n))) % word_modulus() == words_of(es.take(i + n)) as int
            % word_modulus(),
{
    assert(es.take(i + n) =~= es.take(i) + es.skip(i).take(n));
    lemma_words_of_concat(es.take(i), es.skip(i).take(n));
    vstd::arithmetic::div_mod::lemma_add_mod_noop(
        words_of(es.take(i)) as int,
        words_of(es.skip(i).take(n)) as int,
        word_modulus(),
    );
    vstd::arithmetic::div_mod::lemma_mod_twice(words_of(es.take(i)) as int, word_modulus());
    vstd::arithmetic::div_mod::lemma_add_mod_noop(
        w,
        words_of(es.skip(i).take(n)) as int,
        word_modulus(),
    );
}

/// Position of the first event that stands for a link, or the number of events.
pub open spec fn first_link(es: Seq<MdEventView>, root: Option<Seq<char>>, location: Seq<char>) -> int
    decreases es.len(),
{
    if es.len() == 0 {
        0
    } else if event_link(es[0], root, location) is Some {
        0
    } else {
        1 + first_link(es.drop_first(), root, location)
    }
}

/// The keys of the links of a run of events, in order.
pub open spec fn page_links(es: Seq<MdEventView>, root: Option<Seq<char>>, location: Seq<char>) -> Seq<
    KeyView,
>
    decreases es.len(),
{
    if es.len() == 0 {
        Seq::empty()
    } else {
        page_links(es.drop_last(), root, location) + match event_link(es.last(), root, location) {
            Some((_, k)) => seq![k],
            None => Seq::empty(),
        }
    }
}

pub proof fn lemma_first_link(es: Seq<MdEventView>, root: Option<Seq<char>>, location: Seq<char>)
    ensures
        0 <= first_link(es, root, location) <= es.len(),
        forall|j: int|
            0 <= j < first_link(es, root, location) ==> event_link(#[trigger] es[j], root, location)
                is None,
        first_link(es, root, location) < es.len() ==> event_link(
            es[first_link(es, root, location)],
            root,
            location,
        ) is Some,
    decreases es.len(),
{
    if es.len() > 0 && event_link(es[0], root, location) is None {
        lemma_first_link(es.drop_first(), root, location);
        assert forall|j: int| 0 <= j < first_link(es, root, location) implies event_link(
            #[trigger] es[j],
            root,
            location,
        ) is None by {
            if j > 0 {
                assert(es[j] == es.drop_first()[j - 1]);
            }
        }
    }
}

/// Events without links add no keys.
pub proof fn lemma_page_links_skip(
    es: Seq<MdEventView>,
    root: Option<Seq<char>>,
    location: Seq<char>,
    a: int,
    b: int,
)
    requires
        0 <= a <= b <= es.len(),
        forall|j: int| a <= j < b ==> event_link(#[trigger] es[j], root, location) is None,
    ensures
        page_links(es.take(b), root, location) == page_links(es.take(a), root, location),
    decreases b - a,
{
    if b > a {
        assert(es.take(b).drop_last() =~= es.take(b - 1));
        assert(es.take(b).last() == es[b - 1]);
        lemma_page_links_skip(es, root, location, a, b - 1);
    }
}

/// A prefix of the events has no more links than the whole.
pub proof fn lemma_page_links_len(
    es: Seq<MdEventView>,
    root: Option<Seq<char>>,
    location: Seq<char>,
    i: int,
)
    requires
        0 <= i <= es.len(),
    ensures
        page_links(es.take(i), root, location).len() <= page_links(es, root, location).len(),
    decreases es.len(),
{
    if i == es.len() {
        assert(es.take(i) =~= es);
    } else {
        assert(es.drop_last().take(i) =~= es.take(i));
        lemma_page_links_len(es.drop_last(), root, location, i);
    }
}

/// The links of a prefix of the events are the first links of the whole.
pub proof fn lemma_page_links_prefix(
    es: Seq<MdEventView>,
    root: Option<Seq<char>>,
    location: Seq<char>,
    i: int,
    j: int,
)
    requires
        0 <= i <= es.len(),
        0 <= j < page_links(es.take(i), root, location).len(),
    ensures
        j < page_links(es, root, location).len(),
        page_links(es.take(i), root, location)[j] == page_links(es, root, location)[j],
    decreases es.len(),
{
    if i == es.len() {
        assert(es.take(i) =~= es);
    } else {
        assert(es.drop_last().take(i) =~= es.take(i));
        lemma_page_links_prefix(es.drop_last(), root, location, i, j);
    }
}

proof fn lemma_first_link_unique(
    es: Seq<MdEventView>,
    root: Option<Seq<char>>,
    location: Seq<char>,
    k: int,
)
    requires
        0 <= k <= es.len(),
        forall|j: int| 0 <= j < k ==> event_link(#[trigger] es[j], root, location) is None,
        k < es.len() ==> event_link(es[k], root, location) is Some,
    ensures
        first_link(es, root, location) == k,
    decreases es.len(),
{
    if es.len() > 0 && k > 0 {
        assert(event_link(es[0], root, location) is None);
        assert forall|j: int| 0 <= j < k - 1 implies event_link(
            #[trigger] es.drop_first()[j],
            root,
            location,
        ) is None by {
            assert(es.drop_first()[j] == es[j + 1]);
        }
        lemma_first_link_unique(es.drop_first(), root, location, k - 1);
    }
}

/// 2 to the 64th: page word counts wrap around at it.
pub open spec fn word_modulus() -> int {
    0x1_0000_0000_0000_0000
}

/// Walks the events of a markdown page, handing out the links it holds and counting its words.
pub struct LinkWalker<'a> {
    corpus: &'a Corpus,
    location: &'a str,
    page: WikiPage,
    events: Vec<MdEvent>,
    pos: usize,
}

impl<'a> LinkWalker<'a> {
    /// All events of the page.
    pub closed spec fn events_view(self) -> Seq<MdEventView> {
        self.events@.map_values(|e: MdEvent| e@)
    }

    /// The number of events handed over so far.
    pub closed spec fn position(self) -> int {
        self.pos as int
    }

    /// What is known of the page so far.
    pub closed spec fn page_view(self) -> WikiPage {
        self.page
    }

    /// The URL root that links lose.
    pub closed spec fn root_view(self) -> Option<Seq<char>> {
        self.corpus.url_root_view()
    }

    /// The location of the page, that links are seen from.
    pub closed spec fn location_view(self) -> Seq<char> {
        self.location@
    }

    pub closed spec fn wf(self) -> bool {
        self.pos <= self.events@.len()
    }

    /// The next link of the page with its key, counting the words of the texts passed on
    /// the way (the count wraps around at 2 to the 64th); `None` at the end of the page.
    pub fn next(&mut self) -> (r: Option<(LinkType, ObjectKey)>)
        requires
            old(self).wf(),
        ensures
            final(self).wf(),
            final(self).events_view() == old(self).events_view(),
            final(self).root_view() == old(self).root_view(),
            final(self).location_view() == old(self).location_view(),
            ({
                let rest = old(self).events_view().skip(old(self).position());
                let k = first_link(rest, old(self).root_view(), old(self).location_view());
                if k < rest.len() {
                    &&& r matches Some((lt, key)) && event_link(
                        rest[k],
                        old(self).root_view(),
                        old(self).location_view(),
                    ) == Some((lt, key@))
                    &&& final(self).position() == old(self).position() + k + 1
                    &&& final(self).page_view().words == (old(self).page_view().words + words_of(
                        rest.take(k + 1),
                    )) % word_modulus()
                } else {
                    &&& r is None
                    &&& final(self).position() == old(self).events_view().len()
                    &&& final(self).page_view().words == (old(self).page_view().words + words_of(
                        rest,
                    )) % word_modulus()
                }
            }),
    {
        let ghost all = self.events_view();
        let ghost start = self.pos as int;
        let ghost w0 = self.page.words;
        let ghost root = self.root_view();
        let ghost loc = self.location_view();
        proof {
            assert(all.skip(start).take(0) =~= Seq::<MdEventView>::empty());
        }
        while self.pos < self.events.len()
            invariant
                self.events_view() == all,
                self.root_view() == root,
                self.location_view() == loc,
                all.len() == self.events@.len(),
                start <= self.pos <= all.len(),
                forall|j: int|
                    start <= j < self.pos ==> event_link(#[trigger] all[j], root, loc) is None,
                self.page.words == (w0 + words_of(all.skip(start).take(self.pos - start)))
                    % word_modulus(),
                old(self).events_view() == all,
                old(self).position() == start,
                old(self).page_view().words == w0,
                old(self).root_view() == root,
                old(self).location_view() == loc,
            decreases all.len() - self.pos,
        {
            let i = self.pos;
            let ghost rest = all.skip(start);
            let ghost before_words = self.page.words;
            proof {
                assert(rest.take(i + 1 - start).drop_last() =~= rest.take(i - start));
                assert(rest.take(i + 1 - start).last() == all[i as int]);
                assert(all[i as int] == self.events@[i as int]@);
            }
            self.pos = self.pos + 1;
            match &self.events[i] {
                MdEvent::Link { link_type, dest_url } => {
                    let d = self.corpus.strip_url_root(dest_url.as_str());
                    match ObjectKey::from_link_str(d, self.location) {
                        Some(k) => {
                            proof {
                                assert forall|j: int|
                                    0 <= j < i - start implies event_link(
                                    #[trigger] rest[j],
                                    root,
                                    loc,
                                ) is None by {
                                    assert(rest[j] == all[start + j]);
                                }
                                lemma_first_link_unique(rest, root, loc, i - start);
                            }
                            return Some((*link_type, k));
                        },
                        None => {},
                    }
                },
                MdEvent::Text(t) => {
                    let n = count_words(t.as_str());
                    self.page.words = self.page.words.wrapping_add(n as u64);
                    proof {
                        let prior = words_of(rest.take(i - start));
                        vstd::arithmetic::div_mod::lemma_add_mod_noop(
                            w0 + prior,
                            n as int,
                            word_modulus(),
                        );
                        vstd::arithmetic::div_mod::lemma_small_mod(n as nat, word_modulus() as nat);
                        vstd::arithmetic::div_mod::lemma_mod_self_0(word_modulus());
                        vstd::arithmetic::div_mod::lemma_add_mod_noop(
                            before_words + n,
                            0 - word_modulus(),
                            word_modulus(),
                        );
                        vstd::arithmetic::div_mod::lemma_small_mod(
                            self.page.words as nat,
                            word_modulus() as nat,
                        );
                        vstd::arithmetic::div_mod::lemma_mod_twice(w0 + prior, word_modulus());
                    }
                },
                MdEvent::Other => {},
            }
        }
        proof {
            assert forall|j: int| 0 <= j < all.len() - start implies event_link(
                #[trigger] all.skip(start)[j],
                root,
                loc,
            ) is None by {
                assert(all.skip(start)[j] == all[start + j]);
            }
            lemma_first_link_unique(all.skip(start), root, loc, all.len() - start);
            assert(all.skip(start).take(all.len() - start) =~= all.skip(start));
        }
        None
    }
}

/// Starts a walk over the markdown `content` of the page at `location`.
pub fn walk<'a>(corpus: &'a Corpus, location: &'a str, content: &'a str) -> (w: LinkWalker<'a>)
    ensures
        w.wf(),
        w.events_view() == markdown_events(content@),
        w.position() == 0,
        w.page_view() == (WikiPage { words: 0 }),
        w.root_view() == corpus.url_root_view(),
        w.location_view() == location@,
{
    LinkWalker {
        corpus,
        location,
        page: WikiPage::default(),
        events: parse_markdown(content),
        pos: 0,
    }
}

impl<'a> From<LinkWalker<'a>> for WikiPage {
    fn from(value: LinkWalker<'a>) -> (page: WikiPage) {
        value.page
    }
}

impl<'a> vstd::std_specs::convert::FromSpecImpl<LinkWalker<'a>> for WikiPage {
    open spec fn obeys_from_spec() -> bool {
        true
    }

    open spec fn from_spec(value: LinkWalker<'a>) -> WikiPage {
        value.page_view()
    }
}

} // verus!
