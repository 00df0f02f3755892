//! Networking: the decisions around getting a page and its stylesheets.
//!
//! The fetching itself (HTTP with `ureq`, reading files) is done by the front
//! end; this module decides what is fetched. It tells URLs from file paths,
//! resolves relative links against the page's URL, finds the page's
//! `<link rel="stylesheet">`s, and gathers the CSS of the fetched sheets in
//! document order, skipping the ones whose fetch failed.
use vstd::prelude::*;
use vstd::string::StringExecFns;
use crate::chars::{chars_of, chars_at, has_at, lower_chars, lower_seq, string_of, string_of_range};
use crate::dom::{
    ClassList, DomElement, DomKind, DomNode, Node, NodeType, attr_lookup, words, nodes_view,
    lemma_nodes_view,
};

verus! {

/// A loaded page: its HTML text, and the URL it came from (the base for
/// resolving relative links); `None` for local files.
pub struct Resource {
    pub body: String,
    pub base_url: Option<String>,
}

/// Whether `target` names an `http://` or `https://` URL.
pub open spec fn is_http_url(target: Seq<char>) -> bool {
    has_at(target, 0, "http://"@) || has_at(target, 0, "https://"@)
}

/// Whether `target` names an `http://` or `https://` URL.
pub fn is_http(target: &str) -> (r: bool)
    ensures
        r == is_http_url(target@),
{
    let t = chars_of(target);
    chars_at(&t, 0, &chars_of("http://")) || chars_at(&t, 0, &chars_of("https://"))
}

/// The page loaded from `target` whose text is `body`: a page fetched over
/// HTTP(S) keeps its URL as the base for its links; a local file has none.
pub fn resource_from(target: &str, body: String) -> (r: Resource)
    ensures
        r.body@ == body@,
        r.base_url is Some <==> is_http_url(target@),
        r.base_url matches Some(u) ==> u@ == target@,
{
    if is_http(target) {
        Resource { body, base_url: Some(String::from_str(target)) }
    } else {
        Resource { body, base_url: None }
    }
}

/// The file path a non-URL target names: the target without a `file://` prefix.
pub open spec fn file_path(target: Seq<char>) -> Seq<char> {
    if has_at(target, 0, "file://"@) {
        target.skip(7)
    } else {
        target
    }
}

/// The file path a non-URL target names: the target without a `file://` prefix.
pub fn local_path(target: &str) -> (r: String)
    ensures
        r@ == file_path(target@),
{
    let t = chars_of(target);
    proof {
        reveal_strlit("file://");
    }
    if chars_at(&t, 0, &chars_of("file://")) {
        string_of_range(&t, 7, t.len())
    } else {
        string_of(&t)
    }
}

/// The text of the URL that `href` resolves to against the URL `base`, as
/// `url::Url::parse` and `Url::join` compute it; `None` when either fails.
pub uninterp spec fn resolved_url(base: Seq<char>, href: Seq<char>) -> Option<Seq<char>>;

/// Resolve a possibly-relative `href` against a base URL.
///
/// Calls `url::Url::parse` on `base`, then `Url::join` with `href`, and returns
/// the joined URL's text. The contract claims only that the result is a
/// function of the two texts ([`resolved_url`]); what URL syntax does is not
/// stated.
#[verifier::external_body]
pub fn resolve(base: &str, href: &str) -> (r: Option<String>)
    ensures
        match r {
            Some(u) => resolved_url(base@, href@) == Some(u@),
            None => resolved_url(base@, href@) is None,
        },
{
    match url::Url::parse(base) {
        Ok(b) => match b.join(href) {
            Ok(u) => Some(String::from(u)),
            Err(_) => None,
        },
        Err(_) => None,
    }
}

// --- Linked stylesheets -------------------------------------------------------------

/// Whether an element is a `<link>` whose `rel` lists `stylesheet` (in any
/// ASCII case).
pub open spec fn is_stylesheet_link(e: DomElement) -> bool {
    &&& e.tag_name == "link"@
    &&& match attr_lookup(e.attributes, "rel"@) {
        Some(rel) => words(lower_seq(rel)).contains("stylesheet"@),
        None => false,
    }
}

/// The `href`s of the stylesheet links in `n` and its descendants, in
/// document order.
pub open spec fn hrefs_of(n: DomNode) -> Seq<Seq<char>>
    decreases n,
{
    (match n.kind {
        DomKind::Element(e) => if is_stylesheet_link(e) && attr_lookup(e.attributes, "href"@) is Some {
            seq![attr_lookup(e.attributes, "href"@).unwrap()]
        } else {
            Seq::empty()
        },
        _ => Seq::empty(),
    }) + hrefs_seq(n.children)
}

pub open spec fn hrefs_seq(s: Seq<DomNode>) -> Seq<Seq<char>>
    decreases s,
{
    if s.len() == 0 {
        Seq::empty()
    } else {
        proof {
            vstd::seq::axiom_seq_subrange_decreases(s, 0, s.len() - 1);
            vstd::seq::axiom_seq_index_decreases(s, s.len() - 1);
        }
        hrefs_seq(s.drop_last()) + hrefs_of(s.last())
    }
}

/// Whether `rel` lists `stylesheet`.
fn rel_is_stylesheet(rel: &str) -> (r: bool)
    ensures
        r == words(lower_seq(rel@)).contains("stylesheet"@),
{
    let lowered = string_of(&lower_chars(&chars_of(rel)));
    let list = ClassList::from_attribute(lowered.as_str());
    let r = list.contains("stylesheet");
    assert(list@.to_set().contains("stylesheet"@) == list@.contains("stylesheet"@));
    assert(words(lower_seq(rel@)).to_set().contains("stylesheet"@) == words(lower_seq(rel@)).contains(
        "stylesheet"@,
    ));
    r
}

/// Append the `href` of every `<link rel="stylesheet">` under `node` to `out`.
pub fn collect_stylesheet_hrefs(node: &Node, out: &mut Vec<String>)
    ensures
        final(out)@.map_values(|s: String| s@) == old(out)@.map_values(|s: String| s@)
            + hrefs_of(node@),
    decreases node,
{
    proof {
        lemma_nodes_view(node.children@);
    }
    let ghost start = out@.map_values(|s: String| s@);
    if let Some(el) = node.element() {
        if el.tag_name == String::from_str("link") {
            let is_stylesheet = match el.get_attribute("rel") {
                Some(rel) => rel_is_stylesheet(rel),
                None => false,
            };
            if is_stylesheet {
                if let Some(href) = el.get_attribute("href") {
                    let ghost before = out@;
                    out.push(String::from_str(href));
                    assert(out@.map_values(|s: String| s@) =~= before.map_values(|s: String| s@).push(
                        href@,
                    ));
                }
            }
        }
    }
    let ghost mid = out@.map_values(|s: String| s@);
    assert(mid == start + (match node@.kind {
        DomKind::Element(e) => if is_stylesheet_link(e) && attr_lookup(e.attributes, "href"@) is Some {
            seq![attr_lookup(e.attributes, "href"@).unwrap()]
        } else {
            Seq::empty()
        },
        _ => Seq::empty(),
    }));
    let ghost cs = nodes_view(node.children@);
    let mut i: usize = 0;
    while i < node.children.len()
        invariant
            i <= node.children.len(),
            cs == nodes_view(node.children@),
            cs.len() == node.children@.len(),
            forall|j: int| 0 <= j < cs.len() ==> #[trigger] cs[j] == node.children@[j]@,
            out@.map_values(|s: String| s@) == mid + hrefs_seq(cs.take(i as int)),
        decreases node.children.len() - i,
    {
        assert(cs.take(i + 1).drop_last() == cs.take(i as int));
        assert(cs.take(i + 1).last() == cs[i as int]);
        collect_stylesheet_hrefs(&node.children[i], out);
        i += 1;
    }
    assert(cs.take(i as int) == cs);
}

/// The hrefs that resolve against `base`, resolved, in order.
pub open spec fn resolved_all(base: Seq<char>, hs: Seq<Seq<char>>) -> Seq<Seq<char>>
    decreases hs.len(),
{
    if hs.len() == 0 {
        Seq::empty()
    } else {
        let rest = resolved_all(base, hs.drop_last());
        match resolved_url(base, hs.last()) {
            Some(u) => rest.push(u),
            None => rest,
        }
    }
}

/// The URLs of a page's linked stylesheets, in document order.
pub open spec fn linked_urls(dom: DomNode, base: Seq<char>) -> Seq<Seq<char>> {
    resolved_all(base, hrefs_of(dom))
}

/// The CSS gathered from fetched stylesheets: each fetched text followed by a
/// newline; failed fetches (`None`) add nothing.
pub open spec fn gathered_css(bodies: Seq<Option<Seq<char>>>) -> Seq<char>
    decreases bodies.len(),
{
    if bodies.len() == 0 {
        Seq::empty()
    } else {
        gathered_css(bodies.drop_last()) + match bodies.last() {
            Some(b) => b.push('\n'),
            None => Seq::empty(),
        }
    }
}

/// Following a page's `<link rel="stylesheet">`s: the URLs to fetch, in
/// document order, and the CSS of the sheets fetched so far. The caller asks
/// for the next URL, fetches it, and hands back its text (or `None` when the
/// fetch failed); once no URL is left, [`LinkedCss::css`] is the page's linked
/// CSS.
pub struct LinkedCss {
    urls: Vec<String>,
    next: usize,
    css: String,
    received: Ghost<Seq<Option<Seq<char>>>>,
}

impl LinkedCss {
    /// The URLs to fetch.
    pub closed spec fn urls(self) -> Seq<Seq<char>> {
        self.urls@.map_values(|u: String| u@)
    }

    /// The fetch results handed back so far, one per URL, in order.
    pub closed spec fn received(self) -> Seq<Option<Seq<char>>> {
        self.received@
    }

    #[verifier::type_invariant]
    closed spec fn inv(self) -> bool {
        &&& self.received@.len() <= self.urls@.len()
        &&& self.next == self.received@.len()
        &&& self.css@ == gathered_css(self.received@)
    }

    /// Start following the stylesheet links of `dom`, a page loaded from
    /// `base_url`.
    pub fn new(dom: &Node, base_url: &str) -> (r: LinkedCss)
        ensures
            r.urls() == linked_urls(dom@, base_url@),
            r.received() == Seq::<Option<Seq<char>>>::empty(),
    {
        let mut hrefs: Vec<String> = Vec::new();
        collect_stylesheet_hrefs(dom, &mut hrefs);
        assert(hrefs@.map_values(|s: String| s@) =~= hrefs_of(dom@));
        let ghost hv = hrefs_of(dom@);
        let mut urls: Vec<String> = Vec::new();
        let mut i: usize = 0;
        while i < hrefs.len()
            invariant
                i <= hrefs@.len(),
                hv == hrefs@.map_values(|s: String| s@),
                urls@.map_values(|u: String| u@) == resolved_all(base_url@, hv.take(i as int)),
            decreases hrefs.len() - i,
        {
            assert(hv.take(i + 1).drop_last() == hv.take(i as int));
            assert(hv.take(i + 1).last() == hrefs@[i as int]@);
            if let Some(abs) = resolve(base_url, hrefs[i].as_str()) {
                let ghost before = urls@;
                urls.push(abs);
                assert(urls@.map_values(|u: String| u@) =~= before.map_values(|u: String| u@).push(
                    abs@,
                ));
            }
            i += 1;
        }
        assert(hv.take(i as int) == hv);
        LinkedCss { urls, next: 0, css: String::new(), received: Ghost(Seq::empty()) }
    }

    /// The next URL to fetch, if any is left.
    pub fn next_url(&self) -> (r: Option<&str>)
        ensures
            match r {
                Some(u) => self.received().len() < self.urls().len() && u@ == self.urls()[self.received().len() as int],
                None => self.received().len() == self.urls().len(),
            },
    {
        proof {
            use_type_invariant(self);
        }
        if self.next < self.urls.len() {
            Some(self.urls[self.next].as_str())
        } else {
            None
        }
    }

    /// Hand back the result of fetching the next URL: its text, or `None` when
    /// the fetch failed. Nothing changes once every URL has its result.
    pub fn receive(&mut self, body: Option<&str>)
        ensures
            final(self).urls() == old(self).urls(),
            old(self).received().len() < old(self).urls().len() ==> final(self).received()
                == old(self).received().push(
                match body {
                    Some(b) => Some(b@),
                    None => None,
                },
            ),
            old(self).received().len() == old(self).urls().len() ==> final(self).received()
                == old(self).received(),
    {
        proof {
            use_type_invariant(&*self);
        }
        let mut taken = LinkedCss {
            urls: Vec::new(),
            next: 0,
            css: String::new(),
            received: Ghost(Seq::empty()),
        };
        core::mem::swap(self, &mut taken);
        let LinkedCss { urls, next, css: mut css, received } = taken;
        if next < urls.len() {
            let ghost item = match body {
                Some(b) => Some(b@),
                None => None,
            };
            let ghost more = received@.push(item);
            if let Some(b) = body {
                css.append(b);
                css.push('\n');
            }
            assert(more.drop_last() =~= received@);
            *self = LinkedCss { urls, next: next + 1, css, received: Ghost(more) };
        } else {
            *self = LinkedCss { urls, next, css, received };
        }
    }

    /// The CSS gathered so far.
    pub fn css(&self) -> (r: &str)
        ensures
            r@ == gathered_css(self.received()),
    {
        proof {
            use_type_invariant(self);
        }
        self.css.as_str()
    }
}

// --- Laws --------------------------------------------------------------------------------

proof fn lemma_gathered_concat(a: Seq<Option<Seq<char>>>, b: Seq<Option<Seq<char>>>)
    ensures
        gathered_css(a + b) == gathered_css(a) + gathered_css(b),
    decreases b.len(),
{
    if b.len() == 0 {
        assert(a + b == a);
        assert(gathered_css(a) + Seq::<char>::empty() == gathered_css(a));
    } else {
        lemma_gathered_concat(a, b.drop_last());
        assert((a + b).drop_last() == a + b.drop_last());
        assert((a + b).last() == b.last());
    }
}

/// A stylesheet whose fetch failed adds nothing to the page's CSS, so one
/// broken link does not sink the others.
pub proof fn failed_fetch_adds_nothing(a: Seq<Option<Seq<char>>>, b: Seq<Option<Seq<char>>>)
    ensures
        gathered_css(a + seq![None] + b) == gathered_css(a + b),
{
    lemma_gathered_concat(a + seq![None], b);
    lemma_gathered_concat(a, seq![None]);
    lemma_gathered_concat(a, b);
    let one = seq![None::<Seq<char>>];
    assert(one.drop_last() =~= Seq::<Option<Seq<char>>>::empty());
    assert(gathered_css(one.drop_last()) == Seq::<char>::empty());
    assert(one.last() is None);
    assert(gathered_css(one) =~= Seq::<char>::empty());
    assert(gathered_css(a) + Seq::<char>::empty() == gathered_css(a));
}

/// The texts of the fetches that succeeded, in order.
pub open spec fn successes(bodies: Seq<Option<Seq<char>>>) -> Seq<Seq<char>>
    decreases bodies.len(),
{
    if bodies.len() == 0 {
        Seq::empty()
    } else {
        let rest = successes(bodies.drop_last());
        match bodies.last() {
            Some(b) => rest.push(b),
            None => rest,
        }
    }
}

/// Texts joined one after another, each followed by a newline.
pub open spec fn joined_lines(ts: Seq<Seq<char>>) -> Seq<char>
    decreases ts.len(),
{
    if ts.len() == 0 {
        Seq::empty()
    } else {
        joined_lines(ts.drop_last()) + ts.last().push('\n')
    }
}

/// Once every linked stylesheet has its fetch result, the page's linked CSS is
/// the text of each sheet whose fetch succeeded, followed by a newline, in
/// document order; a failed fetch contributes nothing and stops nothing.
pub proof fn linked_css_is_successful_sheets_in_order(bodies: Seq<Option<Seq<char>>>)
    ensures
        gathered_css(bodies) == joined_lines(successes(bodies)),
        successes(bodies).len() <= bodies.len(),
    decreases bodies.len(),
{
    if bodies.len() > 0 {
        linked_css_is_successful_sheets_in_order(bodies.drop_last());
        match bodies.last() {
            Some(b) => {
                let rest = successes(bodies.drop_last());
                assert(rest.push(b).drop_last() =~= rest);
            },
            None => {
                assert(joined_lines(successes(bodies)) + Seq::<char>::empty() == joined_lines(successes(bodies)));
            },
        }
    }
}

} // verus!
