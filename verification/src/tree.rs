use vstd::prelude::*;

use crate::keyword::Keywords;
use crate::ngram::is_tokenization;
use crate::select::Candidate;
use crate::select::cand_of_window;
use crate::select::fresh_candidate;
use crate::select::generate_candidates;
use crate::select::in_strs;
use crate::select::select_candidates;
use crate::select::win_phrase;
use crate::select::windows_covered;

verus! {

/// An abstract document tree. Block structure that the linker descends
/// into is a `Container`; a `Paragraph` is the one block kind whose direct
/// text leaves are rewritten; everything whose content must never be
/// rewritten (block quotes, lists, code blocks, raw HTML, tables, thematic
/// breaks, emphasis spans, existing links, images) is `Opaque`, identified
/// by a number that refers to the caller's own record of the node.
#[derive(Debug)]
pub enum Node {
    Container(Vec<Node>),
    Paragraph(Vec<Node>),
    Opaque(u64),
    Text(String),
    Link(String, String),
}

/// The mathematical shape of a `Node`: the same tree over character
/// sequences.
pub enum NodeView {
    Container(Seq<NodeView>),
    Paragraph(Seq<NodeView>),
    Opaque(u64),
    Text(Seq<char>),
    Link(Seq<char>, Seq<char>),
}

impl Node {
    /// The mathematical value of the tree.
    pub open spec fn view(self) -> NodeView
        decreases self,
    {
        match self {
            Node::Container(ch) => NodeView::Container(
                Seq::new(
                    ch@.len(),
                    |i: int|
                        if 0 <= i < ch@.len() {
                            ch@[i].view()
                        } else {
                            NodeView::Opaque(0)
                        },
                ),
            ),
            Node::Paragraph(ch) => NodeView::Paragraph(
                Seq::new(
                    ch@.len(),
                    |i: int|
                        if 0 <= i < ch@.len() {
                            ch@[i].view()
                        } else {
                            NodeView::Opaque(0)
                        },
                ),
            ),
            Node::Opaque(id) => NodeView::Opaque(id),
            Node::Text(t) => NodeView::Text(t@),
            Node::Link(url, t) => NodeView::Link(url@, t@),
        }
    }
}

/// The mathematical values of a node list.
pub open spec fn views_of(ns: Seq<Node>) -> Seq<NodeView> {
    Seq::new(
        ns.len(),
        |i: int|
            if 0 <= i < ns.len() {
                ns[i].view()
            } else {
                NodeView::Opaque(0)
            },
    )
}

/// All the visible text of an inline node: a text leaf's characters, or a
/// link's anchor text. An opaque node contributes nothing.
pub open spec fn node_text(n: NodeView) -> Seq<char> {
    match n {
        NodeView::Text(t) => t,
        NodeView::Link(_url, t) => t,
        _ => Seq::empty(),
    }
}

/// The visible text of an inline node list, in order.
pub open spec fn nodes_text(ns: Seq<NodeView>) -> Seq<char>
    decreases ns.len(),
{
    if ns.len() == 0 {
        Seq::empty()
    } else {
        node_text(ns[0]) + nodes_text(ns.drop_first())
    }
}

/// The text of the non-link segments of an inline node list, in order.
pub open spec fn nodes_plain_text(ns: Seq<NodeView>) -> Seq<char>
    decreases ns.len(),
{
    if ns.len() == 0 {
        Seq::empty()
    } else {
        (match ns[0] {
            NodeView::Text(t) => t,
            _ => Seq::empty(),
        }) + nodes_plain_text(ns.drop_first())
    }
}

/// The selections are within the text, at least one character long, sorted
/// by start, non-overlapping, and start at or after the cursor.
pub open spec fn wf_links(
    text: Seq<char>,
    links: Seq<(usize, usize, String)>,
    cursor: int,
) -> bool {
    &&& 0 <= cursor <= text.len()
    &&& forall|i: int|
        0 <= i < links.len() ==> (#[trigger] links[i]).1 >= 1 && links[i].0 + links[i].1
            <= text.len()
    &&& forall|i: int|
        0 <= i < links.len() - 1 ==> (#[trigger] links[i]).0 + links[i].1 <= links[i + 1].0
    &&& links.len() > 0 ==> cursor <= links[0].0
}

/// The node list that splicing the selections into the text produces, from
/// the cursor on: plain text up to each selected span, a link carrying the
/// span's text, and the plain text after the last span.
pub open spec fn splice_spec(
    text: Seq<char>,
    links: Seq<(usize, usize, String)>,
    cursor: int,
) -> Seq<NodeView>
    decreases links.len(),
{
    if links.len() == 0 {
        if cursor < text.len() {
            seq![NodeView::Text(text.subrange(cursor, text.len() as int))]
        } else {
            Seq::empty()
        }
    } else {
        let l = links[0];
        let pre: Seq<NodeView> = if cursor < l.0 {
            seq![NodeView::Text(text.subrange(cursor, l.0 as int))]
        } else {
            Seq::empty()
        };
        pre + seq![NodeView::Link(l.2@, text.subrange(l.0 as int, l.0 + l.1))] + splice_spec(
            text,
            links.drop_first(),
            l.0 + l.1,
        )
    }
}

/// The text with the selected spans removed, from the cursor on.
pub open spec fn remove_spans(
    text: Seq<char>,
    links: Seq<(usize, usize, String)>,
    cursor: int,
) -> Seq<char>
    decreases links.len(),
{
    if links.len() == 0 {
        if cursor <= text.len() {
            text.subrange(cursor, text.len() as int)
        } else {
            Seq::empty()
        }
    } else {
        let l = links[0];
        (if cursor <= l.0 && l.0 <= text.len() {
            text.subrange(cursor, l.0 as int)
        } else {
            Seq::empty()
        }) + remove_spans(text, links.drop_first(), l.0 + l.1)
    }
}

/// Splicing preserves every character: the visible text of the spliced
/// nodes is the original text, and the non-link segments are exactly the
/// text with the selected spans removed.
pub proof fn lemma_splice_preserves_text(
    text: Seq<char>,
    links: Seq<(usize, usize, String)>,
    cursor: int,
)
    requires
        wf_links(text, links, cursor),
    ensures
        nodes_text(splice_spec(text, links, cursor)) == text.subrange(cursor, text.len() as int),
        nodes_plain_text(splice_spec(text, links, cursor)) == remove_spans(text, links, cursor),
    decreases links.len(),
{
    if links.len() == 0 {
        if cursor < text.len() {
            let ns = splice_spec(text, links, cursor);
            let piece = text.subrange(cursor, text.len() as int);
            assert(ns == seq![NodeView::Text(piece)]);
            assert(ns[0] == NodeView::Text(piece));
            assert(ns.drop_first() =~= Seq::<NodeView>::empty());
            assert(nodes_text(ns.drop_first()) == Seq::<char>::empty());
            assert(nodes_text(ns) == node_text(ns[0]) + nodes_text(ns.drop_first()));
            assert(node_text(ns[0]) == piece);
            assert(nodes_text(ns) =~= piece);
            assert(nodes_plain_text(ns.drop_first()) == Seq::<char>::empty());
            assert(nodes_plain_text(ns) =~= piece);
        } else {
            assert(text.subrange(cursor, text.len() as int) =~= Seq::<char>::empty());
        }
    } else {
        let l = links[0];
        let rest = links.drop_first();
        assert(forall|i: int|
            0 <= i < rest.len() ==> rest[i] == (#[trigger] links[i + 1]));
        assert(wf_links(text, rest, l.0 + l.1));
        lemma_splice_preserves_text(text, rest, l.0 + l.1);
        let tail = splice_spec(text, rest, l.0 + l.1);
        let link_node = NodeView::Link(l.2@, text.subrange(l.0 as int, l.0 + l.1));
        let mid = seq![link_node] + tail;
        assert(mid[0] == link_node);
        assert(mid.drop_first() =~= tail);
        assert(nodes_text(mid) == node_text(link_node) + nodes_text(tail));
        assert(nodes_plain_text(mid) == Seq::<char>::empty() + nodes_plain_text(tail));
        if cursor < l.0 {
            let pre = NodeView::Text(text.subrange(cursor, l.0 as int));
            let ns = seq![pre] + seq![link_node] + tail;
            assert(splice_spec(text, links, cursor) =~= ns);
            assert(ns[0] == pre);
            assert(ns.drop_first() =~= mid);
            assert(nodes_text(ns) == node_text(pre) + nodes_text(mid));
            assert(nodes_text(ns) =~= text.subrange(cursor, text.len() as int));
            assert(nodes_plain_text(ns) == text.subrange(cursor, l.0 as int) + nodes_plain_text(
                mid,
            ));
            assert(nodes_plain_text(ns) =~= remove_spans(text, links, cursor));
        } else {
            let ns = mid;
            assert(splice_spec(text, links, cursor) =~= ns);
            assert(nodes_text(ns) =~= text.subrange(cursor, text.len() as int));
            assert(text.subrange(cursor, l.0 as int) =~= Seq::<char>::empty());
            assert(nodes_plain_text(ns) =~= remove_spans(text, links, cursor));
        }
    }
}

/// Splice the selections into the text: the spliced node list replaces the
/// single text leaf that held the text.
pub fn splice_text(text: &str, links: &Vec<(usize, usize, String)>) -> (r: Vec<Node>)
    requires
        wf_links(text@, links@, 0),
    ensures
        views_of(r@) == splice_spec(text@, links@, 0),
{
    let n = text.unicode_len();
    let mut out: Vec<Node> = Vec::new();
    let mut cursor: usize = 0;
    let mut k: usize = 0;
    proof {
        assert(links@.skip(0) =~= links@);
        assert(views_of(out@) =~= Seq::<NodeView>::empty());
        assert(views_of(out@) + splice_spec(text@, links@, 0) =~= splice_spec(text@, links@, 0));
    }
    while k < links.len()
        invariant
            0 <= k <= links@.len(),
            n == text@.len(),
            wf_links(text@, links@, 0),
            k < links@.len() ==> cursor <= links@[k as int].0,
            k == links@.len() && links@.len() > 0 ==> cursor == links@[k - 1].0 + links@[k - 1].1,
            k == links@.len() && links@.len() == 0 ==> cursor == 0,
            cursor <= n,
            views_of(out@) + splice_spec(text@, links@.skip(k as int), cursor as int)
                =~= splice_spec(text@, links@, 0),
        decreases links@.len() - k,
    {
        let ghost pre_out = out@;
        let ghost seg = links@.skip(k as int);
        let (start, length, url) = (links[k].0, links[k].1, &links[k].2);
        if cursor < start {
            let t = text.substring_char(cursor, start);
            out.push(Node::Text(t.to_owned()));
        }
        let anchor = text.substring_char(start, start + length);
        out.push(Node::Link(url.clone(), anchor.to_owned()));
        proof {
            assert(seg[0] == links@[k as int]);
            assert(seg.drop_first() =~= links@.skip(k + 1));
            assert forall|i: int| 0 <= i < views_of(out@).len() implies views_of(out@)[i]
                == (views_of(pre_out) + splice_spec(text@, seg, cursor as int).take(
                views_of(out@).len() - pre_out.len(),
            ))[i] by {
                if i < pre_out.len() {
                } else {
                    assert(views_of(out@)[i] == out@[i].view());
                }
            }
            assert(views_of(out@) =~= views_of(pre_out) + splice_spec(
                text@,
                seg,
                cursor as int,
            ).take(views_of(out@).len() - pre_out.len()));
            assert(views_of(out@) + splice_spec(text@, links@.skip(k + 1), (start + length) as int)
                =~= splice_spec(text@, links@, 0));
        }
        cursor = start + length;
        k = k + 1;
    }
    proof {
        assert(links@.skip(k as int) =~= Seq::<(usize, usize, String)>::empty());
    }
    if cursor < n {
        let ghost pre_out = out@;
        let t = text.substring_char(cursor, n);
        out.push(Node::Text(t.to_owned()));
        proof {
            assert(views_of(out@) =~= views_of(pre_out) + seq![
                NodeView::Text(text@.subrange(cursor as int, text@.len() as int)),
            ]);
            assert(views_of(out@) =~= splice_spec(text@, links@, 0));
        }
    } else {
        proof {
            assert(splice_spec(text@, links@.skip(k as int), cursor as int) =~= Seq::<
                NodeView,
            >::empty());
            assert(views_of(out@) =~= splice_spec(text@, links@, 0));
        }
    }
    out
}


/// Splicing depends only on the spans and the targets' characters.
pub proof fn lemma_splice_same_views(
    text: Seq<char>,
    a: Seq<(usize, usize, String)>,
    b: Seq<(usize, usize, String)>,
    cursor: int,
)
    requires
        a.len() == b.len(),
        forall|i: int|
            0 <= i < a.len() ==> (#[trigger] a[i]).0 == b[i].0 && a[i].1 == b[i].1 && a[i].2@
                == b[i].2@,
    ensures
        splice_spec(text, a, cursor) == splice_spec(text, b, cursor),
    decreases a.len(),
{
    if a.len() > 0 {
        assert(forall|i: int|
            0 <= i < a.drop_first().len() ==> a.drop_first()[i] == (#[trigger] a[i + 1]));
        assert(forall|i: int|
            0 <= i < b.drop_first().len() ==> b.drop_first()[i] == (#[trigger] b[i + 1]));
        lemma_splice_same_views(text, a.drop_first(), b.drop_first(), a[0].0 + a[0].1);
        assert(a[0].0 == b[0].0 && a[0].1 == b[0].1 && a[0].2@ == b[0].2@);
        assert(splice_spec(text, a, cursor) =~= splice_spec(text, b, cursor));
    }
}

/// The spans and targets of a selection, in order.
pub open spec fn sel_tuples(sel: Seq<Candidate>) -> Seq<(usize, usize, String)> {
    Seq::new(sel.len(), |i: int| (sel[i].start, sel[i].length, sel[i].url))
}

/// Some window of the leaf is owed a link: its normalized phrase is
/// declared by another document, the phrase is new to the document state,
/// and so is every non-self owner, so whichever target the random
/// tie-break draws is new as well.
pub open spec fn fresh_window_exists(
    keywords: Keywords,
    toks: Seq<(usize, String)>,
    slug: Seq<char>,
    ak: Seq<String>,
    au: Seq<String>,
) -> bool {
    exists|n: int, w: int|
        #![auto]
        {
            &&& 2 <= n <= 4
            &&& 0 <= w && w + n <= toks.len()
            &&& !in_strs(ak, win_phrase(toks, w, n))
            &&& (exists|s: Seq<char>| keywords.owns(win_phrase(toks, w, n), s) && s != slug)
            &&& (forall|s: Seq<char>|
                keywords.owns(win_phrase(toks, w, n), s) && s != slug ==> !in_strs(au, s))
        }
}

/// One text leaf's rewrite, with the selection and tokenization that
/// produced it: every selected candidate sits on a token window of the
/// leaf, is owned by another document, and is new to the incoming dedup
/// state; a link is owed whenever a window qualifies against that state;
/// the outgoing state grows by exactly the selection; and the segment is
/// the splice of the selection (the untouched leaf when it is empty).
#[verifier::opaque]
pub open spec fn leaf_rewrite(
    keywords: Keywords,
    t: Seq<char>,
    seg: Seq<NodeView>,
    slug: Seq<char>,
    ak0: Seq<String>,
    au0: Seq<String>,
    ak1: Seq<String>,
    au1: Seq<String>,
    sel: Seq<Candidate>,
    toks: Seq<(usize, String)>,
) -> bool {
    &&& is_tokenization(t, toks)
    &&& sel.len() <= 4
    &&& wf_links(t, sel_tuples(sel), 0)
    &&& forall|i: int|
        0 <= i < sel.len() ==> (#[trigger] sel[i]).url@ != slug && keywords.owns(
            sel[i].keyword@,
            sel[i].url@,
        )
    &&& forall|i: int| 0 <= i < sel.len() ==> cand_of_window(#[trigger] sel[i], toks)
    &&& forall|i: int|
        0 <= i < sel.len() ==> !in_strs(ak0, (#[trigger] sel[i]).keyword@) && !in_strs(
            au0,
            sel[i].url@,
        )
    &&& (fresh_window_exists(keywords, toks, slug, ak0, au0) ==> sel.len() >= 1)
    &&& forall|p: Seq<char>|
        in_strs(ak1, p) <==> in_strs(ak0, p) || (exists|i: int|
            0 <= i < sel.len() && (#[trigger] sel[i]).keyword@ == p)
    &&& forall|u: Seq<char>|
        in_strs(au1, u) <==> in_strs(au0, u) || (exists|i: int|
            0 <= i < sel.len() && (#[trigger] sel[i]).url@ == u)
    &&& (sel.len() == 0 ==> seg == seq![NodeView::Text(t)])
    &&& (sel.len() > 0 ==> seg == splice_spec(t, sel_tuples(sel), 0))
}

/// One paragraph child maps to one run of output children. A text leaf
/// maps to the splice of a selection as `leaf_rewrite` says, carrying the
/// dedup state from `ak0`/`au0` to `ak1`/`au1`; any other child is kept as
/// it is and leaves the state unchanged.
/// A text leaf's rewrite: some selection and tokenization as
/// `leaf_rewrite` says.
pub open spec fn text_rewrite(
    keywords: Keywords,
    t: Seq<char>,
    seg: Seq<NodeView>,
    slug: Seq<char>,
    ak0: Seq<String>,
    au0: Seq<String>,
    ak1: Seq<String>,
    au1: Seq<String>,
) -> bool {
    exists|wit: (Seq<Candidate>, Seq<(usize, String)>)|
        #![auto]
        leaf_rewrite(keywords, t, seg, slug, ak0, au0, ak1, au1, wit.0, wit.1)
}

pub open spec fn segment_rewrite(
    keywords: Keywords,
    x: NodeView,
    seg: Seq<NodeView>,
    slug: Seq<char>,
    ak0: Seq<String>,
    au0: Seq<String>,
    ak1: Seq<String>,
    au1: Seq<String>,
) -> bool {
    match x {
        NodeView::Text(t) => text_rewrite(keywords, t, seg, slug, ak0, au0, ak1, au1),
        _ => seg == seq![x] && ak1 == ak0 && au1 == au0,
    }
}

/// The output children of a paragraph partition into runs, one per input
/// child, each a rewrite of that child, with the dedup state threaded
/// through the children in document order. Each witness entry holds a run
/// boundary and the state reaching it.
pub open spec fn para_chain(
    keywords: Keywords,
    xs: Seq<NodeView>,
    ys: Seq<NodeView>,
    slug: Seq<char>,
    ak0: Seq<String>,
    au0: Seq<String>,
    ak1: Seq<String>,
    au1: Seq<String>,
    w: Seq<(int, Seq<String>, Seq<String>)>,
) -> bool {
    &&& w.len() == xs.len() + 1
    &&& w[0].0 == 0
    &&& w[xs.len() as int].0 == ys.len()
    &&& w[0].1 == ak0
    &&& w[0].2 == au0
    &&& w[xs.len() as int].1 == ak1
    &&& w[xs.len() as int].2 == au1
    &&& forall|i: int| 0 <= i < xs.len() ==> 0 <= (#[trigger] w[i]).0 <= w[i + 1].0 <= ys.len()
    &&& forall|i: int|
        0 <= i < xs.len() ==> segment_rewrite(
            keywords,
            #[trigger] xs[i],
            ys.subrange(w[i].0, w[i + 1].0),
            slug,
            w[i].1,
            w[i].2,
            w[i + 1].1,
            w[i + 1].2,
        )
}

/// The ghost witness of a rewrite: for each container, the dedup state at
/// each child boundary and one witness per child; for each paragraph, its
/// run boundaries with the state at each; a bare leaf otherwise.
pub enum Trace {
    Step(Seq<(Seq<String>, Seq<String>)>, Seq<Trace>),
    Para(Seq<(int, Seq<String>, Seq<String>)>),
    Leaf,
}

/// The output tree is the input tree with links spliced into paragraph
/// text leaves and nothing else changed, as witnessed by `tr`: containers
/// keep their shape and thread the dedup state through their children in
/// document order, paragraphs rewrite as `para_chain` says, opaque nodes
/// are untouched, and the state is carried from `ak0`/`au0` to
/// `ak1`/`au1`.
pub open spec fn links_rewrite_trace(
    keywords: Keywords,
    a: NodeView,
    b: NodeView,
    slug: Seq<char>,
    ak0: Seq<String>,
    au0: Seq<String>,
    ak1: Seq<String>,
    au1: Seq<String>,
    tr: Trace,
) -> bool
    decreases a,
{
    match (a, b) {
        (NodeView::Container(xs), NodeView::Container(ys)) => match tr {
            Trace::Step(st, trs) => {
                &&& xs.len() == ys.len()
                &&& st.len() == xs.len() + 1
                &&& trs.len() == xs.len()
                &&& st[0].0 == ak0
                &&& st[0].1 == au0
                &&& st[xs.len() as int].0 == ak1
                &&& st[xs.len() as int].1 == au1
                &&& forall|i: int|
                    0 <= i < xs.len() ==> links_rewrite_trace(
                        keywords,
                        if 0 <= i < xs.len() {
                            #[trigger] xs[i]
                        } else {
                            NodeView::Opaque(0)
                        },
                        if 0 <= i < ys.len() {
                            ys[i]
                        } else {
                            NodeView::Opaque(0)
                        },
                        slug,
                        st[i].0,
                        st[i].1,
                        st[i + 1].0,
                        st[i + 1].1,
                        if 0 <= i < trs.len() {
                            trs[i]
                        } else {
                            Trace::Leaf
                        },
                    )
            },
            _ => false,
        },
        (NodeView::Paragraph(xs), NodeView::Paragraph(ys)) => match tr {
            Trace::Para(w) => para_chain(keywords, xs, ys, slug, ak0, au0, ak1, au1, w),
            _ => false,
        },
        (NodeView::Opaque(i), NodeView::Opaque(j)) => tr == Trace::Leaf && i == j && ak1 == ak0
            && au1 == au0,
        (NodeView::Text(t), NodeView::Text(u)) => tr == Trace::Leaf && t == u && ak1 == ak0 && au1
            == au0,
        (NodeView::Link(u1, t1), NodeView::Link(u2, t2)) => tr == Trace::Leaf && u1 == u2 && t1
            == t2 && ak1 == ak0 && au1 == au0,
        _ => false,
    }
}

/// A rewrite under a given witness.
pub open spec fn traced_rewrite(
    keywords: Keywords,
    a: NodeView,
    b: NodeView,
    slug: Seq<char>,
    ak0: Seq<String>,
    au0: Seq<String>,
    ak1: Seq<String>,
    au1: Seq<String>,
    tr: Trace,
) -> bool {
    links_rewrite_trace(keywords, a, b, slug, ak0, au0, ak1, au1, tr)
}

/// The output tree is the input tree with links spliced into paragraph
/// text leaves and nothing else changed: some witness relates the two as
/// `links_rewrite_trace` says, carrying the dedup state from `ak0`/`au0`
/// to `ak1`/`au1` across the whole tree in document order.
pub open spec fn links_rewrite(
    keywords: Keywords,
    a: NodeView,
    b: NodeView,
    slug: Seq<char>,
    ak0: Seq<String>,
    au0: Seq<String>,
    ak1: Seq<String>,
    au1: Seq<String>,
) -> bool {
    exists|tr: Trace|
        #![auto]
        traced_rewrite(keywords, a, b, slug, ak0, au0, ak1, au1, tr)
}

/// An exact copy of the tree.
#[verifier::loop_isolation(false)]
pub fn clone_node(n: &Node) -> (r: Node)
    ensures
        r.view() == n.view(),
    decreases n,
{
    match n {
        Node::Opaque(id) => Node::Opaque(*id),
        Node::Text(t) => Node::Text(t.clone()),
        Node::Link(url, t) => Node::Link(url.clone(), t.clone()),
        Node::Container(ch) => {
            let mut out: Vec<Node> = Vec::new();
            let mut i: usize = 0;
            while i < ch.len()
                invariant
                    0 <= i <= ch@.len(),
                    out@.len() == i,
                    forall|q: int| 0 <= q < i ==> (#[trigger] out@[q]).view() == ch@[q].view(),
                decreases ch@.len() - i,
            {
                proof {
                    assert(decreases_to!(*n => (*n)->Container_0));
                    assert(decreases_to!((*n)->Container_0 => ((*n)->Container_0)@));
                    assert(decreases_to!(((*n)->Container_0)@ => ((*n)->Container_0)@[i as int]));
                    assert(ch@[i as int] == ((*n)->Container_0)@[i as int]);
                }
                let c = clone_node(&ch[i]);
                out.push(c);
                i = i + 1;
            }
            let r = Node::Container(out);
            proof {
                assert(r.view() is Container);
                assert(r.view()->Container_0 =~= n.view()->Container_0);
                assert(r.view() == n.view());
            }
            r
        },
        Node::Paragraph(ch) => {
            let mut out: Vec<Node> = Vec::new();
            let mut i: usize = 0;
            while i < ch.len()
                invariant
                    0 <= i <= ch@.len(),
                    out@.len() == i,
                    forall|q: int| 0 <= q < i ==> (#[trigger] out@[q]).view() == ch@[q].view(),
                decreases ch@.len() - i,
            {
                proof {
                    assert(decreases_to!(*n => (*n)->Paragraph_0));
                    assert(decreases_to!((*n)->Paragraph_0 => ((*n)->Paragraph_0)@));
                    assert(decreases_to!(((*n)->Paragraph_0)@ => ((*n)->Paragraph_0)@[i as int]));
                    assert(ch@[i as int] == ((*n)->Paragraph_0)@[i as int]);
                }
                let c = clone_node(&ch[i]);
                out.push(c);
                i = i + 1;
            }
            let r = Node::Paragraph(out);
            proof {
                assert(r.view() is Paragraph);
                assert(r.view()->Paragraph_0 =~= n.view()->Paragraph_0);
                assert(r.view() == n.view());
            }
            r
        },
    }
}


/// The spans and targets of a selection, in order, for splicing.
fn selection_tuples(sel: &Vec<Candidate>) -> (r: Vec<(usize, usize, String)>)
    ensures
        r@.len() == sel@.len(),
        forall|i: int|
            0 <= i < sel@.len() ==> (#[trigger] r@[i]).0 == sel@[i].start && r@[i].1
                == sel@[i].length && r@[i].2@ == sel@[i].url@,
{
    let mut r: Vec<(usize, usize, String)> = Vec::new();
    let mut q: usize = 0;
    while q < sel.len()
        invariant
            0 <= q <= sel@.len(),
            r@.len() == q,
            forall|i: int|
                0 <= i < q ==> (#[trigger] r@[i]).0 == sel@[i].start && r@[i].1 == sel@[i].length
                    && r@[i].2@ == sel@[i].url@,
        decreases sel@.len() - q,
    {
        r.push((sel[q].start, sel[q].length, sel[q].url.clone()));
        q = q + 1;
    }
    r
}

/// The generator's and selector's guarantees assemble into a text leaf's
/// rewrite witness.
#[verifier::rlimit(100)]
proof fn lemma_leaf_facts(
    keywords: Keywords,
    t: Seq<char>,
    gtoks: Seq<(usize, String)>,
    cands: Seq<Candidate>,
    sel: Seq<Candidate>,
    slug: Seq<char>,
    ak0: Seq<String>,
    au0: Seq<String>,
    ak1: Seq<String>,
    au1: Seq<String>,
    seg: Seq<NodeView>,
)
    requires
        keywords.wf(),
        is_tokenization(t, gtoks),
        forall|i: int|
            0 <= i < cands.len() ==> {
                &&& (#[trigger] cands[i]).url@ != slug
                &&& keywords.owns(cands[i].keyword@, cands[i].url@)
                &&& cands[i].length >= 1
                &&& cands[i].start + cands[i].length <= t.len()
            },
        forall|n: int|
            2 <= n <= 4 ==> #[trigger] windows_covered(
                keywords,
                gtoks,
                cands,
                slug,
                n,
                gtoks.len() as int + 1,
            ),
        forall|i: int| 0 <= i < cands.len() ==> cand_of_window(#[trigger] cands[i], gtoks),
        sel.len() <= 4,
        forall|i: int| 0 <= i < sel.len() ==> cands.contains(#[trigger] sel[i]),
        forall|i: int|
            0 <= i < sel.len() - 1 ==> (#[trigger] sel[i]).start + sel[i].length <= sel[i
                + 1].start,
        forall|i: int|
            0 <= i < sel.len() ==> !in_strs(ak0, (#[trigger] sel[i]).keyword@) && !in_strs(
                au0,
                sel[i].url@,
            ),
        forall|p: Seq<char>|
            in_strs(ak1, p) <==> in_strs(ak0, p) || (exists|i: int|
                0 <= i < sel.len() && (#[trigger] sel[i]).keyword@ == p),
        forall|u: Seq<char>|
            in_strs(au1, u) <==> in_strs(au0, u) || (exists|i: int|
                0 <= i < sel.len() && (#[trigger] sel[i]).url@ == u),
        (exists|i: int| 0 <= i < cands.len() && fresh_candidate(#[trigger] cands[i], ak0, au0))
            ==> sel.len() >= 1,
        sel.len() == 0 ==> seg == seq![NodeView::Text(t)],
        sel.len() > 0 ==> seg == splice_spec(t, sel_tuples(sel), 0),
    ensures
        leaf_rewrite(keywords, t, seg, slug, ak0, au0, ak1, au1, sel, gtoks),
{
    reveal(leaf_rewrite);
    assert forall|i: int|
        0 <= i < sel.len() implies (#[trigger] sel[i]).url@ != slug && keywords.owns(
        sel[i].keyword@,
        sel[i].url@,
    ) && cand_of_window(sel[i], gtoks) && sel[i].length >= 1 && sel[i].start + sel[i].length
        <= t.len() by {
        assert(cands.contains(sel[i]));
        let w = choose|w: int| 0 <= w < cands.len() && cands[w] == sel[i];
    }
    assert forall|q: int| 0 <= q < sel.len() implies (#[trigger] sel_tuples(sel)[q]).1 >= 1
        && sel_tuples(sel)[q].0 + sel_tuples(sel)[q].1 <= t.len() by {
        assert(sel_tuples(sel)[q] == (sel[q].start, sel[q].length, sel[q].url));
    }
    assert forall|q: int| 0 <= q < sel.len() - 1 implies (#[trigger] sel_tuples(sel)[q]).0
        + sel_tuples(sel)[q].1 <= sel_tuples(sel)[q + 1].0 by {
        assert(sel[q].start + sel[q].length <= sel[q + 1].start);
    }
    assert(wf_links(t, sel_tuples(sel), 0));
    if fresh_window_exists(keywords, gtoks, slug, ak0, au0) {
        let (n, w) = choose|n: int, w: int|
            #![auto]
            {
                &&& 2 <= n <= 4
                &&& 0 <= w && w + n <= gtoks.len()
                &&& !in_strs(ak0, win_phrase(gtoks, w, n))
                &&& (exists|s: Seq<char>|
                    keywords.owns(win_phrase(gtoks, w, n), s) && s != slug)
                &&& (forall|s: Seq<char>|
                    keywords.owns(win_phrase(gtoks, w, n), s) && s != slug ==> !in_strs(au0, s))
            };
        assert(windows_covered(keywords, gtoks, cands, slug, n, gtoks.len() as int + 1));
        let ci = choose|ci: int|
            {
                &&& 0 <= ci < cands.len()
                &&& (#[trigger] cands[ci]).start == gtoks[w].0
                &&& cands[ci].start + cands[ci].length == gtoks[w + n - 1].0 + gtoks[w + n
                    - 1].1@.len()
                &&& cands[ci].keyword@ == win_phrase(gtoks, w, n)
            };
        assert(keywords.owns(win_phrase(gtoks, w, n), cands[ci].url@));
        assert(!in_strs(au0, cands[ci].url@));
        assert(fresh_candidate(cands[ci], ak0, au0));
        assert(sel.len() >= 1);
    }
}

/// Walk the tree and turn qualifying keyword matches inside paragraph text
/// leaves into links, in document order. Containers are descended into,
/// opaque nodes are never entered, and the paragraph-local and
/// document-wide dedup state is threaded through `added_keywords` and
/// `added_urls`: the walk carries it from its incoming to its final value.
#[verifier::loop_isolation(false)]
#[verifier::rlimit(100)]
pub fn add_links(
    node: &Node,
    keywords: &Keywords,
    slug: &str,
    added_keywords: &mut Vec<String>,
    added_urls: &mut Vec<String>,
    rng: &mut rand::rngs::StdRng,
) -> (r: Node)
    requires
        keywords.wf(),
    ensures
        links_rewrite(
            *keywords,
            node.view(),
            r.view(),
            slug@,
            old(added_keywords)@,
            old(added_urls)@,
            final(added_keywords)@,
            final(added_urls)@,
        ),
    decreases node,
{
    match node {
        Node::Opaque(id) => {
            let r = Node::Opaque(*id);
            proof {
                assert(traced_rewrite(
                    *keywords,
                    node.view(),
                    r.view(),
                    slug@,
                    old(added_keywords)@,
                    old(added_urls)@,
                    added_keywords@,
                    added_urls@,
                    Trace::Leaf,
                ));
            }
            r
        },
        Node::Text(t) => {
            let r = Node::Text(t.clone());
            proof {
                assert(traced_rewrite(
                    *keywords,
                    node.view(),
                    r.view(),
                    slug@,
                    old(added_keywords)@,
                    old(added_urls)@,
                    added_keywords@,
                    added_urls@,
                    Trace::Leaf,
                ));
            }
            r
        },
        Node::Link(url, t) => {
            let r = Node::Link(url.clone(), t.clone());
            proof {
                assert(traced_rewrite(
                    *keywords,
                    node.view(),
                    r.view(),
                    slug@,
                    old(added_keywords)@,
                    old(added_urls)@,
                    added_keywords@,
                    added_urls@,
                    Trace::Leaf,
                ));
            }
            r
        },
        Node::Container(ch) => {
            let mut out: Vec<Node> = Vec::new();
            let ghost mut stchain: Seq<(Seq<String>, Seq<String>)> = seq![
                (added_keywords@, added_urls@),
            ];
            let ghost mut trchain: Seq<Trace> = Seq::empty();
            let mut i: usize = 0;
            while i < ch.len()
                invariant
                    0 <= i <= ch@.len(),
                    out@.len() == i,
                    stchain.len() == i + 1,
                    trchain.len() == i,
                    stchain[0].0 == old(added_keywords)@,
                    stchain[0].1 == old(added_urls)@,
                    stchain[i as int].0 == added_keywords@,
                    stchain[i as int].1 == added_urls@,
                    forall|q: int|
                        0 <= q < i ==> links_rewrite_trace(
                            *keywords,
                            ch@[q].view(),
                            (#[trigger] out@[q]).view(),
                            slug@,
                            stchain[q].0,
                            stchain[q].1,
                            stchain[q + 1].0,
                            stchain[q + 1].1,
                            trchain[q],
                        ),
                decreases ch@.len() - i,
            {
                proof {
                    assert(decreases_to!(*node => (*node)->Container_0));
                    assert(decreases_to!((*node)->Container_0 => ((*node)->Container_0)@));
                    assert(decreases_to!(((*node)->Container_0)@ => ((*node)->Container_0)@[
                        i as int
                    ]));
                    assert(ch@[i as int] == ((*node)->Container_0)@[i as int]);
                }
                let ghost pre_k = added_keywords@;
                let ghost pre_u = added_urls@;
                let c = add_links(&ch[i], keywords, slug, added_keywords, added_urls, rng);
                out.push(c);
                proof {
                    let tr_i = choose|tr: Trace|
                        #![auto]
                        traced_rewrite(
                            *keywords,
                            ch@[i as int].view(),
                            c.view(),
                            slug@,
                            pre_k,
                            pre_u,
                            added_keywords@,
                            added_urls@,
                            tr,
                        );
                    assert(traced_rewrite(
                        *keywords,
                        ch@[i as int].view(),
                        c.view(),
                        slug@,
                        pre_k,
                        pre_u,
                        added_keywords@,
                        added_urls@,
                        tr_i,
                    ));
                    stchain = stchain.push((added_keywords@, added_urls@));
                    trchain = trchain.push(tr_i);
                }
                i = i + 1;
            }
            let r = Node::Container(out);
            proof {
                let xs = node.view()->Container_0;
                let ys = r.view()->Container_0;
                assert(xs.len() == ys.len());
                assert forall|q: int|
                    0 <= q < xs.len() implies links_rewrite_trace(
                    *keywords,
                    if 0 <= q < xs.len() {
                        xs[q]
                    } else {
                        NodeView::Opaque(0)
                    },
                    if 0 <= q < ys.len() {
                        ys[q]
                    } else {
                        NodeView::Opaque(0)
                    },
                    slug@,
                    stchain[q].0,
                    stchain[q].1,
                    stchain[q + 1].0,
                    stchain[q + 1].1,
                    if 0 <= q < trchain.len() {
                        trchain[q]
                    } else {
                        Trace::Leaf
                    },
                ) by {
                    assert(xs[q] == ch@[q].view());
                    assert(ys[q] == out@[q].view());
                }
                assert(traced_rewrite(
                    *keywords,
                    node.view(),
                    r.view(),
                    slug@,
                    old(added_keywords)@,
                    old(added_urls)@,
                    added_keywords@,
                    added_urls@,
                    Trace::Step(stchain, trchain),
                ));
            }
            r
        },
        Node::Paragraph(ch) => {
            let ghost xs = node.view()->Paragraph_0;
            let mut out: Vec<Node> = Vec::new();
            let ghost mut wchain: Seq<(int, Seq<String>, Seq<String>)> = seq![
                (0int, added_keywords@, added_urls@),
            ];
            let mut i: usize = 0;
            while i < ch.len()
                invariant
                    0 <= i <= ch@.len(),
                    keywords.wf(),
                    xs == node.view()->Paragraph_0,
                    xs.len() == ch@.len(),
                    forall|q: int| 0 <= q < ch@.len() ==> xs[q] == (#[trigger] ch@[q]).view(),
                    wchain.len() == i + 1,
                    wchain[0].0 == 0,
                    wchain[i as int].0 == out@.len(),
                    wchain[0].1 == old(added_keywords)@,
                    wchain[0].2 == old(added_urls)@,
                    wchain[i as int].1 == added_keywords@,
                    wchain[i as int].2 == added_urls@,
                    forall|q: int|
                        0 <= q < i ==> 0 <= (#[trigger] wchain[q]).0 <= wchain[q + 1].0
                            <= out@.len(),
                    forall|q: int|
                        0 <= q < i ==> segment_rewrite(
                            *keywords,
                            #[trigger] xs[q],
                            views_of(out@).subrange(wchain[q].0, wchain[q + 1].0),
                            slug@,
                            wchain[q].1,
                            wchain[q].2,
                            wchain[q + 1].1,
                            wchain[q + 1].2,
                        ),
                decreases ch@.len() - i,
            {
                let ghost pre_out = out@;
                let ghost ak_entry = added_keywords@;
                let ghost au_entry = added_urls@;
                let child = &ch[i];
                match child {
                    Node::Text(t) => {
                        let para: &str = t.as_str();
                        let cands = generate_candidates(keywords, para, slug, rng);
                        let ghost gtoks = choose|toks: Seq<(usize, String)>|
                            #![auto]
                            is_tokenization(para@, toks) && (forall|n: int|
                                2 <= n <= 4 ==> #[trigger] windows_covered(
                                    *keywords,
                                    toks,
                                    cands@,
                                    slug@,
                                    n,
                                    toks.len() as int + 1,
                                )) && (forall|q: int|
                                0 <= q < cands@.len() ==> cand_of_window(
                                    #[trigger] cands@[q],
                                    toks,
                                ));
                        let sel = select_candidates(cands, added_keywords, added_urls, rng);
                        if sel.len() == 0 {
                            out.push(Node::Text(t.clone()));
                            proof {
                                let seg = views_of(out@).subrange(
                                    pre_out.len() as int,
                                    out@.len() as int,
                                );
                                assert(seg =~= seq![NodeView::Text(t@)]);
                                lemma_leaf_facts(
                                    *keywords,
                                    t@,
                                    gtoks,
                                    cands@,
                                    sel@,
                                    slug@,
                                    ak_entry,
                                    au_entry,
                                    added_keywords@,
                                    added_urls@,
                                    seg,
                                );
                                let ghost wit = (sel@, gtoks);
                                assert(leaf_rewrite(
                                    *keywords,
                                    t@,
                                    seg,
                                    slug@,
                                    ak_entry,
                                    au_entry,
                                    added_keywords@,
                                    added_urls@,
                                    wit.0,
                                    wit.1,
                                ));
                                assert(text_rewrite(
                                    *keywords,
                                    t@,
                                    seg,
                                    slug@,
                                    ak_entry,
                                    au_entry,
                                    added_keywords@,
                                    added_urls@,
                                ));
                                assert(xs[i as int] == NodeView::Text(t@));
                                assert(segment_rewrite(
                                    *keywords,
                                    xs[i as int],
                                    seg,
                                    slug@,
                                    ak_entry,
                                    au_entry,
                                    added_keywords@,
                                    added_urls@,
                                ));
                            }
                        } else {
                            let links = selection_tuples(&sel);
                            proof {
                                assert(forall|q: int|
                                    0 <= q < links@.len() ==> (#[trigger] links@[q]).0
                                        == sel_tuples(sel@)[q].0 && links@[q].1 == sel_tuples(
                                        sel@,
                                    )[q].1 && links@[q].2@ == sel_tuples(sel@)[q].2@);
                                assert forall|q: int| 0 <= q < links@.len() implies (
                                #[trigger] links@[q]).1 >= 1 && links@[q].0 + links@[q].1
                                    <= t@.len() by {
                                    assert(cands@.contains(sel@[q]));
                                    let w = choose|w: int|
                                        0 <= w < cands@.len() && cands@[w] == sel@[q];
                                }
                                assert forall|q: int| 0 <= q < links@.len() - 1 implies (
                                #[trigger] links@[q]).0 + links@[q].1 <= links@[q + 1].0 by {
                                    assert(sel@[q].start + sel@[q].length <= sel@[q + 1].start);
                                }
                                assert(wf_links(t@, links@, 0));
                            }
                            let mut seg_nodes = splice_text(t.as_str(), &links);
                            let ghost seg_views = views_of(seg_nodes@);
                            out.append(&mut seg_nodes);
                            proof {
                                let seg = views_of(out@).subrange(
                                    pre_out.len() as int,
                                    out@.len() as int,
                                );
                                assert(seg =~= seg_views);
                                lemma_splice_same_views(t@, links@, sel_tuples(sel@), 0);
                                assert(seg == splice_spec(t@, sel_tuples(sel@), 0));
                                lemma_leaf_facts(
                                    *keywords,
                                    t@,
                                    gtoks,
                                    cands@,
                                    sel@,
                                    slug@,
                                    ak_entry,
                                    au_entry,
                                    added_keywords@,
                                    added_urls@,
                                    seg,
                                );
                                let ghost wit = (sel@, gtoks);
                                assert(leaf_rewrite(
                                    *keywords,
                                    t@,
                                    seg,
                                    slug@,
                                    ak_entry,
                                    au_entry,
                                    added_keywords@,
                                    added_urls@,
                                    wit.0,
                                    wit.1,
                                ));
                                assert(text_rewrite(
                                    *keywords,
                                    t@,
                                    seg,
                                    slug@,
                                    ak_entry,
                                    au_entry,
                                    added_keywords@,
                                    added_urls@,
                                ));
                                assert(xs[i as int] == NodeView::Text(t@));
                                assert(segment_rewrite(
                                    *keywords,
                                    xs[i as int],
                                    seg,
                                    slug@,
                                    ak_entry,
                                    au_entry,
                                    added_keywords@,
                                    added_urls@,
                                ));
                            }
                        }
                    },
                    _ => {
                        let c = clone_node(child);
                        out.push(c);
                        proof {
                            let seg = views_of(out@).subrange(
                                pre_out.len() as int,
                                out@.len() as int,
                            );
                            assert(seg =~= seq![ch@[i as int].view()]);
                            assert(!(xs[i as int] is Text));
                            assert(segment_rewrite(
                                *keywords,
                                xs[i as int],
                                seg,
                                slug@,
                                ak_entry,
                                au_entry,
                                added_keywords@,
                                added_urls@,
                            ));
                        }
                    },
                }
                proof {
                    let ghost pre_w = wchain;
                    wchain = wchain.push((out@.len() as int, added_keywords@, added_urls@));
                    assert(forall|q: int|
                        0 <= q < pre_w.len() ==> #[trigger] wchain[q] == pre_w[q]);
                    assert forall|q: int| 0 <= q < i + 1 implies segment_rewrite(
                        *keywords,
                        #[trigger] xs[q],
                        views_of(out@).subrange(wchain[q].0, wchain[q + 1].0),
                        slug@,
                        wchain[q].1,
                        wchain[q].2,
                        wchain[q + 1].1,
                        wchain[q + 1].2,
                    ) by {
                        if q < i {
                            assert(views_of(out@).subrange(wchain[q].0, wchain[q + 1].0)
                                =~= views_of(pre_out).subrange(pre_w[q].0, pre_w[q + 1].0));
                        } else {
                            assert(wchain[q].0 == pre_out.len() && wchain[q + 1].0 == out@.len());
                        }
                    }
                }
                i = i + 1;
            }
            let r = Node::Paragraph(out);
            proof {
                let ys = r.view()->Paragraph_0;
                assert(ys =~= views_of(out@));
                assert forall|q: int| 0 <= q < xs.len() implies segment_rewrite(
                    *keywords,
                    #[trigger] xs[q],
                    ys.subrange(wchain[q].0, wchain[q + 1].0),
                    slug@,
                    wchain[q].1,
                    wchain[q].2,
                    wchain[q + 1].1,
                    wchain[q + 1].2,
                ) by {
                    assert(ys.subrange(wchain[q].0, wchain[q + 1].0) =~= views_of(out@).subrange(
                        wchain[q].0,
                        wchain[q + 1].0,
                    ));
                }
                assert(wchain[xs.len() as int].0 == ys.len());
                assert(para_chain(
                    *keywords,
                    xs,
                    ys,
                    slug@,
                    old(added_keywords)@,
                    old(added_urls)@,
                    added_keywords@,
                    added_urls@,
                    wchain,
                ));
                assert(traced_rewrite(
                    *keywords,
                    node.view(),
                    r.view(),
                    slug@,
                    old(added_keywords)@,
                    old(added_urls)@,
                    added_keywords@,
                    added_urls@,
                    Trace::Para(wchain),
                ));
            }
            r
        },
    }
}

/// Rewrite one document's tree: fresh dedup state, then the full walk,
/// which carries that state to some final value.
pub fn update_tree(
    keywords: &Keywords,
    doc_slug: &str,
    tree: &Node,
    rng: &mut rand::rngs::StdRng,
) -> (r: Node)
    requires
        keywords.wf(),
    ensures
        exists|ak: Seq<String>, au: Seq<String>|
            #![auto]
            links_rewrite(
                *keywords,
                tree.view(),
                r.view(),
                doc_slug@,
                Seq::empty(),
                Seq::empty(),
                ak,
                au,
            ),
{
    let mut added_keywords: Vec<String> = Vec::new();
    let mut added_urls: Vec<String> = Vec::new();
    proof {
        assert(added_keywords@ =~= Seq::<String>::empty());
        assert(added_urls@ =~= Seq::<String>::empty());
    }
    let r = add_links(tree, keywords, doc_slug, &mut added_keywords, &mut added_urls, rng);
    proof {
        assert(links_rewrite(
            *keywords,
            tree.view(),
            r.view(),
            doc_slug@,
            Seq::empty(),
            Seq::empty(),
            added_keywords@,
            added_urls@,
        ));
    }
    r
}

/// The opaque nodes of a tree, by id, in document order.
pub open spec fn opaques(n: NodeView) -> Seq<u64>
    decreases n,
{
    match n {
        NodeView::Container(ch) => opaques_of(ch),
        NodeView::Paragraph(ch) => opaques_of(ch),
        NodeView::Opaque(id) => seq![id],
        NodeView::Text(_t) => Seq::empty(),
        NodeView::Link(_u, _t) => Seq::empty(),
    }
}

/// The opaque nodes of a node list, by id, in document order.
pub open spec fn opaques_of(ns: Seq<NodeView>) -> Seq<u64>
    decreases ns,
{
    if ns.len() == 0 {
        Seq::empty()
    } else {
        opaques(ns[0]) + opaques_of(ns.drop_first())
    }
}

/// Opaque ids concatenate over list concatenation.
proof fn lemma_opaques_of_concat(a: Seq<NodeView>, b: Seq<NodeView>)
    ensures
        opaques_of(a + b) == opaques_of(a) + opaques_of(b),
    decreases a,
{
    if a.len() == 0 {
        assert(a + b =~= b);
        assert(opaques_of(a) + opaques_of(b) =~= opaques_of(b));
    } else {
        assert((a + b).drop_first() =~= a.drop_first() + b);
        lemma_opaques_of_concat(a.drop_first(), b);
        assert((a + b)[0] == a[0]);
        assert(opaques_of(a + b) == opaques(a[0]) + (opaques_of(a.drop_first()) + opaques_of(b)));
        assert(opaques(a[0]) + (opaques_of(a.drop_first()) + opaques_of(b)) =~= (opaques(a[0])
            + opaques_of(a.drop_first())) + opaques_of(b));
    }
}

/// The opaque ids of a one-node list.
proof fn lemma_opaques_single(x: NodeView)
    ensures
        opaques_of(seq![x]) == opaques(x),
{
    let s = seq![x];
    assert(s.drop_first() =~= Seq::<NodeView>::empty());
    assert(opaques_of(s.drop_first()) == Seq::<u64>::empty());
    assert(opaques_of(s) == opaques(x) + Seq::<u64>::empty());
    assert(opaques(x) + Seq::<u64>::empty() =~= opaques(x));
}

/// Spliced text holds no opaque nodes.
proof fn lemma_splice_no_opaques(text: Seq<char>, links: Seq<(usize, usize, String)>, cursor: int)
    ensures
        opaques_of(splice_spec(text, links, cursor)) == Seq::<u64>::empty(),
    decreases links.len(),
{
    if links.len() == 0 {
        if cursor < text.len() {
            let ns = splice_spec(text, links, cursor);
            lemma_opaques_single(NodeView::Text(text.subrange(cursor, text.len() as int)));
            assert(opaques_of(ns) =~= Seq::<u64>::empty());
        }
    } else {
        let l = links[0];
        lemma_splice_no_opaques(text, links.drop_first(), l.0 + l.1);
        let tail = splice_spec(text, links.drop_first(), l.0 + l.1);
        let link_node = NodeView::Link(l.2@, text.subrange(l.0 as int, l.0 + l.1));
        lemma_opaques_single(link_node);
        lemma_opaques_of_concat(seq![link_node], tail);
        let mid = seq![link_node] + tail;
        assert(opaques_of(mid) =~= Seq::<u64>::empty());
        if cursor < l.0 {
            let pre = NodeView::Text(text.subrange(cursor, l.0 as int));
            lemma_opaques_single(pre);
            lemma_opaques_of_concat(seq![pre], seq![link_node]);
            lemma_opaques_of_concat(seq![pre] + seq![link_node], tail);
            let ns = seq![pre] + seq![link_node] + tail;
            assert(splice_spec(text, links, cursor) =~= ns);
            assert(opaques_of(ns) =~= Seq::<u64>::empty());
        } else {
            assert(splice_spec(text, links, cursor) =~= mid);
        }
    }
}

/// What the splicer's output looks like, read off a leaf witness.
proof fn lemma_leaf_shape(
    keywords: Keywords,
    t: Seq<char>,
    seg: Seq<NodeView>,
    slug: Seq<char>,
    ak0: Seq<String>,
    au0: Seq<String>,
    ak1: Seq<String>,
    au1: Seq<String>,
    sel: Seq<Candidate>,
    toks: Seq<(usize, String)>,
)
    requires
        leaf_rewrite(keywords, t, seg, slug, ak0, au0, ak1, au1, sel, toks),
    ensures
        wf_links(t, sel_tuples(sel), 0),
        sel.len() == 0 ==> seg == seq![NodeView::Text(t)],
        sel.len() > 0 ==> seg == splice_spec(t, sel_tuples(sel), 0),
{
    reveal(leaf_rewrite);
}

/// A rewritten segment has the same opaque nodes as the child it replaces.
proof fn lemma_segment_opaques(
    keywords: Keywords,
    x: NodeView,
    seg: Seq<NodeView>,
    slug: Seq<char>,
    ak0: Seq<String>,
    au0: Seq<String>,
    ak1: Seq<String>,
    au1: Seq<String>,
)
    requires
        segment_rewrite(keywords, x, seg, slug, ak0, au0, ak1, au1),
    ensures
        opaques_of(seg) == opaques(x),
{
    match x {
        NodeView::Text(t) => {
            assert(text_rewrite(keywords, t, seg, slug, ak0, au0, ak1, au1));
            let wit = choose|wit: (Seq<Candidate>, Seq<(usize, String)>)|
                #![auto]
                leaf_rewrite(keywords, t, seg, slug, ak0, au0, ak1, au1, wit.0, wit.1);
            assert(leaf_rewrite(keywords, t, seg, slug, ak0, au0, ak1, au1, wit.0, wit.1));
            lemma_leaf_shape(keywords, t, seg, slug, ak0, au0, ak1, au1, wit.0, wit.1);
            let sel = wit.0;
            if sel.len() == 0 {
                lemma_opaques_single(x);
            } else {
                lemma_splice_no_opaques(t, sel_tuples(sel), 0);
            }
        },
        _ => {
            lemma_opaques_single(x);
        },
    }
}

/// A node list splits at a boundary sequence into its per-child segments,
/// and the opaque ids concatenate accordingly.
#[verifier::rlimit(100)]
proof fn lemma_chunks_opaques(xs: Seq<NodeView>, ys: Seq<NodeView>, bounds: Seq<int>)
    requires
        bounds.len() == xs.len() + 1,
        bounds[0] == 0,
        bounds[xs.len() as int] == ys.len(),
        forall|i: int| 0 <= i < xs.len() ==> 0 <= #[trigger] bounds[i] <= bounds[i + 1] <= ys.len(),
        forall|i: int|
            0 <= i < xs.len() ==> opaques_of(ys.subrange(#[trigger] bounds[i], bounds[i + 1]))
                == opaques(xs[i]),
    ensures
        opaques_of(ys.subrange(0, bounds[xs.len() as int])) == opaques_of(xs),
    decreases xs.len(),
{
    if xs.len() == 0 {
        assert(ys.subrange(0, 0) =~= Seq::<NodeView>::empty());
        assert(opaques_of(xs) =~= Seq::<u64>::empty());
    } else {
        let m = (xs.len() - 1) as int;
        let shorter = xs.take(m);
        let sb = bounds.take(m + 1);
        let yfront = ys.subrange(0, bounds[m]);
        assert forall|i: int| 0 <= i < shorter.len() implies 0 <= #[trigger] sb[i] <= sb[i + 1]
            <= yfront.len() by {
            assert(sb[i] == bounds[i] && sb[i + 1] == bounds[i + 1]);
            assert(bounds[i + 1] <= bounds[m]) by {
                lemma_bounds_monotone(bounds, i + 1, m, xs.len() as int, ys.len() as int);
            }
        }
        assert forall|i: int| 0 <= i < shorter.len() implies opaques_of(
            yfront.subrange(#[trigger] sb[i], sb[i + 1]),
        ) == opaques(shorter[i]) by {
            assert(sb[i] == bounds[i] && sb[i + 1] == bounds[i + 1]);
            assert(shorter[i] == xs[i]);
            assert(yfront.subrange(sb[i], sb[i + 1]) =~= ys.subrange(bounds[i], bounds[i + 1]));
        }
        assert(sb[0] == 0 && sb[shorter.len() as int] == bounds[m]);
        lemma_chunks_opaques(shorter, yfront, sb);
        assert(yfront.subrange(0, bounds[m]) =~= yfront);
        assert(ys.subrange(0, bounds[m + 1]) =~= yfront + ys.subrange(bounds[m], bounds[m + 1]));
        lemma_opaques_of_concat(yfront, ys.subrange(bounds[m], bounds[m + 1]));
        assert(xs.take(m).push(xs[m]) =~= xs);
        lemma_opaques_snoc(xs.take(m), xs[m]);
    }
}

/// The boundary sequence is monotone.
proof fn lemma_bounds_monotone(bounds: Seq<int>, a: int, b: int, n: int, ylen: int)
    requires
        bounds.len() == n + 1,
        0 <= a <= b <= n,
        forall|i: int| 0 <= i < n ==> 0 <= #[trigger] bounds[i] <= bounds[i + 1] <= ylen,
    ensures
        bounds[a] <= bounds[b],
    decreases b - a,
{
    if a < b {
        lemma_bounds_monotone(bounds, a, b - 1, n, ylen);
    }
}

/// Opaque ids over a list extended by one node.
proof fn lemma_opaques_snoc(a: Seq<NodeView>, x: NodeView)
    ensures
        opaques_of(a.push(x)) == opaques_of(a) + opaques(x),
{
    assert(a.push(x) =~= a + seq![x]);
    lemma_opaques_of_concat(a, seq![x]);
    lemma_opaques_single(x);
}

/// Opacity: rewriting never touches opaque content. The opaque nodes of
/// the rewritten tree are exactly those of the original, in order.
pub proof fn lemma_rewrite_preserves_opaques(
    keywords: Keywords,
    a: NodeView,
    b: NodeView,
    slug: Seq<char>,
    ak0: Seq<String>,
    au0: Seq<String>,
    ak1: Seq<String>,
    au1: Seq<String>,
)
    requires
        links_rewrite(keywords, a, b, slug, ak0, au0, ak1, au1),
    ensures
        opaques(b) == opaques(a),
{
    let tr = choose|tr: Trace|
        #![auto]
        traced_rewrite(keywords, a, b, slug, ak0, au0, ak1, au1, tr);
    assert(traced_rewrite(keywords, a, b, slug, ak0, au0, ak1, au1, tr));
    lemma_trace_opaques(keywords, a, b, slug, ak0, au0, ak1, au1, tr);
}

/// Opacity under a given witness.
#[verifier::rlimit(100)]
proof fn lemma_trace_opaques(
    keywords: Keywords,
    a: NodeView,
    b: NodeView,
    slug: Seq<char>,
    ak0: Seq<String>,
    au0: Seq<String>,
    ak1: Seq<String>,
    au1: Seq<String>,
    tr: Trace,
)
    requires
        links_rewrite_trace(keywords, a, b, slug, ak0, au0, ak1, au1, tr),
    ensures
        opaques(b) == opaques(a),
    decreases a,
{
    match (a, b) {
        (NodeView::Container(xs), NodeView::Container(ys)) => {
            match tr {
                Trace::Step(st, trs) => {
                    lemma_trace_opaques_of(keywords, xs, ys, slug, st, trs);
                },
                _ => {
                    assert(false);
                },
            }
        },
        (NodeView::Paragraph(xs), NodeView::Paragraph(ys)) => {
            match tr {
                Trace::Para(w) => {
                    assert(para_chain(keywords, xs, ys, slug, ak0, au0, ak1, au1, w));
                    let bounds = Seq::new(w.len(), |q: int| w[q].0);
                    assert(forall|q: int| 0 <= q < w.len() ==> #[trigger] bounds[q] == w[q].0);
                    assert forall|i: int| 0 <= i < xs.len() implies 0 <= #[trigger] bounds[i]
                        <= bounds[i + 1] <= ys.len() by {
                        assert(0 <= w[i].0 <= w[i + 1].0 <= ys.len());
                    }
                    assert forall|i: int| 0 <= i < xs.len() implies opaques_of(
                        ys.subrange(#[trigger] bounds[i], bounds[i + 1]),
                    ) == opaques(xs[i]) by {
                        assert(segment_rewrite(
                            keywords,
                            xs[i],
                            ys.subrange(w[i].0, w[i + 1].0),
                            slug,
                            w[i].1,
                            w[i].2,
                            w[i + 1].1,
                            w[i + 1].2,
                        ));
                        lemma_segment_opaques(
                            keywords,
                            xs[i],
                            ys.subrange(w[i].0, w[i + 1].0),
                            slug,
                            w[i].1,
                            w[i].2,
                            w[i + 1].1,
                            w[i + 1].2,
                        );
                        assert(ys.subrange(bounds[i], bounds[i + 1]) == ys.subrange(
                            w[i].0,
                            w[i + 1].0,
                        ));
                    }
                    lemma_chunks_opaques(xs, ys, bounds);
                    assert(ys.subrange(0, ys.len() as int) =~= ys);
                },
                _ => {
                    assert(false);
                },
            }
        },
        _ => {},
    }
}

/// Opacity for node lists rewritten element by element.
proof fn lemma_trace_opaques_of(
    keywords: Keywords,
    xs: Seq<NodeView>,
    ys: Seq<NodeView>,
    slug: Seq<char>,
    st: Seq<(Seq<String>, Seq<String>)>,
    trs: Seq<Trace>,
)
    requires
        xs.len() == ys.len(),
        st.len() >= xs.len() + 1,
        trs.len() >= xs.len(),
        forall|i: int|
            0 <= i < xs.len() ==> links_rewrite_trace(
                keywords,
                if 0 <= i < xs.len() {
                    #[trigger] xs[i]
                } else {
                    NodeView::Opaque(0)
                },
                if 0 <= i < ys.len() {
                    ys[i]
                } else {
                    NodeView::Opaque(0)
                },
                slug,
                st[i].0,
                st[i].1,
                st[i + 1].0,
                st[i + 1].1,
                if 0 <= i < trs.len() {
                    trs[i]
                } else {
                    Trace::Leaf
                },
            ),
    ensures
        opaques_of(ys) == opaques_of(xs),
    decreases xs,
{
    if xs.len() > 0 {
        assert(links_rewrite_trace(
            keywords,
            xs[0],
            ys[0],
            slug,
            st[0].0,
            st[0].1,
            st[1].0,
            st[1].1,
            trs[0],
        ));
        lemma_trace_opaques(
            keywords,
            xs[0],
            ys[0],
            slug,
            st[0].0,
            st[0].1,
            st[1].0,
            st[1].1,
            trs[0],
        );
        assert forall|i: int| 0 <= i < xs.drop_first().len() implies links_rewrite_trace(
            keywords,
            if 0 <= i < xs.drop_first().len() {
                #[trigger] xs.drop_first()[i]
            } else {
                NodeView::Opaque(0)
            },
            if 0 <= i < ys.drop_first().len() {
                ys.drop_first()[i]
            } else {
                NodeView::Opaque(0)
            },
            slug,
            st.drop_first()[i].0,
            st.drop_first()[i].1,
            st.drop_first()[i + 1].0,
            st.drop_first()[i + 1].1,
            if 0 <= i < trs.drop_first().len() {
                trs.drop_first()[i]
            } else {
                Trace::Leaf
            },
        ) by {
            assert(xs.drop_first()[i] == xs[i + 1]);
            assert(ys.drop_first()[i] == ys[i + 1]);
            assert(st.drop_first()[i] == st[i + 1] && st.drop_first()[i + 1] == st[i + 2]);
            assert(trs.drop_first()[i] == trs[i + 1]);
            assert(links_rewrite_trace(
                keywords,
                xs[i + 1],
                ys[i + 1],
                slug,
                st[i + 1].0,
                st[i + 1].1,
                st[i + 2].0,
                st[i + 2].1,
                trs[i + 1],
            ));
        }
        lemma_trace_opaques_of(
            keywords,
            xs.drop_first(),
            ys.drop_first(),
            slug,
            st.drop_first(),
            trs.drop_first(),
        );
    }
}

/// All the visible text of a tree, in document order: text leaves and link
/// anchors, with opaque nodes contributing nothing.
pub open spec fn tree_text(n: NodeView) -> Seq<char>
    decreases n,
{
    match n {
        NodeView::Container(ch) => tree_text_of(ch),
        NodeView::Paragraph(ch) => tree_text_of(ch),
        NodeView::Opaque(_id) => Seq::empty(),
        NodeView::Text(t) => t,
        NodeView::Link(_u, t) => t,
    }
}

/// The visible text of a node list, in order.
pub open spec fn tree_text_of(ns: Seq<NodeView>) -> Seq<char>
    decreases ns,
{
    if ns.len() == 0 {
        Seq::empty()
    } else {
        tree_text(ns[0]) + tree_text_of(ns.drop_first())
    }
}

/// Visible text concatenates over list concatenation.
proof fn lemma_tree_text_of_concat(a: Seq<NodeView>, b: Seq<NodeView>)
    ensures
        tree_text_of(a + b) == tree_text_of(a) + tree_text_of(b),
    decreases a,
{
    if a.len() == 0 {
        assert(a + b =~= b);
        assert(tree_text_of(a) + tree_text_of(b) =~= tree_text_of(b));
    } else {
        assert((a + b).drop_first() =~= a.drop_first() + b);
        lemma_tree_text_of_concat(a.drop_first(), b);
        assert((a + b)[0] == a[0]);
        assert(tree_text_of(a + b) == tree_text(a[0]) + (tree_text_of(a.drop_first())
            + tree_text_of(b)));
        assert(tree_text(a[0]) + (tree_text_of(a.drop_first()) + tree_text_of(b)) =~= (tree_text(
            a[0],
        ) + tree_text_of(a.drop_first())) + tree_text_of(b));
    }
}

/// The visible text of a one-node list.
proof fn lemma_tree_text_single(x: NodeView)
    ensures
        tree_text_of(seq![x]) == tree_text(x),
{
    let s = seq![x];
    assert(s.drop_first() =~= Seq::<NodeView>::empty());
    assert(tree_text_of(s.drop_first()) == Seq::<char>::empty());
    assert(tree_text_of(s) == tree_text(x) + Seq::<char>::empty());
    assert(tree_text(x) + Seq::<char>::empty() =~= tree_text(x));
}

/// Spliced text carries all the characters from the cursor on.
proof fn lemma_splice_tree_text(text: Seq<char>, links: Seq<(usize, usize, String)>, cursor: int)
    requires
        wf_links(text, links, cursor),
    ensures
        tree_text_of(splice_spec(text, links, cursor)) == text.subrange(
            cursor,
            text.len() as int,
        ),
    decreases links.len(),
{
    if links.len() == 0 {
        if cursor < text.len() {
            let ns = splice_spec(text, links, cursor);
            lemma_tree_text_single(NodeView::Text(text.subrange(cursor, text.len() as int)));
            assert(tree_text_of(ns) =~= text.subrange(cursor, text.len() as int));
        } else {
            assert(text.subrange(cursor, text.len() as int) =~= Seq::<char>::empty());
        }
    } else {
        let l = links[0];
        let rest = links.drop_first();
        assert(forall|i: int| 0 <= i < rest.len() ==> rest[i] == (#[trigger] links[i + 1]));
        assert(wf_links(text, rest, l.0 + l.1));
        lemma_splice_tree_text(text, rest, l.0 + l.1);
        let tail = splice_spec(text, rest, l.0 + l.1);
        let link_node = NodeView::Link(l.2@, text.subrange(l.0 as int, l.0 + l.1));
        lemma_tree_text_single(link_node);
        lemma_tree_text_of_concat(seq![link_node], tail);
        let mid = seq![link_node] + tail;
        assert(tree_text_of(mid) =~= text.subrange(l.0 as int, text.len() as int));
        if cursor < l.0 {
            let pre = NodeView::Text(text.subrange(cursor, l.0 as int));
            lemma_tree_text_single(pre);
            lemma_tree_text_of_concat(seq![pre], seq![link_node]);
            lemma_tree_text_of_concat(seq![pre] + seq![link_node], tail);
            let ns = seq![pre] + seq![link_node] + tail;
            assert(splice_spec(text, links, cursor) =~= ns);
            assert(tree_text_of(ns) =~= text.subrange(cursor, text.len() as int));
        } else {
            assert(splice_spec(text, links, cursor) =~= mid);
            assert(tree_text_of(mid) =~= text.subrange(cursor, text.len() as int));
        }
    }
}

/// A rewritten segment shows the same text as the child it replaces.
#[verifier::rlimit(100)]
proof fn lemma_segment_tree_text(
    keywords: Keywords,
    x: NodeView,
    seg: Seq<NodeView>,
    slug: Seq<char>,
    ak0: Seq<String>,
    au0: Seq<String>,
    ak1: Seq<String>,
    au1: Seq<String>,
)
    requires
        segment_rewrite(keywords, x, seg, slug, ak0, au0, ak1, au1),
    ensures
        tree_text_of(seg) == tree_text(x),
{
    match x {
        NodeView::Text(t) => {
            assert(text_rewrite(keywords, t, seg, slug, ak0, au0, ak1, au1));
            let wit = choose|wit: (Seq<Candidate>, Seq<(usize, String)>)|
                #![auto]
                leaf_rewrite(keywords, t, seg, slug, ak0, au0, ak1, au1, wit.0, wit.1);
            assert(leaf_rewrite(keywords, t, seg, slug, ak0, au0, ak1, au1, wit.0, wit.1));
            lemma_leaf_shape(keywords, t, seg, slug, ak0, au0, ak1, au1, wit.0, wit.1);
            let sel = wit.0;
            if sel.len() == 0 {
                lemma_tree_text_single(x);
            } else {
                lemma_splice_tree_text(t, sel_tuples(sel), 0);
                assert(t.subrange(0, t.len() as int) =~= t);
            }
        },
        _ => {
            lemma_tree_text_single(x);
        },
    }
}

/// A rewritten paragraph's chunks carry the text of the children.
#[verifier::rlimit(100)]
proof fn lemma_chunks_tree_text(xs: Seq<NodeView>, ys: Seq<NodeView>, bounds: Seq<int>)
    requires
        bounds.len() == xs.len() + 1,
        bounds[0] == 0,
        bounds[xs.len() as int] == ys.len(),
        forall|i: int| 0 <= i < xs.len() ==> 0 <= #[trigger] bounds[i] <= bounds[i + 1] <= ys.len(),
        forall|i: int|
            0 <= i < xs.len() ==> tree_text_of(ys.subrange(#[trigger] bounds[i], bounds[i + 1]))
                == tree_text(xs[i]),
    ensures
        tree_text_of(ys.subrange(0, bounds[xs.len() as int])) == tree_text_of(xs),
    decreases xs.len(),
{
    if xs.len() == 0 {
        assert(ys.subrange(0, 0) =~= Seq::<NodeView>::empty());
        assert(tree_text_of(xs) =~= Seq::<char>::empty());
    } else {
        let m = (xs.len() - 1) as int;
        let shorter = xs.take(m);
        let sb = bounds.take(m + 1);
        let yfront = ys.subrange(0, bounds[m]);
        assert forall|i: int| 0 <= i < shorter.len() implies 0 <= #[trigger] sb[i] <= sb[i + 1]
            <= yfront.len() by {
            assert(sb[i] == bounds[i] && sb[i + 1] == bounds[i + 1]);
            assert(bounds[i + 1] <= bounds[m]) by {
                lemma_bounds_monotone(bounds, i + 1, m, xs.len() as int, ys.len() as int);
            }
        }
        assert forall|i: int| 0 <= i < shorter.len() implies tree_text_of(
            yfront.subrange(#[trigger] sb[i], sb[i + 1]),
        ) == tree_text(shorter[i]) by {
            assert(sb[i] == bounds[i] && sb[i + 1] == bounds[i + 1]);
            assert(shorter[i] == xs[i]);
            assert(yfront.subrange(sb[i], sb[i + 1]) =~= ys.subrange(bounds[i], bounds[i + 1]));
        }
        assert(sb[0] == 0 && sb[shorter.len() as int] == bounds[m]);
        lemma_chunks_tree_text(shorter, yfront, sb);
        assert(yfront.subrange(0, bounds[m]) =~= yfront);
        assert(ys.subrange(0, bounds[m + 1]) =~= yfront + ys.subrange(bounds[m], bounds[m + 1]));
        lemma_tree_text_of_concat(yfront, ys.subrange(bounds[m], bounds[m + 1]));
        assert(xs.take(m).push(xs[m]) =~= xs);
        assert(tree_text_of(xs.take(m).push(xs[m])) == tree_text_of(xs.take(m)) + tree_text(
            xs[m],
        )) by {
            assert(xs.take(m).push(xs[m]) =~= xs.take(m) + seq![xs[m]]);
            lemma_tree_text_of_concat(xs.take(m), seq![xs[m]]);
            lemma_tree_text_single(xs[m]);
        }
    }
}

/// Text preservation: rewriting never loses or reorders a character. The
/// visible text of the rewritten tree, link anchors included, is exactly
/// the visible text of the original.
pub proof fn lemma_rewrite_preserves_text(
    keywords: Keywords,
    a: NodeView,
    b: NodeView,
    slug: Seq<char>,
    ak0: Seq<String>,
    au0: Seq<String>,
    ak1: Seq<String>,
    au1: Seq<String>,
)
    requires
        links_rewrite(keywords, a, b, slug, ak0, au0, ak1, au1),
    ensures
        tree_text(b) == tree_text(a),
{
    let tr = choose|tr: Trace|
        #![auto]
        traced_rewrite(keywords, a, b, slug, ak0, au0, ak1, au1, tr);
    assert(traced_rewrite(keywords, a, b, slug, ak0, au0, ak1, au1, tr));
    lemma_trace_text(keywords, a, b, slug, ak0, au0, ak1, au1, tr);
}

/// Text preservation under a given witness.
#[verifier::rlimit(100)]
proof fn lemma_trace_text(
    keywords: Keywords,
    a: NodeView,
    b: NodeView,
    slug: Seq<char>,
    ak0: Seq<String>,
    au0: Seq<String>,
    ak1: Seq<String>,
    au1: Seq<String>,
    tr: Trace,
)
    requires
        links_rewrite_trace(keywords, a, b, slug, ak0, au0, ak1, au1, tr),
    ensures
        tree_text(b) == tree_text(a),
    decreases a,
{
    match (a, b) {
        (NodeView::Container(xs), NodeView::Container(ys)) => {
            match tr {
                Trace::Step(st, trs) => {
                    lemma_trace_text_of(keywords, xs, ys, slug, st, trs);
                },
                _ => {
                    assert(false);
                },
            }
        },
        (NodeView::Paragraph(xs), NodeView::Paragraph(ys)) => {
            match tr {
                Trace::Para(w) => {
                    assert(para_chain(keywords, xs, ys, slug, ak0, au0, ak1, au1, w));
                    let bounds = Seq::new(w.len(), |q: int| w[q].0);
                    assert(forall|q: int| 0 <= q < w.len() ==> #[trigger] bounds[q] == w[q].0);
                    assert forall|i: int| 0 <= i < xs.len() implies 0 <= #[trigger] bounds[i]
                        <= bounds[i + 1] <= ys.len() by {
                        assert(0 <= w[i].0 <= w[i + 1].0 <= ys.len());
                    }
                    assert forall|i: int| 0 <= i < xs.len() implies tree_text_of(
                        ys.subrange(#[trigger] bounds[i], bounds[i + 1]),
                    ) == tree_text(xs[i]) by {
                        assert(segment_rewrite(
                            keywords,
                            xs[i],
                            ys.subrange(w[i].0, w[i + 1].0),
                            slug,
                            w[i].1,
                            w[i].2,
                            w[i + 1].1,
                            w[i + 1].2,
                        ));
                        lemma_segment_tree_text(
                            keywords,
                            xs[i],
                            ys.subrange(w[i].0, w[i + 1].0),
                            slug,
                            w[i].1,
                            w[i].2,
                            w[i + 1].1,
                            w[i + 1].2,
                        );
                        assert(ys.subrange(bounds[i], bounds[i + 1]) == ys.subrange(
                            w[i].0,
                            w[i + 1].0,
                        ));
                    }
                    lemma_chunks_tree_text(xs, ys, bounds);
                    assert(ys.subrange(0, ys.len() as int) =~= ys);
                },
                _ => {
                    assert(false);
                },
            }
        },
        _ => {},
    }
}

/// Text preservation for node lists rewritten element by element.
proof fn lemma_trace_text_of(
    keywords: Keywords,
    xs: Seq<NodeView>,
    ys: Seq<NodeView>,
    slug: Seq<char>,
    st: Seq<(Seq<String>, Seq<String>)>,
    trs: Seq<Trace>,
)
    requires
        xs.len() == ys.len(),
        st.len() >= xs.len() + 1,
        trs.len() >= xs.len(),
        forall|i: int|
            0 <= i < xs.len() ==> links_rewrite_trace(
                keywords,
                if 0 <= i < xs.len() {
                    #[trigger] xs[i]
                } else {
                    NodeView::Opaque(0)
                },
                if 0 <= i < ys.len() {
                    ys[i]
                } else {
                    NodeView::Opaque(0)
                },
                slug,
                st[i].0,
                st[i].1,
                st[i + 1].0,
                st[i + 1].1,
                if 0 <= i < trs.len() {
                    trs[i]
                } else {
                    Trace::Leaf
                },
            ),
    ensures
        tree_text_of(ys) == tree_text_of(xs),
    decreases xs,
{
    if xs.len() > 0 {
        assert(links_rewrite_trace(
            keywords,
            xs[0],
            ys[0],
            slug,
            st[0].0,
            st[0].1,
            st[1].0,
            st[1].1,
            trs[0],
        ));
        lemma_trace_text(keywords, xs[0], ys[0], slug, st[0].0, st[0].1, st[1].0, st[1].1, trs[0]);
        assert forall|i: int| 0 <= i < xs.drop_first().len() implies links_rewrite_trace(
            keywords,
            if 0 <= i < xs.drop_first().len() {
                #[trigger] xs.drop_first()[i]
            } else {
                NodeView::Opaque(0)
            },
            if 0 <= i < ys.drop_first().len() {
                ys.drop_first()[i]
            } else {
                NodeView::Opaque(0)
            },
            slug,
            st.drop_first()[i].0,
            st.drop_first()[i].1,
            st.drop_first()[i + 1].0,
            st.drop_first()[i + 1].1,
            if 0 <= i < trs.drop_first().len() {
                trs.drop_first()[i]
            } else {
                Trace::Leaf
            },
        ) by {
            assert(xs.drop_first()[i] == xs[i + 1]);
            assert(ys.drop_first()[i] == ys[i + 1]);
            assert(st.drop_first()[i] == st[i + 1] && st.drop_first()[i + 1] == st[i + 2]);
            assert(trs.drop_first()[i] == trs[i + 1]);
            assert(links_rewrite_trace(
                keywords,
                xs[i + 1],
                ys[i + 1],
                slug,
                st[i + 1].0,
                st[i + 1].1,
                st[i + 2].0,
                st[i + 2].1,
                trs[i + 1],
            ));
        }
        lemma_trace_text_of(
            keywords,
            xs.drop_first(),
            ys.drop_first(),
            slug,
            st.drop_first(),
            trs.drop_first(),
        );
    }
}

} // verus!
