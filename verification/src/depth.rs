use vstd::prelude::*;

use crate::error::SpecParseError;
use crate::parser::{
    lemma_run_is_build, spec_build_from, spec_feed, spec_parse, SpecElementData, SpecNode,
};
use crate::tokenizer::{spec_tokenize_from, SpecToken};

verus! {

/// The larger of two naturals.
pub open spec fn depth_max(a: nat, b: nat) -> nat {
    if a >= b {
        a
    } else {
        b
    }
}

/// The nesting depth of one node: text is flat, an element is one deeper
/// than its deepest child.
pub open spec fn node_depth(n: SpecNode) -> nat
    decreases n,
{
    match n {
        SpecNode::Text(_) => 0,
        SpecNode::Element(ed) => 1 + forest_depth(ed.children),
    }
}

/// The nesting depth of a forest: the depth of its deepest node.
pub open spec fn forest_depth(ns: Seq<SpecNode>) -> nat
    decreases ns,
{
    if ns.len() == 0 {
        0
    } else {
        depth_max(node_depth(ns[0]), forest_depth(ns.drop_first()))
    }
}

/// The deepest the open-element stack gets while the builder replays a
/// token stream from the given state (the depth at entry included).
pub open spec fn spec_peak(
    toks: Seq<SpecToken>,
    stack: Seq<SpecElementData>,
    roots: Seq<SpecNode>,
) -> nat
    decreases toks.len(),
{
    if toks.len() == 0 {
        stack.len()
    } else {
        match spec_feed(stack, roots, toks[0]) {
            Err(_) => stack.len(),
            Ok((stack2, roots2)) => depth_max(
                stack.len(),
                spec_peak(toks.drop_first(), stack2, roots2),
            ),
        }
    }
}

/// What the open frames will contribute to the final depth: frame `k`
/// (counted from the bottom) closes into an element nested below `k`
/// others, one level deeper than its children built so far.
pub open spec fn frames_measure(st: Seq<SpecElementData>) -> nat
    decreases st.len(),
{
    if st.len() == 0 {
        0
    } else {
        depth_max(
            frames_measure(st.drop_last()),
            st.len() + forest_depth(st.last().children),
        )
    }
}

proof fn lemma_forest_depth_push(ns: Seq<SpecNode>, n: SpecNode)
    ensures
        forest_depth(ns.push(n)) == depth_max(forest_depth(ns), node_depth(n)),
    decreases ns.len(),
{
    let q = ns.push(n);
    assert(q[0] == if ns.len() == 0 { n } else { ns[0] });
    assert(forest_depth(q) == depth_max(node_depth(q[0]), forest_depth(q.drop_first())));
    if ns.len() == 0 {
        assert(q.drop_first() =~= Seq::<SpecNode>::empty());
        assert(forest_depth(q.drop_first()) == 0);
        assert(forest_depth(ns) == 0);
    } else {
        assert(q.drop_first() =~= ns.drop_first().push(n));
        lemma_forest_depth_push(ns.drop_first(), n);
        assert(forest_depth(ns) == depth_max(node_depth(ns[0]), forest_depth(ns.drop_first())));
    }
}

proof fn lemma_peak_ge_stack(
    toks: Seq<SpecToken>,
    stack: Seq<SpecElementData>,
    roots: Seq<SpecNode>,
)
    ensures
        spec_peak(toks, stack, roots) >= stack.len(),
{
    if toks.len() == 0 {
    } else {
        match spec_feed(stack, roots, toks[0]) {
            Err(_) => {},
            Ok((stack2, roots2)) => {},
        }
    }
}

proof fn lemma_frames_measure_ge(st: Seq<SpecElementData>)
    requires
        st.len() > 0,
    ensures
        frames_measure(st) >= st.len(),
{
}

proof fn lemma_build_depth(
    toks: Seq<SpecToken>,
    st: Seq<SpecElementData>,
    rt: Seq<SpecNode>,
    ns: Seq<SpecNode>,
)
    requires
        spec_build_from(toks, st, rt) == Ok::<_, SpecParseError>(ns),
    ensures
        forest_depth(ns) == depth_max(
            forest_depth(rt),
            depth_max(frames_measure(st), spec_peak(toks, st, rt)),
        ),
    decreases toks.len(),
{
    if toks.len() == 0 {
        assert(st.len() == 0);
        assert(frames_measure(st) == 0);
        assert(spec_peak(toks, st, rt) == 0);
        assert(ns == rt);
    } else {
        match spec_feed(st, rt, toks[0]) {
            Err(_) => {
                assert(false);
            },
            Ok((st2, rt2)) => {
                lemma_build_depth(toks.drop_first(), st2, rt2, ns);
                lemma_peak_ge_stack(toks.drop_first(), st2, rt2);
                assert(spec_peak(toks, st, rt) == depth_max(
                    st.len(),
                    spec_peak(toks.drop_first(), st2, rt2),
                ));
                match toks[0] {
                    SpecToken::StartTag(tag, attrs) => {
                        let frame = SpecElementData {
                            tag_name: tag,
                            attributes: attrs,
                            children: Seq::empty(),
                        };
                        assert(st2 == st.push(frame));
                        assert(st2.drop_last() =~= st);
                        assert(st2.last() == frame);
                        assert(forest_depth(frame.children) == 0);
                        assert(frames_measure(st2) == depth_max(frames_measure(st), st2.len()));
                        assert(rt2 == rt);
                    },
                    SpecToken::Text(text) => {
                        if st.len() > 0 {
                            assert(st2.drop_last() =~= st.drop_last());
                            assert(st2.last().children == st.last().children.push(
                                SpecNode::Text(text),
                            ));
                            lemma_forest_depth_push(st.last().children, SpecNode::Text(text));
                            assert(forest_depth(st2.last().children) == forest_depth(
                                st.last().children,
                            ));
                            assert(st2.len() == st.len());
                            assert(frames_measure(st2) == frames_measure(st));
                            assert(rt2 == rt);
                        } else {
                            assert(st2 == st);
                            assert(rt2 == rt.push(SpecNode::Text(text)));
                            lemma_forest_depth_push(rt, SpecNode::Text(text));
                            assert(forest_depth(rt2) == forest_depth(rt));
                        }
                    },
                    SpecToken::EndTag(tag) => {
                        assert(st.len() > 0);
                        let f = st.last();
                        let node = SpecNode::Element(f);
                        assert(node_depth(node) == 1 + forest_depth(f.children));
                        let rest0 = st.drop_last();
                        lemma_frames_measure_ge(st);
                        assert(frames_measure(st) == depth_max(
                            frames_measure(rest0),
                            st.len() + forest_depth(f.children),
                        ));
                        if rest0.len() > 0 {
                            assert(st2.drop_last() =~= rest0.drop_last());
                            assert(st2.last().children == rest0.last().children.push(node));
                            lemma_forest_depth_push(rest0.last().children, node);
                            assert(st2.len() == rest0.len());
                            assert(frames_measure(st2) == depth_max(
                                frames_measure(rest0.drop_last()),
                                st2.len() + forest_depth(st2.last().children),
                            ));
                            assert(frames_measure(rest0) == depth_max(
                                frames_measure(rest0.drop_last()),
                                rest0.len() + forest_depth(rest0.last().children),
                            ));
                            assert(frames_measure(st2) == frames_measure(st));
                            assert(rt2 == rt);
                        } else {
                            assert(st2 == rest0);
                            assert(st2.len() == 0);
                            assert(frames_measure(st2) == 0);
                            assert(st.len() == 1);
                            assert(rt2 == rt.push(node));
                            lemma_forest_depth_push(rt, node);
                        }
                    },
                }
            },
        }
    }
}

/// Rebuilding a tree from a token stream gives a tree whose nesting depth
/// is exactly the maximum stack depth the builder reached while replaying
/// that stream.
pub proof fn lemma_depth_is_peak_stack(toks: Seq<SpecToken>, ns: Seq<SpecNode>)
    requires
        spec_build_from(toks, Seq::empty(), Seq::empty()) == Ok::<_, SpecParseError>(ns),
    ensures
        forest_depth(ns) == spec_peak(toks, Seq::empty(), Seq::empty()),
{
    lemma_build_depth(toks, Seq::empty(), Seq::empty(), ns);
    assert(frames_measure(Seq::empty()) == 0);
    assert(forest_depth(Seq::<SpecNode>::empty()) == 0);
}

/// The same, stated of a whole parse: tokenizing an input and immediately
/// rebuilding gives a tree exactly as deep as the builder's stack got.
pub proof fn lemma_parse_depth_is_peak_stack(s: Seq<char>, toks: Seq<SpecToken>, ns: Seq<SpecNode>)
    requires
        spec_tokenize_from(s, 0) == Ok::<_, SpecParseError>(toks),
        spec_parse(s) == Ok::<_, SpecParseError>(ns),
    ensures
        forest_depth(ns) == spec_peak(toks, Seq::empty(), Seq::empty()),
{
    lemma_run_is_build(s, 0, Seq::empty(), Seq::empty(), toks);
    lemma_depth_is_peak_stack(toks, ns);
}

} // verus!
