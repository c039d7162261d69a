use vstd::prelude::*;

use crate::attribute::{Attribute, SpecAttribute};
use crate::error::{ParseError, SpecParseError};
use crate::tag::{SpecTag, Tag};
use crate::tokenizer::{attrs_view, spec_next_token, SpecToken, Token, Tokenizer};

verus! {

/// An element of the tree: its tag, its attributes in source order, and its
/// children in source order.
#[derive(Debug, PartialEq, Eq)]
pub struct ElementData {
    pub tag_name: Tag,
    pub attributes: Vec<Attribute>,
    pub children: Vec<Node>,
}

/// A node of the document tree: an element or a run of text.
#[derive(Debug, PartialEq, Eq)]
pub enum Node {
    Element(ElementData),
    Text(String),
}

/// The mathematical model of an [`ElementData`].
#[verifier::ext_equal]
pub struct SpecElementData {
    pub tag_name: SpecTag,
    pub attributes: Seq<SpecAttribute>,
    pub children: Seq<SpecNode>,
}

/// The mathematical model of a [`Node`].
#[verifier::ext_equal]
pub enum SpecNode {
    Element(SpecElementData),
    Text(Seq<char>),
}

/// The model of a node.
pub open spec fn node_view(n: Node) -> SpecNode
    decreases n,
{
    match n {
        Node::Text(text) => SpecNode::Text(text@),
        Node::Element(ed) => SpecNode::Element(elem_view(ed)),
    }
}

/// The model of an element.
pub open spec fn elem_view(ed: ElementData) -> SpecElementData
    decreases ed,
{
    SpecElementData {
        tag_name: ed.tag_name@,
        attributes: attrs_view(ed.attributes@),
        children: nodes_view(ed.children@),
    }
}

/// The models of a sequence of nodes.
pub open spec fn nodes_view(s: Seq<Node>) -> Seq<SpecNode>
    decreases s,
{
    Seq::new(
        s.len(),
        |i: int|
            if 0 <= i < s.len() {
                node_view(s[i])
            } else {
                SpecNode::Text(Seq::empty())
            },
    )
}

/// The models of a sequence of elements.
pub open spec fn elems_view(s: Seq<ElementData>) -> Seq<SpecElementData> {
    s.map_values(|ed: ElementData| elem_view(ed))
}

impl View for Node {
    type V = SpecNode;

    open spec fn view(&self) -> SpecNode {
        node_view(*self)
    }
}

impl View for ElementData {
    type V = SpecElementData;

    open spec fn view(&self) -> SpecElementData {
        elem_view(*self)
    }
}

pub proof fn lemma_nodes_view_push(s: Seq<Node>, n: Node)
    ensures
        nodes_view(s.push(n)) == nodes_view(s).push(node_view(n)),
{
    assert(nodes_view(s.push(n)) =~= nodes_view(s).push(node_view(n)));
}

/// One step of the tree builder: the change a single token makes to the
/// stack of open elements and to the sequence of finished root nodes.
pub open spec fn spec_feed(
    stack: Seq<SpecElementData>,
    roots: Seq<SpecNode>,
    t: SpecToken,
) -> Result<(Seq<SpecElementData>, Seq<SpecNode>), SpecParseError> {
    match t {
        SpecToken::StartTag(tag, attrs) => Ok(
            (
                stack.push(SpecElementData { tag_name: tag, attributes: attrs, children: Seq::empty() }),
                roots,
            ),
        ),
        SpecToken::Text(text) => if stack.len() > 0 {
            Ok(
                (
                    stack.update(
                        stack.len() - 1,
                        SpecElementData {
                            tag_name: stack.last().tag_name,
                            attributes: stack.last().attributes,
                            children: stack.last().children.push(SpecNode::Text(text)),
                        },
                    ),
                    roots,
                ),
            )
        } else {
            Ok((stack, roots.push(SpecNode::Text(text))))
        },
        SpecToken::EndTag(tag) => if stack.len() == 0 {
            Err(SpecParseError::UnexpectedEndTag { found: tag })
        } else if stack.last().tag_name != tag {
            Err(SpecParseError::MismatchedEndTag { expected: stack.last().tag_name, found: tag })
        } else {
            let node = SpecNode::Element(stack.last());
            let rest = stack.drop_last();
            if rest.len() > 0 {
                Ok(
                    (
                        rest.update(
                            rest.len() - 1,
                            SpecElementData {
                                tag_name: rest.last().tag_name,
                                attributes: rest.last().attributes,
                                children: rest.last().children.push(node),
                            },
                        ),
                        roots,
                    ),
                )
            } else {
                Ok((rest, roots.push(node)))
            }
        },
    }
}

/// The whole parse from position `i` with the given builder state: tokens
/// are taken one at a time and fed to the builder; at the end of the input
/// the stack must be empty and the root nodes are the result.
pub open spec fn spec_run(
    s: Seq<char>,
    i: int,
    stack: Seq<SpecElementData>,
    roots: Seq<SpecNode>,
) -> Result<Seq<SpecNode>, SpecParseError>
    decreases s.len() - i,
{
    if i >= s.len() {
        if stack.len() == 0 {
            Ok(roots)
        } else {
            Err(SpecParseError::UnclosedElement { tag: stack.last().tag_name })
        }
    } else {
        match spec_next_token(s, i) {
            Err(e) => Err(e),
            Ok((t, j)) => if i < j <= s.len() {
                match spec_feed(stack, roots, t) {
                    Err(e) => Err(e),
                    Ok((stack2, roots2)) => spec_run(s, j, stack2, roots2),
                }
            } else {
                arbitrary()
            },
        }
    }
}

/// What parsing a text means: scan it from the start with nothing open.
pub open spec fn spec_parse(s: Seq<char>) -> Result<Seq<SpecNode>, SpecParseError> {
    spec_run(s, 0, Seq::empty(), Seq::empty())
}

/// Rebuilding a tree from an already-tokenized stream: the same fold as
/// [`spec_run`], but over tokens instead of characters.
pub open spec fn spec_build_from(
    toks: Seq<SpecToken>,
    stack: Seq<SpecElementData>,
    roots: Seq<SpecNode>,
) -> Result<Seq<SpecNode>, SpecParseError>
    decreases toks.len(),
{
    if toks.len() == 0 {
        if stack.len() == 0 {
            Ok(roots)
        } else {
            Err(SpecParseError::UnclosedElement { tag: stack.last().tag_name })
        }
    } else {
        match spec_feed(stack, roots, toks[0]) {
            Err(e) => Err(e),
            Ok((stack2, roots2)) => spec_build_from(toks.drop_first(), stack2, roots2),
        }
    }
}

/// When the whole input tokenizes, parsing it is the same as building a tree
/// from its token stream.
pub proof fn lemma_run_is_build(
    s: Seq<char>,
    i: int,
    stack: Seq<SpecElementData>,
    roots: Seq<SpecNode>,
    toks: Seq<SpecToken>,
)
    requires
        0 <= i,
        crate::tokenizer::spec_tokenize_from(s, i) == Ok::<_, SpecParseError>(toks),
    ensures
        spec_run(s, i, stack, roots) == spec_build_from(toks, stack, roots),
    decreases s.len() - i,
{
    if i >= s.len() {
        assert(toks =~= Seq::<SpecToken>::empty());
    } else {
        crate::tokenizer::lemma_next_token_advances(s, i);
        match spec_next_token(s, i) {
            Err(e) => {},
            Ok((t, j)) => {
                match crate::tokenizer::spec_tokenize_from(s, j) {
                    Err(e) => {},
                    Ok(ts) => {
                        assert(toks == seq![t] + ts);
                        assert(toks[0] == t);
                        assert(toks.drop_first() =~= ts);
                        match spec_feed(stack, roots, t) {
                            Err(e) => {},
                            Ok((stack2, roots2)) => {
                                lemma_run_is_build(s, j, stack2, roots2, ts);
                            },
                        }
                    },
                }
            },
        }
    }
}

/// An input that is exactly one self-contained element — its token stream is
/// a start tag immediately followed by the matching end tag — parses to
/// exactly one root element with an empty children sequence.
pub proof fn lemma_single_element(s: Seq<char>, tag: SpecTag, attrs: Seq<SpecAttribute>)
    requires
        crate::tokenizer::spec_tokenize_from(s, 0) == Ok::<_, SpecParseError>(
            seq![SpecToken::StartTag(tag, attrs), SpecToken::EndTag(tag)],
        ),
    ensures
        spec_parse(s) == Ok::<_, SpecParseError>(
            seq![
                SpecNode::Element(
                    SpecElementData { tag_name: tag, attributes: attrs, children: Seq::empty() },
                ),
            ],
        ),
{
    let toks = seq![SpecToken::StartTag(tag, attrs), SpecToken::EndTag(tag)];
    lemma_run_is_build(s, 0, Seq::empty(), Seq::empty(), toks);
    let frame = SpecElementData { tag_name: tag, attributes: attrs, children: Seq::empty() };
    let st1 = Seq::<SpecElementData>::empty().push(frame);
    let node = SpecNode::Element(frame);
    let none_open = Seq::<SpecElementData>::empty();
    let no_roots = Seq::<SpecNode>::empty();
    assert(spec_feed(none_open, no_roots, toks[0]) == Ok::<_, SpecParseError>((st1, no_roots)));
    let toks1 = toks.drop_first();
    assert(toks1 =~= seq![SpecToken::EndTag(tag)]);
    assert(st1.last() == frame);
    assert(st1.drop_last() =~= none_open);
    assert(spec_feed(st1, no_roots, toks1[0]) == Ok::<_, SpecParseError>(
        (st1.drop_last(), no_roots.push(node)),
    ));
    assert(toks1.drop_first() =~= Seq::<SpecToken>::empty());
    assert(spec_build_from(toks1.drop_first(), st1.drop_last(), no_roots.push(node))
        == Ok::<_, SpecParseError>(no_roots.push(node)));
    assert(spec_build_from(toks1, st1, no_roots) == Ok::<_, SpecParseError>(no_roots.push(node)));
    assert(spec_build_from(toks, none_open, no_roots) == Ok::<_, SpecParseError>(
        no_roots.push(node),
    ));
    assert(no_roots.push(node) =~= seq![node]);
}

/// The tree builder: feeds the token stream of a text into an explicit
/// stack of open elements.
pub struct Parser<'a> {
    tokenizer: Tokenizer<'a>,
}

impl<'a> Parser<'a> {
    /// The characters being parsed.
    pub closed spec fn text(&self) -> Seq<char> {
        self.tokenizer.text()
    }

    /// How many characters have been consumed.
    pub closed spec fn position(&self) -> int {
        self.tokenizer.position()
    }

    pub closed spec fn wf(&self) -> bool {
        self.tokenizer.wf()
    }

    pub fn new(input: &'a str) -> (p: Parser<'a>)
        ensures
            p.wf(),
            p.text() == input@,
            p.position() == 0,
    {
        Parser { tokenizer: Tokenizer::new(input) }
    }

    /// Consume the whole remaining input and build the document tree.
    pub fn parse_nodes(&mut self) -> (r: Result<Vec<Node>, ParseError>)
        requires
            old(self).wf(),
        ensures
            final(self).wf(),
            match spec_run(old(self).text(), old(self).position(), Seq::empty(), Seq::empty()) {
                Ok(ns) => r matches Ok(v) && nodes_view(v@) == ns,
                Err(e) => r matches Err(x) && x@ == e,
            },
    {
        let ghost s = self.tokenizer.text();
        let ghost goal = spec_run(s, self.tokenizer.position(), Seq::empty(), Seq::empty());
        let mut stack: Vec<ElementData> = Vec::new();
        let mut roots: Vec<Node> = Vec::new();
        proof {
            assert(elems_view(stack@) =~= Seq::<SpecElementData>::empty());
            assert(nodes_view(roots@) =~= Seq::<SpecNode>::empty());
        }
        loop
            invariant
                self.tokenizer.wf(),
                self.tokenizer.text() == s,
                spec_run(s, self.tokenizer.position(), elems_view(stack@), nodes_view(roots@))
                    == goal,
            decreases s.len() - self.tokenizer.position(),
        {
            let ghost st0 = elems_view(stack@);
            let tok = match self.tokenizer.next_token() {
                Ok(Some(t)) => t,
                Ok(None) => {
                    let ghost st_end = elems_view(stack@);
                    match stack.pop() {
                        Some(frame) => {
                            proof {
                                assert(st_end.last() == elem_view(frame));
                            }
                            return Err(ParseError::UnclosedElement { tag: frame.tag_name });
                        },
                        None => {
                            return Ok(roots);
                        },
                    }
                },
                Err(e) => { return Err(e); },
            };
            proof {
                self.tokenizer.lemma_wf_position();
            }
            match tok {
                Token::StartTag(tag, attributes) => {
                    let frame = ElementData { tag_name: tag, attributes, children: Vec::new() };
                    proof {
                        assert(nodes_view(frame.children@) =~= Seq::<SpecNode>::empty());
                        assert(elems_view(stack@.push(frame)) =~= st0.push(elem_view(frame)));
                    }
                    stack.push(frame);
                },
                Token::Text(text) => {
                    if stack.len() > 0 {
                        let mut frame = stack.pop().unwrap();
                        proof {
                            assert(st0.last() == elem_view(frame));
                            lemma_nodes_view_push(frame.children@, Node::Text(text));
                        }
                        frame.children.push(Node::Text(text));
                        proof {
                            assert(elems_view(stack@.push(frame)) =~= st0.update(
                                st0.len() - 1,
                                elem_view(frame),
                            ));
                        }
                        stack.push(frame);
                    } else {
                        proof {
                            lemma_nodes_view_push(roots@, Node::Text(text));
                        }
                        roots.push(Node::Text(text));
                    }
                },
                Token::EndTag(tag) => {
                    if stack.len() == 0 {
                        return Err(ParseError::UnexpectedEndTag { found: tag });
                    }
                    let frame = stack.pop().unwrap();
                    proof {
                        assert(st0.last() == elem_view(frame));
                        assert(st0.drop_last() =~= elems_view(stack@));
                    }
                    if !frame.tag_name.same_as(&tag) {
                        return Err(
                            ParseError::MismatchedEndTag { expected: frame.tag_name, found: tag },
                        );
                    }
                    let node = Node::Element(frame);
                    if stack.len() > 0 {
                        let mut parent = stack.pop().unwrap();
                        proof {
                            assert(st0.drop_last().last() == elem_view(parent));
                            lemma_nodes_view_push(parent.children@, node);
                        }
                        parent.children.push(node);
                        proof {
                            assert(elems_view(stack@.push(parent)) =~= st0.drop_last().update(
                                st0.drop_last().len() - 1,
                                elem_view(parent),
                            ));
                        }
                        stack.push(parent);
                    } else {
                        proof {
                            lemma_nodes_view_push(roots@, node);
                        }
                        roots.push(node);
                    }
                },
            }
        }
    }
}

/// Parse a whole markup text into its sequence of root nodes.
///
/// This is the boundary function the rest of a system calls: it either
/// returns the document's root-level nodes or reports the first structural
/// failure, exactly as [`spec_parse`] describes.
pub fn parse(input: &str) -> (r: Result<Vec<Node>, ParseError>)
    ensures
        match spec_parse(input@) {
            Ok(ns) => r matches Ok(v) && nodes_view(v@) == ns,
            Err(e) => r matches Err(x) && x@ == e,
        },
{
    let mut parser = Parser::new(input);
    parser.parse_nodes()
}

} // verus!
