use vstd::prelude::*;
use vstd::string::*;

use crate::attribute::{spec_attr_name, spec_attr_value, spec_resolve_attribute, SpecAttribute};
use crate::error::SpecParseError;
use crate::parser::{
    lemma_run_is_build, nodes_view, spec_build_from, spec_feed, spec_parse, spec_run, Node,
    SpecElementData, SpecNode,
};
use crate::tokenizer::attrs_view;
use crate::tokenizer::{
    scan_eq_end, scan_gt_end, scan_name_end, scan_quote_end, scan_text_end, spec_next_token,
    spec_scan_attribute, spec_scan_attributes, spec_scan_value, spec_tokenize_from, SpecToken,
};
use crate::tag::{spec_resolve_tag, spec_tag_chars, SpecTag};

verus! {

/// A text node's content can be re-emitted verbatim: it is non-empty (the
/// tokenizer never produces empty text) and holds no `<`.
pub open spec fn wf_text(text: Seq<char>) -> bool {
    text.len() > 0 && (forall|i: int| 0 <= i < text.len() ==> text[i] != '<')
}

/// A tag can be re-emitted: its name resolves back to the tag itself, holds
/// none of the characters that delimit a tag name, and does not begin like
/// an end tag.
pub open spec fn wf_tag(t: SpecTag) -> bool {
    let name = spec_tag_chars(t);
    &&& spec_resolve_tag(name) == t
    &&& forall|i: int| 0 <= i < name.len() ==> name[i] != ' ' && name[i] != '>'
    &&& (name.len() == 0 || name[0] != '/')
}

/// An attribute can be re-emitted: its name and value resolve back to the
/// attribute itself, the name holds no `=` and does not begin with a space
/// or `>`, and the value holds no quote.
pub open spec fn wf_attr(a: SpecAttribute) -> bool {
    let name = spec_attr_name(a);
    let value = spec_attr_value(a);
    &&& spec_resolve_attribute(name, value) == a
    &&& forall|i: int| 0 <= i < value.len() ==> value[i] != '"'
    &&& forall|i: int| 0 <= i < name.len() ==> name[i] != '='
    &&& (name.len() == 0 || (name[0] != ' ' && name[0] != '>'))
}

/// A node can be re-emitted: its text, tag and attributes are well-formed,
/// and so are all of its children.
pub open spec fn wf_node(n: SpecNode) -> bool
    decreases n,
{
    match n {
        SpecNode::Text(text) => wf_text(text),
        SpecNode::Element(ed) => {
            &&& wf_tag(ed.tag_name)
            &&& forall|i: int| 0 <= i < ed.attributes.len() ==> wf_attr(#[trigger] ed.attributes[i])
            &&& wf_nodes(ed.children)
        },
    }
}

/// A sequence of sibling nodes can be re-emitted: every node is
/// well-formed, and no two text nodes are adjacent (the tokenizer would
/// merge them into one).
pub open spec fn wf_nodes(ns: Seq<SpecNode>) -> bool
    decreases ns,
{
    &&& forall|i: int| 0 <= i < ns.len() ==> wf_node(#[trigger] ns[i])
    &&& forall|i: int|
        0 <= i < ns.len() - 1 ==> !((#[trigger] ns[i]) is Text && ns[i + 1] is Text)
}

/// The token stream a node's markup produces.
pub open spec fn toks_node(n: SpecNode) -> Seq<SpecToken>
    decreases n,
{
    match n {
        SpecNode::Text(text) => seq![SpecToken::Text(text)],
        SpecNode::Element(ed) => seq![SpecToken::StartTag(ed.tag_name, ed.attributes)]
            + toks_nodes(ed.children) + seq![SpecToken::EndTag(ed.tag_name)],
    }
}

/// The token stream a sequence of sibling nodes' markup produces.
pub open spec fn toks_nodes(ns: Seq<SpecNode>) -> Seq<SpecToken>
    decreases ns,
{
    if ns.len() == 0 {
        Seq::empty()
    } else {
        toks_node(ns[0]) + toks_nodes(ns.drop_first())
    }
}

/// The markup for one attribute: a leading space, the name, `="`, the
/// value, and the closing quote.
pub open spec fn spec_ser_attr(a: SpecAttribute) -> Seq<char> {
    " "@ + spec_attr_name(a) + "=\""@ + spec_attr_value(a) + "\""@
}

/// The markup for a run of attributes, in order.
pub open spec fn spec_ser_attrs(attrs: Seq<SpecAttribute>) -> Seq<char>
    decreases attrs.len(),
{
    if attrs.len() == 0 {
        Seq::empty()
    } else {
        spec_ser_attr(attrs[0]) + spec_ser_attrs(attrs.drop_first())
    }
}

/// The markup for one node: text stands as it is, an element is its start
/// tag, its children, and its end tag.
pub open spec fn spec_ser_node(n: SpecNode) -> Seq<char>
    decreases n,
{
    match n {
        SpecNode::Text(text) => text,
        SpecNode::Element(ed) => "<"@ + spec_tag_chars(ed.tag_name) + spec_ser_attrs(ed.attributes)
            + ">"@ + spec_ser_nodes(ed.children) + "</"@ + spec_tag_chars(ed.tag_name) + ">"@,
    }
}

/// The markup for a sequence of sibling nodes, in order.
pub open spec fn spec_ser_nodes(ns: Seq<SpecNode>) -> Seq<char>
    decreases ns,
{
    if ns.len() == 0 {
        Seq::empty()
    } else {
        spec_ser_node(ns[0]) + spec_ser_nodes(ns.drop_first())
    }
}

proof fn lemma_scan_text_end_at(s: Seq<char>, i: int, j: int)
    requires
        0 <= i <= j <= s.len(),
        forall|k: int| i <= k < j ==> s[k] != '<',
        j == s.len() || s[j] == '<',
    ensures
        scan_text_end(s, i) == j,
    decreases j - i,
{
    if i < j {
        lemma_scan_text_end_at(s, i + 1, j);
    }
}

proof fn lemma_scan_name_end_at(s: Seq<char>, i: int, j: int)
    requires
        0 <= i <= j <= s.len(),
        forall|k: int| i <= k < j ==> s[k] != ' ' && s[k] != '>',
        j == s.len() || s[j] == ' ' || s[j] == '>',
    ensures
        scan_name_end(s, i) == j,
    decreases j - i,
{
    if i < j {
        lemma_scan_name_end_at(s, i + 1, j);
    }
}

proof fn lemma_scan_gt_end_at(s: Seq<char>, i: int, j: int)
    requires
        0 <= i <= j <= s.len(),
        forall|k: int| i <= k < j ==> s[k] != '>',
        j == s.len() || s[j] == '>',
    ensures
        scan_gt_end(s, i) == j,
    decreases j - i,
{
    if i < j {
        lemma_scan_gt_end_at(s, i + 1, j);
    }
}

proof fn lemma_scan_eq_end_at(s: Seq<char>, i: int, j: int)
    requires
        0 <= i <= j <= s.len(),
        forall|k: int| i <= k < j ==> s[k] != '=',
        j == s.len() || s[j] == '=',
    ensures
        scan_eq_end(s, i) == j,
    decreases j - i,
{
    if i < j {
        lemma_scan_eq_end_at(s, i + 1, j);
    }
}

proof fn lemma_scan_quote_end_at(s: Seq<char>, i: int, j: int)
    requires
        0 <= i <= j <= s.len(),
        forall|k: int| i <= k < j ==> s[k] != '"',
        j == s.len() || s[j] == '"',
    ensures
        scan_quote_end(s, i) == j,
    decreases j - i,
{
    if i < j {
        lemma_scan_quote_end_at(s, i + 1, j);
    }
}

/// The concrete characters of the punctuation the serializer emits.
proof fn lemma_lit_chars()
    ensures
        "<"@ == seq!['<'],
        ">"@ == seq!['>'],
        "</"@ == seq!['<', '/'],
        " "@ == seq![' '],
        "=\""@ == seq!['=', '"'],
        "\""@ == seq!['"'],
{
    reveal_strlit("<");
    reveal_strlit(">");
    reveal_strlit("</");
    reveal_strlit(" ");
    reveal_strlit("=\"");
    reveal_strlit("\"");
    assert("<"@ =~= seq!['<']);
    assert(">"@ =~= seq!['>']);
    assert("</"@ =~= seq!['<', '/']);
    assert(" "@ =~= seq![' ']);
    assert("=\""@ =~= seq!['=', '"']);
    assert("\""@ =~= seq!['"']);
}

proof fn lemma_scan_attr_at(s: Seq<char>, k: int, a: SpecAttribute)
    requires
        wf_attr(a),
        0 <= k,
        k + spec_ser_attr(a).len() <= s.len(),
        forall|t: int|
            0 <= t < spec_ser_attr(a).len() ==> s[k + t] == #[trigger] spec_ser_attr(a)[t],
    ensures
        spec_ser_attr(a).len() == spec_attr_name(a).len() + spec_attr_value(a).len() + 4,
        spec_ser_attr(a)[0] == ' ',
        spec_scan_attribute(s, k + 1) == Ok::<_, SpecParseError>(
            (a, k + spec_ser_attr(a).len()),
        ),
{
    lemma_lit_chars();
    let ser = spec_ser_attr(a);
    let name = spec_attr_name(a);
    let value = spec_attr_value(a);
    let nl = name.len() as int;
    let vl = value.len() as int;
    assert(ser.len() == nl + vl + 4);
    assert(ser[0] == ' ');
    assert forall|t: int| 0 <= t < nl implies s[k + 1 + t] == name[t] by {
        assert(ser[1 + t] == name[t]);
        assert(s[k + (1 + t)] == ser[1 + t]);
    }
    assert(s[k + 1 + nl] == '=') by {
        assert(ser[1 + nl] == '=');
    }
    assert(s[k + 2 + nl] == '"') by {
        assert(ser[2 + nl] == '"');
    }
    assert forall|t: int| 0 <= t < vl implies s[k + 3 + nl + t] == value[t] by {
        assert(ser[3 + nl + t] == value[t]);
        assert(s[k + (3 + nl + t)] == ser[3 + nl + t]);
    }
    assert(s[k + 3 + nl + vl] == '"') by {
        assert(ser[3 + nl + vl] == '"');
    }
    assert forall|x: int| k + 1 <= x < k + 1 + nl implies s[x] != '=' by {
        let u = x - (k + 1);
        assert(s[k + 1 + u] == name[u]);
        assert(name[u] != '=');
    }
    lemma_scan_eq_end_at(s, k + 1, k + 1 + nl);
    let m = scan_eq_end(s, k + 1);
    assert(m == k + 1 + nl);
    assert(m < s.len());
    assert forall|x: int| k + 3 + nl <= x < k + 3 + nl + vl implies s[x] != '"' by {
        let u = x - (k + 3 + nl);
        assert(s[k + 3 + nl + u] == value[u]);
        assert(value[u] != '"');
    }
    lemma_scan_quote_end_at(s, k + 3 + nl, k + 3 + nl + vl);
    assert(s.subrange(k + 1, m) =~= name);
    assert(s.subrange(k + 3 + nl, k + 3 + nl + vl) =~= value);
    assert(spec_scan_value(s, m + 1) == Ok::<_, SpecParseError>((value, k + ser.len())));
}

proof fn lemma_scan_attrs_at(s: Seq<char>, k: int, attrs: Seq<SpecAttribute>)
    requires
        forall|i: int| 0 <= i < attrs.len() ==> wf_attr(#[trigger] attrs[i]),
        0 <= k,
        k + spec_ser_attrs(attrs).len() < s.len(),
        forall|t: int|
            0 <= t < spec_ser_attrs(attrs).len() ==> s[k + t] == #[trigger] spec_ser_attrs(
                attrs,
            )[t],
        s[k + spec_ser_attrs(attrs).len()] == '>',
    ensures
        spec_scan_attributes(s, k) == Ok::<_, SpecParseError>(
            (attrs, k + spec_ser_attrs(attrs).len()),
        ),
    decreases attrs.len(),
{
    lemma_lit_chars();
    let ser = spec_ser_attrs(attrs);
    if attrs.len() == 0 {
        assert(attrs =~= Seq::<SpecAttribute>::empty());
        assert(ser.len() == 0);
        assert(s[k] == '>');
    } else {
        let a0 = attrs[0];
        let ser0 = spec_ser_attr(a0);
        let rest = attrs.drop_first();
        assert(ser == ser0 + spec_ser_attrs(rest));
        assert forall|t: int| 0 <= t < ser0.len() implies s[k + t] == #[trigger] ser0[t] by {
            assert(ser[t] == ser0[t]);
        }
        lemma_scan_attr_at(s, k, a0);
        let k2 = k + ser0.len();
        assert forall|t: int|
            0 <= t < spec_ser_attrs(rest).len() implies s[k2 + t] == #[trigger] spec_ser_attrs(
            rest,
        )[t] by {
            assert(ser[ser0.len() + t] == spec_ser_attrs(rest)[t]);
            assert(s[k + (ser0.len() + t)] == ser[ser0.len() + t]);
        }
        assert forall|i: int| 0 <= i < rest.len() implies wf_attr(#[trigger] rest[i]) by {
            assert(rest[i] == attrs[i + 1]);
        }
        lemma_scan_attrs_at(s, k2, rest);
        assert(s[k] == ' ') by {
            assert(ser0[0] == ' ');
        }
        let name = spec_attr_name(a0);
        if name.len() > 0 {
            assert(s[k + 1] == name[0]) by {
                assert(ser0[1] == name[0]);
            }
        } else {
            assert(s[k + 1] == '=') by {
                assert(ser0[1] == '=');
            }
        }
        let k3 = k2 + spec_ser_attrs(rest).len();
        assert(spec_scan_attributes(s, k2) == Ok::<_, SpecParseError>((rest, k3)));
        assert(k3 == k + ser.len());
        assert(spec_scan_attribute(s, k + 1) == Ok::<_, SpecParseError>((a0, k2)));
        assert(k + 1 < k2 <= s.len());
        assert(spec_scan_attributes(s, k + 1) == Ok::<_, SpecParseError>((seq![a0] + rest, k3)));
        assert(spec_scan_attributes(s, k) == spec_scan_attributes(s, k + 1));
        assert(seq![a0] + rest =~= attrs);
    }
}

proof fn lemma_scan_text_end_interior(s: Seq<char>, i: int)
    requires
        0 <= i <= s.len(),
    ensures
        i <= scan_text_end(s, i) <= s.len(),
        forall|k: int| i <= k < scan_text_end(s, i) ==> s[k] != '<',
        scan_text_end(s, i) < s.len() ==> s[scan_text_end(s, i)] == '<',
    decreases s.len() - i,
{
    if i < s.len() && s[i] != '<' {
        lemma_scan_text_end_interior(s, i + 1);
    }
}

proof fn lemma_scan_name_end_interior(s: Seq<char>, i: int)
    requires
        0 <= i <= s.len(),
    ensures
        i <= scan_name_end(s, i) <= s.len(),
        forall|k: int| i <= k < scan_name_end(s, i) ==> s[k] != ' ' && s[k] != '>',
    decreases s.len() - i,
{
    if i < s.len() && !(s[i] == ' ' || s[i] == '>') {
        lemma_scan_name_end_interior(s, i + 1);
    }
}

proof fn lemma_scan_eq_end_interior(s: Seq<char>, i: int)
    requires
        0 <= i <= s.len(),
    ensures
        i <= scan_eq_end(s, i) <= s.len(),
        forall|k: int| i <= k < scan_eq_end(s, i) ==> s[k] != '=',
    decreases s.len() - i,
{
    if i < s.len() && s[i] != '=' {
        lemma_scan_eq_end_interior(s, i + 1);
    }
}

proof fn lemma_scan_quote_end_interior(s: Seq<char>, i: int)
    requires
        0 <= i <= s.len(),
    ensures
        i <= scan_quote_end(s, i) <= s.len(),
        forall|k: int| i <= k < scan_quote_end(s, i) ==> s[k] != '"',
    decreases s.len() - i,
{
    if i < s.len() && s[i] != '"' {
        lemma_scan_quote_end_interior(s, i + 1);
    }
}

/// A token the scanner can hand to the builder without spoiling
/// re-emittability.
pub open spec fn wf_token(t: SpecToken) -> bool {
    match t {
        SpecToken::Text(text) => wf_text(text),
        SpecToken::StartTag(tag, attrs) => wf_tag(tag) && (forall|i: int|
            0 <= i < attrs.len() ==> wf_attr(#[trigger] attrs[i])),
        SpecToken::EndTag(_) => true,
    }
}

proof fn lemma_scan_attributes_wf(s: Seq<char>, k: int)
    requires
        0 <= k <= s.len(),
    ensures
        match spec_scan_attributes(s, k) {
            Ok((attrs, end)) => forall|i: int| 0 <= i < attrs.len() ==> wf_attr(
                #[trigger] attrs[i],
            ),
            Err(e) => true,
        },
    decreases s.len() - k,
{
    if k >= s.len() {
    } else if s[k] == '>' {
    } else if s[k] == ' ' {
        lemma_scan_attributes_wf(s, k + 1);
    } else {
        crate::tokenizer::lemma_scan_attribute_bounds(s, k);
        lemma_scan_eq_end_interior(s, k);
        let m = scan_eq_end(s, k);
        let p = if m < s.len() {
            m + 1
        } else {
            m
        };
        if p < s.len() {
            lemma_scan_quote_end_interior(s, p + 1);
        }
        match spec_scan_attribute(s, k) {
            Ok((a, k2)) => {
                let name = s.subrange(k, m);
                assert forall|i: int| 0 <= i < name.len() implies name[i] != '=' by {
                    assert(name[i] == s[k + i]);
                }
                assert(name.len() == 0 || (name[0] != ' ' && name[0] != '>'));
                match spec_scan_value(s, p) {
                    Ok((value, _)) => {
                        let q = scan_quote_end(s, p + 1);
                        assert forall|i: int| 0 <= i < value.len() implies value[i] != '"' by {
                            assert(value[i] == s[p + 1 + i]);
                        }
                        assert(wf_attr(spec_resolve_attribute(name, value)));
                    },
                    Err(_) => {},
                }
                lemma_scan_attributes_wf(s, k2);
                match spec_scan_attributes(s, k2) {
                    Ok((rest, end)) => {
                        assert forall|i: int|
                            0 <= i < (seq![a] + rest).len() implies wf_attr(
                            #[trigger] (seq![a] + rest)[i],
                        ) by {
                            if i > 0 {
                                assert((seq![a] + rest)[i] == rest[i - 1]);
                            }
                        }
                    },
                    Err(_) => {},
                }
            },
            Err(_) => {},
        }
    }
}

/// Every token the scanner produces is well-formed, and after a text token
/// the cursor rests on a `<` or at the end of the input.
proof fn lemma_next_token_wf(s: Seq<char>, i: int)
    requires
        0 <= i < s.len(),
    ensures
        match spec_next_token(s, i) {
            Ok((t, j)) => wf_token(t) && (t is Text ==> (j == s.len() || s[j] == '<')),
            Err(e) => true,
        },
{
    if s[i] == '<' {
        if i + 1 < s.len() && s[i + 1] == '/' {
        } else {
            lemma_scan_name_end_interior(s, i + 1);
            let j = scan_name_end(s, i + 1);
            let name = s.subrange(i + 1, j);
            assert forall|k: int| 0 <= k < name.len() implies name[k] != ' ' && name[k]
                != '>' by {
                assert(name[k] == s[i + 1 + k]);
            }
            if name.len() > 0 {
                assert(name[0] == s[i + 1]);
                assert(s[i + 1] != '/');
            }
            assert(wf_tag(spec_resolve_tag(name)));
            if j < s.len() && s[j] != '>' {
                lemma_scan_attributes_wf(s, j + 1);
            }
        }
    } else {
        lemma_scan_text_end_interior(s, i);
        let j = scan_text_end(s, i);
        let text = s.subrange(i, j);
        assert(j > i);
        assert forall|k: int| 0 <= k < text.len() implies text[k] != '<' by {
            assert(text[k] == s[i + k]);
        }
    }
}

proof fn lemma_wf_nodes_push(ns: Seq<SpecNode>, n: SpecNode)
    requires
        wf_nodes(ns),
        wf_node(n),
        ns.len() > 0 ==> !(ns.last() is Text && n is Text),
    ensures
        wf_nodes(ns.push(n)),
{
    let q = ns.push(n);
    assert forall|i: int| 0 <= i < q.len() implies wf_node(#[trigger] q[i]) by {
        if i < ns.len() {
            assert(q[i] == ns[i]);
        } else {
            assert(q[i] == n);
        }
    }
    assert forall|i: int|
        0 <= i < q.len() - 1 implies !((#[trigger] q[i]) is Text && q[i + 1] is Text) by {
        if i < ns.len() - 1 {
            assert(q[i] == ns[i]);
            assert(q[i + 1] == ns[i + 1]);
        } else {
            assert(q[i] == ns.last());
            assert(q[i + 1] == n);
        }
    }
}

/// Every open frame could be sealed into a well-formed element.
pub open spec fn wf_frames(st: Seq<SpecElementData>) -> bool {
    forall|k: int|
        0 <= k < st.len() ==> {
            let f = #[trigger] st[k];
            wf_tag(f.tag_name) && (forall|i: int|
                0 <= i < f.attributes.len() ==> wf_attr(#[trigger] f.attributes[i]))
                && wf_nodes(f.children)
        }
}

/// The sequence the next finished node would be appended to.
pub open spec fn insertion_point(st: Seq<SpecElementData>, rt: Seq<SpecNode>) -> Seq<SpecNode> {
    if st.len() > 0 {
        st.last().children
    } else {
        rt
    }
}

proof fn lemma_run_wf(
    s: Seq<char>,
    i: int,
    st: Seq<SpecElementData>,
    rt: Seq<SpecNode>,
    ns: Seq<SpecNode>,
)
    requires
        0 <= i,
        spec_run(s, i, st, rt) == Ok::<_, SpecParseError>(ns),
        wf_frames(st),
        wf_nodes(rt),
        ({
            let tip = insertion_point(st, rt);
            tip.len() > 0 && tip.last() is Text ==> (i >= s.len() || s[i] == '<')
        }),
    ensures
        wf_nodes(ns),
    decreases s.len() - i,
{
    if i >= s.len() {
        assert(st.len() == 0);
        assert(ns == rt);
    } else {
        crate::tokenizer::lemma_next_token_advances(s, i);
        lemma_next_token_wf(s, i);
        match spec_next_token(s, i) {
            Err(_) => {
                assert(false);
            },
            Ok((t, j)) => {
                match spec_feed(st, rt, t) {
                    Err(_) => {
                        assert(false);
                    },
                    Ok((st2, rt2)) => {
                        match t {
                            SpecToken::StartTag(tag, attrs) => {
                                let frame = SpecElementData {
                                    tag_name: tag,
                                    attributes: attrs,
                                    children: Seq::empty(),
                                };
                                assert(st2 == st.push(frame));
                                assert(wf_nodes(frame.children));
                                assert forall|k: int|
                                    0 <= k < st2.len() implies {
                                    let f = #[trigger] st2[k];
                                    wf_tag(f.tag_name) && (forall|x: int|
                                        0 <= x < f.attributes.len() ==> wf_attr(
                                            #[trigger] f.attributes[x],
                                        )) && wf_nodes(f.children)
                                } by {
                                    if k < st.len() {
                                        assert(st2[k] == st[k]);
                                    } else {
                                        assert(st2[k] == frame);
                                    }
                                }
                                assert(insertion_point(st2, rt2) == frame.children);
                                lemma_run_wf(s, j, st2, rt2, ns);
                            },
                            SpecToken::Text(text) => {
                                let tip = insertion_point(st, rt);
                                assert(s[i] != '<');
                                assert(tip.len() > 0 ==> !(tip.last() is Text));
                                assert(wf_node(SpecNode::Text(text)));
                                lemma_wf_nodes_push(tip, SpecNode::Text(text));
                                if st.len() > 0 {
                                    assert(st2 == st.update(
                                        st.len() - 1,
                                        SpecElementData {
                                            tag_name: st.last().tag_name,
                                            attributes: st.last().attributes,
                                            children: st.last().children.push(
                                                SpecNode::Text(text),
                                            ),
                                        },
                                    ));
                                    assert forall|k: int|
                                        0 <= k < st2.len() implies {
                                        let f = #[trigger] st2[k];
                                        wf_tag(f.tag_name) && (forall|x: int|
                                            0 <= x < f.attributes.len() ==> wf_attr(
                                                #[trigger] f.attributes[x],
                                            )) && wf_nodes(f.children)
                                    } by {
                                        if k < st.len() - 1 {
                                            assert(st2[k] == st[k]);
                                        } else {
                                            assert(st[st.len() - 1] == st.last());
                                        }
                                    }
                                    assert(insertion_point(st2, rt2) == st.last().children.push(
                                        SpecNode::Text(text),
                                    ));
                                } else {
                                    assert(st2 == st);
                                    assert(rt2 == rt.push(SpecNode::Text(text)));
                                }
                                assert(insertion_point(st2, rt2).last() is Text);
                                assert(j == s.len() || s[j] == '<');
                                lemma_run_wf(s, j, st2, rt2, ns);
                            },
                            SpecToken::EndTag(tag) => {
                                assert(st.len() > 0);
                                let f = st.last();
                                assert(st[st.len() - 1] == f);
                                assert(wf_tag(f.tag_name) && wf_nodes(f.children));
                                let node = SpecNode::Element(f);
                                assert(wf_node(node));
                                let rest = st.drop_last();
                                assert forall|k: int| 0 <= k < rest.len() implies rest[k]
                                    == st[k] by {}
                                if rest.len() > 0 {
                                    assert(rest.last() == st[st.len() - 2]);
                                    lemma_wf_nodes_push(rest.last().children, node);
                                    assert(st2 == rest.update(
                                        rest.len() - 1,
                                        SpecElementData {
                                            tag_name: rest.last().tag_name,
                                            attributes: rest.last().attributes,
                                            children: rest.last().children.push(node),
                                        },
                                    ));
                                    assert forall|k: int|
                                        0 <= k < st2.len() implies {
                                        let g = #[trigger] st2[k];
                                        wf_tag(g.tag_name) && (forall|x: int|
                                            0 <= x < g.attributes.len() ==> wf_attr(
                                                #[trigger] g.attributes[x],
                                            )) && wf_nodes(g.children)
                                    } by {
                                        if k < rest.len() - 1 {
                                            assert(st2[k] == st[k]);
                                        }
                                    }
                                    assert(insertion_point(st2, rt2).last() == node);
                                } else {
                                    assert(st2 == rest);
                                    lemma_wf_nodes_push(rt, node);
                                    assert(rt2 == rt.push(node));
                                    assert(insertion_point(st2, rt2).last() == node);
                                }
                                assert forall|k: int|
                                    0 <= k < st2.len() implies {
                                    let g = #[trigger] st2[k];
                                    wf_tag(g.tag_name) && (forall|x: int|
                                        0 <= x < g.attributes.len() ==> wf_attr(
                                            #[trigger] g.attributes[x],
                                        )) && wf_nodes(g.children)
                                } by {}
                                lemma_run_wf(s, j, st2, rt2, ns);
                            },
                        }
                    },
                }
            },
        }
    }
}

/// What a successful parse returns is always well-formed: the tokenizer
/// and the builder never produce a tree the serializer could not re-emit.
pub proof fn lemma_parse_wf(s: Seq<char>, ns: Seq<SpecNode>)
    requires
        spec_parse(s) == Ok::<_, SpecParseError>(ns),
    ensures
        wf_nodes(ns),
{
    lemma_run_wf(s, 0, Seq::empty(), Seq::empty(), ns);
}

/// Tokenizing from the start of a well-formed node's markup yields the
/// node's tokens, followed by whatever the rest of the text yields.
#[verifier::rlimit(100)]
#[verifier::spinoff_prover]
proof fn lemma_tokenize_ser_node(s: Seq<char>, i: int, n: SpecNode)
    requires
        wf_node(n),
        0 <= i,
        i + spec_ser_node(n).len() <= s.len(),
        forall|t: int|
            0 <= t < spec_ser_node(n).len() ==> s[i + t] == #[trigger] spec_ser_node(n)[t],
        n is Text ==> (i + spec_ser_node(n).len() == s.len() || s[i + spec_ser_node(n).len()]
            == '<'),
    ensures
        spec_tokenize_from(s, i) == match spec_tokenize_from(s, i + spec_ser_node(n).len()) {
            Ok(ts) => Ok::<_, SpecParseError>(toks_node(n) + ts),
            Err(e) => Err::<Seq<SpecToken>, _>(e),
        },
    decreases n,
{
    lemma_lit_chars();
    let L = spec_ser_node(n).len() as int;
    match n {
        SpecNode::Text(text) => {
            assert(L == text.len());
            assert forall|x: int| i <= x < i + L implies s[x] != '<' by {
                let u = x - i;
                assert(s[i + u] == spec_ser_node(n)[u]);
            }
            lemma_scan_text_end_at(s, i, i + L);
            assert(s[i] == text[0]) by {
                assert(s[i + 0] == spec_ser_node(n)[0]);
            }
            assert(s.subrange(i, i + L) =~= text);
            assert(spec_next_token(s, i) == Ok::<_, SpecParseError>(
                (SpecToken::Text(text), i + L),
            ));
            match spec_tokenize_from(s, i + L) {
                Ok(ts) => {
                    assert(spec_tokenize_from(s, i) == Ok::<_, SpecParseError>(
                        seq![SpecToken::Text(text)] + ts,
                    ));
                },
                Err(e) => {
                    assert(spec_tokenize_from(s, i) == Err::<Seq<SpecToken>, _>(e));
                },
            }
        },
        SpecNode::Element(ed) => {
            let name = spec_tag_chars(ed.tag_name);
            let nl = name.len() as int;
            let attrs = ed.attributes;
            let al = spec_ser_attrs(attrs).len() as int;
            let kids = ed.children;
            let cl = spec_ser_nodes(kids).len() as int;
            let ser = spec_ser_node(n);
            assert(ser == "<"@ + name + spec_ser_attrs(attrs) + ">"@ + spec_ser_nodes(kids)
                + "</"@ + name + ">"@);
            assert(L == 5 + 2 * nl + al + cl);
            assert(s[i] == '<') by {
                assert(ser[0] == '<');
                assert(s[i + 0] == ser[0]);
            }
            assert forall|t: int| 0 <= t < nl implies s[i + 1 + t] == name[t] by {
                assert(ser[1 + t] == name[t]);
                assert(s[i + (1 + t)] == ser[1 + t]);
            }
            assert forall|t: int|
                0 <= t < al implies s[i + 1 + nl + t] == #[trigger] spec_ser_attrs(attrs)[t] by {
                assert(ser[1 + nl + t] == spec_ser_attrs(attrs)[t]);
                assert(s[i + (1 + nl + t)] == ser[1 + nl + t]);
            }
            assert(s[i + 1 + nl + al] == '>') by {
                assert(ser[1 + nl + al] == '>');
                assert(s[i + (1 + nl + al)] == ser[1 + nl + al]);
            }
            assert forall|t: int|
                0 <= t < cl implies s[i + 2 + nl + al + t] == #[trigger] spec_ser_nodes(
                kids,
            )[t] by {
                assert(ser[2 + nl + al + t] == spec_ser_nodes(kids)[t]);
                assert(s[i + (2 + nl + al + t)] == ser[2 + nl + al + t]);
            }
            let p2 = i + 2 + nl + al + cl;
            assert(s[p2] == '<') by {
                assert(ser[2 + nl + al + cl] == '<');
                assert(s[i + (2 + nl + al + cl)] == ser[2 + nl + al + cl]);
            }
            assert(s[p2 + 1] == '/') by {
                assert(ser[3 + nl + al + cl] == '/');
                assert(s[i + (3 + nl + al + cl)] == ser[3 + nl + al + cl]);
            }
            assert forall|t: int| 0 <= t < nl implies s[p2 + 2 + t] == name[t] by {
                assert(ser[4 + nl + al + cl + t] == name[t]);
                assert(s[i + (4 + nl + al + cl + t)] == ser[4 + nl + al + cl + t]);
            }
            assert(s[p2 + 2 + nl] == '>') by {
                assert(ser[4 + 2 * nl + al + cl] == '>');
                assert(s[i + (4 + 2 * nl + al + cl)] == ser[4 + 2 * nl + al + cl]);
            }
            // the character after the opening '<' is never '/'
            if nl > 0 {
                assert(s[i + 1] == name[0]);
                assert(name[0] != '/') by {
                    assert(spec_resolve_tag(name) == ed.tag_name);
                }
            } else if attrs.len() == 0 {
                assert(al == 0);
                assert(s[i + 1] == '>');
            } else {
                assert(spec_ser_attrs(attrs) == spec_ser_attr(attrs[0]) + spec_ser_attrs(
                    attrs.drop_first(),
                ));
                assert(spec_ser_attr(attrs[0])[0] == ' ');
                assert(spec_ser_attrs(attrs)[0] == ' ');
                assert(s[i + 1] == ' ');
            }
            assert(s[i + 1] != '/');
            // the tag name scan stops right after the name
            assert forall|x: int| i + 1 <= x < i + 1 + nl implies s[x] != ' ' && s[x] != '>' by {
                let u = x - (i + 1);
                assert(s[i + 1 + u] == name[u]);
            }
            let j = i + 1 + nl;
            let p1 = i + 2 + nl + al;
            if attrs.len() == 0 {
                assert(al == 0);
                assert(s[j] == '>');
                lemma_scan_name_end_at(s, i + 1, j);
                assert(s.subrange(i + 1, j) =~= name);
                assert(attrs =~= Seq::<SpecAttribute>::empty());
                assert(spec_next_token(s, i) == Ok::<_, SpecParseError>(
                    (SpecToken::StartTag(ed.tag_name, attrs), p1),
                ));
            } else {
                assert(spec_ser_attr(attrs[0]).len() == spec_attr_name(attrs[0]).len()
                    + spec_attr_value(attrs[0]).len() + 4);
                assert(spec_ser_attrs(attrs) == spec_ser_attr(attrs[0]) + spec_ser_attrs(
                    attrs.drop_first(),
                ));
                assert(al >= 4);
                assert(spec_ser_attr(attrs[0])[0] == ' ');
                assert(spec_ser_attrs(attrs)[0] == ' ');
                assert(s[j] == ' ');
                lemma_scan_name_end_at(s, i + 1, j);
                assert(s.subrange(i + 1, j) =~= name);
                assert forall|t: int|
                    0 <= t < al implies s[j + t] == #[trigger] spec_ser_attrs(attrs)[t] by {
                    assert(s[i + 1 + nl + t] == spec_ser_attrs(attrs)[t]);
                }
                lemma_scan_attrs_at(s, j, attrs);
                assert(spec_scan_attributes(s, j) == spec_scan_attributes(s, j + 1));
                assert(spec_next_token(s, i) == Ok::<_, SpecParseError>(
                    (SpecToken::StartTag(ed.tag_name, attrs), p1),
                ));
            }
            // the children
            assert forall|t: int|
                0 <= t < cl implies s[p1 + t] == #[trigger] spec_ser_nodes(kids)[t] by {
                assert(s[i + 2 + nl + al + t] == spec_ser_nodes(kids)[t]);
            }
            lemma_tokenize_ser_nodes(s, p1, kids);
            // the end tag
            assert forall|x: int| p2 + 2 <= x < p2 + 2 + nl implies s[x] != '>' by {
                let u = x - (p2 + 2);
                assert(s[p2 + 2 + u] == name[u]);
            }
            lemma_scan_gt_end_at(s, p2 + 2, p2 + 2 + nl);
            assert(s.subrange(p2 + 2, p2 + 2 + nl) =~= name);
            assert(spec_next_token(s, p2) == Ok::<_, SpecParseError>(
                (SpecToken::EndTag(ed.tag_name), i + L),
            ));
            // assemble the three pieces
            let start_tok = SpecToken::StartTag(ed.tag_name, attrs);
            let end_tok = SpecToken::EndTag(ed.tag_name);
            let toksk = toks_nodes(kids);
            match spec_tokenize_from(s, i + L) {
                Ok(ts) => {
                    assert(spec_tokenize_from(s, p2) == Ok::<_, SpecParseError>(
                        seq![end_tok] + ts,
                    ));
                    assert(spec_tokenize_from(s, p1) == Ok::<_, SpecParseError>(
                        toksk + (seq![end_tok] + ts),
                    ));
                    assert(spec_tokenize_from(s, i) == Ok::<_, SpecParseError>(
                        seq![start_tok] + (toksk + (seq![end_tok] + ts)),
                    ));
                    assert(seq![start_tok] + (toksk + (seq![end_tok] + ts)) =~= toks_node(n) + ts);
                },
                Err(e) => {
                    assert(spec_tokenize_from(s, p2) == Err::<Seq<SpecToken>, _>(e));
                    assert(spec_tokenize_from(s, p1) == Err::<Seq<SpecToken>, _>(e));
                    assert(spec_tokenize_from(s, i) == Err::<Seq<SpecToken>, _>(e));
                },
            }
        },
    }
}

/// Tokenizing from the start of a well-formed forest's markup yields the
/// forest's tokens, followed by whatever the rest of the text yields.  The
/// forest's markup must end the text or be followed by a tag.
proof fn lemma_tokenize_ser_nodes(s: Seq<char>, i: int, ns: Seq<SpecNode>)
    requires
        wf_nodes(ns),
        0 <= i,
        i + spec_ser_nodes(ns).len() <= s.len(),
        forall|t: int|
            0 <= t < spec_ser_nodes(ns).len() ==> s[i + t] == #[trigger] spec_ser_nodes(ns)[t],
        i + spec_ser_nodes(ns).len() == s.len() || s[i + spec_ser_nodes(ns).len()] == '<',
    ensures
        spec_tokenize_from(s, i) == match spec_tokenize_from(s, i + spec_ser_nodes(ns).len()) {
            Ok(ts) => Ok::<_, SpecParseError>(toks_nodes(ns) + ts),
            Err(e) => Err::<Seq<SpecToken>, _>(e),
        },
    decreases ns,
{
    let L = spec_ser_nodes(ns).len() as int;
    if ns.len() == 0 {
        assert(L == 0);
        match spec_tokenize_from(s, i) {
            Ok(ts) => {
                assert(toks_nodes(ns) + ts =~= ts);
            },
            Err(_) => {},
        }
    } else {
        let n0 = ns[0];
        let rest = ns.drop_first();
        let ser0 = spec_ser_node(n0);
        let l0 = ser0.len() as int;
        assert(spec_ser_nodes(ns) == ser0 + spec_ser_nodes(rest));
        assert forall|t: int| 0 <= t < l0 implies s[i + t] == #[trigger] ser0[t] by {
            assert(spec_ser_nodes(ns)[t] == ser0[t]);
        }
        assert forall|t: int|
            0 <= t < L - l0 implies s[i + l0 + t] == #[trigger] spec_ser_nodes(rest)[t] by {
            assert(spec_ser_nodes(ns)[l0 + t] == spec_ser_nodes(rest)[t]);
            assert(s[i + (l0 + t)] == spec_ser_nodes(ns)[l0 + t]);
        }
        assert(wf_node(n0));
        assert forall|k: int| 0 <= k < rest.len() implies wf_node(#[trigger] rest[k]) by {
            assert(rest[k] == ns[k + 1]);
        }
        assert forall|k: int|
            0 <= k < rest.len() - 1 implies !((#[trigger] rest[k]) is Text && rest[k + 1]
            is Text) by {
            assert(rest[k] == ns[k + 1]);
            assert(rest[k + 1] == ns[k + 2]);
        }
        if n0 is Text && rest.len() > 0 {
            assert(!(ns[1] is Text));
            assert(rest[0] == ns[1]);
            assert(spec_ser_nodes(rest) == spec_ser_node(rest[0]) + spec_ser_nodes(
                rest.drop_first(),
            ));
            match rest[0] {
                SpecNode::Element(ed0) => {
                    lemma_lit_chars();
                    assert(spec_ser_node(rest[0])[0] == '<');
                    assert(spec_ser_nodes(rest)[0] == '<');
                    assert(s[i + l0 + 0] == spec_ser_nodes(rest)[0]);
                },
                SpecNode::Text(_) => {
                    assert(false);
                },
            }
            assert(s[i + l0] == '<');
        }
        lemma_tokenize_ser_node(s, i, n0);
        lemma_tokenize_ser_nodes(s, i + l0, rest);
        match spec_tokenize_from(s, i + L) {
            Ok(ts) => {
                assert(spec_tokenize_from(s, i + l0) == Ok::<_, SpecParseError>(
                    toks_nodes(rest) + ts,
                ));
                assert(spec_tokenize_from(s, i) == Ok::<_, SpecParseError>(
                    toks_node(n0) + (toks_nodes(rest) + ts),
                ));
                assert(toks_node(n0) + (toks_nodes(rest) + ts) =~= toks_nodes(ns) + ts);
            },
            Err(e) => {
                assert(spec_tokenize_from(s, i + l0) == Err::<Seq<SpecToken>, _>(e));
                assert(spec_tokenize_from(s, i) == Err::<Seq<SpecToken>, _>(e));
            },
        }
    }
}

/// The open-element stack with extra children appended to its top frame.
pub open spec fn push_top_children(
    st: Seq<SpecElementData>,
    more: Seq<SpecNode>,
) -> Seq<SpecElementData>
    recommends
        st.len() > 0,
{
    st.update(
        st.len() - 1,
        SpecElementData {
            tag_name: st.last().tag_name,
            attributes: st.last().attributes,
            children: st.last().children + more,
        },
    )
}

/// Feeding a well-formed node's token stream to the builder appends the
/// node at the current insertion point: the top frame's children, or the
/// roots when nothing is open.
proof fn lemma_build_toks_node(
    n: SpecNode,
    ts: Seq<SpecToken>,
    st: Seq<SpecElementData>,
    rt: Seq<SpecNode>,
)
    ensures
        spec_build_from(toks_node(n) + ts, st, rt) == if st.len() > 0 {
            spec_build_from(ts, push_top_children(st, seq![n]), rt)
        } else {
            spec_build_from(ts, st, rt.push(n))
        },
    decreases n,
{
    match n {
        SpecNode::Text(text) => {
            let q = toks_node(n) + ts;
            assert(q[0] == SpecToken::Text(text));
            assert(q.drop_first() =~= ts);
            if st.len() > 0 {
                assert(st.last().children.push(n) =~= st.last().children + seq![n]);
                assert(spec_feed(st, rt, q[0]) == Ok::<_, SpecParseError>(
                    (push_top_children(st, seq![n]), rt),
                ));
            } else {
                assert(spec_feed(st, rt, q[0]) == Ok::<_, SpecParseError>((st, rt.push(n))));
            }
        },
        SpecNode::Element(ed) => {
            let start_tok = SpecToken::StartTag(ed.tag_name, ed.attributes);
            let end_tok = SpecToken::EndTag(ed.tag_name);
            let q = toks_node(n) + ts;
            let q1 = toks_nodes(ed.children) + (seq![end_tok] + ts);
            assert(q[0] == start_tok);
            assert(q.drop_first() =~= q1);
            let frame = SpecElementData {
                tag_name: ed.tag_name,
                attributes: ed.attributes,
                children: Seq::empty(),
            };
            assert(spec_feed(st, rt, start_tok) == Ok::<_, SpecParseError>(
                (st.push(frame), rt),
            ));
            lemma_build_toks_nodes(ed.children, seq![end_tok] + ts, st.push(frame), rt);
            let st1 = push_top_children(st.push(frame), ed.children);
            assert(st.push(frame).last() == frame);
            assert(spec_build_from(q1, st.push(frame), rt) == spec_build_from(
                seq![end_tok] + ts,
                st1,
                rt,
            ));
            assert(Seq::<SpecNode>::empty() + ed.children =~= ed.children);
            assert(st1.last() == ed);
            let q2 = seq![end_tok] + ts;
            assert(q2[0] == end_tok);
            assert(q2.drop_first() =~= ts);
            assert(st1.len() == st.len() + 1);
            assert(st1.drop_last() =~= st);
            assert(SpecNode::Element(st1.last()) == n);
            if st.len() > 0 {
                assert(st.last().children.push(n) =~= st.last().children + seq![n]);
                assert(st1.drop_last().last() == st.last());
                assert(spec_feed(st1, rt, end_tok) == Ok::<_, SpecParseError>(
                    (push_top_children(st, seq![n]), rt),
                ));
            } else {
                assert(spec_feed(st1, rt, end_tok) == Ok::<_, SpecParseError>(
                    (st1.drop_last(), rt.push(n)),
                ));
            }
            assert(spec_build_from(q, st, rt) == spec_build_from(q1, st.push(frame), rt));
        },
    }
}

/// Feeding a forest's token stream appends the forest at the current
/// insertion point.
proof fn lemma_build_toks_nodes(
    ns: Seq<SpecNode>,
    ts: Seq<SpecToken>,
    st: Seq<SpecElementData>,
    rt: Seq<SpecNode>,
)
    ensures
        spec_build_from(toks_nodes(ns) + ts, st, rt) == if st.len() > 0 {
            spec_build_from(ts, push_top_children(st, ns), rt)
        } else {
            spec_build_from(ts, st, rt + ns)
        },
    decreases ns,
{
    if ns.len() == 0 {
        assert(toks_nodes(ns) + ts =~= ts);
        if st.len() > 0 {
            assert(st.last().children + ns =~= st.last().children);
            assert(push_top_children(st, ns) =~= st);
        } else {
            assert(rt + ns =~= rt);
        }
    } else {
        let n0 = ns[0];
        let rest = ns.drop_first();
        assert(toks_nodes(ns) == toks_node(n0) + toks_nodes(rest));
        assert(toks_nodes(ns) + ts =~= toks_node(n0) + (toks_nodes(rest) + ts));
        lemma_build_toks_node(n0, toks_nodes(rest) + ts, st, rt);
        assert(seq![n0] + rest =~= ns);
        if st.len() > 0 {
            let st1 = push_top_children(st, seq![n0]);
            assert(st1.len() == st.len());
            lemma_build_toks_nodes(rest, ts, st1, rt);
            assert((st.last().children + seq![n0]) + rest =~= st.last().children + ns);
            assert(st1.last() == SpecElementData {
                tag_name: st.last().tag_name,
                attributes: st.last().attributes,
                children: st.last().children + seq![n0],
            });
            assert(push_top_children(st1, rest) =~= push_top_children(st, ns));
        } else {
            lemma_build_toks_nodes(rest, ts, st, rt.push(n0));
            assert(rt.push(n0) + rest =~= rt + ns);
        }
    }
}

/// Parsing the markup the serializer emits for a well-formed tree gives
/// exactly that tree back.
pub proof fn lemma_serialize_parse_round_trip(ns: Seq<SpecNode>)
    requires
        wf_nodes(ns),
    ensures
        spec_parse(spec_ser_nodes(ns)) == Ok::<_, SpecParseError>(ns),
{
    let s = spec_ser_nodes(ns);
    assert forall|t: int|
        0 <= t < spec_ser_nodes(ns).len() implies s[0 + t] == #[trigger] spec_ser_nodes(
        ns,
    )[t] by {}
    lemma_tokenize_ser_nodes(s, 0, ns);
    let no_toks = Seq::<SpecToken>::empty();
    assert(spec_tokenize_from(s, s.len() as int) == Ok::<_, SpecParseError>(no_toks));
    assert(toks_nodes(ns) + no_toks =~= toks_nodes(ns));
    assert(spec_tokenize_from(s, 0) == Ok::<_, SpecParseError>(toks_nodes(ns)));
    lemma_run_is_build(s, 0, Seq::empty(), Seq::empty(), toks_nodes(ns));
    lemma_build_toks_nodes(ns, no_toks, Seq::empty(), Seq::empty());
    let rooted = Seq::<SpecNode>::empty() + ns;
    assert(spec_build_from(no_toks, Seq::empty(), rooted) == Ok::<_, SpecParseError>(rooted));
    assert(rooted =~= ns);
}

/// Parsing an input and re-emitting the tree as markup round-trips: the
/// emitted markup is semantically equivalent to the input, in that parsing
/// it again gives the same tree.
pub proof fn lemma_parse_serialize_round_trip(s: Seq<char>, ns: Seq<SpecNode>)
    requires
        spec_parse(s) == Ok::<_, SpecParseError>(ns),
    ensures
        wf_nodes(ns),
        spec_parse(spec_ser_nodes(ns)) == Ok::<_, SpecParseError>(ns),
{
    lemma_parse_wf(s, ns);
    lemma_serialize_parse_round_trip(ns);
}

pub proof fn lemma_ser_attrs_push(p: Seq<SpecAttribute>, a: SpecAttribute)
    ensures
        spec_ser_attrs(p.push(a)) == spec_ser_attrs(p) + spec_ser_attr(a),
    decreases p.len(),
{
    let q = p.push(a);
    assert(q[0] == if p.len() == 0 { a } else { p[0] });
    assert(spec_ser_attrs(q) == spec_ser_attr(q[0]) + spec_ser_attrs(q.drop_first()));
    if p.len() == 0 {
        assert(q.drop_first() =~= Seq::<SpecAttribute>::empty());
        assert(spec_ser_attrs(q.drop_first()) == Seq::<char>::empty());
        assert(spec_ser_attrs(p) == Seq::<char>::empty());
        assert(spec_ser_attr(a) + Seq::<char>::empty() =~= spec_ser_attr(a));
        assert(Seq::<char>::empty() + spec_ser_attr(a) =~= spec_ser_attr(a));
    } else {
        assert(q.drop_first() =~= p.drop_first().push(a));
        lemma_ser_attrs_push(p.drop_first(), a);
        assert(spec_ser_attrs(p) == spec_ser_attr(p[0]) + spec_ser_attrs(p.drop_first()));
        assert(spec_ser_attr(p[0]) + (spec_ser_attrs(p.drop_first()) + spec_ser_attr(a)) =~= (
        spec_ser_attr(p[0]) + spec_ser_attrs(p.drop_first())) + spec_ser_attr(a));
    }
}

pub proof fn lemma_ser_nodes_push(p: Seq<SpecNode>, n: SpecNode)
    ensures
        spec_ser_nodes(p.push(n)) == spec_ser_nodes(p) + spec_ser_node(n),
    decreases p.len(),
{
    let q = p.push(n);
    assert(q[0] == if p.len() == 0 { n } else { p[0] });
    assert(spec_ser_nodes(q) == spec_ser_node(q[0]) + spec_ser_nodes(q.drop_first()));
    if p.len() == 0 {
        assert(q.drop_first() =~= Seq::<SpecNode>::empty());
        assert(spec_ser_nodes(q.drop_first()) == Seq::<char>::empty());
        assert(spec_ser_nodes(p) == Seq::<char>::empty());
        assert(spec_ser_node(n) + Seq::<char>::empty() =~= spec_ser_node(n));
        assert(Seq::<char>::empty() + spec_ser_node(n) =~= spec_ser_node(n));
    } else {
        assert(q.drop_first() =~= p.drop_first().push(n));
        lemma_ser_nodes_push(p.drop_first(), n);
        assert(spec_ser_nodes(p) == spec_ser_node(p[0]) + spec_ser_nodes(p.drop_first()));
        assert(spec_ser_node(p[0]) + (spec_ser_nodes(p.drop_first()) + spec_ser_node(n)) =~= (
        spec_ser_node(p[0]) + spec_ser_nodes(p.drop_first())) + spec_ser_node(n));
    }
}

/// Re-emit one node as markup text.
pub fn serialize_node(node: &Node) -> (r: String)
    ensures
        r@ == spec_ser_node(node@),
    decreases node,
{
    match node {
        Node::Text(text) => text.clone(),
        Node::Element(ed) => {
            let mut out = String::new();
            out.append("<");
            out.append(ed.tag_name.name());
            let ghost attrs = attrs_view(ed.attributes@);
            let ghost head = "<"@ + spec_tag_chars(ed.tag_name@);
            proof {
                assert(out@ =~= head + spec_ser_attrs(attrs.subrange(0, 0)));
            }
            let mut i: usize = 0;
            while i < ed.attributes.len()
                invariant
                    i <= ed.attributes.len(),
                    attrs == attrs_view(ed.attributes@),
                    out@ == head + spec_ser_attrs(attrs.subrange(0, i as int)),
                decreases ed.attributes.len() - i,
            {
                let ghost prefix = attrs.subrange(0, i as int);
                let a = &ed.attributes[i];
                out.append(" ");
                out.append(a.name());
                out.append("=\"");
                out.append(a.value());
                out.append("\"");
                proof {
                    assert(attrs.subrange(0, i + 1) =~= prefix.push(a@));
                    lemma_ser_attrs_push(prefix, a@);
                    assert(out@ =~= head + spec_ser_attrs(attrs.subrange(0, i + 1)));
                }
                i = i + 1;
            }
            out.append(">");
            proof {
                assert(attrs.subrange(0, attrs.len() as int) =~= attrs);
            }
            let ghost mid = head + spec_ser_attrs(attrs) + ">"@;
            proof {
                assert(out@ =~= mid + spec_ser_nodes(nodes_view(ed.children@).subrange(0, 0)));
            }
            let ghost kids = nodes_view(ed.children@);
            let mut j: usize = 0;
            while j < ed.children.len()
                invariant
                    j <= ed.children.len(),
                    kids == nodes_view(ed.children@),
                    out@ == mid + spec_ser_nodes(kids.subrange(0, j as int)),
                decreases ed.children.len() - j,
            {
                let ghost prefix = kids.subrange(0, j as int);
                let child = serialize_node(&ed.children[j]);
                out.append(child.as_str());
                proof {
                    assert(kids.subrange(0, j + 1) =~= prefix.push(ed.children@[j as int]@));
                    lemma_ser_nodes_push(prefix, ed.children@[j as int]@);
                    assert(out@ =~= mid + spec_ser_nodes(kids.subrange(0, j + 1)));
                }
                j = j + 1;
            }
            out.append("</");
            out.append(ed.tag_name.name());
            out.append(">");
            proof {
                assert(kids.subrange(0, kids.len() as int) =~= kids);
                assert(out@ =~= spec_ser_node(node@));
            }
            out
        },
    }
}

/// Re-emit a sequence of root nodes as markup text.
pub fn to_markup(nodes: &Vec<Node>) -> (r: String)
    ensures
        r@ == spec_ser_nodes(nodes_view(nodes@)),
{
    let mut out = String::new();
    let ghost views = nodes_view(nodes@);
    proof {
        assert(out@ =~= spec_ser_nodes(views.subrange(0, 0)));
    }
    let mut i: usize = 0;
    while i < nodes.len()
        invariant
            i <= nodes.len(),
            views == nodes_view(nodes@),
            out@ == spec_ser_nodes(views.subrange(0, i as int)),
        decreases nodes.len() - i,
    {
        let ghost prefix = views.subrange(0, i as int);
        let piece = serialize_node(&nodes[i]);
        out.append(piece.as_str());
        proof {
            assert(views.subrange(0, i + 1) =~= prefix.push(nodes@[i as int]@));
            lemma_ser_nodes_push(prefix, nodes@[i as int]@);
            assert(out@ =~= spec_ser_nodes(views.subrange(0, i + 1)));
        }
        i = i + 1;
    }
    proof {
        assert(views.subrange(0, views.len() as int) =~= views);
    }
    out
}

} // verus!
