//! Trusted surface over the XML tree reader, with a model the extractor's
//! contracts are stated over. A parsed document is modeled as its nodes in
//! document order: each position has a local tag name, optional text,
//! attributes, and the end of its contiguous descendant range. All model
//! functions are keyed by the document text, because the reader is a pure
//! function of it.

use vstd::prelude::*;

verus! {

#[verifier::external_type_specification]
#[verifier::external_body]
pub struct ExDocument<'input>(roxmltree::Document<'input>);

#[verifier::external_type_specification]
#[verifier::external_body]
pub struct ExNode<'a, 'input: 'a>(roxmltree::Node<'a, 'input>);

#[verifier::external_type_specification]
#[verifier::external_body]
pub struct ExXmlError(roxmltree::Error);

/// Whether the text parses as well-formed XML (what roxmltree::Document::parse
/// accepts).
pub uninterp spec fn doc_ok(text: Seq<char>) -> bool;

/// How many nodes the parsed document holds, in document order.
pub uninterp spec fn doc_len(text: Seq<char>) -> int;

/// The local tag name of the node at a document-order position (empty for
/// non-element nodes).
pub uninterp spec fn tag_at(text: Seq<char>, i: int) -> Seq<char>;

/// The text of the element's first text child at a position, if any.
pub uninterp spec fn text_at(text: Seq<char>, i: int) -> Option<Seq<char>>;

/// The value of the named attribute at a position, if the element has it.
pub uninterp spec fn attr_at(text: Seq<char>, i: int, name: Seq<char>) -> Option<Seq<char>>;

/// One past the last descendant of the node at a position: a node's
/// descendants are the contiguous document-order range starting at itself.
pub uninterp spec fn subtree_end(text: Seq<char>, i: int) -> int;

/// The text a document value was parsed from.
pub uninterp spec fn doc_text(d: roxmltree::Document<'_>) -> Seq<char>;

/// The text the node's document was parsed from.
pub uninterp spec fn node_src(n: roxmltree::Node<'_, '_>) -> Seq<char>;

/// The node's document-order position.
pub uninterp spec fn node_pos(n: roxmltree::Node<'_, '_>) -> int;

/// Relies on roxmltree::Document::parse: builds the document tree for a
/// piece of XML text, deterministically in the text, or reports why the
/// text is not well-formed.
#[verifier::external_body]
pub fn parse_document(text: &str) -> (r: Result<roxmltree::Document<'_>, roxmltree::Error>)
    ensures
        r is Ok <==> doc_ok(text@),
        r is Ok ==> doc_text(r->Ok_0) == text@,
{
    roxmltree::Document::parse(text)
}

/// Relies on roxmltree::Document::descendants: every node of the document,
/// in document order.
#[verifier::external_body]
pub fn document_nodes<'a, 'input>(doc: &'a roxmltree::Document<'input>) -> (r: Vec<
    roxmltree::Node<'a, 'input>,
>)
    ensures
        r@.len() == doc_len(doc_text(*doc)),
        forall|i: int|
            0 <= i < r@.len() ==> node_src(#[trigger] r@[i]) == doc_text(*doc) && node_pos(r@[i])
                == i,
{
    doc.descendants().collect()
}

/// Relies on roxmltree::Node::descendants: the node itself and every node
/// below it — the contiguous document-order range starting at the node.
#[verifier::external_body]
pub fn node_descendants<'a, 'input>(node: &roxmltree::Node<'a, 'input>) -> (r: Vec<
    roxmltree::Node<'a, 'input>,
>)
    ensures
        r@.len() >= 1,
        r@.len() == subtree_end(node_src(*node), node_pos(*node)) - node_pos(*node),
        forall|k: int|
            0 <= k < r@.len() ==> node_src(#[trigger] r@[k]) == node_src(*node) && node_pos(
                r@[k],
            ) == node_pos(*node) + k,
        forall|k: int|
            0 <= k < r@.len() ==> node_pos(#[trigger] r@[k]) < doc_len(node_src(*node)),
{
    node.descendants().collect()
}

/// Relies on roxmltree::Node::tag_name: the local part of the element name;
/// empty for non-element nodes.
#[verifier::external_body]
pub fn node_tag_name<'a, 'input>(node: &roxmltree::Node<'a, 'input>) -> (r: &'a str)
    ensures
        r@ == tag_at(node_src(*node), node_pos(*node)),
{
    node.tag_name().name()
}

/// Relies on roxmltree::Node::attribute: the value of the attribute with
/// the given local name, if the element has it.
#[verifier::external_body]
pub fn node_attribute<'a, 'input>(node: &roxmltree::Node<'a, 'input>, name: &str) -> (r: Option<
    &'a str,
>)
    ensures
        match r {
            Some(v) => attr_at(node_src(*node), node_pos(*node), name@) == Some(v@),
            None => attr_at(node_src(*node), node_pos(*node), name@) is None,
        },
{
    node.attribute(name)
}

/// Relies on roxmltree::Node::text: the text of an element's first text
/// child, if there is one.
#[verifier::external_body]
pub fn node_text<'a, 'input>(node: &roxmltree::Node<'a, 'input>) -> (r: Option<&'a str>)
    ensures
        match r {
            Some(v) => text_at(node_src(*node), node_pos(*node)) == Some(v@),
            None => text_at(node_src(*node), node_pos(*node)) is None,
        },
{
    node.text()
}

} // verus!
