//! GraphML attribute declarations and the reading of GraphML road networks.
use vstd::prelude::*;

use crate::graph::{Edge, Node};
use crate::names::{last_index_of, NameIndex};
use crate::EDGE_COST_DIMENSION;
use crate::text::{chars_of, parse_unsigned, parse_unsigned_chars, text_is};

verus! {

/// The kind of graph element a GraphML attribute is declared for.
#[derive(Clone, Copy, Debug)]
pub enum GraphObject {
    Node,
    Edge,
}

/// The value type of a GraphML attribute; a `Double` is a cost metric and
/// carries its position among the metrics.
#[derive(Clone, Copy, Debug)]
pub enum AttributeType {
    Boolean,
    String,
    Double(usize),
    Long,
}

/// A GraphML `key` declaration.
pub struct GraphmlAttribute {
    pub obj_type: GraphObject,
    pub name: String,
    pub attribute_type: AttributeType,
}

/// The element kind a `for` value names, if it is one the reader knows.
pub open spec fn object_type_named(t: Seq<char>) -> Option<GraphObject> {
    if t == "node"@ {
        Some(GraphObject::Node)
    } else if t == "edge"@ {
        Some(GraphObject::Edge)
    } else {
        None
    }
}

/// The attribute type an `attr.type` value names, if it is one the reader
/// knows; a metric gets the position `metric_count`.
pub open spec fn attribute_type_named(t: Seq<char>, metric_count: usize) -> Option<AttributeType> {
    if t == "boolean"@ {
        Some(AttributeType::Boolean)
    } else if t == "string"@ {
        Some(AttributeType::String)
    } else if t == "long"@ {
        Some(AttributeType::Long)
    } else if t == "double"@ {
        Some(AttributeType::Double(metric_count))
    } else {
        None
    }
}

/// The names of the element kinds and of the attribute types differ.
pub proof fn lemma_type_names_differ()
    ensures
        "node"@ != "edge"@,
        "double"@ != "boolean"@,
        "double"@ != "string"@,
        "double"@ != "long"@,
        "long"@ != "boolean"@,
        "long"@ != "string"@,
        "string"@ != "boolean"@,
{
    reveal_strlit("node");
    reveal_strlit("edge");
    reveal_strlit("boolean");
    reveal_strlit("string");
    reveal_strlit("long");
    reveal_strlit("double");
    assert("node"@[0] != "edge"@[0]);
    assert("double"@[0] != "string"@[0]);
    assert("long"@.len() != "boolean"@.len());
    assert("long"@.len() != "string"@.len());
    assert("string"@.len() != "boolean"@.len());
    assert("double"@.len() != "boolean"@.len());
    assert("double"@.len() != "long"@.len());
}

impl GraphmlAttribute {
    /// The declaration of the attribute `name` for the element kind
    /// `obj_type` with the value type `attribute_type`.
    pub fn new(obj_type: &str, name: &str, attribute_type: &str, metric_count: usize) -> (a:
        GraphmlAttribute)
        requires
            object_type_named(obj_type@) is Some,
            attribute_type_named(attribute_type@, metric_count) is Some,
        ensures
            a.obj_type == object_type_named(obj_type@)->0,
            a.name@ == name@,
            a.attribute_type == attribute_type_named(attribute_type@, metric_count)->0,
    {
        proof {
            reveal_strlit("node");
            reveal_strlit("edge");
            reveal_strlit("boolean");
            reveal_strlit("string");
            reveal_strlit("long");
            reveal_strlit("double");
        }
        let obj = if text_is(obj_type, "node") {
            GraphObject::Node
        } else {
            GraphObject::Edge
        };
        let attr = if text_is(attribute_type, "boolean") {
            AttributeType::Boolean
        } else if text_is(attribute_type, "string") {
            AttributeType::String
        } else if text_is(attribute_type, "long") {
            AttributeType::Long
        } else {
            AttributeType::Double(metric_count)
        };
        GraphmlAttribute { obj_type: obj, name: name.to_owned(), attribute_type: attr }
    }
}

/// The number a node id such as `n42` carries: the text after its first
/// character, read as an unsigned number.
pub open spec fn node_id_value(node_id: Seq<char>) -> Option<int> {
    parse_unsigned(if node_id.len() == 0 {
        node_id
    } else {
        node_id.drop_first()
    }, u32::MAX as int)
}

/// The number in a node id, or `None` where the text after its first
/// character is not one.
fn node_id_of(node_id: &str) -> (r: Option<u32>)
    ensures
        r matches Some(v) ==> node_id_value(node_id@) == Some(v as int),
        r is None ==> node_id_value(node_id@) is None,
{
    let cs = chars_of(node_id);
    let from: usize = if cs.len() == 0 {
        0
    } else {
        1
    };
    let ghost tail = if node_id@.len() == 0 {
        node_id@
    } else {
        node_id@.drop_first()
    };
    assert(cs@.subrange(from as int, cs@.len() as int) =~= tail);
    match parse_unsigned_chars(&cs, from, cs.len(), u32::MAX as u64) {
        Some(v) => Some(v as u32),
        None => None,
    }
}

/// Whether `node_id` is a node id that `parse_node_id` reads: the text
/// after its first character is a number.
pub fn is_node_id(node_id: &str) -> (b: bool)
    ensures
        b == node_id_value(node_id@) is Some,
{
    node_id_of(node_id).is_some()
}

/// The number in a node id such as `n42`: the text after the first
/// character, whatever that is, read as a number. The text must be a node
/// id (`is_node_id`); the GraphML reader tests that first and gives
/// `GraphmlError::BadNodeId` for one that is not.
pub fn parse_node_id(node_id: &str) -> (r: u32)
    requires
        node_id_value(node_id@) is Some,
    ensures
        node_id_value(node_id@) == Some(r as int),
{
    match node_id_of(node_id) {
        Some(v) => v,
        None => 0,
    }
}

/// A node of a parsed XML document, as plain values: whether it is an
/// element, its local tag name (empty for other nodes), its attributes by
/// local name and value in document order, its text (an element's first
/// child, if that is text), and the number of nodes in its subtree, itself
/// included.
pub struct XmlNode {
    pub is_element: bool,
    pub name: String,
    pub attributes: Vec<(String, String)>,
    pub text: Option<String>,
    pub subtree_len: usize,
}

/// An XML node by the views of its parts.
pub type XmlNodeView = (bool, Seq<char>, Seq<(Seq<char>, Seq<char>)>, Option<Seq<char>>, usize);

pub open spec fn xml_node_view(n: XmlNode) -> XmlNodeView {
    (
        n.is_element,
        n.name@,
        n.attributes@.map_values(|a: (String, String)| (a.0@, a.1@)),
        match n.text {
            Some(t) => Some(t@),
            None => None,
        },
        n.subtree_len,
    )
}

/// The nodes of a document, by their views.
pub open spec fn xml_view(doc: Seq<XmlNode>) -> Seq<XmlNodeView> {
    doc.map_values(|n: XmlNode| xml_node_view(n))
}

/// The nodes, in document order, of the XML document `text`, as
/// `roxmltree` parses it; `None` where it rejects the text.
pub uninterp spec fn xml_document(text: Seq<char>) -> Option<Seq<XmlNodeView>>;

#[verifier::external_type_specification]
#[verifier::external_body]
pub struct ExXmlError(roxmltree::Error);

/// Parses `text` with `roxmltree::Document::parse` and lists the nodes of
/// the document, the root first, in the order of `descendants()`. The
/// contract names the list, by the views of its parts, `xml_document`;
/// what it holds for a given text is `roxmltree`'s to say and is not
/// stated here, nor which error comes for a rejected text.
#[verifier::external_body]
fn parse_xml(text: &str) -> (r: Result<Vec<XmlNode>, roxmltree::Error>)
    ensures
        r matches Ok(doc) ==> xml_document(text@) == Some(xml_view(doc@)),
        r is Err ==> xml_document(text@) is None,
{
    let doc = roxmltree::Document::parse(text)?;
    Ok(doc.root().descendants().map(|n| XmlNode {
        is_element: n.is_element(),
        name: n.tag_name().name().to_owned(),
        attributes: n.attributes().map(|a| (a.name().to_owned(), a.value().to_owned())).collect(),
        text: n.text().map(|t| t.to_owned()),
        subtree_len: n.descendants().len(),
    }).collect())
}

/// Why a GraphML document could not be read; each error names the index of
/// the node, in document order, where it arose.
pub enum GraphmlError {
    /// The text is not well-formed XML.
    Xml(roxmltree::Error),
    /// A `key` element lacks one of `for`, `attr.name`, `attr.type`, `id`.
    KeyMissingAttribute { node: usize },
    /// A `key` element declares an unknown element kind or value type.
    UnknownType { node: usize },
    /// The document declares another number of metrics than
    /// `EDGE_COST_DIMENSION`.
    WrongMetricCount { found: usize },
    /// A `data` element has no `key` attribute.
    DataWithoutKey { node: usize },
    /// A `data` element names a key that is not declared.
    UnknownKey { node: usize },
    /// A `data` element that must hold text holds none.
    DataWithoutText { node: usize },
    /// A node's level is not a number.
    BadLevel { node: usize },
    /// A node id is not of the form of a letter followed by a number.
    BadNodeId { node: usize },
    /// An edge has no `name` data.
    EdgeWithoutName { node: usize },
    /// An edge lacks its `source` or `target` attribute.
    EdgeWithoutEndpoint { node: usize },
    /// An edge replaces an edge name that no edge carries.
    UnknownEdge { node: usize },
    /// There are more edges than `u32` ids can number.
    TooManyEdges,
}

/// A key declaration by its views: id, element kind, name, value type.
pub type KeyView = (Seq<char>, GraphObject, Seq<char>, AttributeType);

pub open spec fn key_view(k: (String, GraphmlAttribute)) -> KeyView {
    (k.0@, k.1.obj_type, k.1.name@, k.1.attribute_type)
}

pub open spec fn keys_view(keys: Seq<(String, GraphmlAttribute)>) -> Seq<KeyView> {
    keys.map_values(|k: (String, GraphmlAttribute)| key_view(k))
}

/// The value of the first attribute named `name`, as
/// `roxmltree::Node::attribute` finds it.
pub open spec fn attribute_of(attrs: Seq<(Seq<char>, Seq<char>)>, name: Seq<char>) -> Option<
    Seq<char>,
>
    decreases attrs.len(),
{
    if attrs.len() == 0 {
        None
    } else if attrs[0].0 == name {
        Some(attrs[0].1)
    } else {
        attribute_of(attrs.drop_first(), name)
    }
}

/// The node is an element with the local name `name`.
pub open spec fn has_tag(n: XmlNodeView, name: Seq<char>) -> bool {
    n.0 && n.1 == name
}

/// The declaration of the key `id`: the last one, as in a map that later
/// declarations overwrite.
pub open spec fn key_lookup(keys: Seq<KeyView>, id: Seq<char>) -> Option<KeyView>
    decreases keys.len(),
{
    if keys.len() == 0 {
        None
    } else if keys.last().0 == id {
        Some(keys.last())
    } else {
        key_lookup(keys.drop_last(), id)
    }
}

/// The declarations and the metric count after the node `n`.
pub open spec fn key_step(n: XmlNodeView, at: usize, st: (Seq<KeyView>, int)) -> Result<
    (Seq<KeyView>, int),
    GraphmlError,
> {
    if !has_tag(n, "key"@) {
        Ok(st)
    } else {
        match (
            attribute_of(n.2, "for"@),
            attribute_of(n.2, "attr.name"@),
            attribute_of(n.2, "attr.type"@),
            attribute_of(n.2, "id"@),
        ) {
            (Some(f), Some(name), Some(ty), Some(id)) => match (
                object_type_named(f),
                attribute_type_named(ty, st.1 as usize),
            ) {
                (Some(o), Some(t)) => Ok(
                    (
                        st.0.push((id, o, name, t)),
                        if t is Double {
                            st.1 + 1
                        } else {
                            st.1
                        },
                    ),
                ),
                _ => Err(GraphmlError::UnknownType { node: at }),
            },
            _ => Err(GraphmlError::KeyMissingAttribute { node: at }),
        }
    }
}

/// The key declarations among the first `k` nodes, and how many of them
/// are metrics.
pub open spec fn keys_upto(doc: Seq<XmlNodeView>, k: int) -> Result<
    (Seq<KeyView>, int),
    GraphmlError,
>
    decreases k,
{
    if k <= 0 {
        Ok((Seq::empty(), 0))
    } else {
        match keys_upto(doc, k - 1) {
            Err(e) => Err(e),
            Ok(st) => key_step(doc[k - 1], (k - 1) as usize, st),
        }
    }
}

/// Every metric among `keys` has a position below `count`.
pub open spec fn metrics_below(keys: Seq<KeyView>, count: int) -> bool {
    forall|k: int|
        0 <= k < keys.len() ==> ((#[trigger] keys[k]).3 matches AttributeType::Double(i) ==> i
            < count)
}

/// The value of the first attribute of `attrs` named `name`.
fn find_attribute<'a>(attrs: &'a Vec<(String, String)>, name: &str) -> (r: Option<&'a String>)
    ensures
        r matches Some(v) ==> attribute_of(
            attrs@.map_values(|a: (String, String)| (a.0@, a.1@)),
            name@,
        ) == Some(v@),
        r is None ==> attribute_of(attrs@.map_values(|a: (String, String)| (a.0@, a.1@)), name@)
            is None,
{
    let ghost all = attrs@.map_values(|a: (String, String)| (a.0@, a.1@));
    let mut i: usize = 0;
    assert(all.skip(0) =~= all);
    while i < attrs.len()
        invariant
            i <= attrs@.len(),
            all == attrs@.map_values(|a: (String, String)| (a.0@, a.1@)),
            attribute_of(all, name@) == attribute_of(all.skip(i as int), name@),
        decreases attrs@.len() - i,
    {
        let ghost rest = all.skip(i as int);
        assert(rest[0] == all[i as int]);
        if text_is(attrs[i].0.as_str(), name) {
            return Some(&attrs[i].1);
        }
        assert(rest.drop_first() =~= all.skip(i + 1));
        i = i + 1;
    }
    None
}

/// The declaration of the key `id` among `keys`: the last one.
fn find_key<'a>(keys: &'a Vec<(String, GraphmlAttribute)>, id: &str) -> (r: Option<
    &'a GraphmlAttribute,
>)
    ensures
        r matches Some(a) ==> key_lookup(keys_view(keys@), id@) == Some(
            (id@, a.obj_type, a.name@, a.attribute_type),
        ),
        r is None ==> key_lookup(keys_view(keys@), id@) is None,
{
    let ghost all = keys_view(keys@);
    let mut i = keys.len();
    assert(all.take(i as int) =~= all);
    while i > 0
        invariant
            i <= keys@.len(),
            all == keys_view(keys@),
            key_lookup(all, id@) == key_lookup(all.take(i as int), id@),
        decreases i,
    {
        let ghost pre = all.take(i as int);
        assert(pre.last() == all[i - 1]);
        if text_is(keys[i - 1].0.as_str(), id) {
            return Some(&keys[i - 1].1);
        }
        assert(pre.drop_last() =~= all.take(i - 1));
        i = i - 1;
    }
    None
}

fn read_key(n: &XmlNode, at: usize, keys: &mut Vec<(String, GraphmlAttribute)>, count: &mut usize)
    -> (r: Result<(), GraphmlError>)
    requires
        metrics_below(keys_view(old(keys)@), *old(count) as int),
        *old(count) < usize::MAX,
    ensures
        match key_step(xml_node_view(*n), at, (keys_view(old(keys)@), *old(count) as int)) {
            Ok(st) => r is Ok && keys_view(final(keys)@) == st.0 && *final(count) == st.1
                && metrics_below(keys_view(final(keys)@), *final(count) as int),
            Err(e) => r is Err && r->Err_0 == e,
        },
{
    let ghost v = xml_node_view(*n);
    if !(n.is_element && text_is(n.name.as_str(), "key")) {
        return Ok(());
    }
    let f = find_attribute(&n.attributes, "for");
    let name = find_attribute(&n.attributes, "attr.name");
    let ty = find_attribute(&n.attributes, "attr.type");
    let id = find_attribute(&n.attributes, "id");
    match (f, name, ty, id) {
        (Some(f), Some(name), Some(ty), Some(id)) => {
            proof {
                reveal_strlit("node");
                reveal_strlit("edge");
                reveal_strlit("boolean");
                reveal_strlit("string");
                reveal_strlit("long");
                reveal_strlit("double");
            }
            let known_object = text_is(f.as_str(), "node") || text_is(f.as_str(), "edge");
            let known_type = text_is(ty.as_str(), "boolean") || text_is(ty.as_str(), "string")
                || text_is(ty.as_str(), "long") || text_is(ty.as_str(), "double");
            if !known_object || !known_type {
                return Err(GraphmlError::UnknownType { node: at });
            }
            let attr = GraphmlAttribute::new(f.as_str(), name.as_str(), ty.as_str(), *count);
            let is_metric = match attr.attribute_type {
                AttributeType::Double(_) => true,
                _ => false,
            };
            let ghost before = keys_view(keys@);
            keys.push((id.clone(), attr));
            if is_metric {
                *count = *count + 1;
            }
            proof {
                assert(keys_view(keys@) =~= before.push(key_view((*id, attr))));
            }
            Ok(())
        },
        _ => Err(GraphmlError::KeyMissingAttribute { node: at }),
    }
}

/// Where the subtree of the node `i` ends in document order.
pub open spec fn subtree_end(doc: Seq<XmlNodeView>, i: int) -> int {
    if i + doc[i].4 <= doc.len() {
        i + doc[i].4
    } else {
        doc.len() as int
    }
}

/// The id and level of a node element after its descendant `d`: a `data`
/// element for the key named `level` sets the level, one for `id` the id.
pub open spec fn node_data_step(
    d: XmlNodeView,
    at: usize,
    keys: Seq<KeyView>,
    acc: (u32, u32),
) -> Result<(u32, u32), GraphmlError> {
    if !has_tag(d, "data"@) {
        Ok(acc)
    } else {
        match attribute_of(d.2, "key"@) {
            None => Err(GraphmlError::DataWithoutKey { node: at }),
            Some(key) => match d.3 {
                None => Err(GraphmlError::DataWithoutText { node: at }),
                Some(text) => match key_lookup(keys, key) {
                    None => Err(GraphmlError::UnknownKey { node: at }),
                    Some(a) => if a.2 == "level"@ {
                        match parse_unsigned(text, u32::MAX as int) {
                            None => Err(GraphmlError::BadLevel { node: at }),
                            Some(v) => Ok((acc.0, v as u32)),
                        }
                    } else if a.2 == "id"@ {
                        match node_id_value(text) {
                            None => Err(GraphmlError::BadNodeId { node: at }),
                            Some(v) => Ok((v as u32, acc.1)),
                        }
                    } else {
                        Ok(acc)
                    },
                },
            },
        }
    }
}

/// The id and level from the nodes `from..k`; both start at 0.
pub open spec fn node_data_upto(doc: Seq<XmlNodeView>, keys: Seq<KeyView>, from: int, k: int) -> Result<
    (u32, u32),
    GraphmlError,
>
    decreases k - from,
{
    if k <= from {
        Ok((0, 0))
    } else {
        match node_data_upto(doc, keys, from, k - 1) {
            Err(e) => Err(e),
            Ok(acc) => node_data_step(doc[k - 1], (k - 1) as usize, keys, acc),
        }
    }
}

/// The node that the node element `i` describes.
pub open spec fn node_of_element(doc: Seq<XmlNodeView>, keys: Seq<KeyView>, i: int) -> Result<
    Node,
    GraphmlError,
> {
    match node_data_upto(doc, keys, i, subtree_end(doc, i)) {
        Err(e) => Err(e),
        Ok((id, level)) => Ok(Node { id, ch_level: level }),
    }
}

/// The nodes that the node elements among the first `k` nodes describe.
pub open spec fn nodes_upto(doc: Seq<XmlNodeView>, keys: Seq<KeyView>, k: int) -> Result<
    Seq<Node>,
    GraphmlError,
>
    decreases k,
{
    if k <= 0 {
        Ok(Seq::empty())
    } else {
        match nodes_upto(doc, keys, k - 1) {
            Err(e) => Err(e),
            Ok(ns) => if has_tag(doc[k - 1], "node"@) {
                match node_of_element(doc, keys, k - 1) {
                    Err(e) => Err(e),
                    Ok(n) => Ok(ns.push(n)),
                }
            } else {
                Ok(ns)
            },
        }
    }
}

proof fn lemma_node_data_error_persists(
    doc: Seq<XmlNodeView>,
    keys: Seq<KeyView>,
    from: int,
    k: int,
    k2: int,
)
    requires
        from <= k <= k2,
        node_data_upto(doc, keys, from, k) is Err,
    ensures
        node_data_upto(doc, keys, from, k2) == node_data_upto(doc, keys, from, k),
    decreases k2 - k,
{
    if k2 > k {
        lemma_node_data_error_persists(doc, keys, from, k, k2 - 1);
    }
}

fn parse_u32_text(t: &String) -> (r: Option<u32>)
    ensures
        r matches Some(v) ==> parse_unsigned(t@, u32::MAX as int) == Some(v as int),
        r is None ==> parse_unsigned(t@, u32::MAX as int) is None,
{
    let cs = chars_of(t.as_str());
    assert(cs@.subrange(0, cs@.len() as int) =~= t@);
    match parse_unsigned_chars(&cs, 0, cs.len(), u32::MAX as u64) {
        Some(v) => Some(v as u32),
        None => None,
    }
}

fn end_of_subtree(doc: &Vec<XmlNode>, i: usize) -> (end: usize)
    requires
        i < doc@.len(),
    ensures
        end == subtree_end(xml_view(doc@), i as int),
        i <= end <= doc@.len(),
{
    let n = doc.len();
    let len = doc[i].subtree_len;
    assert(xml_view(doc@)[i as int] == xml_node_view(doc@[i as int]));
    if len <= n - i {
        i + len
    } else {
        n
    }
}

fn read_node(doc: &Vec<XmlNode>, i: usize, keys: &Vec<(String, GraphmlAttribute)>) -> (r: Result<
    Node,
    GraphmlError,
>)
    requires
        i < doc@.len(),
    ensures
        match node_of_element(xml_view(doc@), keys_view(keys@), i as int) {
            Ok(n) => r == Ok::<Node, GraphmlError>(n),
            Err(e) => r is Err && r->Err_0 == e,
        },
{
    let ghost dv = xml_view(doc@);
    let ghost kv = keys_view(keys@);
    let end = end_of_subtree(doc, i);
    let mut id: u32 = 0;
    let mut level: u32 = 0;
    let mut j = i;
    proof {
        reveal_strlit("data");
        reveal_strlit("key");
        reveal_strlit("level");
        reveal_strlit("id");
    }
    while j < end
        invariant
            i <= j <= end <= doc@.len(),
            dv == xml_view(doc@),
            kv == keys_view(keys@),
            end == subtree_end(dv, i as int),
            node_data_upto(dv, kv, i as int, j as int) == Ok::<(u32, u32), GraphmlError>(
                (id, level),
            ),
        decreases end - j,
    {
        let d = &doc[j];
        assert(dv[j as int] == xml_node_view(*d));
        if d.is_element && text_is(d.name.as_str(), "data") {
            let key = match find_attribute(&d.attributes, "key") {
                None => {
                    proof {
                        lemma_node_data_error_persists(dv, kv, i as int, j + 1, end as int);
                    }
                    return Err(GraphmlError::DataWithoutKey { node: j });
                },
                Some(k) => k,
            };
            let text = match &d.text {
                None => {
                    proof {
                        lemma_node_data_error_persists(dv, kv, i as int, j + 1, end as int);
                    }
                    return Err(GraphmlError::DataWithoutText { node: j });
                },
                Some(t) => t,
            };
            let attr = match find_key(keys, key.as_str()) {
                None => {
                    proof {
                        lemma_node_data_error_persists(dv, kv, i as int, j + 1, end as int);
                    }
                    return Err(GraphmlError::UnknownKey { node: j });
                },
                Some(a) => a,
            };
            if text_is(attr.name.as_str(), "level") {
                match parse_u32_text(text) {
                    None => {
                        proof {
                            lemma_node_data_error_persists(dv, kv, i as int, j + 1, end as int);
                        }
                        return Err(GraphmlError::BadLevel { node: j });
                    },
                    Some(v) => {
                        level = v;
                    },
                }
            } else if text_is(attr.name.as_str(), "id") {
                match node_id_of(text.as_str()) {
                    None => {
                        proof {
                            lemma_node_data_error_persists(dv, kv, i as int, j + 1, end as int);
                        }
                        return Err(GraphmlError::BadNodeId { node: j });
                    },
                    Some(v) => {
                        id = v;
                    },
                }
            }
        }
        j = j + 1;
    }
    Ok(Node { id, ch_level: level })
}

/// The name of the edge element `at`: the text of the first `data`
/// element among the nodes `j..end` whose key is named `name`.
pub open spec fn edge_name_from(
    doc: Seq<XmlNodeView>,
    keys: Seq<KeyView>,
    j: int,
    end: int,
    at: usize,
) -> Result<Seq<char>, GraphmlError>
    decreases end - j,
{
    if j >= end || j < 0 {
        Err(GraphmlError::EdgeWithoutName { node: at })
    } else if !has_tag(doc[j], "data"@) {
        edge_name_from(doc, keys, j + 1, end, at)
    } else {
        match attribute_of(doc[j].2, "key"@) {
            None => Err(GraphmlError::DataWithoutKey { node: j as usize }),
            Some(key) => match key_lookup(keys, key) {
                None => Err(GraphmlError::UnknownKey { node: j as usize }),
                Some(a) => if a.2 == "name"@ {
                    match doc[j].3 {
                        None => Err(GraphmlError::DataWithoutText { node: j as usize }),
                        Some(t) => Ok(t),
                    }
                } else {
                    edge_name_from(doc, keys, j + 1, end, at)
                },
            },
        }
    }
}

/// The names of the edge elements among the first `k` nodes.
pub open spec fn names_upto(doc: Seq<XmlNodeView>, keys: Seq<KeyView>, k: int) -> Result<
    Seq<Seq<char>>,
    GraphmlError,
>
    decreases k,
{
    if k <= 0 {
        Ok(Seq::empty())
    } else {
        match names_upto(doc, keys, k - 1) {
            Err(e) => Err(e),
            Ok(ns) => if has_tag(doc[k - 1], "edge"@) {
                match edge_name_from(doc, keys, k - 1, subtree_end(doc, k - 1), (k - 1) as usize) {
                    Err(e) => Err(e),
                    Ok(n) => Ok(ns.push(n)),
                }
            } else {
                Ok(ns)
            },
        }
    }
}

/// The number of edge elements among the first `k` nodes.
pub open spec fn count_edges(doc: Seq<XmlNodeView>, k: int) -> int
    decreases k,
{
    if k <= 0 {
        0
    } else {
        count_edges(doc, k - 1) + if has_tag(doc[k - 1], "edge"@) {
            1int
        } else {
            0
        }
    }
}

proof fn lemma_count_edges_monotone(doc: Seq<XmlNodeView>, j: int, k: int)
    requires
        0 <= j <= k,
    ensures
        count_edges(doc, j) <= count_edges(doc, k),
    decreases k - j,
{
    if j < k {
        lemma_count_edges_monotone(doc, j, k - 1);
    }
}

proof fn lemma_names_count(doc: Seq<XmlNodeView>, keys: Seq<KeyView>, k: int)
    requires
        names_upto(doc, keys, k) is Ok,
    ensures
        names_upto(doc, keys, k)->Ok_0.len() == count_edges(doc, k),
    decreases k,
{
    if k > 0 {
        lemma_names_count(doc, keys, k - 1);
    }
}

fn read_edge_name(doc: &Vec<XmlNode>, i: usize, keys: &Vec<(String, GraphmlAttribute)>) -> (r: Result<
    String,
    GraphmlError,
>)
    requires
        i < doc@.len(),
    ensures
        match edge_name_from(
            xml_view(doc@),
            keys_view(keys@),
            i as int,
            subtree_end(xml_view(doc@), i as int),
            i,
        ) {
            Ok(n) => r is Ok && r->Ok_0@ == n,
            Err(e) => r is Err && r->Err_0 == e,
        },
{
    let ghost dv = xml_view(doc@);
    let ghost kv = keys_view(keys@);
    let end = end_of_subtree(doc, i);
    let mut j = i;
    proof {
        reveal_strlit("data");
        reveal_strlit("key");
        reveal_strlit("name");
    }
    while j < end
        invariant
            i <= j <= end <= doc@.len(),
            dv == xml_view(doc@),
            kv == keys_view(keys@),
            end == subtree_end(dv, i as int),
            edge_name_from(dv, kv, i as int, end as int, i) == edge_name_from(
                dv,
                kv,
                j as int,
                end as int,
                i,
            ),
        decreases end - j,
    {
        let d = &doc[j];
        assert(dv[j as int] == xml_node_view(*d));
        if d.is_element && text_is(d.name.as_str(), "data") {
            let key = match find_attribute(&d.attributes, "key") {
                None => {
                    return Err(GraphmlError::DataWithoutKey { node: j });
                },
                Some(k) => k,
            };
            let attr = match find_key(keys, key.as_str()) {
                None => {
                    return Err(GraphmlError::UnknownKey { node: j });
                },
                Some(a) => a,
            };
            if text_is(attr.name.as_str(), "name") {
                match &d.text {
                    None => {
                        return Err(GraphmlError::DataWithoutText { node: j });
                    },
                    Some(t) => {
                        return Ok(t.clone());
                    },
                }
            }
        }
        j = j + 1;
    }
    Err(GraphmlError::EdgeWithoutName { node: i })
}

/// The edge a `edgeA` or `edgeB` text refers to: `-1` for none, else the
/// last edge with that name.
pub open spec fn edge_ref(names: Seq<Seq<char>>, text: Seq<char>, at: usize) -> Result<
    int,
    GraphmlError,
> {
    if text == "-1"@ {
        Ok(-1)
    } else {
        match last_index_of(names, text) {
            None => Err(GraphmlError::UnknownEdge { node: at }),
            Some(x) => Ok(x),
        }
    }
}

/// What an edge element has gathered: the two replaced edges (negative
/// for none) and the text of each metric.
pub type EdgeAcc = (int, int, Seq<Option<Seq<char>>>);

/// An edge element's gathering after its descendant `d`: data for the keys
/// named `edgeA` and `edgeB` name the replaced edges, and data for a metric
/// gives that metric's text. Data without text is passed over.
pub open spec fn edge_data_step(
    d: XmlNodeView,
    at: usize,
    keys: Seq<KeyView>,
    names: Seq<Seq<char>>,
    acc: EdgeAcc,
) -> Result<EdgeAcc, GraphmlError> {
    if !has_tag(d, "data"@) {
        Ok(acc)
    } else {
        match attribute_of(d.2, "key"@) {
            None => Err(GraphmlError::DataWithoutKey { node: at }),
            Some(key) => match key_lookup(keys, key) {
                None => Err(GraphmlError::UnknownKey { node: at }),
                Some(a) => match d.3 {
                    None => Ok(acc),
                    Some(text) => {
                        let r = if a.2 == "edgeA"@ {
                            match edge_ref(names, text, at) {
                                Ok(x) => Ok((x, acc.1, acc.2)),
                                Err(e) => Err(e),
                            }
                        } else if a.2 == "edgeB"@ {
                            match edge_ref(names, text, at) {
                                Ok(x) => Ok((acc.0, x, acc.2)),
                                Err(e) => Err(e),
                            }
                        } else {
                            Ok(acc)
                        };
                        match r {
                            Err(e) => Err(e),
                            Ok(g) => match a.3 {
                                AttributeType::Double(i) => Ok(
                                    (g.0, g.1, g.2.update(i as int, Some(text))),
                                ),
                                _ => Ok(g),
                            },
                        }
                    },
                },
            },
        }
    }
}

/// No replaced edges and no metric texts yet.
pub open spec fn edge_acc_start() -> EdgeAcc {
    (-1, -1, Seq::new(EDGE_COST_DIMENSION as nat, |i: int| None))
}

/// An edge element's gathering from the nodes `from..k`.
pub open spec fn edge_data_upto(
    doc: Seq<XmlNodeView>,
    keys: Seq<KeyView>,
    names: Seq<Seq<char>>,
    from: int,
    k: int,
) -> Result<EdgeAcc, GraphmlError>
    decreases k - from,
{
    if k <= from {
        Ok(edge_acc_start())
    } else {
        match edge_data_upto(doc, keys, names, from, k - 1) {
            Err(e) => Err(e),
            Ok(acc) => edge_data_step(doc[k - 1], (k - 1) as usize, keys, names, acc),
        }
    }
}

/// The edge with the id `id` that the edge element `i` describes; it
/// replaces two edges only where both are named.
pub open spec fn edge_of_element(
    doc: Seq<XmlNodeView>,
    keys: Seq<KeyView>,
    names: Seq<Seq<char>>,
    i: int,
    id: u32,
) -> Result<Edge<Seq<Option<Seq<char>>>>, GraphmlError> {
    match (attribute_of(doc[i].2, "source"@), attribute_of(doc[i].2, "target"@)) {
        (Some(s), Some(t)) => match node_id_value(s) {
            None => Err(GraphmlError::BadNodeId { node: i as usize }),
            Some(src) => match node_id_value(t) {
                None => Err(GraphmlError::BadNodeId { node: i as usize }),
                Some(tgt) => match edge_data_upto(doc, keys, names, i, subtree_end(doc, i)) {
                    Err(e) => Err(e),
                    Ok(acc) => Ok(
                        Edge {
                            id,
                            source_id: src as u32,
                            target_id: tgt as u32,
                            edge_costs: acc.2,
                            replaced_edges: if acc.0 >= 0 && acc.1 >= 0 {
                                Some((acc.0 as u32, acc.1 as u32))
                            } else {
                                None
                            },
                        },
                    ),
                },
            },
        },
        _ => Err(GraphmlError::EdgeWithoutEndpoint { node: i as usize }),
    }
}

/// The text of the last `data` element among the nodes `from..k` whose key
/// is declared with the attribute name `attr`, if there is one with text.
pub open spec fn last_data_text(
    doc: Seq<XmlNodeView>,
    keys: Seq<KeyView>,
    from: int,
    k: int,
    attr: Seq<char>,
) -> Option<Seq<char>>
    decreases k - from,
{
    if k <= from {
        None
    } else {
        let d = doc[k - 1];
        let prev = last_data_text(doc, keys, from, k - 1, attr);
        if !has_tag(d, "data"@) {
            prev
        } else {
            match attribute_of(d.2, "key"@) {
                None => prev,
                Some(key) => match key_lookup(keys, key) {
                    None => prev,
                    Some(a) => if a.2 == attr {
                        match d.3 {
                            Some(t) => Some(t),
                            None => prev,
                        }
                    } else {
                        prev
                    },
                },
            }
        }
    }
}

/// The edge that the text `t` of an `edgeA` or `edgeB` data names: its last
/// position among the edge names, or `-1` for no text or the text `-1`.
pub open spec fn named_edge(names: Seq<Seq<char>>, t: Option<Seq<char>>) -> int {
    match t {
        None => -1,
        Some(t) => if t == "-1"@ {
            -1
        } else {
            match last_index_of(names, t) {
                Some(x) => x,
                None => -1,
            }
        },
    }
}

proof fn lemma_edge_data_refs(
    doc: Seq<XmlNodeView>,
    keys: Seq<KeyView>,
    names: Seq<Seq<char>>,
    from: int,
    k: int,
)
    requires
        0 <= from <= k <= doc.len(),
        edge_data_upto(doc, keys, names, from, k) is Ok,
    ensures
        edge_data_upto(doc, keys, names, from, k)->Ok_0.0 == named_edge(
            names,
            last_data_text(doc, keys, from, k, "edgeA"@),
        ),
        edge_data_upto(doc, keys, names, from, k)->Ok_0.1 == named_edge(
            names,
            last_data_text(doc, keys, from, k, "edgeB"@),
        ),
    decreases k - from,
{
    reveal_strlit("edgeA");
    reveal_strlit("edgeB");
    reveal_strlit("-1");
    assert("edgeA"@ != "edgeB"@) by {
        assert("edgeA"@[4] != "edgeB"@[4]);
    }
    if k > from {
        lemma_edge_data_refs(doc, keys, names, from, k - 1);
    }
}

/// The edge that an edge element describes replaces the edge named by its
/// last `edgeA` data first and the edge named by its last `edgeB` data
/// second, where both name an edge; otherwise it replaces none.
pub proof fn lemma_edge_replaces_edge_a_then_edge_b(
    doc: Seq<XmlNodeView>,
    keys: Seq<KeyView>,
    names: Seq<Seq<char>>,
    i: int,
    id: u32,
)
    requires
        0 <= i < doc.len(),
        edge_of_element(doc, keys, names, i, id) is Ok,
    ensures
        ({
            let end = subtree_end(doc, i);
            let x = named_edge(names, last_data_text(doc, keys, i, end, "edgeA"@));
            let y = named_edge(names, last_data_text(doc, keys, i, end, "edgeB"@));
            edge_of_element(doc, keys, names, i, id)->Ok_0.replaced_edges == if x >= 0 && y >= 0 {
                Some((x as u32, y as u32))
            } else {
                None
            }
        }),
{
    let end = subtree_end(doc, i);
    assert(i <= end <= doc.len());
    lemma_edge_data_refs(doc, keys, names, i, end);
}

proof fn lemma_node_data_fields(doc: Seq<XmlNodeView>, keys: Seq<KeyView>, from: int, k: int)
    requires
        0 <= from <= k <= doc.len(),
        node_data_upto(doc, keys, from, k) is Ok,
    ensures
        node_data_upto(doc, keys, from, k)->Ok_0.0 == match last_data_text(doc, keys, from, k, "id"@) {
            Some(t) => node_id_value(t)->Some_0 as u32,
            None => 0u32,
        },
        node_data_upto(doc, keys, from, k)->Ok_0.1 == match last_data_text(
            doc,
            keys,
            from,
            k,
            "level"@,
        ) {
            Some(t) => parse_unsigned(t, u32::MAX as int)->Some_0 as u32,
            None => 0u32,
        },
        last_data_text(doc, keys, from, k, "id"@) matches Some(t) ==> node_id_value(t) is Some,
        last_data_text(doc, keys, from, k, "level"@) matches Some(t) ==> parse_unsigned(
            t,
            u32::MAX as int,
        ) is Some,
    decreases k - from,
{
    reveal_strlit("id");
    reveal_strlit("level");
    assert("id"@ != "level"@) by {
        assert("id"@.len() != "level"@.len());
    }
    if k > from {
        lemma_node_data_fields(doc, keys, from, k - 1);
    }
}

/// The node that a node element describes has the id that its last `id`
/// data names and the level that its last `level` data gives, each 0 where
/// there is no such data.
pub proof fn lemma_node_takes_last_id_and_level(doc: Seq<XmlNodeView>, keys: Seq<KeyView>, i: int)
    requires
        0 <= i < doc.len(),
        node_of_element(doc, keys, i) is Ok,
    ensures
        ({
            let end = subtree_end(doc, i);
            let n = node_of_element(doc, keys, i)->Ok_0;
            &&& n.id == match last_data_text(doc, keys, i, end, "id"@) {
                Some(t) => node_id_value(t)->Some_0 as u32,
                None => 0u32,
            }
            &&& n.ch_level == match last_data_text(doc, keys, i, end, "level"@) {
                Some(t) => parse_unsigned(t, u32::MAX as int)->Some_0 as u32,
                None => 0u32,
            }
        }),
{
    lemma_node_data_fields(doc, keys, i, subtree_end(doc, i));
}

/// The edges that the edge elements among the first `k` nodes describe,
/// numbered in document order.
pub open spec fn edges_upto(
    doc: Seq<XmlNodeView>,
    keys: Seq<KeyView>,
    names: Seq<Seq<char>>,
    k: int,
) -> Result<Seq<Edge<Seq<Option<Seq<char>>>>>, GraphmlError>
    decreases k,
{
    if k <= 0 {
        Ok(Seq::empty())
    } else {
        match edges_upto(doc, keys, names, k - 1) {
            Err(e) => Err(e),
            Ok(es) => if has_tag(doc[k - 1], "edge"@) {
                match edge_of_element(doc, keys, names, k - 1, es.len() as u32) {
                    Err(e) => Err(e),
                    Ok(e) => Ok(es.push(e)),
                }
            } else {
                Ok(es)
            },
        }
    }
}

pub open spec fn text_option_view(o: Option<String>) -> Option<Seq<char>> {
    match o {
        Some(t) => Some(t@),
        None => None,
    }
}

/// An edge read from GraphML, by the views of its metric texts.
pub open spec fn graphml_edge_view(e: Edge<Vec<Option<String>>>) -> Edge<Seq<Option<Seq<char>>>> {
    Edge {
        id: e.id,
        source_id: e.source_id,
        target_id: e.target_id,
        edge_costs: e.edge_costs@.map_values(|o: Option<String>| text_option_view(o)),
        replaced_edges: e.replaced_edges,
    }
}

proof fn lemma_edge_data_error_persists(
    doc: Seq<XmlNodeView>,
    keys: Seq<KeyView>,
    names: Seq<Seq<char>>,
    from: int,
    k: int,
    k2: int,
)
    requires
        from <= k <= k2,
        edge_data_upto(doc, keys, names, from, k) is Err,
    ensures
        edge_data_upto(doc, keys, names, from, k2) == edge_data_upto(doc, keys, names, from, k),
    decreases k2 - k,
{
    if k2 > k {
        lemma_edge_data_error_persists(doc, keys, names, from, k, k2 - 1);
    }
}

/// A declaration found by `key_lookup` is one of the declarations.
proof fn lemma_key_lookup_member(keys: Seq<KeyView>, id: Seq<char>)
    requires
        key_lookup(keys, id) is Some,
    ensures
        exists|k: int| 0 <= k < keys.len() && keys[k] == key_lookup(keys, id)->0,
    decreases keys.len(),
{
    if keys.last().0 != id {
        lemma_key_lookup_member(keys.drop_last(), id);
        let k = choose|k: int|
            0 <= k < keys.len() - 1 && keys.drop_last()[k] == key_lookup(keys, id)->0;
        assert(keys[k] == keys.drop_last()[k]);
    } else {
        assert(keys[keys.len() - 1] == keys.last());
    }
}

fn read_edge(
    doc: &Vec<XmlNode>,
    i: usize,
    id: u32,
    keys: &Vec<(String, GraphmlAttribute)>,
    names: &NameIndex,
) -> (r: Result<Edge<Vec<Option<String>>>, GraphmlError>)
    requires
        i < doc@.len(),
        names.wf(),
        names@.len() <= u32::MAX,
        metrics_below(keys_view(keys@), EDGE_COST_DIMENSION as int),
    ensures
        match edge_of_element(xml_view(doc@), keys_view(keys@), names@, i as int, id) {
            Ok(e) => r is Ok && graphml_edge_view(r->Ok_0) == e,
            Err(e) => r is Err && r->Err_0 == e,
        },
{
    let ghost dv = xml_view(doc@);
    let ghost kv = keys_view(keys@);
    let ghost nv = names@;
    proof {
        reveal_strlit("data");
        reveal_strlit("key");
        reveal_strlit("edgeA");
        reveal_strlit("edgeB");
        reveal_strlit("-1");
        reveal_strlit("source");
        reveal_strlit("target");
    }
    let e = &doc[i];
    assert(dv[i as int] == xml_node_view(*e));
    let (source_text, target_text) = match (
        find_attribute(&e.attributes, "source"),
        find_attribute(&e.attributes, "target"),
    ) {
        (Some(s), Some(t)) => (s, t),
        _ => {
            return Err(GraphmlError::EdgeWithoutEndpoint { node: i });
        },
    };
    let source = match node_id_of(source_text.as_str()) {
        None => {
            return Err(GraphmlError::BadNodeId { node: i });
        },
        Some(v) => v,
    };
    let target = match node_id_of(target_text.as_str()) {
        None => {
            return Err(GraphmlError::BadNodeId { node: i });
        },
        Some(v) => v,
    };
    let end = end_of_subtree(doc, i);
    let mut edge_a: i64 = -1;
    let mut edge_b: i64 = -1;
    let mut costs: Vec<Option<String>> = vec![None, None, None, None];
    let mut j = i;
    proof {
        assert(costs@.map_values(|o: Option<String>| text_option_view(o)) =~= edge_acc_start().2);
    }
    while j < end
        invariant
            i <= j <= end <= doc@.len(),
            dv == xml_view(doc@),
            kv == keys_view(keys@),
            nv == names@,
            names.wf(),
            nv.len() <= u32::MAX,
            metrics_below(kv, EDGE_COST_DIMENSION as int),
            costs@.len() == EDGE_COST_DIMENSION,
            end == subtree_end(dv, i as int),
            edge_data_upto(dv, kv, nv, i as int, end as int) is Err ==> edge_of_element(
                dv,
                kv,
                nv,
                i as int,
                id,
            ) == Err::<Edge<Seq<Option<Seq<char>>>>, GraphmlError>(
                edge_data_upto(dv, kv, nv, i as int, end as int)->Err_0,
            ),
            edge_data_upto(dv, kv, nv, i as int, j as int) == Ok::<EdgeAcc, GraphmlError>(
                (
                    edge_a as int,
                    edge_b as int,
                    costs@.map_values(|o: Option<String>| text_option_view(o)),
                ),
            ),
            -1 <= edge_a < nv.len(),
            -1 <= edge_b < nv.len(),
        decreases end - j,
    {
        let d = &doc[j];
        assert(dv[j as int] == xml_node_view(*d));
        if d.is_element && text_is(d.name.as_str(), "data") {
            let key = match find_attribute(&d.attributes, "key") {
                None => {
                    proof {
                        lemma_edge_data_error_persists(dv, kv, nv, i as int, j + 1, end as int);
                    }
                    return Err(GraphmlError::DataWithoutKey { node: j });
                },
                Some(k) => k,
            };
            let attr = match find_key(keys, key.as_str()) {
                None => {
                    proof {
                        lemma_edge_data_error_persists(dv, kv, nv, i as int, j + 1, end as int);
                    }
                    return Err(GraphmlError::UnknownKey { node: j });
                },
                Some(a) => a,
            };
            if let Some(text) = &d.text {
                let is_a = text_is(attr.name.as_str(), "edgeA");
                let is_b = text_is(attr.name.as_str(), "edgeB");
                if is_a || is_b {
                    let target_edge: i64 = if text_is(text.as_str(), "-1") {
                        -1
                    } else {
                        match names.lookup(text) {
                            None => {
                                proof {
                                    lemma_edge_data_error_persists(
                                        dv,
                                        kv,
                                        nv,
                                        i as int,
                                        j + 1,
                                        end as int,
                                    );
                                }
                                return Err(GraphmlError::UnknownEdge { node: j });
                            },
                            Some(x) => {
                                proof {
                                    crate::names::lemma_last_index_of(nv, text@);
                                }
                                x as i64
                            },
                        }
                    };
                    if is_a {
                        edge_a = target_edge;
                    } else {
                        edge_b = target_edge;
                    }
                }
                if let AttributeType::Double(k) = attr.attribute_type {
                    proof {
                        lemma_key_lookup_member(kv, key@);
                    }
                    let ghost before = costs@;
                    costs.set(k, Some(text.clone()));
                    proof {
                        assert(costs@.map_values(|o: Option<String>| text_option_view(o))
                            =~= before.map_values(|o: Option<String>| text_option_view(o)).update(
                            k as int,
                            Some(text@),
                        ));
                    }
                }
            }
        }
        j = j + 1;
    }
    let replaced = if edge_a >= 0 && edge_b >= 0 {
        Some((edge_a as u32, edge_b as u32))
    } else {
        None
    };
    let edge = Edge { id, source_id: source, target_id: target, edge_costs: costs, replaced_edges: replaced };
    Ok(edge)
}

/// A later declaration among `keys` has the same id as the one at `i`.
pub open spec fn redeclared(keys: Seq<KeyView>, i: int) -> bool {
    exists|j: int| i < j < keys.len() && (#[trigger] keys[j]).0 == keys[i].0
}

/// The declarations among the first `k` of `keys` that no later one
/// overwrites, in declaration order.
pub open spec fn kept_declarations(keys: Seq<KeyView>, k: int) -> Seq<KeyView>
    decreases k,
{
    if k <= 0 {
        Seq::empty()
    } else if redeclared(keys, k - 1) {
        kept_declarations(keys, k - 1)
    } else {
        kept_declarations(keys, k - 1).push(keys[k - 1])
    }
}

/// The key declarations as a map by id holds them: for each id the last
/// one, in declaration order.
pub open spec fn last_declarations(keys: Seq<KeyView>) -> Seq<KeyView> {
    kept_declarations(keys, keys.len() as int)
}

proof fn lemma_kept_lookup(keys: Seq<KeyView>, k: int, id: Seq<char>)
    requires
        0 <= k <= keys.len(),
        forall|j: int| k <= j < keys.len() ==> (#[trigger] keys[j]).0 != id,
    ensures
        key_lookup(kept_declarations(keys, k), id) == key_lookup(keys.take(k), id),
    decreases k,
{
    if k == 0 {
        assert(keys.take(0).len() == 0);
    } else {
        let t = keys.take(k);
        let prev = kept_declarations(keys, k - 1);
        assert(t.last() == keys[k - 1]);
        assert(t.drop_last() =~= keys.take(k - 1));
        assert(prev.push(keys[k - 1]).last() == keys[k - 1]);
        assert(prev.push(keys[k - 1]).drop_last() =~= prev);
        if keys[k - 1].0 == id {
            assert(!redeclared(keys, k - 1));
        } else {
            lemma_kept_lookup(keys, k - 1, id);
        }
    }
}

/// Looking a key up among the kept declarations finds what looking it up
/// among all declarations finds: the last declaration of its id.
pub proof fn lemma_last_declarations_lookup(keys: Seq<KeyView>, id: Seq<char>)
    ensures
        key_lookup(last_declarations(keys), id) == key_lookup(keys, id),
{
    lemma_kept_lookup(keys, keys.len() as int, id);
    assert(keys.take(keys.len() as int) =~= keys);
}

proof fn lemma_kept_distinct(keys: Seq<KeyView>, k: int)
    requires
        0 <= k <= keys.len(),
    ensures
        forall|a: int|
            0 <= a < kept_declarations(keys, k).len() ==> exists|p: int|
                0 <= p < k && #[trigger] kept_declarations(keys, k)[a] == keys[p] && !redeclared(
                    keys,
                    p,
                ),
        forall|a: int, b: int|
            0 <= a < b < kept_declarations(keys, k).len() ==> (#[trigger] kept_declarations(
                keys,
                k,
            )[a]).0 != (#[trigger] kept_declarations(keys, k)[b]).0,
    decreases k,
{
    if k > 0 {
        lemma_kept_distinct(keys, k - 1);
        let prev = kept_declarations(keys, k - 1);
        let cur = kept_declarations(keys, k);
        if !redeclared(keys, k - 1) {
            assert(cur == prev.push(keys[k - 1]));
            assert forall|a: int| 0 <= a < cur.len() implies exists|p: int|
                0 <= p < k && #[trigger] cur[a] == keys[p] && !redeclared(keys, p) by {
                if a < prev.len() {
                    assert(cur[a] == prev[a]);
                    let p = choose|p: int|
                        0 <= p < k - 1 && #[trigger] prev[a] == keys[p] && !redeclared(keys, p);
                    assert(cur[a] == keys[p]);
                } else {
                    assert(cur[a] == keys[k - 1]);
                }
            }
            assert forall|a: int, b: int| 0 <= a < b < cur.len() implies (#[trigger] cur[a]).0
                != (#[trigger] cur[b]).0 by {
                assert(cur[a] == prev[a]);
                if b < prev.len() {
                    assert(cur[b] == prev[b]);
                } else {
                    assert(cur[b] == keys[k - 1]);
                    let p = choose|p: int|
                        0 <= p < k - 1 && #[trigger] prev[a] == keys[p] && !redeclared(keys, p);
                    if cur[a].0 == cur[b].0 {
                        assert(keys[k - 1].0 == keys[p].0);
                        assert(redeclared(keys, p));
                    }
                }
            }
        } else {
            assert forall|a: int| 0 <= a < cur.len() implies exists|p: int|
                0 <= p < k && #[trigger] cur[a] == keys[p] && !redeclared(keys, p) by {
                let p = choose|p: int|
                    0 <= p < k - 1 && #[trigger] prev[a] == keys[p] && !redeclared(keys, p);
                assert(cur[a] == keys[p]);
            }
        }
    }
}

/// No two kept declarations share an id.
pub proof fn lemma_last_declarations_distinct(keys: Seq<KeyView>)
    ensures
        forall|a: int, b: int|
            0 <= a < b < last_declarations(keys).len() ==> (#[trigger] last_declarations(keys)[a]).0
                != (#[trigger] last_declarations(keys)[b]).0,
{
    lemma_kept_distinct(keys, keys.len() as int);
}

/// The declarations that no later one with the same id overwrites, in
/// declaration order.
pub(crate) fn keep_last_declarations(keys: &Vec<(String, GraphmlAttribute)>) -> (r: Vec<
    (String, GraphmlAttribute),
>)
    ensures
        keys_view(r@) == last_declarations(keys_view(keys@)),
{
    let ghost kv = keys_view(keys@);
    let n = keys.len();
    let mut r: Vec<(String, GraphmlAttribute)> = Vec::new();
    let mut i: usize = 0;
    proof {
        assert(keys_view(r@) =~= Seq::<KeyView>::empty());
    }
    while i < n
        invariant
            n == keys@.len(),
            kv == keys_view(keys@),
            i <= n,
            keys_view(r@) == kept_declarations(kv, i as int),
        decreases n - i,
    {
        let mut again = false;
        let mut j = i + 1;
        while j < n
            invariant
                n == keys@.len(),
                kv == keys_view(keys@),
                i < n,
                i < j <= n,
                again <==> exists|x: int| i < x < j && (#[trigger] kv[x]).0 == kv[i as int].0,
            decreases n - j,
        {
            if text_is(keys[j].0.as_str(), keys[i].0.as_str()) {
                again = true;
                assert(kv[j as int].0 == kv[i as int].0);
            }
            j = j + 1;
        }
        if !again {
            let a = &keys[i].1;
            let entry = (
                keys[i].0.clone(),
                GraphmlAttribute {
                    obj_type: a.obj_type,
                    name: a.name.clone(),
                    attribute_type: a.attribute_type,
                },
            );
            let ghost before = keys_view(r@);
            r.push(entry);
            proof {
                assert(key_view(entry) == kv[i as int]);
                assert(keys_view(r@) =~= before.push(kv[i as int]));
            }
        }
        i = i + 1;
    }
    r
}

/// A GraphML road network: the key declarations, one per id (the last, as
/// a map by id keeps them) in declaration order, the nodes, the edge names,
/// and the edges with the text of each metric.
pub open spec fn graphml_contents(doc: Seq<XmlNodeView>) -> Result<
    (Seq<KeyView>, Seq<Node>, Seq<Seq<char>>, Seq<Edge<Seq<Option<Seq<char>>>>>),
    GraphmlError,
> {
    let n = doc.len() as int;
    match keys_upto(doc, n) {
        Err(e) => Err(e),
        Ok((keys, count)) => if count != EDGE_COST_DIMENSION {
            Err(GraphmlError::WrongMetricCount { found: count as usize })
        } else {
            match nodes_upto(doc, keys, n) {
                Err(e) => Err(e),
                Ok(ns) => match names_upto(doc, keys, n) {
                    Err(e) => Err(e),
                    Ok(names) => if names.len() > u32::MAX {
                        Err(GraphmlError::TooManyEdges)
                    } else {
                        match edges_upto(doc, keys, names, n) {
                            Err(e) => Err(e),
                            Ok(es) => Ok((last_declarations(keys), ns, names, es)),
                        }
                    },
                },
            }
        },
    }
}

/// What a GraphML road network holds; the edges' metrics are still text.
pub struct GraphmlContents {
    /// The key declarations by id, one per id: the last declaration of it,
    /// in declaration order.
    pub keys: Vec<(String, GraphmlAttribute)>,
    pub nodes: Vec<Node>,
    pub edges: Vec<Edge<Vec<Option<String>>>>,
    pub edge_lookup: NameIndex,
}

/// The contents `c` are, by their views, the tuple `t`.
pub open spec fn contents_match(
    c: GraphmlContents,
    t: (Seq<KeyView>, Seq<Node>, Seq<Seq<char>>, Seq<Edge<Seq<Option<Seq<char>>>>>),
) -> bool {
    &&& keys_view(c.keys@) == t.0
    &&& c.nodes@ == t.1
    &&& c.edge_lookup.wf()
    &&& c.edge_lookup@ == t.2
    &&& c.edges@.map_values(|e: Edge<Vec<Option<String>>>| graphml_edge_view(e)) == t.3
}

proof fn lemma_keys_error_persists(doc: Seq<XmlNodeView>, k: int, k2: int)
    requires
        0 <= k <= k2,
        keys_upto(doc, k) is Err,
    ensures
        keys_upto(doc, k2) == keys_upto(doc, k),
    decreases k2 - k,
{
    if k2 > k {
        lemma_keys_error_persists(doc, k, k2 - 1);
    }
}

proof fn lemma_nodes_error_persists(doc: Seq<XmlNodeView>, keys: Seq<KeyView>, k: int, k2: int)
    requires
        0 <= k <= k2,
        nodes_upto(doc, keys, k) is Err,
    ensures
        nodes_upto(doc, keys, k2) == nodes_upto(doc, keys, k),
    decreases k2 - k,
{
    if k2 > k {
        lemma_nodes_error_persists(doc, keys, k, k2 - 1);
    }
}

proof fn lemma_names_error_persists(doc: Seq<XmlNodeView>, keys: Seq<KeyView>, k: int, k2: int)
    requires
        0 <= k <= k2,
        names_upto(doc, keys, k) is Err,
    ensures
        names_upto(doc, keys, k2) == names_upto(doc, keys, k),
    decreases k2 - k,
{
    if k2 > k {
        lemma_names_error_persists(doc, keys, k, k2 - 1);
    }
}

proof fn lemma_edges_error_persists(
    doc: Seq<XmlNodeView>,
    keys: Seq<KeyView>,
    names: Seq<Seq<char>>,
    k: int,
    k2: int,
)
    requires
        0 <= k <= k2,
        edges_upto(doc, keys, names, k) is Err,
    ensures
        edges_upto(doc, keys, names, k2) == edges_upto(doc, keys, names, k),
    decreases k2 - k,
{
    if k2 > k {
        lemma_edges_error_persists(doc, keys, names, k, k2 - 1);
    }
}

/// Reads a road network from the nodes of a GraphML document: the key
/// declarations (exactly `EDGE_COST_DIMENSION` of them metrics), then the
/// nodes, the edge names, and the edges.
///
/// Every malformed document (another number of metrics, an incomplete or
/// unknown key declaration, data for an undeclared key or without text, a
/// level or node id that is not a number, an edge without a name or
/// endpoint, a reference to an unknown edge) gives its own error, where a
/// reader that cannot go on would stop the program: the library does not
/// panic, and the program around it stops on every error but `Xml`.
pub fn graphml_from_document(doc: &Vec<XmlNode>) -> (r: Result<GraphmlContents, GraphmlError>)
    ensures
        match graphml_contents(xml_view(doc@)) {
            Ok(t) => r is Ok && contents_match(r->Ok_0, t),
            Err(e) => r is Err && r->Err_0 == e,
        },
        keys_upto(xml_view(doc@), doc@.len() as int) is Err ==> r is Err,
        keys_upto(xml_view(doc@), doc@.len() as int) matches Ok((_, c)) ==> (c
            != EDGE_COST_DIMENSION ==> r == Err::<GraphmlContents, GraphmlError>(
            GraphmlError::WrongMetricCount { found: c as usize },
        )),
        ({
            let dv = xml_view(doc@);
            let n = dv.len() as int;
            keys_upto(dv, n) matches Ok((k, c)) && c == EDGE_COST_DIMENSION && nodes_upto(dv, k, n)
                is Err
        }) ==> r is Err,
        ({
            let dv = xml_view(doc@);
            let n = dv.len() as int;
            keys_upto(dv, n) matches Ok((k, c)) && c == EDGE_COST_DIMENSION && nodes_upto(dv, k, n)
                is Ok && names_upto(dv, k, n) is Err
        }) ==> r is Err,
{
    let ghost dv = xml_view(doc@);
    let n = doc.len();
    let mut keys: Vec<(String, GraphmlAttribute)> = Vec::new();
    let mut count: usize = 0;
    let mut i: usize = 0;
    proof {
        assert(keys_view(keys@) =~= Seq::<KeyView>::empty());
    }
    while i < n
        invariant
            n == doc@.len(),
            dv == xml_view(doc@),
            i <= n,
            count <= i,
            keys_upto(dv, i as int) == Ok::<(Seq<KeyView>, int), GraphmlError>(
                (keys_view(keys@), count as int),
            ),
            metrics_below(keys_view(keys@), count as int),
        decreases n - i,
    {
        assert(dv[i as int] == xml_node_view(doc@[i as int]));
        match read_key(&doc[i], i, &mut keys, &mut count) {
            Ok(()) => {},
            Err(e) => {
                proof {
                    lemma_keys_error_persists(dv, i + 1, n as int);
                }
                return Err(e);
            },
        }
        i = i + 1;
    }
    if count != EDGE_COST_DIMENSION {
        return Err(GraphmlError::WrongMetricCount { found: count });
    }
    let ghost kv = keys_view(keys@);
    let mut nodes: Vec<Node> = Vec::new();
    i = 0;
    proof {
        reveal_strlit("node");
        reveal_strlit("edge");
    }
    while i < n
        invariant
            n == doc@.len(),
            dv == xml_view(doc@),
            kv == keys_view(keys@),
            keys_upto(dv, n as int) == Ok::<(Seq<KeyView>, int), GraphmlError>(
                (kv, EDGE_COST_DIMENSION as int),
            ),
            i <= n,
            nodes_upto(dv, kv, i as int) == Ok::<Seq<Node>, GraphmlError>(nodes@),
        decreases n - i,
    {
        let d = &doc[i];
        assert(dv[i as int] == xml_node_view(*d));
        if d.is_element && text_is(d.name.as_str(), "node") {
            match read_node(doc, i, &keys) {
                Ok(node) => {
                    nodes.push(node);
                },
                Err(e) => {
                    proof {
                        lemma_nodes_error_persists(dv, kv, i + 1, n as int);
                    }
                    return Err(e);
                },
            }
        }
        i = i + 1;
    }
    let mut names = NameIndex::new();
    i = 0;
    while i < n
        invariant
            n == doc@.len(),
            dv == xml_view(doc@),
            kv == keys_view(keys@),
            keys_upto(dv, n as int) == Ok::<(Seq<KeyView>, int), GraphmlError>(
                (kv, EDGE_COST_DIMENSION as int),
            ),
            nodes_upto(dv, kv, n as int) == Ok::<Seq<Node>, GraphmlError>(nodes@),
            i <= n,
            names.wf(),
            names@.len() <= i,
            names_upto(dv, kv, i as int) == Ok::<Seq<Seq<char>>, GraphmlError>(names@),
        decreases n - i,
    {
        let d = &doc[i];
        assert(dv[i as int] == xml_node_view(*d));
        if d.is_element && text_is(d.name.as_str(), "edge") {
            match read_edge_name(doc, i, &keys) {
                Ok(name) => {
                    names.push(name);
                },
                Err(e) => {
                    proof {
                        lemma_names_error_persists(dv, kv, i + 1, n as int);
                    }
                    return Err(e);
                },
            }
        }
        i = i + 1;
    }
    if names.len() > u32::MAX as usize {
        return Err(GraphmlError::TooManyEdges);
    }
    let ghost nv = names@;
    proof {
        lemma_names_count(dv, kv, n as int);
    }
    let mut edges: Vec<Edge<Vec<Option<String>>>> = Vec::new();
    i = 0;
    proof {
        assert(edges@.map_values(|e: Edge<Vec<Option<String>>>| graphml_edge_view(e)) =~= Seq::<
            Edge<Seq<Option<Seq<char>>>>,
        >::empty());
    }
    while i < n
        invariant
            n == doc@.len(),
            dv == xml_view(doc@),
            kv == keys_view(keys@),
            nv == names@,
            keys_upto(dv, n as int) == Ok::<(Seq<KeyView>, int), GraphmlError>(
                (kv, EDGE_COST_DIMENSION as int),
            ),
            nodes_upto(dv, kv, n as int) == Ok::<Seq<Node>, GraphmlError>(nodes@),
            names_upto(dv, kv, n as int) == Ok::<Seq<Seq<char>>, GraphmlError>(nv),
            names.wf(),
            nv.len() <= u32::MAX,
            nv.len() == count_edges(dv, n as int),
            metrics_below(kv, EDGE_COST_DIMENSION as int),
            i <= n,
            edges@.len() == count_edges(dv, i as int),
            edges_upto(dv, kv, nv, i as int) == Ok::<Seq<Edge<Seq<Option<Seq<char>>>>>, GraphmlError>(
                edges@.map_values(|e: Edge<Vec<Option<String>>>| graphml_edge_view(e)),
            ),
        decreases n - i,
    {
        let d = &doc[i];
        assert(dv[i as int] == xml_node_view(*d));
        if d.is_element && text_is(d.name.as_str(), "edge") {
            proof {
                lemma_count_edges_monotone(dv, i + 1, n as int);
            }
            let id = edges.len() as u32;
            match read_edge(doc, i, id, &keys, &names) {
                Ok(edge) => {
                    let ghost before = edges@;
                    edges.push(edge);
                    proof {
                        assert(edges@.map_values(|e: Edge<Vec<Option<String>>>| graphml_edge_view(e))
                            =~= before.map_values(
                            |e: Edge<Vec<Option<String>>>| graphml_edge_view(e),
                        ).push(graphml_edge_view(edge)));
                    }
                },
                Err(e) => {
                    proof {
                        lemma_edges_error_persists(dv, kv, nv, i + 1, n as int);
                    }
                    return Err(e);
                },
            }
        }
        i = i + 1;
    }
    let keys = keep_last_declarations(&keys);
    Ok(GraphmlContents { keys, nodes, edges, edge_lookup: names })
}

/// Reads a road network from GraphML text: `graphml_from_document` on the
/// nodes of the parsed document, or `GraphmlError::Xml` where the text is
/// not well-formed XML.
pub fn read_graphml(contents: &str) -> (r: Result<GraphmlContents, GraphmlError>)
    ensures
        match xml_document(contents@) {
            None => r matches Err(GraphmlError::Xml(_)),
            Some(doc) => match graphml_contents(doc) {
                Ok(t) => r is Ok && contents_match(r->Ok_0, t),
                Err(e) => r is Err && r->Err_0 == e,
            },
        },
{
    match parse_xml(contents) {
        Err(e) => Err(GraphmlError::Xml(e)),
        Ok(doc) => graphml_from_document(&doc),
    }
}

/// The names of the metrics among `keys`, in the order they are declared.
pub open spec fn metric_names(keys: Seq<KeyView>) -> Seq<Seq<char>>
    decreases keys.len(),
{
    if keys.len() == 0 {
        Seq::empty()
    } else if keys.last().3 is Double {
        metric_names(keys.drop_last()).push(keys.last().2)
    } else {
        metric_names(keys.drop_last())
    }
}

/// The names of the cost metrics that edges carry, in declaration order.
pub fn get_cost_tags(keys: &Vec<(String, GraphmlAttribute)>) -> (tags: Vec<String>)
    ensures
        tags@.map_values(|t: String| t@) == metric_names(keys_view(keys@)),
{
    let ghost kv = keys_view(keys@);
    let mut tags: Vec<String> = Vec::new();
    let mut i: usize = 0;
    while i < keys.len()
        invariant
            i <= keys@.len(),
            kv == keys_view(keys@),
            tags@.map_values(|t: String| t@) == metric_names(kv.take(i as int)),
        decreases keys@.len() - i,
    {
        let ghost pre = kv.take(i + 1);
        assert(pre.drop_last() =~= kv.take(i as int));
        assert(pre.last() == key_view(keys@[i as int]));
        if let AttributeType::Double(_) = keys[i].1.attribute_type {
            let ghost before = tags@;
            tags.push(keys[i].1.name.clone());
            assert(tags@.map_values(|t: String| t@) =~= before.map_values(|t: String| t@).push(
                keys@[i as int].1.name@,
            ));
        }
        i = i + 1;
    }
    assert(kv.take(i as int) =~= kv);
    tags
}

/// The value types of the metric declarations among `keys`, in order.
pub open spec fn metric_types(keys: Seq<KeyView>) -> Seq<AttributeType>
    decreases keys.len(),
{
    if keys.len() == 0 {
        Seq::empty()
    } else if keys.last().3 is Double {
        metric_types(keys.drop_last()).push(keys.last().3)
    } else {
        metric_types(keys.drop_last())
    }
}

/// The metrics are numbered by declaration: reading the keys of a document
/// counts its metric declarations, and the `j`-th of them gets position
/// `j`, so the cost tags name the metrics in the order of their positions.
pub proof fn lemma_metrics_numbered(doc: Seq<XmlNodeView>, k: int)
    requires
        0 <= k <= doc.len(),
        doc.len() <= usize::MAX,
        keys_upto(doc, k) is Ok,
    ensures
        ({
            let (keys, count) = keys_upto(doc, k)->Ok_0;
            &&& 0 <= count <= k
            &&& metric_names(keys).len() == count
            &&& metric_types(keys) == Seq::new(count as nat, |j: int| AttributeType::Double(j as usize))
        }),
    decreases k,
{
    if k > 0 {
        lemma_metrics_numbered(doc, k - 1);
        let (keys0, count0) = keys_upto(doc, k - 1)->Ok_0;
        let (keys, count) = keys_upto(doc, k)->Ok_0;
        if keys.len() > keys0.len() {
            assert(keys.drop_last() =~= keys0);
            if keys.last().3 is Double {
                assert(metric_types(keys) =~= Seq::new(
                    count as nat,
                    |j: int| AttributeType::Double(j as usize),
                ));
            }
        }
    } else {
        assert(metric_types(Seq::<KeyView>::empty()) =~= Seq::new(
            0,
            |j: int| AttributeType::Double(j as usize),
        ));
    }
}

/// The edges of a document are numbered by their position, and the edge
/// name at position `k` belongs to the edge with id `k`.
pub proof fn lemma_edge_numbering(
    doc: Seq<XmlNodeView>,
    keys: Seq<KeyView>,
    names: Seq<Seq<char>>,
    k: int,
)
    requires
        0 <= k,
        edges_upto(doc, keys, names, k) is Ok,
        names_upto(doc, keys, k) is Ok,
        count_edges(doc, k) <= u32::MAX + 1,
    ensures
        edges_upto(doc, keys, names, k)->Ok_0.len() == names_upto(doc, keys, k)->Ok_0.len(),
        forall|j: int|
            0 <= j < edges_upto(doc, keys, names, k)->Ok_0.len() ==> (#[trigger] edges_upto(
                doc,
                keys,
                names,
                k,
            )->Ok_0[j]).id == j,
    decreases k,
{
    lemma_names_count(doc, keys, k);
    if k > 0 {
        lemma_count_edges_monotone(doc, k - 1, k);
        lemma_edge_numbering(doc, keys, names, k - 1);
        let es0 = edges_upto(doc, keys, names, k - 1)->Ok_0;
        let es = edges_upto(doc, keys, names, k)->Ok_0;
        if es.len() > es0.len() {
            assert forall|j: int| 0 <= j < es.len() implies (#[trigger] es[j]).id == j by {
                if j < es0.len() {
                    assert(es[j] == es0[j]);
                }
            }
        }
    }
}

} // verus!
