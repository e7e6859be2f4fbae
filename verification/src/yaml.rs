//! YAML documents as the DSL source: the parser's node tree and its reading as a
//! [`Tree`].
use vstd::prelude::*;
use vstd::utf8::encode_utf8;
use crate::provided::{Tree, TreeView};
use vstd::utf8::{valid_utf8, decode_utf8};
use crate::text::{str_bytes, utf8_text};
use crate::provided::labelled;
use crate::dsl::pairs_view;

verus! {

/// A node of a parsed YAML document.
pub enum YamlNode {
    Null,
    Bool(bool),
    /// A number, by its canonical text (`42`, `-7`, `1.5`, `.inf`).
    Number(String),
    Str(String),
    Sequence(Vec<YamlNode>),
    /// Entries in document order.
    Mapping(Vec<(YamlNode, YamlNode)>),
    /// A value carrying a `!Tag`.
    Tagged,
}

/// Mathematical model of a [`YamlNode`].
pub enum YamlView {
    Null,
    Bool(bool),
    Number(Seq<char>),
    Str(Seq<char>),
    Sequence(Seq<YamlView>),
    Mapping(Seq<(YamlView, YamlView)>),
    Tagged,
}

impl View for YamlNode {
    type V = YamlView;

    open spec fn view(&self) -> YamlView
        decreases self,
    {
        match self {
            YamlNode::Null => YamlView::Null,
            YamlNode::Bool(b) => YamlView::Bool(*b),
            YamlNode::Number(t) => YamlView::Number(t@),
            YamlNode::Str(s) => YamlView::Str(s@),
            YamlNode::Sequence(items) => YamlView::Sequence(
                Seq::new(items@.len(), |i: int| if 0 <= i < items@.len() { items@[i].view() } else { YamlView::Null }),
            ),
            YamlNode::Mapping(pairs) => YamlView::Mapping(
                Seq::new(
                    pairs@.len(),
                    |i: int|
                        (
                            if 0 <= i < pairs@.len() { pairs@[i].0.view() } else { YamlView::Null },
                            if 0 <= i < pairs@.len() { pairs@[i].1.view() } else { YamlView::Null },
                        ),
                ),
            ),
            YamlNode::Tagged => YamlView::Tagged,
        }
    }
}

/// The document that `serde_yaml_ng` reads from `text`, when it reads one.
pub uninterp spec fn yaml_document(text: Seq<char>) -> Option<YamlView>;

/// `serde_yaml_ng::from_str` into a `serde_yaml_ng::Value`, taken over node by
/// node. Claimed: the outcome depends on the text alone (a parse), and a
/// document read is handed over as that document. The error text is
/// `serde_yaml_ng`'s and is not stated.
#[verifier::external_body]
fn load_yaml(text: &str) -> (r: Result<YamlNode, String>)
    ensures
        r is Ok <==> yaml_document(text@) is Some,
        r matches Ok(n) ==> yaml_document(text@) == Some(n@),
{
    match serde_yaml_ng::from_str::<serde_yaml_ng::Value>(text) {
        Ok(v) => Ok(node_of_value(v)),
        Err(e) => Err(format!("{e}")),
    }
}

/// The outside type of a parsed YAML value.
#[verifier::external_type_specification]
#[verifier::external_body]
pub struct ExYamlValue(serde_yaml_ng::Value);

/// Takes a `serde_yaml_ng::Value` over as a [`YamlNode`], variant by variant
/// (a number by `serde_yaml_ng::Number`'s `Display`); used by `load_yaml` only.
#[verifier::external_body]
fn node_of_value(v: serde_yaml_ng::Value) -> YamlNode {
    match v {
        serde_yaml_ng::Value::Null => YamlNode::Null,
        serde_yaml_ng::Value::Bool(b) => YamlNode::Bool(b),
        serde_yaml_ng::Value::Number(n) => YamlNode::Number(n.to_string()),
        serde_yaml_ng::Value::String(s) => YamlNode::Str(s),
        serde_yaml_ng::Value::Sequence(s) => YamlNode::Sequence(s.into_iter().map(node_of_value).collect()),
        serde_yaml_ng::Value::Mapping(m) => YamlNode::Mapping(
            m.into_iter().map(|(k, v)| (node_of_value(k), node_of_value(v))).collect(),
        ),
        serde_yaml_ng::Value::Tagged(_) => YamlNode::Tagged,
    }
}

/// The bytes of `true` or `false`.
pub open spec fn bool_text(b: bool) -> Seq<u8> {
    if b {
        seq![0x74u8, 0x72u8, 0x75u8, 0x65u8]
    } else {
        seq![0x66u8, 0x61u8, 0x6cu8, 0x73u8, 0x65u8]
    }
}

/// Mapping entries whose key is a string, that key as bytes; other keys are
/// left out, order kept.
pub open spec fn string_keyed(entries: Seq<(YamlView, TreeView)>) -> Seq<(Seq<u8>, TreeView)>
    decreases entries.len(),
{
    if entries.len() == 0 {
        Seq::empty()
    } else {
        let rest = string_keyed(entries.drop_last());
        match entries.last().0 {
            YamlView::Str(s) => rest.push((encode_utf8(s), entries.last().1)),
            _ => rest,
        }
    }
}

/// The mapping entries of `pairs` with their values read as trees.
pub open spec fn read_entries(pairs: Seq<(YamlView, YamlView)>) -> Seq<(YamlView, TreeView)>
    decreases pairs,
{
    Seq::new(pairs.len(), |i: int| (pairs[i].0, if 0 <= i < pairs.len() { yaml_tree(pairs[i].1) } else { TreeView::Null }))
}

/// A YAML node read as a tree: strings, numbers and booleans become scalars of
/// their text, sequences and mappings keep their shape (a mapping keeps only its
/// string keys), null and tagged values become null.
pub open spec fn yaml_tree(n: YamlView) -> TreeView
    decreases n,
{
    match n {
        YamlView::Null => TreeView::Null,
        YamlView::Bool(b) => TreeView::Scalar(bool_text(b)),
        YamlView::Number(t) => TreeView::Scalar(encode_utf8(t)),
        YamlView::Str(s) => TreeView::Scalar(encode_utf8(s)),
        YamlView::Sequence(items) => TreeView::Sequence(
            Seq::new(items.len(), |i: int| if 0 <= i < items.len() { yaml_tree(items[i]) } else { TreeView::Null }),
        ),
        YamlView::Mapping(pairs) => TreeView::Mapping(string_keyed(read_entries(pairs))),
        YamlView::Tagged => TreeView::Null,
    }
}

/// The bytes of `true` or `false`.
fn bool_bytes(b: bool) -> (r: Vec<u8>)
    ensures
        r@ == bool_text(b),
{
    let r = if b {
        vec![0x74u8, 0x72u8, 0x75u8, 0x65u8]
    } else {
        vec![0x66u8, 0x61u8, 0x6cu8, 0x73u8, 0x65u8]
    };
    assert(r@ =~= bool_text(b));
    r
}


/// A YAML node read as a tree (see [`yaml_tree`]).
#[verifier::loop_isolation(false)]
#[verifier::spinoff_prover]
pub fn yaml_to_tree(n: &YamlNode) -> (t: Tree)
    ensures
        t@ == yaml_tree(n@),
    decreases n,
{
    match n {
        YamlNode::Null => Tree::Null,
        YamlNode::Tagged => Tree::Null,
        YamlNode::Bool(b) => Tree::Scalar(bool_bytes(*b)),
        YamlNode::Number(t) => Tree::Scalar(str_bytes(t.as_str())),
        YamlNode::Str(s) => Tree::Scalar(str_bytes(s.as_str())),
        YamlNode::Sequence(items) => {
            let ghost items_v = n@->Sequence_0;
            assert(items_v.len() == items@.len());
            let mut out: Vec<Tree> = Vec::new();
            let mut i: usize = 0;
            while i < items.len()
                invariant
                    i <= items@.len(),
                    out@.len() == i,
                    forall|j: int| 0 <= j < i ==> #[trigger] out@[j]@ == yaml_tree(items@[j]@),
                decreases items@.len() - i,
            {
                proof {
                    vstd::std_specs::vec::axiom_vec_index_decreases(*items, i as int);
                    assert(decreases_to!(*n => items@[i as int]));
                }
                let c = yaml_to_tree(&items[i]);
                out.push(c);
                i = i + 1;
            }
            let r = Tree::Sequence(out);
            assert(r@ == yaml_tree(n@)) by {
                let a = r@->Sequence_0;
                let b = yaml_tree(n@)->Sequence_0;
                assert(a.len() == b.len());
                assert forall|j: int| 0 <= j < a.len() implies a[j] == b[j] by {
                    assert(a[j] == out@[j]@);
                    assert(items_v[j] == items@[j]@);
                }
                assert(a =~= b);
            }
            r
        },
        YamlNode::Mapping(pairs) => {
            assert(*n == YamlNode::Mapping(*pairs));
            assert(n@ is Mapping);
            let ghost pv = n@->Mapping_0;
            let ghost entries = read_entries(pv);
            assert(pv.len() == pairs@.len());
            assert forall|j: int| 0 <= j < pairs@.len() implies #[trigger] pv[j] == (pairs@[j].0@, pairs@[j].1@) by {}
            let mut out: Vec<(Vec<u8>, Tree)> = Vec::new();
            let mut i: usize = 0;
            while i < pairs.len()
                invariant
                    i <= pairs@.len(),
                    pv.len() == pairs@.len(),
                    forall|j: int| 0 <= j < pairs@.len() ==> #[trigger] pv[j] == (pairs@[j].0@, pairs@[j].1@),
                    pairs_view(out@) == string_keyed(entries.subrange(0, i as int)),
                decreases pairs@.len() - i,
            {
                proof {
                    vstd::std_specs::vec::axiom_vec_index_decreases(*pairs, i as int);
                    assert(decreases_to!(*n => pairs@[i as int]));
                    assert(decreases_to!(*n => pairs@[i as int].1));
                }
                let v = yaml_to_tree(&pairs[i].1);
                let ghost before = out@;
                assert(pv[i as int] == (pairs@[i as int].0@, pairs@[i as int].1@));
                assert(entries.subrange(0, i + 1).drop_last() =~= entries.subrange(0, i as int));
                assert(entries.subrange(0, i + 1).last() == entries[i as int]);
                match &pairs[i].0 {
                    YamlNode::Str(s) => {
                        let k = str_bytes(s.as_str());
                        out.push((k, v));
                        assert(pairs_view(out@) =~= pairs_view(before).push((k@, v@)));
                    },
                    _ => {},
                }
                i = i + 1;
            }
            assert(entries.subrange(0, i as int) =~= entries);
            let r = Tree::Mapping(out);
            assert(r@ == yaml_tree(n@)) by {
                assert(r@->Mapping_0 =~= pairs_view(out@));
                assert(yaml_tree(n@)->Mapping_0 == string_keyed(entries));
            }
            r
        },
    }
}

/// Reads a YAML document as a tree. Fails on bytes that are not UTF-8 and on
/// text that is not YAML, with the reason.
pub fn parse_yaml(src: &[u8]) -> (r: Result<Tree, String>)
    ensures
        r is Ok <==> valid_utf8(src@) && yaml_document(decode_utf8(src@)) is Some,
        r matches Ok(t) ==> t@ == yaml_tree(yaml_document(decode_utf8(src@))->0),
        r matches Err(m) ==> (if valid_utf8(src@) {
            "YAML parse error: "@.is_prefix_of(m@)
        } else {
            "UTF-8 error: "@.is_prefix_of(m@)
        }),
{
    let text = match utf8_text(src) {
        Ok(t) => t,
        Err(e) => {
            let m = labelled("UTF-8 error: ", e.as_str());
            assert(("UTF-8 error: "@ + e@).subrange(0, "UTF-8 error: "@.len() as int) =~= "UTF-8 error: "@);
            return Err(m);
        },
    };
    match load_yaml(text) {
        Ok(node) => Ok(yaml_to_tree(&node)),
        Err(e) => {
            let m = labelled("YAML parse error: ", e.as_str());
            assert(("YAML parse error: "@ + e@).subrange(0, "YAML parse error: "@.len() as int) =~= "YAML parse error: "@);
            Err(m)
        },
    }
}

} // verus!
