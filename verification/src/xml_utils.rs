//! Generic element trees and their assembly from parse events.
//!
//! The tree builder consumes a sequence of low-level start/end events
//! (attributes attached to the start events) and produces one complete
//! top-level element per call, tracking nesting with an explicit stack
//! of in-progress nodes.  The domain mappers further down turn such a
//! tree into the typed game entities.

use vstd::prelude::*;
use crate::ClientError;
use crate::ClientErrorV;
use crate::result_view;
use crate::game::Board;
use crate::game::Card;
use crate::game::Field;
use crate::game::FieldV;
use crate::game::GameState;
use crate::game::GameStateV;
use crate::game::Joined;
use crate::game::Memento;
use crate::game::Player;
use crate::game::PlayerV;
use crate::game::Room;
use crate::game::WelcomeMessage;
use crate::numbers::parse_i32;
use crate::numbers::spec_parse_i32;

verus! {

broadcast use vstd::std_specs::vec::axiom_vec_index_decreases;

/// One attribute occurrence as reported by the event source.
pub struct RawAttribute {
    pub name: String,
    pub value: String,
}

/// Mathematical image of a `RawAttribute`.
#[verifier::ext_equal]
pub struct RawAttributeV {
    pub name: Seq<char>,
    pub value: Seq<char>,
}

impl DeepView for RawAttribute {
    type V = RawAttributeV;

    open spec fn deep_view(&self) -> RawAttributeV {
        RawAttributeV { name: self.name@, value: self.value@ }
    }
}

/// One low-level event from the token source.
pub enum ParseEvent {
    /// An element opens: its name and its attributes in document order.
    Start { name: String, attributes: Vec<RawAttribute> },
    /// The innermost open element closes.
    End,
    /// Anything the tree builder ignores (text, comments, and the like).
    Other,
    /// The token source failed; no further events are meaningful.
    Failure,
}

/// Mathematical image of a `ParseEvent`.
pub enum ParseEventV {
    Start { name: Seq<char>, attributes: Seq<RawAttributeV> },
    End,
    Other,
    Failure,
}

impl DeepView for ParseEvent {
    type V = ParseEventV;

    open spec fn deep_view(&self) -> ParseEventV {
        match self {
            ParseEvent::Start { name, attributes } => ParseEventV::Start {
                name: name@,
                attributes: attributes.deep_view(),
            },
            ParseEvent::End => ParseEventV::End,
            ParseEvent::Other => ParseEventV::Other,
            ParseEvent::Failure => ParseEventV::Failure,
        }
    }
}

/// One attribute of a node: a name and the ordered values recorded for
/// it (the same attribute name can legally repeat on one element).
pub struct Attribute {
    pub name: String,
    pub values: Vec<String>,
}

/// Mathematical image of an `Attribute`.
#[verifier::ext_equal]
pub struct AttributeV {
    pub name: Seq<char>,
    pub values: Seq<Seq<char>>,
}

impl DeepView for Attribute {
    type V = AttributeV;

    open spec fn deep_view(&self) -> AttributeV {
        AttributeV { name: self.name@, values: self.values.deep_view() }
    }
}

/// A generic tree element: a name, its attributes in first-occurrence
/// order, and its child elements in document order.
pub struct XMLNode {
    name: String,
    attribs: Vec<Attribute>,
    childs: Vec<XMLNode>,
}

/// Mathematical image of an `XMLNode`.
#[verifier::ext_equal]
pub struct NodeV {
    pub name: Seq<char>,
    pub attribs: Seq<AttributeV>,
    pub childs: Seq<NodeV>,
}

/// The view of a node, defined recursively over its children.
pub closed spec fn node_view(n: XMLNode) -> NodeV
    decreases n,
{
    NodeV {
        name: n.name@,
        attribs: n.attribs.deep_view(),
        childs: Seq::new(
            n.childs@.len(),
            |i: int|
                if 0 <= i < n.childs@.len() {
                    node_view(n.childs@[i])
                } else {
                    arbitrary()
                },
        ),
    }
}

impl DeepView for XMLNode {
    type V = NodeV;

    open spec fn deep_view(&self) -> NodeV {
        node_view(*self)
    }
}

/// The deep view of a node vector is the pointwise view of its nodes.
pub proof fn lemma_nodes_deep_view(v: Vec<XMLNode>)
    ensures
        v.deep_view() == Seq::new(v@.len(), |i: int| if 0 <= i < v@.len() { node_view(v@[i]) } else { arbitrary() }),
{
    assert(v.deep_view() =~= Seq::new(
        v@.len(),
        |i: int| if 0 <= i < v@.len() { node_view(v@[i]) } else { arbitrary() },
    ));
}

/// Copy a vector of strings, value for value.
fn clone_strings(v: &Vec<String>) -> (r: Vec<String>)
    ensures
        r.deep_view() == v.deep_view(),
{
    let mut r: Vec<String> = Vec::new();
    let n = v.len();
    let mut i: usize = 0;
    proof {
        assert(r.deep_view() =~= v.deep_view().take(0));
    }
    while i < n
        invariant
            0 <= i <= n,
            n == v@.len(),
            r.deep_view() == v.deep_view().take(i as int),
        decreases n - i,
    {
        let ghost prev = r.deep_view();
        let ghost prevv = r@;
        r.push(v[i].clone());
        proof {
            assert(prev.len() == prevv.len());
            assert forall|k: int| 0 <= k < r@.len() implies #[trigger] r.deep_view()[k]
                == v.deep_view().take(i as int + 1)[k] by {
                if k < prevv.len() {
                    assert(r@[k] == prevv[k]);
                } else {
                    assert(r@[k] == r@[prevv.len() as int]);
                    assert(v.deep_view()[i as int] == v@[i as int]@);
                }
            }
            assert(r.deep_view() =~= v.deep_view().take(i as int + 1));
        }
        i += 1;
    }
    proof {
        assert(v.deep_view().take(n as int) =~= v.deep_view());
    }
    r
}

impl Clone for Attribute {
    /// A deep copy: the clone has the very same view.
    fn clone(&self) -> (res: Self)
        ensures
            res.deep_view() == self.deep_view(),
    {
        Attribute { name: self.name.clone(), values: clone_strings(&self.values) }
    }
}

fn clone_attributes(v: &Vec<Attribute>) -> (r: Vec<Attribute>)
    ensures
        r.deep_view() == v.deep_view(),
{
    let mut r: Vec<Attribute> = Vec::new();
    let n = v.len();
    let mut i: usize = 0;
    proof {
        assert(r.deep_view() =~= v.deep_view().take(0));
    }
    while i < n
        invariant
            0 <= i <= n,
            n == v@.len(),
            r.deep_view() == v.deep_view().take(i as int),
        decreases n - i,
    {
        let ghost prev = r.deep_view();
        let ghost prevv = r@;
        r.push(v[i].clone());
        proof {
            assert(prev.len() == prevv.len());
            assert forall|k: int| 0 <= k < r@.len() implies #[trigger] r.deep_view()[k]
                == v.deep_view().take(i as int + 1)[k] by {
                if k < prevv.len() {
                    assert(r@[k] == prevv[k]);
                } else {
                    assert(r@[k] == r@[prevv.len() as int]);
                    assert(v.deep_view()[i as int] == v@[i as int].deep_view());
                }
            }
            assert(r.deep_view() =~= v.deep_view().take(i as int + 1));
        }
        i += 1;
    }
    proof {
        assert(v.deep_view().take(n as int) =~= v.deep_view());
    }
    r
}

impl Clone for XMLNode {
    /// A deep copy of the whole subtree: the clone has the very same
    /// view as the original node.
    #[verifier::loop_isolation(false)]
    fn clone(&self) -> (res: Self)
        ensures
            res.deep_view() == self.deep_view(),
        decreases *self,
    {
        let name = self.name.clone();
        let attribs = clone_attributes(&self.attribs);
        let mut childs: Vec<XMLNode> = Vec::new();
        let n = self.childs.len();
        let mut i: usize = 0;
        proof {
            lemma_nodes_deep_view(self.childs);
            assert(childs.deep_view() =~= self.childs.deep_view().take(0));
        }
        while i < n
            invariant
                0 <= i <= n,
                n == self.childs@.len(),
                childs.deep_view() == self.childs.deep_view().take(i as int),
            decreases n - i,
        {
            proof {
                assert(self.childs.deep_view()[i as int] == node_view(self.childs@[i as int]));
            }
            let ghost prev = childs.deep_view();
            let ghost prevv = childs@;
            childs.push(self.childs[i].clone());
            proof {
                assert(prev.len() == prevv.len());
                assert forall|k: int| 0 <= k < childs@.len() implies #[trigger] childs.deep_view()[k]
                    == self.childs.deep_view().take(i as int + 1)[k] by {
                    if k < prevv.len() {
                        assert(childs@[k] == prevv[k]);
                    } else {
                        assert(childs@[k] == childs@[prevv.len() as int]);
                    }
                }
                assert(childs.deep_view() =~= self.childs.deep_view().take(i as int + 1));
            }
            i += 1;
        }
        let res = XMLNode { name, attribs, childs };
        proof {
            assert(self.childs.deep_view().take(n as int) =~= self.childs.deep_view());
            lemma_nodes_deep_view(res.childs);
            assert(res.deep_view().childs =~= res.childs.deep_view());
            assert(self.deep_view().childs =~= self.childs.deep_view());
            assert(res.deep_view() =~= self.deep_view());
        }
        res
    }
}

/// The index of the first attribute entry named `name`, or `-1`.
pub open spec fn spec_attr_index(attrs: Seq<AttributeV>, name: Seq<char>) -> int
    decreases attrs.len(),
{
    if attrs.len() == 0 {
        -1
    } else if attrs[0].name == name {
        0
    } else {
        let sub = spec_attr_index(attrs.skip(1), name);
        if sub == -1 {
            -1
        } else {
            sub + 1
        }
    }
}

/// `spec_attr_index` finds exactly the first match.
proof fn lemma_attr_index_at(attrs: Seq<AttributeV>, name: Seq<char>, j: int)
    requires
        0 <= j < attrs.len(),
        attrs[j].name == name,
        forall|k: int| 0 <= k < j ==> #[trigger] attrs[k].name != name,
    ensures
        spec_attr_index(attrs, name) == j,
    decreases attrs.len(),
{
    if j > 0 {
        lemma_attr_index_at(attrs.skip(1), name, j - 1);
    }
}

/// `spec_attr_index` is `-1` exactly when no entry matches.
proof fn lemma_attr_index_none(attrs: Seq<AttributeV>, name: Seq<char>)
    requires
        forall|k: int| 0 <= k < attrs.len() ==> #[trigger] attrs[k].name != name,
    ensures
        spec_attr_index(attrs, name) == -1,
    decreases attrs.len(),
{
    if attrs.len() > 0 {
        lemma_attr_index_none(attrs.skip(1), name);
    }
}

/// Record one attribute occurrence: append the value to the existing
/// entry of that name, or open a new entry at the end.
pub open spec fn spec_add_attr(attrs: Seq<AttributeV>, name: Seq<char>, value: Seq<char>) -> Seq<AttributeV> {
    let i = spec_attr_index(attrs, name);
    if i == -1 {
        attrs.push(AttributeV { name, values: seq![value] })
    } else {
        attrs.update(i, AttributeV { name, values: attrs[i].values.push(value) })
    }
}

/// The attribute entries that a run of raw occurrences folds to.
pub open spec fn spec_fold_attrs(raw: Seq<RawAttributeV>) -> Seq<AttributeV>
    decreases raw.len(),
{
    if raw.len() == 0 {
        Seq::empty()
    } else {
        spec_add_attr(spec_fold_attrs(raw.drop_last()), raw.last().name, raw.last().value)
    }
}

/// Attribute lookup: the first value recorded for `name`, if any.
pub open spec fn spec_attr_first_value(attrs: Seq<AttributeV>, name: Seq<char>) -> Option<Seq<char>> {
    let i = spec_attr_index(attrs, name);
    if i == -1 {
        None
    } else if attrs[i].values.len() == 0 {
        None
    } else {
        Some(attrs[i].values[0])
    }
}

/// The index of the first child named `name`, or `-1`.
pub open spec fn spec_child_index(childs: Seq<NodeV>, name: Seq<char>) -> int
    decreases childs.len(),
{
    if childs.len() == 0 {
        -1
    } else if childs[0].name == name {
        0
    } else {
        let sub = spec_child_index(childs.skip(1), name);
        if sub == -1 {
            -1
        } else {
            sub + 1
        }
    }
}

/// `spec_child_index` finds exactly the first match.
proof fn lemma_child_index_at(childs: Seq<NodeV>, name: Seq<char>, j: int)
    requires
        0 <= j < childs.len(),
        childs[j].name == name,
        forall|k: int| 0 <= k < j ==> #[trigger] childs[k].name != name,
    ensures
        spec_child_index(childs, name) == j,
    decreases childs.len(),
{
    if j > 0 {
        lemma_child_index_at(childs.skip(1), name, j - 1);
    }
}

/// `spec_child_index` is `-1` exactly when no child matches.
proof fn lemma_child_index_none(childs: Seq<NodeV>, name: Seq<char>)
    requires
        forall|k: int| 0 <= k < childs.len() ==> #[trigger] childs[k].name != name,
    ensures
        spec_child_index(childs, name) == -1,
    decreases childs.len(),
{
    if childs.len() > 0 {
        lemma_child_index_none(childs.skip(1), name);
    }
}

/// The first child named `name`, if any.
pub open spec fn spec_child(n: NodeV, name: Seq<char>) -> Option<NodeV> {
    let i = spec_child_index(n.childs, name);
    if i == -1 {
        None
    } else {
        Some(n.childs[i])
    }
}

/// The children of the first child named `name`; empty when there is
/// no such child.
pub open spec fn spec_child_contents(n: NodeV, name: Seq<char>) -> Seq<NodeV> {
    match spec_child(n, name) {
        Some(c) => c.childs,
        None => Seq::empty(),
    }
}

/// The node's own children named `name`, in child order: each
/// matching child exactly once, no other; empty exactly when no
/// child matches.
pub open spec fn spec_named_children(childs: Seq<NodeV>, name: Seq<char>) -> Seq<NodeV>
    decreases childs.len(),
{
    if childs.len() == 0 {
        Seq::empty()
    } else {
        let rest = spec_named_children(childs.drop_last(), name);
        if childs.last().name == name {
            rest.push(childs.last())
        } else {
            rest
        }
    }
}

impl XMLNode {
    /// An element with no name, no attributes and no children.
    pub fn new() -> (r: XMLNode)
        ensures
            r.deep_view() == (NodeV { name: Seq::<char>::empty(), attribs: Seq::<AttributeV>::empty(), childs: Seq::<NodeV>::empty() }),
    {
        let r = XMLNode { name: String::new(), attribs: Vec::new(), childs: Vec::new() };
        proof {
            assert(r.deep_view().childs =~= Seq::<NodeV>::empty());
            assert(r.deep_view().attribs =~= Seq::<AttributeV>::empty());
        }
        r
    }

    /// The element's name.
    pub fn get_name(&self) -> (r: &String)
        ensures
            r@ == self.deep_view().name,
    {
        &self.name
    }

    /// All attribute entries, in first-occurrence order.
    pub fn get_attributes(&self) -> (r: &Vec<Attribute>)
        ensures
            r.deep_view() == self.deep_view().attribs,
    {
        &self.attribs
    }

    /// The first value recorded for the attribute `name`, if any.
    pub fn get_attribute(&self, name: &str) -> (r: Option<&String>)
        ensures
            r.deep_view() == spec_attr_first_value(self.deep_view().attribs, name@),
    {
        let key = String::from_str(name);
        let n = self.attribs.len();
        let mut j: usize = 0;
        while j < n
            invariant
                0 <= j <= n,
                n == self.attribs@.len(),
                key@ == name@,
                forall|k: int| 0 <= k < j ==> #[trigger] self.deep_view().attribs[k].name != name@,
            decreases n - j,
        {
            if self.attribs[j].name == key {
                proof {
                    lemma_attr_index_at(self.deep_view().attribs, name@, j as int);
                }
                if self.attribs[j].values.len() > 0 {
                    return Some(&self.attribs[j].values[0]);
                } else {
                    return None;
                }
            }
            j += 1;
        }
        proof {
            lemma_attr_index_none(self.deep_view().attribs, name@);
        }
        None
    }

    /// All children, in document order.
    pub fn get_childs(&self) -> (r: &Vec<XMLNode>)
        ensures
            r.deep_view() == self.deep_view().childs,
    {
        proof {
            lemma_nodes_deep_view(self.childs);
        }
        &self.childs
    }

    /// The first child named `name`, if any.
    pub fn get_child<'a>(&'a self, name: &str) -> (r: Option<&'a XMLNode>)
        ensures
            r.deep_view() == spec_child(self.deep_view(), name@),
    {
        let key = String::from_str(name);
        let n = self.childs.len();
        let mut j: usize = 0;
        while j < n
            invariant
                0 <= j <= n,
                n == self.childs@.len(),
                key@ == name@,
                forall|k: int| 0 <= k < j ==> #[trigger] self.deep_view().childs[k].name != name@,
            decreases n - j,
        {
            proof {
                assert(self.deep_view().childs[j as int] == node_view(self.childs@[j as int]));
            }
            if self.childs[j].name == key {
                proof {
                    lemma_child_index_at(self.deep_view().childs, name@, j as int);
                }
                return Some(&self.childs[j]);
            }
            j += 1;
        }
        proof {
            lemma_child_index_none(self.deep_view().childs, name@);
        }
        None
    }

    /// The node's own children named `name`, kept in child order.
    #[verifier::loop_isolation(false)]
    pub fn get_child_vec<'a>(&'a self, name: &str) -> (r: Vec<&'a XMLNode>)
        ensures
            r.deep_view() == spec_named_children(self.deep_view().childs, name@),
    {
        let key = String::from_str(name);
        let mut result: Vec<&'a XMLNode> = Vec::new();
        let n = self.childs.len();
        let mut j: usize = 0;
        proof {
            assert(result.deep_view() =~= spec_named_children(self.deep_view().childs.take(0), name@));
        }
        while j < n
            invariant
                0 <= j <= n,
                n == self.childs@.len(),
                key@ == name@,
                result.deep_view() == spec_named_children(self.deep_view().childs.take(j as int), name@),
            decreases n - j,
        {
            proof {
                assert(self.deep_view().childs[j as int] == node_view(self.childs@[j as int]));
                assert(self.deep_view().childs.take(j as int + 1).drop_last() =~= self.deep_view().childs.take(j as int));
                assert(self.deep_view().childs.take(j as int + 1).last() == self.deep_view().childs[j as int]);
            }
            if self.childs[j].name == key {
                let ghost prev = result.deep_view();
                let ghost prevv = result@;
                result.push(&self.childs[j]);
                proof {
                    assert(prev.len() == prevv.len());
                    assert(result@ == prevv.push(&self.childs@[j as int]));
                    assert forall|i: int| 0 <= i < result@.len() implies #[trigger] result.deep_view()[i]
                        == prev.push(node_view(self.childs@[j as int]))[i] by {
                        if i < prevv.len() {
                            assert(result@[i] == prevv[i]);
                        } else {
                            assert(result@[i] == self.childs@[j as int]);
                        }
                    }
                    assert(result.deep_view() =~= prev.push(node_view(self.childs@[j as int])));
                }
            }
            j += 1;
        }
        proof {
            assert(self.deep_view().childs.take(n as int) =~= self.deep_view().childs);
        }
        result
    }

    /// The children of the first child named `name`; empty when there
    /// is no such child.  This is the shape the domain mappers read:
    /// the cards of a player sit under its child named `cards`, the
    /// fields of a board under its child named `fields`.
    pub fn get_child_contents<'a>(&'a self, name: &str) -> (r: Vec<&'a XMLNode>)
        ensures
            r.deep_view() == spec_child_contents(self.deep_view(), name@),
    {
        let mut result: Vec<&'a XMLNode> = Vec::new();
        match self.get_child(name) {
            None => {
                proof {
                    assert(result.deep_view() =~= spec_child_contents(self.deep_view(), name@));
                }
            },
            Some(c) => {
                let n = c.childs.len();
                let mut j: usize = 0;
                while j < n
                    invariant
                        0 <= j <= n,
                        n == c.childs@.len(),
                        spec_child(self.deep_view(), name@) == Some(c.deep_view()),
                        result.deep_view() =~= c.deep_view().childs.take(j as int),
                    decreases n - j,
                {
                    proof {
                        assert(c.deep_view().childs[j as int] == node_view(c.childs@[j as int]));
                    }
                    let ghost prev = result.deep_view();
                    let ghost prevv = result@;
                    result.push(&c.childs[j]);
                    proof {
                        assert(prev.len() == j as int);
                        assert(prevv.len() == j as int);
                        assert(result@ == prevv.push(&c.childs@[j as int]));
                        assert forall|i: int| 0 <= i < j as int + 1 implies #[trigger] result.deep_view()[i]
                            == c.deep_view().childs.take(j as int + 1)[i] by {
                            if i < j as int {
                                assert(result@[i] == prevv[i]);
                                assert(prev[i] == c.deep_view().childs.take(j as int)[i]);
                            } else {
                                assert(result@[i] == c.childs@[j as int]);
                            }
                        }
                        assert(result.deep_view() =~= c.deep_view().childs.take(j as int + 1));
                    }
                    j += 1;
                }
                proof {
                    assert(c.deep_view().childs.take(n as int) =~= c.deep_view().childs);
                    assert(result.deep_view() =~= spec_child_contents(self.deep_view(), name@));
                }
            },
        }
        result
    }
}

/// The stack machine that assembles one complete top-level element
/// from parse events: starts push in-progress nodes, ends either
/// attach the finished child to its parent or complete the element.
pub struct TreeAssembler {
    stack: Vec<XMLNode>,
    seen_start: bool,
}

/// Mathematical image of a `TreeAssembler`.
#[verifier::ext_equal]
pub struct TreeAssemblerV {
    pub stack: Seq<NodeV>,
    pub seen_start: bool,
}

impl DeepView for TreeAssembler {
    type V = TreeAssemblerV;

    closed spec fn deep_view(&self) -> TreeAssemblerV {
        TreeAssemblerV { stack: self.stack.deep_view(), seen_start: self.seen_start }
    }
}

/// The machine before any event: empty stack, no start seen.
pub open spec fn spec_initial_assembler() -> TreeAssemblerV {
    TreeAssemblerV { stack: Seq::empty(), seen_start: false }
}

/// What one step of the machine does.
pub enum StepV {
    /// The element is not complete yet; the machine moves on.
    Continue(TreeAssemblerV),
    /// A top-level element is complete.
    Done(NodeV),
    /// The event source failed.
    Failed,
}

/// One step of the tree-assembly machine.
///
/// A start event pushes a fresh node carrying the event's name and its
/// folded attributes.  An end event attaches the top node to its
/// parent while more than one node is in progress; with exactly one
/// node in progress and at least one start seen, that node is the
/// completed top-level element.  A stray end before any start, and
/// every event the builder does not care about, leave the machine as
/// it is.
pub open spec fn spec_feed(st: TreeAssemblerV, ev: ParseEventV) -> StepV {
    match ev {
        ParseEventV::Start { name, attributes } => StepV::Continue(
            TreeAssemblerV {
                stack: st.stack.push(
                    NodeV { name: name, attribs: spec_fold_attrs(attributes), childs: Seq::empty() },
                ),
                seen_start: true,
            },
        ),
        ParseEventV::End => {
            if st.stack.len() > 1 {
                let child = st.stack.last();
                let parent = st.stack[st.stack.len() - 2];
                StepV::Continue(
                    TreeAssemblerV {
                        stack: st.stack.drop_last().drop_last().push(
                            NodeV {
                                name: parent.name,
                                attribs: parent.attribs,
                                childs: parent.childs.push(child),
                            },
                        ),
                        seen_start: st.seen_start,
                    },
                )
            } else if st.seen_start && st.stack.len() == 1 {
                StepV::Done(st.stack[0])
            } else {
                StepV::Continue(st)
            }
        },
        ParseEventV::Other => StepV::Continue(st),
        ParseEventV::Failure => StepV::Failed,
    }
}

/// Push with the deep view tracked alongside the shallow one.
fn push_with_view<T: DeepView>(v: &mut Vec<T>, x: T)
    ensures
        (*final(v))@ == old(v)@.push(x),
        (*final(v)).deep_view() == old(v).deep_view().push(x.deep_view()),
{
    let ghost pre = v.deep_view();
    let ghost prev = v@;
    let ghost xv = x.deep_view();
    v.push(x);
    proof {
        assert(pre.len() == prev.len());
        assert forall|k: int| 0 <= k < v@.len() implies #[trigger] v.deep_view()[k] == pre.push(xv)[k] by {
            if k < prev.len() {
                assert(v@[k] == prev[k]);
            } else {
                assert(v@[k] == prev.push(v@[prev.len() as int])[prev.len() as int]);
            }
        }
        assert(v.deep_view() =~= pre.push(xv));
    }
}

/// Record one attribute occurrence on a node's attribute entries.
fn push_attr(attrs: &mut Vec<Attribute>, name: String, value: String)
    ensures
        (*final(attrs)).deep_view() == spec_add_attr(old(attrs).deep_view(), name@, value@),
{
    let ghost nm = name@;
    let ghost vl = value@;
    let ghost pre = attrs.deep_view();
    let n = attrs.len();
    let mut j: usize = 0;
    while j < n
        invariant
            0 <= j <= n,
            n == attrs@.len(),
            nm == name@,
            vl == value@,
            *attrs == *old(attrs),
            pre == attrs.deep_view(),
            forall|k: int| 0 <= k < j ==> #[trigger] pre[k].name != nm,
        decreases n - j,
    {
        proof {
            assert(pre[j as int] == attrs@[j as int].deep_view());
        }
        if attrs[j].name == name {
            proof {
                lemma_attr_index_at(pre, nm, j as int);
            }
            let entry = attrs.remove(j);
            proof {
                assert(entry == old(attrs)@[j as int]);
                assert(entry.deep_view() == pre[j as int]);
                assert(entry.values.deep_view() == pre[j as int].values);
            }
            let Attribute { name: kept_name, values: mut kept_values } = entry;
            let ghost kv0 = kept_values.deep_view();
            push_with_view(&mut kept_values, value);
            proof {
                assert(kept_values.deep_view() == kv0.push(vl));
                assert(kv0 == pre[j as int].values);
            }
            let entry = Attribute { name: kept_name, values: kept_values };
            proof {
                assert(entry.values.deep_view() == pre[j as int].values.push(vl));
                assert(entry.name@ == pre[j as int].name);
                assert(entry.deep_view() =~= (AttributeV { name: pre[j as int].name, values: pre[j as int].values.push(vl) }));
            }
            attrs.insert(j, entry);
            proof {
                assert forall|k: int| 0 <= k < attrs@.len() implies #[trigger] attrs.deep_view()[k]
                    == spec_add_attr(pre, nm, vl)[k] by {
                    assert(attrs.deep_view()[k] == attrs@[k].deep_view());
                    if k < j as int {
                        assert(attrs@[k] == old(attrs)@[k]);
                    } else if k > j as int {
                        assert(attrs@[k] == old(attrs)@[k]);
                    }
                }
                assert(attrs.deep_view() =~= spec_add_attr(pre, nm, vl));
            }
            return;
        }
        j += 1;
    }
    proof {
        lemma_attr_index_none(pre, nm);
    }
    let mut vals: Vec<String> = Vec::new();
    push_with_view(&mut vals, value);
    proof {
        assert(vals.deep_view() =~= seq![vl]);
    }
    push_with_view(attrs, Attribute { name, values: vals });
    proof {
        assert(attrs.deep_view() =~= spec_add_attr(pre, nm, vl));
    }
}

impl TreeAssembler {
    /// A machine ready for the first event of a top-level element.
    pub fn new() -> (r: TreeAssembler)
        ensures
            r.deep_view() == spec_initial_assembler(),
    {
        let r = TreeAssembler { stack: Vec::new(), seen_start: false };
        proof {
            assert(r.stack.deep_view() =~= Seq::<NodeV>::empty());
            assert(r.deep_view() =~= spec_initial_assembler());
        }
        r
    }

    /// Feed one event: `Ok(Some(..))` carries a completed top-level
    /// element (the machine is then reset for the next one),
    /// `Ok(None)` means more events are needed, and a source failure
    /// is a `StreamError`.
    pub fn feed(&mut self, ev: &ParseEvent) -> (r: Result<Option<XMLNode>, ClientError>)
        ensures
            match spec_feed(old(self).deep_view(), ev.deep_view()) {
                StepV::Continue(st) => r matches Ok(None) && (*final(self)).deep_view() == st,
                StepV::Done(nv) => r matches Ok(Some(n)) && n.deep_view() == nv
                    && (*final(self)).deep_view() == spec_initial_assembler(),
                StepV::Failed => r matches Err(e) && e.deep_view() == ClientErrorV::StreamError
                    && *final(self) == *old(self),
            },
    {
        match ev {
            ParseEvent::Start { name, attributes } => {
                let mut node = XMLNode { name: name.clone(), attribs: Vec::new(), childs: Vec::new() };
                let ghost raw = attributes.deep_view();
                let m = attributes.len();
                let mut i: usize = 0;
                proof {
                    assert(node.attribs.deep_view() =~= Seq::<AttributeV>::empty());
                    assert(raw.take(0) =~= Seq::<RawAttributeV>::empty());
                }
                while i < m
                    invariant
                        0 <= i <= m,
                        m == attributes@.len(),
                        raw == attributes.deep_view(),
                        node.name@ == name@,
                        node.childs@.len() == 0,
                        node.attribs.deep_view() == spec_fold_attrs(raw.take(i as int)),
                    decreases m - i,
                {
                    proof {
                        assert(raw[i as int] == attributes@[i as int].deep_view());
                        assert(raw.take(i as int + 1).drop_last() =~= raw.take(i as int));
                        assert(raw.take(i as int + 1).last() == raw[i as int]);
                    }
                    push_attr(&mut node.attribs, attributes[i].name.clone(), attributes[i].value.clone());
                    i += 1;
                }
                proof {
                    assert(raw.take(m as int) =~= raw);
                    lemma_nodes_deep_view(node.childs);
                    assert(node.deep_view().childs =~= Seq::<NodeV>::empty());
                    assert(node.deep_view() =~= (NodeV {
                        name: name@,
                        attribs: spec_fold_attrs(raw),
                        childs: Seq::empty(),
                    }));
                }
                push_with_view(&mut self.stack, node);
                self.seen_start = true;
                Ok(None)
            },
            ParseEvent::End => {
                let depth = self.stack.len();
                if depth > 1 {
                    let ghost s0 = self.stack@;
                    let ghost s0v = self.stack.deep_view();
                    let child = self.stack.pop().unwrap();
                    let mut parent = self.stack.pop().unwrap();
                    let ghost pv = parent.deep_view();
                    proof {
                        assert(child == s0[depth - 1]);
                        assert(parent == s0[depth - 2]);
                        assert(child.deep_view() == s0v[depth - 1]);
                        assert(pv == s0v[depth - 2]);
                        lemma_nodes_deep_view(parent.childs);
                        assert(parent.childs.deep_view() =~= pv.childs);
                    }
                    push_with_view(&mut parent.childs, child);
                    proof {
                        lemma_nodes_deep_view(parent.childs);
                        assert(parent.deep_view().childs =~= parent.childs.deep_view());
                        assert(parent.childs.deep_view() == pv.childs.push(s0v[depth - 1]));
                        assert(parent.deep_view() =~= (NodeV {
                            name: pv.name,
                            attribs: pv.attribs,
                            childs: pv.childs.push(s0v[depth - 1]),
                        }));
                    }
                    let ghost s2 = self.stack@;
                    let ghost s2v = self.stack.deep_view();
                    proof {
                        assert forall|k: int| 0 <= k < s2.len() implies #[trigger] s2v[k] == s0v[k] by {
                            assert(s2[k] == s0[k]);
                        }
                        assert(s2v =~= s0v.drop_last().drop_last());
                    }
                    push_with_view(&mut self.stack, parent);
                    proof {
                        assert(self.deep_view() =~= (match spec_feed(old(self).deep_view(), ev.deep_view()) {
                            StepV::Continue(st) => st,
                            _ => spec_initial_assembler(),
                        }));
                    }
                    Ok(None)
                } else if self.seen_start && depth == 1 {
                    let node = self.stack.pop().unwrap();
                    self.seen_start = false;
                    proof {
                        assert(node.deep_view() == old(self).deep_view().stack[0]);
                        assert(self.stack.deep_view() =~= Seq::<NodeV>::empty());
                        assert(self.deep_view() =~= spec_initial_assembler());
                    }
                    Ok(Some(node))
                } else {
                    Ok(None)
                }
            },
            ParseEvent::Other => Ok(None),
            ParseEvent::Failure => Err(ClientError::StreamError),
        }
    }
}

/// Running the machine over `events` from position `i`: the completed
/// element and the position just after its closing event, or, as the
/// error value, the position after the failing event (the sequence's
/// end when it was exhausted first).
pub open spec fn spec_read(events: Seq<ParseEventV>, i: int, st: TreeAssemblerV) -> Result<(NodeV, int), int>
    decreases events.len() - i,
{
    if i < 0 || i >= events.len() {
        Err(events.len() as int)
    } else {
        match spec_feed(st, events[i]) {
            StepV::Done(n) => Ok((n, i + 1)),
            StepV::Failed => Err(i + 1),
            StepV::Continue(st2) => spec_read(events, i + 1, st2),
        }
    }
}

impl XMLNode {
    /// Read exactly one top-level element (with its full subtree) from
    /// `events`, starting at `*pos` and leaving `*pos` just after the
    /// element's closing event, ready for the next call.  Fails with a
    /// `StreamError` when the source reports a failure, or runs out,
    /// before the element is complete.
    pub fn read_from(events: &Vec<ParseEvent>, pos: &mut usize) -> (r: Result<XMLNode, ClientError>)
        requires
            *old(pos) <= events@.len(),
        ensures
            match spec_read(events.deep_view(), *old(pos) as int, spec_initial_assembler()) {
                Ok((nv, p)) => r matches Ok(n) && n.deep_view() == nv && *final(pos) == p,
                Err(p) => r matches Err(e) && e.deep_view() == ClientErrorV::StreamError
                    && *final(pos) == p,
            },
    {
        let ghost evs = events.deep_view();
        let mut machine = TreeAssembler::new();
        loop
            invariant
                *pos <= events@.len(),
                evs == events.deep_view(),
                evs.len() == events@.len(),
                spec_read(evs, *old(pos) as int, spec_initial_assembler())
                    == spec_read(evs, *pos as int, machine.deep_view()),
            decreases events@.len() - *pos,
        {
            if *pos >= events.len() {
                return Err(ClientError::StreamError);
            }
            proof {
                assert(evs[*pos as int] == events@[*pos as int].deep_view());
            }
            let step = machine.feed(&events[*pos]);
            *pos += 1;
            match step {
                Ok(None) => {},
                Ok(Some(n)) => {
                    return Ok(n);
                },
                Err(e) => {
                    return Err(e);
                },
            }
        }
    }
}

/// The numeric attribute `name` of `n`: absent is a `MissingField`,
/// unparsable is a `MalformedValue`.
pub open spec fn spec_attr_num(n: NodeV, name: Seq<char>) -> Result<i32, ClientErrorV> {
    match spec_attr_first_value(n.attribs, name) {
        None => Err(ClientErrorV::MissingField(name)),
        Some(v) => match spec_parse_i32(v) {
            None => Err(ClientErrorV::MalformedValue(name)),
            Some(x) => Ok(x),
        },
    }
}

/// What `as_room` returns: the `roomId` attribute.
pub open spec fn spec_as_room(n: NodeV) -> Result<Seq<char>, ClientErrorV> {
    match spec_attr_first_value(n.attribs, "roomId"@) {
        None => Err(ClientErrorV::MissingField("roomId"@)),
        Some(v) => Ok(v),
    }
}

/// What `as_welcome_message` returns: the `color` attribute.
pub open spec fn spec_as_welcome_message(n: NodeV) -> Result<Seq<char>, ClientErrorV> {
    match spec_attr_first_value(n.attribs, "color"@) {
        None => Err(ClientErrorV::MissingField("color"@)),
        Some(v) => Ok(v),
    }
}

/// What `as_card` returns: the `type` attribute.
pub open spec fn spec_as_card(n: NodeV) -> Result<Seq<char>, ClientErrorV> {
    match spec_attr_first_value(n.attribs, "type"@) {
        None => Err(ClientErrorV::MissingField("type"@)),
        Some(v) => Ok(v),
    }
}

/// What `as_field` returns: the `type` attribute and the numeric
/// `index` attribute.
pub open spec fn spec_as_field(n: NodeV) -> Result<FieldV, ClientErrorV> {
    match spec_attr_first_value(n.attribs, "type"@) {
        None => Err(ClientErrorV::MissingField("type"@)),
        Some(t) => match spec_attr_num(n, "index"@) {
            Err(e) => Err(e),
            Ok(ix) => Ok(FieldV { field_type: t, index: ix as int }),
        },
    }
}

/// Mapping every node of `childs` through `spec_as_card`, stopping at
/// the first failure.
pub open spec fn spec_as_cards(childs: Seq<NodeV>) -> Result<Seq<Seq<char>>, ClientErrorV>
    decreases childs.len(),
{
    if childs.len() == 0 {
        Ok(Seq::empty())
    } else {
        match spec_as_cards(childs.drop_last()) {
            Err(e) => Err(e),
            Ok(rest) => match spec_as_card(childs.last()) {
                Err(e) => Err(e),
                Ok(c) => Ok(rest.push(c)),
            },
        }
    }
}

/// Mapping every node of `childs` through `spec_as_field`, stopping at
/// the first failure.
pub open spec fn spec_as_fields(childs: Seq<NodeV>) -> Result<Seq<FieldV>, ClientErrorV>
    decreases childs.len(),
{
    if childs.len() == 0 {
        Ok(Seq::empty())
    } else {
        match spec_as_fields(childs.drop_last()) {
            Err(e) => Err(e),
            Ok(rest) => match spec_as_field(childs.last()) {
                Err(e) => Err(e),
                Ok(f) => Ok(rest.push(f)),
            },
        }
    }
}

/// What `as_player` returns: the five required attributes, and the
/// cards taken from the children of the child named `cards`.
pub open spec fn spec_as_player(n: NodeV) -> Result<PlayerV, ClientErrorV> {
    match spec_attr_first_value(n.attribs, "displayName"@) {
        None => Err(ClientErrorV::MissingField("displayName"@)),
        Some(dn) => match spec_attr_first_value(n.attribs, "color"@) {
            None => Err(ClientErrorV::MissingField("color"@)),
            Some(col) => match spec_attr_num(n, "index"@) {
                Err(e) => Err(e),
                Ok(ix) => match spec_attr_num(n, "carrots"@) {
                    Err(e) => Err(e),
                    Ok(ca) => match spec_attr_num(n, "salads"@) {
                        Err(e) => Err(e),
                        Ok(sa) => match spec_as_cards(spec_child_contents(n, "cards"@)) {
                            Err(e) => Err(e),
                            Ok(cards) => Ok(PlayerV {
                                display_name: dn,
                                color: col,
                                index: ix as int,
                                carrots: ca as int,
                                salads: sa as int,
                                cards: cards,
                            }),
                        },
                    },
                },
            },
        },
    }
}

/// What `as_board` returns: the fields taken from the children of the
/// child named `fields`.
pub open spec fn spec_as_board(n: NodeV) -> Result<Seq<FieldV>, ClientErrorV> {
    spec_as_fields(spec_child_contents(n, "fields"@))
}

/// What `as_game_state` returns: the children named `red`, `blue` and
/// `board`, each mapped to its entity.
pub open spec fn spec_as_game_state(n: NodeV) -> Result<GameStateV, ClientErrorV> {
    match spec_child(n, "red"@) {
        None => Err(ClientErrorV::MissingField("red"@)),
        Some(r) => match spec_child(n, "blue"@) {
            None => Err(ClientErrorV::MissingField("blue"@)),
            Some(b) => match spec_child(n, "board"@) {
                None => Err(ClientErrorV::MissingField("board"@)),
                Some(bd) => match spec_as_player(r) {
                    Err(e) => Err(e),
                    Ok(red) => match spec_as_player(b) {
                        Err(e) => Err(e),
                        Ok(blue) => match spec_as_board(bd) {
                            Err(e) => Err(e),
                            Ok(board) => Ok(GameStateV {
                                red_player: red,
                                blue_player: blue,
                                board: board,
                            }),
                        },
                    },
                },
            },
        },
    }
}

/// What `as_memento` returns: the game state under the child named
/// `state`.
pub open spec fn spec_as_memento(n: NodeV) -> Result<GameStateV, ClientErrorV> {
    match spec_child(n, "state"@) {
        None => Err(ClientErrorV::MissingField("state"@)),
        Some(st) => spec_as_game_state(st),
    }
}

/// A failed prefix mapping settles the whole card mapping.
proof fn lemma_cards_err_extends(childs: Seq<NodeV>, k: int)
    requires
        0 <= k <= childs.len(),
        spec_as_cards(childs.take(k)) is Err,
    ensures
        spec_as_cards(childs) == spec_as_cards(childs.take(k)),
    decreases childs.len() - k,
{
    if k < childs.len() {
        assert(childs.take(k + 1).drop_last() =~= childs.take(k));
        lemma_cards_err_extends(childs, k + 1);
    } else {
        assert(childs.take(k) =~= childs);
    }
}

/// A failed prefix mapping settles the whole field mapping.
proof fn lemma_fields_err_extends(childs: Seq<NodeV>, k: int)
    requires
        0 <= k <= childs.len(),
        spec_as_fields(childs.take(k)) is Err,
    ensures
        spec_as_fields(childs) == spec_as_fields(childs.take(k)),
    decreases childs.len() - k,
{
    if k < childs.len() {
        assert(childs.take(k + 1).drop_last() =~= childs.take(k));
        lemma_fields_err_extends(childs, k + 1);
    } else {
        assert(childs.take(k) =~= childs);
    }
}

impl XMLNode {
    /// The numeric attribute `name`, or the error naming it.
    fn attr_num(&self, name: &str) -> (r: Result<i32, ClientError>)
        ensures
            result_view(r) == spec_attr_num(self.deep_view(), name@),
    {
        match self.get_attribute(name) {
            None => Err(ClientError::MissingField(String::from_str(name))),
            Some(v) => match parse_i32(v.as_str()) {
                None => Err(ClientError::MalformedValue(String::from_str(name))),
                Some(x) => Ok(x),
            },
        }
    }

    /// Map this node to a `Room`.
    pub fn as_room(&self) -> (r: Result<Room, ClientError>)
        ensures
            result_view(r) == spec_as_room(self.deep_view()),
    {
        match self.get_attribute("roomId") {
            None => Err(ClientError::MissingField(String::from_str("roomId"))),
            Some(v) => Ok(Room { id: v.clone() }),
        }
    }

    /// Map this node to a `Joined` notice.
    pub fn as_joined(&self) -> (r: Result<Joined, ClientError>)
        ensures
            result_view(r) == spec_as_room(self.deep_view()),
    {
        match self.get_attribute("roomId") {
            None => Err(ClientError::MissingField(String::from_str("roomId"))),
            Some(v) => Ok(Joined { id: v.clone() }),
        }
    }

    /// Map this node to a `WelcomeMessage`.
    pub fn as_welcome_message(&self) -> (r: Result<WelcomeMessage, ClientError>)
        ensures
            result_view(r) == spec_as_welcome_message(self.deep_view()),
    {
        match self.get_attribute("color") {
            None => Err(ClientError::MissingField(String::from_str("color"))),
            Some(v) => Ok(WelcomeMessage { color: v.clone() }),
        }
    }

    /// Map this node to a `Card`.
    pub fn as_card(&self) -> (r: Result<Card, ClientError>)
        ensures
            result_view(r) == spec_as_card(self.deep_view()),
    {
        match self.get_attribute("type") {
            None => Err(ClientError::MissingField(String::from_str("type"))),
            Some(v) => Ok(Card { card_type: v.clone() }),
        }
    }

    /// Map this node to a `Field`.
    pub fn as_field(&self) -> (r: Result<Field, ClientError>)
        ensures
            result_view(r) == spec_as_field(self.deep_view()),
    {
        match self.get_attribute("type") {
            None => Err(ClientError::MissingField(String::from_str("type"))),
            Some(v) => {
                let t = v.clone();
                match self.attr_num("index") {
                    Err(e) => Err(e),
                    Ok(ix) => Ok(Field { field_type: t, index: ix }),
                }
            },
        }
    }

    /// Map this node to a `Player`.
    #[verifier::loop_isolation(false)]
    pub fn as_player(&self) -> (r: Result<Player, ClientError>)
        ensures
            result_view(r) == spec_as_player(self.deep_view()),
    {
        let dn = match self.get_attribute("displayName") {
            None => {
                return Err(ClientError::MissingField(String::from_str("displayName")));
            },
            Some(v) => v.clone(),
        };
        let col = match self.get_attribute("color") {
            None => {
                return Err(ClientError::MissingField(String::from_str("color")));
            },
            Some(v) => v.clone(),
        };
        let ix = match self.attr_num("index") {
            Err(e) => {
                return Err(e);
            },
            Ok(x) => x,
        };
        let ca = match self.attr_num("carrots") {
            Err(e) => {
                return Err(e);
            },
            Ok(x) => x,
        };
        let sa = match self.attr_num("salads") {
            Err(e) => {
                return Err(e);
            },
            Ok(x) => x,
        };
        let kids = self.get_child_contents("cards");
        let ghost kv = spec_child_contents(self.deep_view(), "cards"@);
        let mut cards: Vec<Card> = Vec::new();
        let m = kids.len();
        let mut i: usize = 0;
        proof {
            assert(cards.deep_view() =~= Seq::<Seq<char>>::empty());
            assert(kv.take(0) =~= Seq::<NodeV>::empty());
        }
        while i < m
            invariant
                0 <= i <= m,
                m == kids@.len(),
                kids.deep_view() == kv,
                kv.len() == m,
                spec_as_cards(kv.take(i as int)) == Ok::<Seq<Seq<char>>, ClientErrorV>(cards.deep_view()),
            decreases m - i,
        {
            proof {
                assert(kids.deep_view()[i as int] == kids@[i as int].deep_view());
                assert(kv.take(i as int + 1).drop_last() =~= kv.take(i as int));
                assert(kv.take(i as int + 1).last() == kv[i as int]);
            }
            match kids[i].as_card() {
                Err(e) => {
                    proof {
                        lemma_cards_err_extends(kv, i as int + 1);
                    }
                    return Err(e);
                },
                Ok(c) => {
                    push_with_view(&mut cards, c);
                },
            }
            i += 1;
        }
        proof {
            assert(kv.take(m as int) =~= kv);
        }
        Ok(Player { display_name: dn, color: col, index: ix, carrots: ca, salads: sa, cards })
    }

    /// Map this node to a `Board`.
    #[verifier::loop_isolation(false)]
    pub fn as_board(&self) -> (r: Result<Board, ClientError>)
        ensures
            result_view(r) == spec_as_board(self.deep_view()),
    {
        let kids = self.get_child_contents("fields");
        let ghost kv = spec_child_contents(self.deep_view(), "fields"@);
        let mut fields: Vec<Field> = Vec::new();
        let m = kids.len();
        let mut i: usize = 0;
        proof {
            assert(fields.deep_view() =~= Seq::<FieldV>::empty());
            assert(kv.take(0) =~= Seq::<NodeV>::empty());
        }
        while i < m
            invariant
                0 <= i <= m,
                m == kids@.len(),
                kids.deep_view() == kv,
                kv.len() == m,
                spec_as_fields(kv.take(i as int)) == Ok::<Seq<FieldV>, ClientErrorV>(fields.deep_view()),
            decreases m - i,
        {
            proof {
                assert(kids.deep_view()[i as int] == kids@[i as int].deep_view());
                assert(kv.take(i as int + 1).drop_last() =~= kv.take(i as int));
                assert(kv.take(i as int + 1).last() == kv[i as int]);
            }
            match kids[i].as_field() {
                Err(e) => {
                    proof {
                        lemma_fields_err_extends(kv, i as int + 1);
                    }
                    return Err(e);
                },
                Ok(f) => {
                    push_with_view(&mut fields, f);
                },
            }
            i += 1;
        }
        proof {
            assert(kv.take(m as int) =~= kv);
        }
        Ok(Board { fields })
    }

    /// Map this node to a `GameState`.
    pub fn as_game_state(&self) -> (r: Result<GameState, ClientError>)
        ensures
            result_view(r) == spec_as_game_state(self.deep_view()),
    {
        let red = match self.get_child("red") {
            None => {
                return Err(ClientError::MissingField(String::from_str("red")));
            },
            Some(c) => c,
        };
        let blue = match self.get_child("blue") {
            None => {
                return Err(ClientError::MissingField(String::from_str("blue")));
            },
            Some(c) => c,
        };
        let board = match self.get_child("board") {
            None => {
                return Err(ClientError::MissingField(String::from_str("board")));
            },
            Some(c) => c,
        };
        let red_player = match red.as_player() {
            Err(e) => {
                return Err(e);
            },
            Ok(p) => p,
        };
        let blue_player = match blue.as_player() {
            Err(e) => {
                return Err(e);
            },
            Ok(p) => p,
        };
        let board = match board.as_board() {
            Err(e) => {
                return Err(e);
            },
            Ok(b) => b,
        };
        Ok(GameState { red_player, blue_player, board })
    }

    /// Map this node to a `Memento`.
    pub fn as_memento(&self) -> (r: Result<Memento, ClientError>)
        ensures
            result_view(r) == spec_as_memento(self.deep_view()),
    {
        match self.get_child("state") {
            None => Err(ClientError::MissingField(String::from_str("state"))),
            Some(st) => match st.as_game_state() {
                Err(e) => Err(e),
                Ok(state) => Ok(Memento { state }),
            },
        }
    }
}
/// A source tree for the builder laws: an element as the event source
/// reports it, its attributes still a raw occurrence list.
pub struct SrcV {
    pub name: Seq<char>,
    pub attributes: Seq<RawAttributeV>,
    pub childs: Seq<SrcV>,
}

/// The well-formed event run announcing `s`: its start event, the
/// runs of its children in order, its end event.
pub open spec fn spec_events_of(s: SrcV) -> Seq<ParseEventV>
    decreases s,
{
    seq![ParseEventV::Start { name: s.name, attributes: s.attributes }]
        + spec_events_of_list(s.childs) + seq![ParseEventV::End]
}

/// The event runs of a list of sibling elements, in order.
pub open spec fn spec_events_of_list(l: Seq<SrcV>) -> Seq<ParseEventV>
    decreases l,
{
    if l.len() == 0 {
        Seq::empty()
    } else {
        spec_events_of_list(l.drop_last()) + spec_events_of(l.last())
    }
}

/// The node that assembling `s` must produce.
pub open spec fn spec_node_of(s: SrcV) -> NodeV
    decreases s,
{
    NodeV {
        name: s.name,
        attribs: spec_fold_attrs(s.attributes),
        childs: spec_nodes_of(s.childs),
    }
}

/// The nodes of a list of sibling elements, in order.
pub open spec fn spec_nodes_of(l: Seq<SrcV>) -> Seq<NodeV>
    decreases l,
{
    if l.len() == 0 {
        Seq::empty()
    } else {
        spec_nodes_of(l.drop_last()).push(spec_node_of(l.last()))
    }
}

/// The machine state `st` with `child` attached under the top node.
pub open spec fn spec_attach_top(st: TreeAssemblerV, child: NodeV) -> TreeAssemblerV {
    let top = st.stack.last();
    TreeAssemblerV {
        stack: st.stack.update(
            st.stack.len() - 1,
            NodeV { name: top.name, attribs: top.attribs, childs: top.childs.push(child) },
        ),
        seen_start: st.seen_start,
    }
}

/// Running the events of the subtree `s` from any machine with at
/// least one node in progress attaches exactly `spec_node_of(s)`
/// under the top node and consumes exactly those events.
proof fn lemma_read_subtree(s: SrcV, events: Seq<ParseEventV>, i: int, st: TreeAssemblerV)
    requires
        0 <= i,
        i + spec_events_of(s).len() <= events.len(),
        events.subrange(i, i + spec_events_of(s).len() as int) == spec_events_of(s),
        st.stack.len() >= 1,
        st.seen_start == true,
    ensures
        spec_read(events, i, st) == spec_read(
            events,
            i + spec_events_of(s).len() as int,
            spec_attach_top(st, spec_node_of(s)),
        ),
    decreases s,
{
    let run = spec_events_of(s);
    let kids = spec_events_of_list(s.childs);
    assert(run[0] == (ParseEventV::Start { name: s.name, attributes: s.attributes }));
    assert(events[i] == run[0]);
    let fresh = NodeV { name: s.name, attribs: spec_fold_attrs(s.attributes), childs: Seq::empty() };
    let st1 = TreeAssemblerV { stack: st.stack.push(fresh), seen_start: true };
    assert(spec_feed(st, events[i]) == StepV::Continue(st1));
    assert(spec_read(events, i, st) == spec_read(events, i + 1, st1));
    assert(events.subrange(i + 1, i + 1 + kids.len() as int) =~= kids) by {
        assert forall|k: int| 0 <= k < kids.len() implies events.subrange(
            i + 1,
            i + 1 + kids.len() as int,
        )[k] == kids[k] by {
            assert(events[i + 1 + k] == run[1 + k]);
            assert(run[1 + k] == kids[k]);
        }
    }
    lemma_read_children(s.childs, events, i + 1, st1);
    let st2 = spec_attach_children(st1, s.childs);
    let j = i + 1 + kids.len() as int;
    assert(spec_read(events, i + 1, st1) == spec_read(events, j, st2));
    assert(events[j] == run[run.len() - 1]);
    assert(run[run.len() - 1] == ParseEventV::End);
    assert(st2.stack.len() == st.stack.len() + 1);
    assert(st2.stack.len() > 1);
    let done = st2.stack.last();
    assert(done == (NodeV { name: s.name, attribs: spec_fold_attrs(s.attributes), childs: spec_nodes_of(s.childs) }));
    assert(done == spec_node_of(s));
    let st3 = TreeAssemblerV {
        stack: st2.stack.drop_last().drop_last().push(
            NodeV {
                name: st2.stack[st2.stack.len() - 2].name,
                attribs: st2.stack[st2.stack.len() - 2].attribs,
                childs: st2.stack[st2.stack.len() - 2].childs.push(done),
            },
        ),
        seen_start: true,
    };
    assert(spec_feed(st2, events[j]) == StepV::Continue(st3));
    assert(spec_read(events, j, st2) == spec_read(events, j + 1, st3));
    assert(st2.stack.drop_last() =~= st.stack);
    assert(st2.stack[st2.stack.len() - 2] == st.stack.last());
    assert(st3.stack =~= spec_attach_top(st, spec_node_of(s)).stack);
    assert(st3 == spec_attach_top(st, spec_node_of(s)));
    assert(j + 1 == i + run.len() as int);
}

/// The machine state `st` with the nodes of all of `l` attached
/// under the top node, in order.
pub open spec fn spec_attach_children(st: TreeAssemblerV, l: Seq<SrcV>) -> TreeAssemblerV {
    let top = st.stack.last();
    TreeAssemblerV {
        stack: st.stack.update(
            st.stack.len() - 1,
            NodeV { name: top.name, attribs: top.attribs, childs: top.childs + spec_nodes_of(l) },
        ),
        seen_start: st.seen_start,
    }
}

/// Running the event runs of the siblings `l` attaches exactly their
/// nodes, in order, under the top node.
proof fn lemma_read_children(l: Seq<SrcV>, events: Seq<ParseEventV>, i: int, st: TreeAssemblerV)
    requires
        0 <= i,
        i + spec_events_of_list(l).len() <= events.len(),
        events.subrange(i, i + spec_events_of_list(l).len() as int) == spec_events_of_list(l),
        st.stack.len() >= 1,
        st.seen_start == true,
    ensures
        spec_read(events, i, st) == spec_read(
            events,
            i + spec_events_of_list(l).len() as int,
            spec_attach_children(st, l),
        ),
    decreases l,
{
    let run = spec_events_of_list(l);
    let top = st.stack.last();
    if l.len() == 0 {
        assert(spec_nodes_of(l) =~= Seq::<NodeV>::empty());
        assert(top.childs + spec_nodes_of(l) =~= top.childs);
        assert(spec_attach_children(st, l).stack =~= st.stack);
        assert(spec_attach_children(st, l) == st);
    } else {
        let front = l.drop_last();
        let frun = spec_events_of_list(front);
        let lrun = spec_events_of(l.last());
        assert(run == frun + lrun);
        assert(events.subrange(i, i + frun.len() as int) =~= frun) by {
            assert forall|k: int| 0 <= k < frun.len() implies events.subrange(
                i,
                i + frun.len() as int,
            )[k] == frun[k] by {
                assert(events[i + k] == run[k]);
                assert(run[k] == (frun + lrun)[k]);
            }
        }
        lemma_read_children(front, events, i, st);
        let stf = spec_attach_children(st, front);
        let j = i + frun.len() as int;
        assert(events.subrange(j, j + lrun.len() as int) =~= lrun) by {
            assert forall|k: int| 0 <= k < lrun.len() implies events.subrange(
                j,
                j + lrun.len() as int,
            )[k] == lrun[k] by {
                assert(events[j + k] == run[frun.len() + k]);
                assert(run[frun.len() + k] == (frun + lrun)[frun.len() + k]);
            }
        }
        assert(stf.stack.len() == st.stack.len());
        lemma_read_subtree(l.last(), events, j, stf);
        let ste = spec_attach_top(stf, spec_node_of(l.last()));
        assert(stf.stack.last() == (NodeV { name: top.name, attribs: top.attribs, childs: top.childs + spec_nodes_of(front) }));
        assert((top.childs + spec_nodes_of(front)).push(spec_node_of(l.last())) =~= top.childs
            + spec_nodes_of(l));
        assert(ste.stack =~= spec_attach_children(st, l).stack);
        assert(ste == spec_attach_children(st, l));
        assert(j + lrun.len() as int == i + run.len() as int);
    }
}

/// The tree builder inverts event generation: reading the well-formed
/// event run of any source tree yields exactly that tree's node --
/// same name, the attributes folded in first-occurrence order, and
/// the children matching the input structure one for one -- and
/// consumes the whole run.
pub proof fn lemma_read_builds_tree(s: SrcV, events: Seq<ParseEventV>)
    requires
        events == spec_events_of(s),
    ensures
        spec_read(events, 0, spec_initial_assembler()) == Ok::<(NodeV, int), int>(
            (spec_node_of(s), events.len() as int),
        ),
{
    let run = spec_events_of(s);
    let kids = spec_events_of_list(s.childs);
    assert(events[0] == run[0]);
    assert(run[0] == (ParseEventV::Start { name: s.name, attributes: s.attributes }));
    let fresh = NodeV { name: s.name, attribs: spec_fold_attrs(s.attributes), childs: Seq::empty() };
    let st0 = spec_initial_assembler();
    let st1 = TreeAssemblerV { stack: st0.stack.push(fresh), seen_start: true };
    assert(spec_feed(st0, events[0]) == StepV::Continue(st1));
    assert(events.subrange(1, 1 + kids.len() as int) =~= kids) by {
        assert forall|k: int| 0 <= k < kids.len() implies events.subrange(
            1,
            1 + kids.len() as int,
        )[k] == kids[k] by {
            assert(events[1 + k] == run[1 + k]);
            assert(run[1 + k] == kids[k]);
        }
    }
    lemma_read_children(s.childs, events, 1, st1);
    let st2 = spec_attach_children(st1, s.childs);
    let j = 1 + kids.len() as int;
    assert(events[j] == run[run.len() - 1]);
    assert(run[run.len() - 1] == ParseEventV::End);
    assert(st2.stack.len() == 1);
    assert(st2.stack[0] == (NodeV { name: s.name, attribs: spec_fold_attrs(s.attributes), childs: spec_nodes_of(s.childs) }));
    assert(spec_feed(st2, events[j]) == StepV::Done(spec_node_of(s)));
    assert(j + 1 == events.len());
}

/// A self-closing or empty element -- a start event at once followed
/// by its end event -- still yields a node of its own, with no
/// children, never dropped or merged into its parent.
pub proof fn lemma_self_closing(name: Seq<char>, attributes: Seq<RawAttributeV>)
    ensures
        spec_read(
            seq![ParseEventV::Start { name: name, attributes: attributes }, ParseEventV::End],
            0,
            spec_initial_assembler(),
        ) == Ok::<(NodeV, int), int>(
            (NodeV { name: name, attribs: spec_fold_attrs(attributes), childs: Seq::empty() }, 2),
        ),
{
    let s = SrcV { name: name, attributes: attributes, childs: Seq::empty() };
    assert(spec_events_of_list(s.childs) =~= Seq::<ParseEventV>::empty());
    assert(spec_events_of(s) =~= seq![
        ParseEventV::Start { name: name, attributes: attributes },
        ParseEventV::End,
    ]);
    lemma_read_builds_tree(s, spec_events_of(s));
    assert(spec_nodes_of(s.childs) =~= Seq::<NodeV>::empty());
    assert(spec_node_of(s) == (NodeV { name: name, attribs: spec_fold_attrs(attributes), childs: Seq::empty() }));
}

/// Every attribute entry holds at least one value.
pub open spec fn spec_attrs_wf(attrs: Seq<AttributeV>) -> bool {
    forall|k: int| 0 <= k < attrs.len() ==> (#[trigger] attrs[k]).values.len() >= 1
}

/// The first value a raw occurrence run records for `name`, if any.
pub open spec fn spec_first_raw_value(raw: Seq<RawAttributeV>, name: Seq<char>) -> Option<Seq<char>>
    decreases raw.len(),
{
    if raw.len() == 0 {
        None
    } else if raw[0].name == name {
        Some(raw[0].value)
    } else {
        spec_first_raw_value(raw.skip(1), name)
    }
}

/// What `spec_attr_index` finding or missing `name` says of the
/// entries themselves.
proof fn lemma_attr_index_char(attrs: Seq<AttributeV>, name: Seq<char>)
    ensures
        spec_attr_index(attrs, name) == -1 ==> forall|k: int|
            0 <= k < attrs.len() ==> (#[trigger] attrs[k]).name != name,
        spec_attr_index(attrs, name) != -1 ==> {
            let i = spec_attr_index(attrs, name);
            &&& 0 <= i < attrs.len()
            &&& attrs[i].name == name
            &&& forall|k: int| 0 <= k < i ==> (#[trigger] attrs[k]).name != name
        },
    decreases attrs.len(),
{
    if attrs.len() > 0 {
        lemma_attr_index_char(attrs.skip(1), name);
        let sub = spec_attr_index(attrs.skip(1), name);
        if attrs[0].name == name {
        } else if sub == -1 {
            assert forall|k: int| 0 <= k < attrs.len() implies (#[trigger] attrs[k]).name != name by {
                if k > 0 {
                    assert(attrs.skip(1)[k - 1] == attrs[k]);
                }
            }
        } else {
            assert(attrs.skip(1)[sub] == attrs[sub + 1]);
            assert forall|k: int| 0 <= k < sub + 1 implies (#[trigger] attrs[k]).name != name by {
                if k > 0 {
                    assert(attrs.skip(1)[k - 1] == attrs[k]);
                }
            }
        }
    }
}

/// Appending one raw occurrence only matters when the run so far
/// recorded nothing for `name`.
proof fn lemma_first_raw_append(raw: Seq<RawAttributeV>, x: RawAttributeV, name: Seq<char>)
    ensures
        spec_first_raw_value(raw.push(x), name) == (match spec_first_raw_value(raw, name) {
            Some(v) => Some(v),
            None => if x.name == name {
                Some(x.value)
            } else {
                None
            },
        }),
    decreases raw.len(),
{
    if raw.len() == 0 {
        assert(raw.push(x)[0] == x);
        assert(raw.push(x).skip(1) =~= Seq::<RawAttributeV>::empty().push(x).skip(1));
        if x.name != name {
            assert(spec_first_raw_value(raw.push(x).skip(1), name) is None) by {
                assert(raw.push(x).skip(1) =~= Seq::<RawAttributeV>::empty());
            }
        }
    } else {
        assert(raw.push(x)[0] == raw[0]);
        if raw[0].name == name {
        } else {
            assert(raw.push(x).skip(1) =~= raw.skip(1).push(x));
            lemma_first_raw_append(raw.skip(1), x, name);
        }
    }
}

/// Attribute lookup on a folded run returns the first value the run
/// recorded for the name: later occurrences of a repeated attribute
/// name are appended behind it, never ahead of it.  The folded
/// entries also never go without a value.
pub proof fn lemma_fold_first_value(raw: Seq<RawAttributeV>, name: Seq<char>)
    ensures
        spec_attrs_wf(spec_fold_attrs(raw)),
        spec_attr_first_value(spec_fold_attrs(raw), name) == spec_first_raw_value(raw, name),
    decreases raw.len(),
{
    if raw.len() == 0 {
    } else {
        let dl = raw.drop_last();
        let x = raw.last();
        assert(raw =~= dl.push(x));
        lemma_fold_first_value(dl, name);
        lemma_fold_first_value(dl, x.name);
        lemma_first_raw_append(dl, x, name);
        let attrs = spec_fold_attrs(dl);
        let i = spec_attr_index(attrs, x.name);
        lemma_attr_index_char(attrs, x.name);
        let folded = spec_fold_attrs(raw);
        if i == -1 {
            let fresh = AttributeV { name: x.name, values: seq![x.value] };
            assert(folded == attrs.push(fresh));
            assert forall|k: int| 0 <= k < folded.len() implies (#[trigger] folded[k]).values.len()
                >= 1 by {
                if k < attrs.len() {
                    assert(folded[k] == attrs[k]);
                } else {
                    assert(folded[k] == fresh);
                }
            }
            if name == x.name {
                lemma_attr_index_at(folded, name, attrs.len() as int);
                assert(folded[attrs.len() as int] == fresh);
                assert(spec_attr_first_value(attrs, x.name) is None);
                assert(spec_first_raw_value(dl, x.name) is None);
            } else {
                let j = spec_attr_index(attrs, name);
                lemma_attr_index_char(attrs, name);
                if j == -1 {
                    lemma_attr_index_none(folded, name);
                } else {
                    assert(folded[j] == attrs[j]);
                    assert forall|k: int| 0 <= k < j implies (#[trigger] folded[k]).name != name by {
                        assert(folded[k] == attrs[k]);
                    }
                    lemma_attr_index_at(folded, name, j);
                }
            }
        } else {
            let grown = AttributeV { name: x.name, values: attrs[i].values.push(x.value) };
            assert(folded == attrs.update(i, grown));
            assert forall|k: int| 0 <= k < folded.len() implies (#[trigger] folded[k]).values.len()
                >= 1 by {
                if k != i {
                    assert(folded[k] == attrs[k]);
                } else {
                    assert(folded[k] == grown);
                }
            }
            if name == x.name {
                assert(folded[i] == grown);
                assert forall|k: int| 0 <= k < i implies (#[trigger] folded[k]).name != name by {
                    assert(folded[k] == attrs[k]);
                }
                lemma_attr_index_at(folded, name, i);
                assert(attrs[i].values.len() >= 1);
                assert(grown.values[0] == attrs[i].values[0]);
                assert(spec_attr_first_value(attrs, x.name) == Some(attrs[i].values[0]));
            } else {
                let j = spec_attr_index(attrs, name);
                lemma_attr_index_char(attrs, name);
                if j == -1 {
                    assert forall|k: int| 0 <= k < folded.len() implies (#[trigger] folded[k]).name
                        != name by {
                        if k != i {
                            assert(folded[k] == attrs[k]);
                        } else {
                            assert(folded[k] == grown);
                        }
                    }
                    lemma_attr_index_none(folded, name);
                } else {
                    assert(j != i);
                    assert(folded[j] == attrs[j]);
                    assert forall|k: int| 0 <= k < j implies (#[trigger] folded[k]).name != name by {
                        if k != i {
                            assert(folded[k] == attrs[k]);
                        } else {
                            assert(folded[k] == grown);
                        }
                    }
                    lemma_attr_index_at(folded, name, j);
                }
            }
        }
    }
}

/// Pointwise successful card mappings make the whole run succeed.
proof fn lemma_cards_pointwise(childs: Seq<NodeV>, vals: Seq<Seq<char>>)
    requires
        childs.len() == vals.len(),
        forall|k: int| 0 <= k < childs.len() ==> spec_as_card(#[trigger] childs[k]) == Ok::<
            Seq<char>,
            ClientErrorV,
        >(vals[k]),
    ensures
        spec_as_cards(childs) == Ok::<Seq<Seq<char>>, ClientErrorV>(vals),
    decreases childs.len(),
{
    if childs.len() == 0 {
        assert(vals =~= Seq::<Seq<char>>::empty());
    } else {
        assert forall|k: int| 0 <= k < childs.drop_last().len() implies spec_as_card(
            #[trigger] childs.drop_last()[k],
        ) == Ok::<Seq<char>, ClientErrorV>(vals.drop_last()[k]) by {
            assert(childs.drop_last()[k] == childs[k]);
            assert(vals.drop_last()[k] == vals[k]);
        }
        lemma_cards_pointwise(childs.drop_last(), vals.drop_last());
        assert(spec_as_card(childs.last()) == Ok::<Seq<char>, ClientErrorV>(vals.last()));
        assert(vals.drop_last().push(vals.last()) =~= vals);
    }
}

/// Pointwise successful field mappings make the whole run succeed.
proof fn lemma_fields_pointwise(childs: Seq<NodeV>, vals: Seq<FieldV>)
    requires
        childs.len() == vals.len(),
        forall|k: int| 0 <= k < childs.len() ==> spec_as_field(#[trigger] childs[k]) == Ok::<
            FieldV,
            ClientErrorV,
        >(vals[k]),
    ensures
        spec_as_fields(childs) == Ok::<Seq<FieldV>, ClientErrorV>(vals),
    decreases childs.len(),
{
    if childs.len() == 0 {
        assert(vals =~= Seq::<FieldV>::empty());
    } else {
        assert forall|k: int| 0 <= k < childs.drop_last().len() implies spec_as_field(
            #[trigger] childs.drop_last()[k],
        ) == Ok::<FieldV, ClientErrorV>(vals.drop_last()[k]) by {
            assert(childs.drop_last()[k] == childs[k]);
            assert(vals.drop_last()[k] == vals[k]);
        }
        lemma_fields_pointwise(childs.drop_last(), vals.drop_last());
        assert(spec_as_field(childs.last()) == Ok::<FieldV, ClientErrorV>(vals.last()));
        assert(vals.drop_last().push(vals.last()) =~= vals);
    }
}

/// A node shaped like the player `p` -- its attributes carrying `p`'s
/// strings and decimal renderings of its numbers, its card children
/// carrying `p`'s card types -- maps back to exactly `p`.
pub proof fn lemma_player_round_trip(
    n: NodeV,
    p: PlayerV,
    ix: Seq<char>,
    ca: Seq<char>,
    sa: Seq<char>,
)
    requires
        spec_attr_first_value(n.attribs, "displayName"@) == Some(p.display_name),
        spec_attr_first_value(n.attribs, "color"@) == Some(p.color),
        spec_attr_first_value(n.attribs, "index"@) == Some(ix),
        spec_attr_first_value(n.attribs, "carrots"@) == Some(ca),
        spec_attr_first_value(n.attribs, "salads"@) == Some(sa),
        spec_parse_i32(ix) matches Some(v) && v as int == p.index,
        spec_parse_i32(ca) matches Some(v) && v as int == p.carrots,
        spec_parse_i32(sa) matches Some(v) && v as int == p.salads,
        spec_child_contents(n, "cards"@).len() == p.cards.len(),
        forall|k: int| 0 <= k < p.cards.len() ==> spec_as_card(
            #[trigger] spec_child_contents(n, "cards"@)[k],
        ) == Ok::<Seq<char>, ClientErrorV>(p.cards[k]),
    ensures
        spec_as_player(n) == Ok::<PlayerV, ClientErrorV>(p),
{
    lemma_cards_pointwise(spec_child_contents(n, "cards"@), p.cards);
}

/// A node shaped like the game state `gs` -- children `red`, `blue`
/// and `board` whose subtrees map to `gs`'s players and fields --
/// maps back to exactly `gs`: the domain mapping loses nothing of a
/// synthetic state-shaped tree.
pub proof fn lemma_game_state_round_trip(n: NodeV, gs: GameStateV, board_n: NodeV)
    requires
        spec_child(n, "red"@) matches Some(c) && spec_as_player(c) == Ok::<PlayerV, ClientErrorV>(
            gs.red_player,
        ),
        spec_child(n, "blue"@) matches Some(c) && spec_as_player(c) == Ok::<PlayerV, ClientErrorV>(
            gs.blue_player,
        ),
        spec_child(n, "board"@) == Some(board_n),
        spec_child_contents(board_n, "fields"@).len() == gs.board.len(),
        forall|k: int| 0 <= k < gs.board.len() ==> spec_as_field(
            #[trigger] spec_child_contents(board_n, "fields"@)[k],
        ) == Ok::<FieldV, ClientErrorV>(gs.board[k]),
    ensures
        spec_as_game_state(n) == Ok::<GameStateV, ClientErrorV>(gs),
{
    lemma_fields_pointwise(spec_child_contents(board_n, "fields"@), gs.board);
}

} // verus!
