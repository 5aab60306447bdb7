//! The river tree: typed, named nodes with owned children, the per-node
//! transition rules of each tick kind, the traversal engine that applies
//! them, and the parser that grows a tree from a token stream.

use vstd::prelude::*;

use crate::salmon::{Age, Direction, Salmon, SalmonView};
use crate::text::{lower_of, str_eq, to_lowercase};
use crate::program::{ParseError, Program, ProgramView};
use crate::split_custom_escape::{string_views, tokenize, HomespringSplit};
use crate::tick::{PropagationOrder, Tick};

verus! {

broadcast use vstd::std_specs::vec::axiom_vec_index_decreases;

/// The resolved type of a node, one variant per recognized instruction name,
/// matched case-insensitively. Anything unrecognized becomes `Other`, which
/// carries the lowercased name and has no behavior. `Shallows` and `Rapids`
/// carry the number of fish-movement ticks they still delay.
#[derive(Debug, PartialEq, Eq)]
pub enum NodeType {
    Other(String),
    Hatchery,
    HydroPower,
    Snowmelt,
    Shallows(u8),
    Rapids(u8),
    AppendDown,
    Bear,
    ForceField,
    Sense,
    Clone,
    YoungBear,
    Bird,
    UpstreamKillingDevice,
    Waterfall,
    Universe,
    Powers,
    Marshy,
    Insulted,
    UpstreamSense,
    DownstreamSense,
    Evaporates,
    YouthFountain,
    Oblivion,
    Pump,
    RangeSense,
    Fear,
    ReverseUp,
    ReverseDown,
    Time,
    Lock,
    InverseLock,
    YoungSense,
    Switch,
    YoungSwitch,
    Narrows,
    AppendUp,
    YoungRangeSense,
    Net,
    ForceDown,
    ForceUp,
    Spawn,
    PowerInvert,
    Current,
    Bridge,
    Split,
    RangeSwitch,
    YoungRangeSwitch,
}

/// The mathematical value of a `NodeType`: the unrecognized name is a
/// character sequence and the delay counters are unbounded integers.
#[verifier::ext_equal]
pub enum NodeTypeView {
    Other(Seq<char>),
    Hatchery,
    HydroPower,
    Snowmelt,
    Shallows(int),
    Rapids(int),
    AppendDown,
    Bear,
    ForceField,
    Sense,
    Clone,
    YoungBear,
    Bird,
    UpstreamKillingDevice,
    Waterfall,
    Universe,
    Powers,
    Marshy,
    Insulted,
    UpstreamSense,
    DownstreamSense,
    Evaporates,
    YouthFountain,
    Oblivion,
    Pump,
    RangeSense,
    Fear,
    ReverseUp,
    ReverseDown,
    Time,
    Lock,
    InverseLock,
    YoungSense,
    Switch,
    YoungSwitch,
    Narrows,
    AppendUp,
    YoungRangeSense,
    Net,
    ForceDown,
    ForceUp,
    Spawn,
    PowerInvert,
    Current,
    Bridge,
    Split,
    RangeSwitch,
    YoungRangeSwitch,
}

impl View for NodeType {
    type V = NodeTypeView;

    open spec fn view(&self) -> NodeTypeView {
        match self {
            NodeType::Other(s) => NodeTypeView::Other(s@),
            NodeType::Hatchery => NodeTypeView::Hatchery,
            NodeType::HydroPower => NodeTypeView::HydroPower,
            NodeType::Snowmelt => NodeTypeView::Snowmelt,
            NodeType::Shallows(i) => NodeTypeView::Shallows(*i as int),
            NodeType::Rapids(i) => NodeTypeView::Rapids(*i as int),
            NodeType::AppendDown => NodeTypeView::AppendDown,
            NodeType::Bear => NodeTypeView::Bear,
            NodeType::ForceField => NodeTypeView::ForceField,
            NodeType::Sense => NodeTypeView::Sense,
            NodeType::Clone => NodeTypeView::Clone,
            NodeType::YoungBear => NodeTypeView::YoungBear,
            NodeType::Bird => NodeTypeView::Bird,
            NodeType::UpstreamKillingDevice => NodeTypeView::UpstreamKillingDevice,
            NodeType::Waterfall => NodeTypeView::Waterfall,
            NodeType::Universe => NodeTypeView::Universe,
            NodeType::Powers => NodeTypeView::Powers,
            NodeType::Marshy => NodeTypeView::Marshy,
            NodeType::Insulted => NodeTypeView::Insulted,
            NodeType::UpstreamSense => NodeTypeView::UpstreamSense,
            NodeType::DownstreamSense => NodeTypeView::DownstreamSense,
            NodeType::Evaporates => NodeTypeView::Evaporates,
            NodeType::YouthFountain => NodeTypeView::YouthFountain,
            NodeType::Oblivion => NodeTypeView::Oblivion,
            NodeType::Pump => NodeTypeView::Pump,
            NodeType::RangeSense => NodeTypeView::RangeSense,
            NodeType::Fear => NodeTypeView::Fear,
            NodeType::ReverseUp => NodeTypeView::ReverseUp,
            NodeType::ReverseDown => NodeTypeView::ReverseDown,
            NodeType::Time => NodeTypeView::Time,
            NodeType::Lock => NodeTypeView::Lock,
            NodeType::InverseLock => NodeTypeView::InverseLock,
            NodeType::YoungSense => NodeTypeView::YoungSense,
            NodeType::Switch => NodeTypeView::Switch,
            NodeType::YoungSwitch => NodeTypeView::YoungSwitch,
            NodeType::Narrows => NodeTypeView::Narrows,
            NodeType::AppendUp => NodeTypeView::AppendUp,
            NodeType::YoungRangeSense => NodeTypeView::YoungRangeSense,
            NodeType::Net => NodeTypeView::Net,
            NodeType::ForceDown => NodeTypeView::ForceDown,
            NodeType::ForceUp => NodeTypeView::ForceUp,
            NodeType::Spawn => NodeTypeView::Spawn,
            NodeType::PowerInvert => NodeTypeView::PowerInvert,
            NodeType::Current => NodeTypeView::Current,
            NodeType::Bridge => NodeTypeView::Bridge,
            NodeType::Split => NodeTypeView::Split,
            NodeType::RangeSwitch => NodeTypeView::RangeSwitch,
            NodeType::YoungRangeSwitch => NodeTypeView::YoungRangeSwitch,
        }
    }
}

/// The node type a name resolves to: the name's Unicode lowercase is
/// matched against the fixed vocabulary; anything else is `Other` holding
/// the lowercased name. A fresh shallows or rapids delays two fish ticks.
pub open spec fn spec_from_name(name: Seq<char>) -> NodeTypeView {
    let l = lower_of(name);
    if l == "hatchery"@ {
        NodeTypeView::Hatchery
    } else if l == "hydro. power"@ {
        NodeTypeView::HydroPower
    } else if l == "snowmelt"@ {
        NodeTypeView::Snowmelt
    } else if l == "shallows"@ {
        NodeTypeView::Shallows(2)
    } else if l == "rapids"@ {
        NodeTypeView::Rapids(2)
    } else if l == "append. down"@ {
        NodeTypeView::AppendDown
    } else if l == "bear"@ {
        NodeTypeView::Bear
    } else if l == "force. field"@ {
        NodeTypeView::ForceField
    } else if l == "sense"@ {
        NodeTypeView::Sense
    } else if l == "clone"@ {
        NodeTypeView::Clone
    } else if l == "young bear"@ {
        NodeTypeView::YoungBear
    } else if l == "bird"@ {
        NodeTypeView::Bird
    } else if l == "upstream. killing. device"@ {
        NodeTypeView::UpstreamKillingDevice
    } else if l == "waterfall"@ {
        NodeTypeView::Waterfall
    } else if l == "universe"@ {
        NodeTypeView::Universe
    } else if l == "powers"@ {
        NodeTypeView::Powers
    } else if l == "marshy"@ {
        NodeTypeView::Marshy
    } else if l == "insulated"@ {
        NodeTypeView::Insulted
    } else if l == "upstream. sense"@ {
        NodeTypeView::UpstreamSense
    } else if l == "downstream. sense"@ {
        NodeTypeView::DownstreamSense
    } else if l == "evaporates"@ {
        NodeTypeView::Evaporates
    } else if l == "youth. fountain"@ {
        NodeTypeView::YouthFountain
    } else if l == "oblivion"@ {
        NodeTypeView::Oblivion
    } else if l == "pump"@ {
        NodeTypeView::Pump
    } else if l == "range. sense"@ {
        NodeTypeView::RangeSense
    } else if l == "fear"@ {
        NodeTypeView::Fear
    } else if l == "reverse. up"@ {
        NodeTypeView::ReverseUp
    } else if l == "reverse. down"@ {
        NodeTypeView::ReverseDown
    } else if l == "time"@ {
        NodeTypeView::Time
    } else if l == "lock"@ {
        NodeTypeView::Lock
    } else if l == "inverse. lock"@ {
        NodeTypeView::InverseLock
    } else if l == "young. sense"@ {
        NodeTypeView::YoungSense
    } else if l == "switch"@ {
        NodeTypeView::Switch
    } else if l == "young. switch"@ {
        NodeTypeView::YoungSwitch
    } else if l == "narrows"@ {
        NodeTypeView::Narrows
    } else if l == "append. up"@ {
        NodeTypeView::AppendUp
    } else if l == "young. range. sense"@ {
        NodeTypeView::YoungRangeSense
    } else if l == "net"@ {
        NodeTypeView::Net
    } else if l == "force. down"@ {
        NodeTypeView::ForceDown
    } else if l == "force. up"@ {
        NodeTypeView::ForceUp
    } else if l == "spawn"@ {
        NodeTypeView::Spawn
    } else if l == "power. invert"@ {
        NodeTypeView::PowerInvert
    } else if l == "current"@ {
        NodeTypeView::Current
    } else if l == "bridge"@ {
        NodeTypeView::Bridge
    } else if l == "split"@ {
        NodeTypeView::Split
    } else if l == "range. switch"@ {
        NodeTypeView::RangeSwitch
    } else if l == "young. range. switch"@ {
        NodeTypeView::YoungRangeSwitch
    } else {
        NodeTypeView::Other(l)
    }
}

impl NodeType {
    /// Resolves an instruction name, case-insensitively.
    pub fn from_name(name: &str) -> (t: NodeType)
        ensures
            t@ == spec_from_name(name@),
    {
        let l = to_lowercase(name);
        if str_eq(l.as_str(), "hatchery") {
            NodeType::Hatchery
        } else if str_eq(l.as_str(), "hydro. power") {
            NodeType::HydroPower
        } else if str_eq(l.as_str(), "snowmelt") {
            NodeType::Snowmelt
        } else if str_eq(l.as_str(), "shallows") {
            NodeType::Shallows(2)
        } else if str_eq(l.as_str(), "rapids") {
            NodeType::Rapids(2)
        } else if str_eq(l.as_str(), "append. down") {
            NodeType::AppendDown
        } else if str_eq(l.as_str(), "bear") {
            NodeType::Bear
        } else if str_eq(l.as_str(), "force. field") {
            NodeType::ForceField
        } else if str_eq(l.as_str(), "sense") {
            NodeType::Sense
        } else if str_eq(l.as_str(), "clone") {
            NodeType::Clone
        } else if str_eq(l.as_str(), "young bear") {
            NodeType::YoungBear
        } else if str_eq(l.as_str(), "bird") {
            NodeType::Bird
        } else if str_eq(l.as_str(), "upstream. killing. device") {
            NodeType::UpstreamKillingDevice
        } else if str_eq(l.as_str(), "waterfall") {
            NodeType::Waterfall
        } else if str_eq(l.as_str(), "universe") {
            NodeType::Universe
        } else if str_eq(l.as_str(), "powers") {
            NodeType::Powers
        } else if str_eq(l.as_str(), "marshy") {
            NodeType::Marshy
        } else if str_eq(l.as_str(), "insulated") {
            NodeType::Insulted
        } else if str_eq(l.as_str(), "upstream. sense") {
            NodeType::UpstreamSense
        } else if str_eq(l.as_str(), "downstream. sense") {
            NodeType::DownstreamSense
        } else if str_eq(l.as_str(), "evaporates") {
            NodeType::Evaporates
        } else if str_eq(l.as_str(), "youth. fountain") {
            NodeType::YouthFountain
        } else if str_eq(l.as_str(), "oblivion") {
            NodeType::Oblivion
        } else if str_eq(l.as_str(), "pump") {
            NodeType::Pump
        } else if str_eq(l.as_str(), "range. sense") {
            NodeType::RangeSense
        } else if str_eq(l.as_str(), "fear") {
            NodeType::Fear
        } else if str_eq(l.as_str(), "reverse. up") {
            NodeType::ReverseUp
        } else if str_eq(l.as_str(), "reverse. down") {
            NodeType::ReverseDown
        } else if str_eq(l.as_str(), "time") {
            NodeType::Time
        } else if str_eq(l.as_str(), "lock") {
            NodeType::Lock
        } else if str_eq(l.as_str(), "inverse. lock") {
            NodeType::InverseLock
        } else if str_eq(l.as_str(), "young. sense") {
            NodeType::YoungSense
        } else if str_eq(l.as_str(), "switch") {
            NodeType::Switch
        } else if str_eq(l.as_str(), "young. switch") {
            NodeType::YoungSwitch
        } else if str_eq(l.as_str(), "narrows") {
            NodeType::Narrows
        } else if str_eq(l.as_str(), "append. up") {
            NodeType::AppendUp
        } else if str_eq(l.as_str(), "young. range. sense") {
            NodeType::YoungRangeSense
        } else if str_eq(l.as_str(), "net") {
            NodeType::Net
        } else if str_eq(l.as_str(), "force. down") {
            NodeType::ForceDown
        } else if str_eq(l.as_str(), "force. up") {
            NodeType::ForceUp
        } else if str_eq(l.as_str(), "spawn") {
            NodeType::Spawn
        } else if str_eq(l.as_str(), "power. invert") {
            NodeType::PowerInvert
        } else if str_eq(l.as_str(), "current") {
            NodeType::Current
        } else if str_eq(l.as_str(), "bridge") {
            NodeType::Bridge
        } else if str_eq(l.as_str(), "split") {
            NodeType::Split
        } else if str_eq(l.as_str(), "range. switch") {
            NodeType::RangeSwitch
        } else if str_eq(l.as_str(), "young. range. switch") {
            NodeType::YoungRangeSwitch
        } else {
            NodeType::Other(l)
        }
    }
}

/// A node of the river tree. Children are owned and ordered by source
/// order; salmon currently resident at the node are ordered as they
/// arrived. A node never leaves the tree: `destroyed` is only a flag, set
/// once and never read by any rule, so a destroyed node keeps
/// participating in later ticks exactly as before.
#[derive(Debug)]
pub struct Node {
    pub name: String,
    pub node_type: NodeType,
    pub children: Vec<Node>,
    pub salmon: Vec<Salmon>,
    pub block_salmon: bool,
    pub very_block_salmon: bool,
    pub powered: bool,
    pub block_power: bool,
    pub watered: bool,
    pub block_water: bool,
    pub snowy: bool,
    pub block_snow: bool,
    pub destroyed: bool,
}

/// The mathematical value of a node: the whole subtree, with names as
/// character sequences.
#[verifier::ext_equal]
pub struct NodeView {
    pub name: Seq<char>,
    pub node_type: NodeTypeView,
    pub children: Seq<NodeView>,
    pub salmon: Seq<SalmonView>,
    pub block_salmon: bool,
    pub very_block_salmon: bool,
    pub powered: bool,
    pub block_power: bool,
    pub watered: bool,
    pub block_water: bool,
    pub snowy: bool,
    pub block_snow: bool,
    pub destroyed: bool,
}

/// The views of a sequence of nodes.
pub open spec fn nodes_view(s: Seq<Node>) -> Seq<NodeView>
    decreases s,
{
    if s.len() == 0 {
        Seq::empty()
    } else {
        seq![s[0]@] + nodes_view(s.drop_first())
    }
}

impl View for Node {
    type V = NodeView;

    open spec fn view(&self) -> NodeView
        decreases self,
    {
        NodeView {
            name: self.name@,
            node_type: self.node_type@,
            children: nodes_view(self.children@),
            salmon: salmon_views(self.salmon@),
            block_salmon: self.block_salmon,
            very_block_salmon: self.very_block_salmon,
            powered: self.powered,
            block_power: self.block_power,
            watered: self.watered,
            block_water: self.block_water,
            snowy: self.snowy,
            block_snow: self.block_snow,
            destroyed: self.destroyed,
        }
    }
}

/// A node's child stands below it in the well-founded order that justifies
/// recursion over the tree.
proof fn lemma_child_decreases(n: &Node, i: int)
    requires
        0 <= i < n.children.len(),
    ensures
        decreases_to!(*n => n.children[i]),
{
    broadcast use vstd::std_specs::vec::axiom_vec_index_decreases;

    assert(decreases_to!(*n => n.children));
    assert(decreases_to!(n.children => n.children[i]));
}

/// True when some node of one of the forest's trees is named `name`.
pub open spec fn forest_contains_name(s: Seq<NodeView>, name: Seq<char>) -> bool
    decreases s,
{
    s.len() > 0 && (s[0].contains_name(name) || forest_contains_name(s.drop_first(), name))
}

/// True when some tree of the forest is powered.
pub open spec fn forest_is_powered(s: Seq<NodeView>) -> bool
    decreases s,
{
    s.len() > 0 && (s[0].spec_is_powered() || forest_is_powered(s.drop_first()))
}

/// A forest contains a name exactly when one of its trees does.
pub proof fn lemma_forest_contains_name(s: Seq<NodeView>, name: Seq<char>)
    ensures
        forest_contains_name(s, name) <==> exists|i: int|
            0 <= i < s.len() && #[trigger] s[i].contains_name(name),
    decreases s,
{
    if s.len() > 0 {
        lemma_forest_contains_name(s.drop_first(), name);
        if s[0].contains_name(name) {
            assert(s[0].contains_name(name));
        } else if forest_contains_name(s.drop_first(), name) {
            let i = choose|i: int|
                0 <= i < s.drop_first().len() && #[trigger] s.drop_first()[i].contains_name(name);
            assert(s[i + 1] == s.drop_first()[i]);
            assert(s[i + 1].contains_name(name));
        } else {
            assert forall|i: int| 0 <= i < s.len() implies !#[trigger] s[i].contains_name(
                name,
            ) by {
                if i > 0 {
                    assert(s.drop_first()[i - 1] == s[i]);
                }
            }
        }
    }
}

/// A forest is powered exactly when one of its trees is.
pub proof fn lemma_forest_is_powered(s: Seq<NodeView>)
    ensures
        forest_is_powered(s) <==> exists|i: int| 0 <= i < s.len() && #[trigger] s[i].spec_is_powered(),
    decreases s,
{
    if s.len() > 0 {
        lemma_forest_is_powered(s.drop_first());
        if s[0].spec_is_powered() {
            assert(s[0].spec_is_powered());
        } else if forest_is_powered(s.drop_first()) {
            let i = choose|i: int|
                0 <= i < s.drop_first().len() && #[trigger] s.drop_first()[i].spec_is_powered();
            assert(s[i + 1] == s.drop_first()[i]);
            assert(s[i + 1].spec_is_powered());
        } else {
            assert forall|i: int| 0 <= i < s.len() implies !#[trigger] s[i].spec_is_powered() by {
                if i > 0 {
                    assert(s.drop_first()[i - 1] == s[i]);
                }
            }
        }
    }
}

/// The least index of a tree of the forest that contains `name`, if any:
/// the index of the child that leads toward a node so named.
pub open spec fn spec_find_path(s: Seq<NodeView>, name: Seq<char>) -> Option<int>
    decreases s,
{
    if s.len() == 0 {
        None
    } else if s[0].contains_name(name) {
        Some(0)
    } else {
        match spec_find_path(s.drop_first(), name) {
            Some(i) => Some(i + 1),
            None => None,
        }
    }
}

/// What `spec_find_path` returns: the least index whose tree contains the
/// name, or nothing when no tree does.
pub proof fn lemma_find_path(s: Seq<NodeView>, name: Seq<char>)
    ensures
        match spec_find_path(s, name) {
            Some(i) => 0 <= i < s.len() && s[i].contains_name(name) && forall|j: int|
                0 <= j < i ==> !#[trigger] s[j].contains_name(name),
            None => forall|j: int| 0 <= j < s.len() ==> !#[trigger] s[j].contains_name(name),
        },
    decreases s,
{
    if s.len() > 0 && !s[0].contains_name(name) {
        lemma_find_path(s.drop_first(), name);
        assert forall|j: int| 1 <= j < s.len() implies s.drop_first()[j - 1] == s[j] by {}
    }
}

/// `nodes_view` maps the view over the sequence, element by element.
pub broadcast proof fn lemma_nodes_view(s: Seq<Node>)
    ensures
        (#[trigger] nodes_view(s)).len() == s.len(),
        forall|i: int| 0 <= i < s.len() ==> #[trigger] nodes_view(s)[i] == s[i]@,
    decreases s,
{
    if s.len() > 0 {
        lemma_nodes_view(s.drop_first());
        assert(nodes_view(s) == seq![s[0]@] + nodes_view(s.drop_first()));
        assert(nodes_view(s).len() == s.len());
        assert forall|i: int| 0 <= i < s.len() implies nodes_view(s)[i] == #[trigger] s[i]@ by {
            if i > 0 {
                assert(s.drop_first()[i - 1] == s[i]);
                assert(nodes_view(s)[i] == (seq![s[0]@] + nodes_view(s.drop_first()))[i]);
                assert((seq![s[0]@] + nodes_view(s.drop_first()))[i] == nodes_view(
                    s.drop_first(),
                )[i - 1]);
            }
        }
    }
}

impl NodeView {
    /// True when some node of this subtree, the node itself included, is
    /// named `name`. The raw source token is matched, not the resolved type.
    pub open spec fn contains_name(self, name: Seq<char>) -> bool
        decreases self,
    {
        self.name == name || forest_contains_name(self.children, name)
    }

    /// The power query: a node is powered unless `block_power` is set, and
    /// either its own `powered` flag is set or some child subtree is
    /// powered. This is re-evaluated from scratch and propagates no flag.
    pub open spec fn spec_is_powered(self) -> bool
        decreases self,
    {
        !self.block_power && (self.powered || forest_is_powered(self.children))
    }

    /// The view of a freshly constructed node: no children, no salmon, and
    /// all flags clear, except that a snowmelt starts snowy and a powers
    /// starts powered.
    pub open spec fn spec_new(name: Seq<char>) -> NodeView {
        let t = spec_from_name(name);
        NodeView {
            name: name,
            node_type: t,
            children: Seq::empty(),
            salmon: Seq::empty(),
            block_salmon: false,
            very_block_salmon: false,
            powered: t is Powers,
            block_power: false,
            watered: false,
            block_water: false,
            snowy: t is Snowmelt,
            block_snow: false,
            destroyed: false,
        }
    }
}

impl Node {
    /// Constructs a node from its source token. The raw token is kept as
    /// the node's name; tree search matches on it, not on the resolved type.
    pub fn new(name: &str) -> (node: Node)
        ensures
            node@ == NodeView::spec_new(name@),
    {
        let node = Node {
            name: name.to_owned(),
            node_type: NodeType::from_name(name),
            children: Vec::new(),
            salmon: Vec::new(),
            block_salmon: false,
            very_block_salmon: false,
            powered: false,
            block_power: false,
            watered: false,
            block_water: false,
            snowy: false,
            block_snow: false,
            destroyed: false,
        };
        let node = node.init();
        proof {
            assert(node@.children =~= Seq::<NodeView>::empty());
            assert(node@.salmon =~= Seq::<SalmonView>::empty());
        }
        node
    }

    /// Sets the starting flags that follow from the node's type.
    fn init(self) -> (node: Node)
        ensures
            node == (Node {
                snowy: self.snowy || self.node_type@ is Snowmelt,
                powered: self.powered || self.node_type@ is Powers,
                ..self
            }),
    {
        let mut node = self;
        match &node.node_type {
            NodeType::Snowmelt => node.snowy = true,
            NodeType::Powers => node.powered = true,
            _ => (),
        }
        node
    }

    /// A shared borrow of the `n`-th child.
    pub fn borrow_child(&self, n: usize) -> (child: &Node)
        requires
            n < self.children.len(),
        ensures
            *child == self.children[n as int],
            child@ == self@.children[n as int],
    {
        proof {
            lemma_nodes_view(self.children@);
        }
        &self.children[n]
    }

    /// A mutable borrow of the `n`-th child. Whatever the caller writes
    /// through the borrow replaces that child; nothing else changes.
    pub fn borrow_mut_child(&mut self, n: usize) -> (child: &mut Node)
        requires
            n < old(self).children.len(),
        ensures
            *child == old(self).children[n as int],
            final(self).children@ == old(self).children@.update(n as int, *final(child)),
            final(self).name == old(self).name,
            final(self).node_type == old(self).node_type,
            final(self).salmon == old(self).salmon,
            final(self).block_salmon == old(self).block_salmon,
            final(self).very_block_salmon == old(self).very_block_salmon,
            final(self).powered == old(self).powered,
            final(self).block_power == old(self).block_power,
            final(self).watered == old(self).watered,
            final(self).block_water == old(self).block_water,
            final(self).snowy == old(self).snowy,
            final(self).block_snow == old(self).block_snow,
            final(self).destroyed == old(self).destroyed,
    {
        &mut self.children[n]
    }

    /// Appends a child; source order of children is kept.
    pub fn add_child(&mut self, child: Node)
        ensures
            final(self)@ == (NodeView {
                children: old(self)@.children.push(child@),
                ..old(self)@
            }),
            final(self).children@ == old(self).children@.push(child),
    {
        self.children.push(child);
        proof {
            lemma_nodes_view(old(self).children@);
            lemma_nodes_view(self.children@);
            assert(nodes_view(self.children@) =~= nodes_view(old(self).children@).push(
                self.children@.last()@,
            ));
            assert(self.salmon@.map_values(|s: Salmon| s@) =~= old(self).salmon@.map_values(
                |s: Salmon| s@,
            ));
        }
    }

    /// Appends a salmon to this node's resident salmon.
    pub fn add_salmon(&mut self, salmon: Salmon)
        ensures
            final(self)@ == (NodeView { salmon: old(self)@.salmon.push(salmon@), ..old(self)@ }),
            final(self).children == old(self).children,
    {
        let ghost s0 = self.salmon@;
        self.salmon.push(salmon);
        proof {
            assert(self.salmon@.map_values(|s: Salmon| s@) =~= s0.map_values(|s: Salmon| s@).push(
                self.salmon@.last()@,
            ));
            assert(nodes_view(self.children@) == old(self)@.children);
        }
    }

    /// The index of the child whose subtree holds a node named `name`: the
    /// first child, in source order, leading toward such a node.
    pub fn find_node_path(&self, name: &str) -> (r: Option<usize>)
        ensures
            match r {
                Some(i) => spec_find_path(self@.children, name@) == Some(i as int),
                None => spec_find_path(self@.children, name@) is None,
            },
    {
        proof {
            lemma_nodes_view(self.children@);
            lemma_find_path(self@.children, name@);
        }
        let len = self.children.len();
        let mut i: usize = 0;
        while i < len
            invariant
                i <= len,
                len == self.children.len(),
                len == self@.children.len(),
                forall|j: int| 0 <= j < i ==> !#[trigger] self@.children[j].contains_name(name@),
            decreases len - i,
        {
            proof {
                lemma_nodes_view(self.children@);
            }
            if self.borrow_child(i).find_node(name) {
                proof {
                    lemma_find_path(self@.children, name@);
                }
                return Some(i);
            }
            i += 1;
        }
        proof {
            lemma_find_path(self@.children, name@);
        }
        None
    }

    /// The power query of the fish-hatch rule: blocked power cuts the
    /// subtree off; otherwise a node is powered when its own flag is set or
    /// some node below it is powered.
    pub fn is_powered(&self) -> (r: bool)
        ensures
            r == self@.spec_is_powered(),
        decreases *self,
    {
        proof {
            lemma_nodes_view(self.children@);
            lemma_forest_is_powered(self@.children);
        }
        if self.block_power {
            return false;
        }
        if self.powered {
            return true;
        }
        let len = self.children.len();
        let mut i: usize = 0;
        while i < len
            invariant
                i <= len,
                len == self.children.len(),
                len == self@.children.len(),
                !self@.block_power,
                forall|j: int| 0 <= j < i ==> !#[trigger] self@.children[j].spec_is_powered(),
            decreases len - i,
        {
            proof {
                lemma_nodes_view(self.children@);
                lemma_child_decreases(self, i as int);
            }
            if self.borrow_child(i).is_powered() {
                proof {
                    lemma_forest_is_powered(self@.children);
                }
                return true;
            }
            i += 1;
        }
        proof {
            lemma_forest_is_powered(self@.children);
        }
        false
    }

    /// Whether some node of this subtree is named `name`. The search visits
    /// the first child's subtree, then this node, then the remaining
    /// children, an attempt at in-order search for an n-ary tree; the
    /// result is simply containment.
    fn find_node(&self, name: &str) -> (found: bool)
        ensures
            found == self@.contains_name(name@),
        decreases *self,
    {
        proof {
            lemma_nodes_view(self.children@);
        }
        let len = self.children.len();
        if len > 0 {
            proof {
                lemma_child_decreases(self, 0);
            }
            if self.borrow_child(0).find_node(name) {
                proof {
                    lemma_forest_contains_name(self@.children, name@);
                    assert(self@.children[0].contains_name(name@));
                }
                return true;
            }
        }
        if str_eq(self.name.as_str(), name) {
            return true;
        }
        if len > 1 {
            let mut i: usize = 1;
            while i < len
                invariant
                    1 <= i <= len,
                    len == self.children.len(),
                    len == self@.children.len(),
                    forall|j: int|
                        0 <= j < i ==> !#[trigger] self@.children[j].contains_name(name@),
                    self@.name != name@,
                decreases len - i,
            {
                proof {
                    lemma_nodes_view(self.children@);
                    lemma_child_decreases(self, i as int);
                }
                if self.borrow_child(i).find_node(name) {
                    proof {
                        lemma_forest_contains_name(self@.children, name@);
                        assert(self@.children[i as int].contains_name(name@));
                    }
                    return true;
                }
                i += 1;
            }
            proof {
                lemma_forest_contains_name(self@.children, name@);
            }
            return false;
        }
        proof {
            lemma_forest_contains_name(self@.children, name@);
        }
        false
    }
}

// ---------------------------------------------------------------------------
// Transition rules: one per (tick kind, node type)
// ---------------------------------------------------------------------------

/// The views of a sequence of salmon.
pub open spec fn salmon_views(s: Seq<Salmon>) -> Seq<SalmonView> {
    s.map_values(|x: Salmon| x@)
}

/// The one salmon a powered hatchery produces per fish-hatch tick.
pub open spec fn homeless_salmon() -> SalmonView {
    SalmonView { age: Age::Mature, direction: Direction::Upstream, name: "homeless"@ }
}

/// Whether a node still delays fish movement: a shallows or rapids whose
/// counter has not reached zero.
pub open spec fn delay_active(t: NodeTypeView) -> bool {
    match t {
        NodeTypeView::Shallows(c) => c > 0,
        NodeTypeView::Rapids(c) => c > 0,
        _ => false,
    }
}

/// A fish-movement tick spends one unit of a shallows' or rapids' delay.
pub open spec fn spend_delay(t: NodeTypeView) -> NodeTypeView {
    match t {
        NodeTypeView::Shallows(c) => NodeTypeView::Shallows(c - 1),
        NodeTypeView::Rapids(c) => NodeTypeView::Rapids(c - 1),
        _ => t,
    }
}

/// The snow rule: a node that is not yet snowy becomes snowy when some
/// child is snowy now. The parent is visited before its children refresh,
/// so snow climbs exactly one level per tick. Snow destroys a hydro power.
pub open spec fn snow_rule(n: NodeView) -> NodeView {
    if !n.snowy && (exists|i: int| 0 <= i < n.children.len() && #[trigger] n.children[i].snowy) {
        NodeView {
            snowy: true,
            destroyed: if n.node_type is HydroPower {
                true
            } else {
                n.destroyed
            },
            ..n
        }
    } else {
        n
    }
}

/// The water rule: the same mechanism as snow, with nothing destroyed.
pub open spec fn water_rule(n: NodeView) -> NodeView {
    if !n.watered && (exists|i: int| 0 <= i < n.children.len() && #[trigger] n.children[i].watered) {
        NodeView { watered: true, ..n }
    } else {
        n
    }
}

/// The power rule: a hydro power is powered exactly when it is watered.
pub open spec fn power_rule(n: NodeView) -> NodeView {
    if n.node_type is HydroPower {
        NodeView { powered: n.watered, ..n }
    } else {
        n
    }
}

/// The fish-hatch rule: a powered hatchery appends one mature upstream
/// salmon named "homeless"; an unpowered one appends nothing.
pub open spec fn hatch_rule(n: NodeView) -> NodeView {
    if n.node_type is Hatchery && n.spec_is_powered() {
        NodeView { salmon: n.salmon.push(homeless_salmon()), ..n }
    } else {
        n
    }
}

/// The fish-down rule: while the delay is charged it is spent instead of
/// moving anything; otherwise every downstream-flagged salmon leaves, in
/// order, toward the parent (or the catch, at the root), the rest stay.
pub open spec fn fish_down_rule(n: NodeView) -> (NodeView, Seq<SalmonView>) {
    if delay_active(n.node_type) {
        (NodeView { node_type: spend_delay(n.node_type), ..n }, Seq::empty())
    } else {
        (
            NodeView {
                salmon: n.salmon.filter(|s: SalmonView| !(s.direction is Downstream)),
                ..n
            },
            n.salmon.filter(|s: SalmonView| s.direction is Downstream),
        )
    }
}

/// The first child, in order, that does not refuse arriving salmon.
pub open spec fn first_open_child(s: Seq<NodeView>) -> Option<int>
    decreases s,
{
    if s.len() == 0 {
        None
    } else if !s[0].very_block_salmon {
        Some(0)
    } else {
        match first_open_child(s.drop_first()) {
            Some(i) => Some(i + 1),
            None => None,
        }
    }
}

/// What `first_open_child` returns: the least index of a child without
/// `very_block_salmon`, or nothing when every child has it.
pub proof fn lemma_first_open_child(s: Seq<NodeView>)
    ensures
        match first_open_child(s) {
            Some(i) => 0 <= i < s.len() && !s[i].very_block_salmon && forall|j: int|
                0 <= j < i ==> s[j].very_block_salmon,
            None => forall|j: int| 0 <= j < s.len() ==> s[j].very_block_salmon,
        },
    decreases s,
{
    if s.len() > 0 && s[0].very_block_salmon {
        lemma_first_open_child(s.drop_first());
        assert forall|j: int| 1 <= j < s.len() implies s.drop_first()[j - 1] == s[j] by {}
    }
}

/// The child an upstream salmon named `name` moves into: the child leading
/// toward a node of that name, unless that child refuses arrivals; in that
/// case, and when no node matches, the first child that does not refuse.
pub open spec fn dest_for(n: NodeView, name: Seq<char>) -> Option<int> {
    match spec_find_path(n.children, name) {
        Some(i) => if !n.children[i].very_block_salmon {
            Some(i)
        } else {
            first_open_child(n.children)
        },
        None => first_open_child(n.children),
    }
}

/// Whether a salmon leaves `n` during a fish-up tick: it is upstream-bound
/// and some child can take it.
pub open spec fn moves_up(n: NodeView, s: SalmonView) -> bool {
    s.direction is Upstream && dest_for(n, s.name) is Some
}

/// The `i`-th child after upstream movement: it gains, in order, the
/// upstream salmon bound for it.
pub open spec fn child_after_up(n: NodeView, i: int) -> NodeView {
    let c = n.children[i];
    NodeView {
        salmon: c.salmon + n.salmon.filter(
            |s: SalmonView| s.direction is Upstream && dest_for(n, s.name) == Some(i),
        ),
        ..c
    }
}

/// Upstream movement at one node, the delay already spent: a node that
/// blocks salmon releases none; otherwise each upstream salmon with a
/// destination moves into it, and the rest stay, in order.
pub open spec fn fish_up_move(n: NodeView) -> NodeView {
    if n.block_salmon {
        n
    } else {
        NodeView {
            salmon: n.salmon.filter(|s: SalmonView| !moves_up(n, s)),
            children: Seq::new(n.children.len(), |i: int| child_after_up(n, i)),
            ..n
        }
    }
}

/// The fish-up rule.
pub open spec fn fish_up_rule(n: NodeView) -> NodeView {
    if delay_active(n.node_type) {
        NodeView { node_type: spend_delay(n.node_type), ..n }
    } else {
        fish_up_move(n)
    }
}

/// The rule a tick kind applies at one visited node: the new node, and the
/// salmon it expels toward its parent. Kinds with no rule yet change
/// nothing.
pub open spec fn run_rule(n: NodeView, t: Tick) -> (NodeView, Seq<SalmonView>) {
    match t {
        Tick::Snow => (snow_rule(n), Seq::empty()),
        Tick::Water => (water_rule(n), Seq::empty()),
        Tick::Power => (power_rule(n), Seq::empty()),
        Tick::FishDown => fish_down_rule(n),
        Tick::FishUp => (fish_up_rule(n), Seq::empty()),
        Tick::FishHatch => (hatch_rule(n), Seq::empty()),
        Tick::Misc => (n, Seq::empty()),
        Tick::Input => (n, Seq::empty()),
    }
}

/// A full tick at one node. A post-order kind visits the children first
/// and applies the node's own rule last; every other kind applies the rule
/// first. Either way, whatever the children expel joins this node's
/// salmon, and what this node's own rule expelled goes to its parent.
pub open spec fn tick_node(n: NodeView, t: Tick) -> (NodeView, Seq<SalmonView>)
    decreases n,
{
    if t.spec_propagation_order() is PostOrder {
        let kf = tick_forest(n.children, t);
        run_rule(NodeView { children: kf.0, salmon: n.salmon + kf.1, ..n }, t)
    } else {
        let ne = run_rule(n, t);
        let kf = tick_forest(n.children, t);
        (NodeView { children: kf.0, salmon: ne.0.salmon + kf.1, ..ne.0 }, ne.1)
    }
}

/// A full tick of each tree of a forest, left to right, with the expelled
/// salmon concatenated in that order.
pub open spec fn tick_forest(s: Seq<NodeView>, t: Tick) -> (Seq<NodeView>, Seq<SalmonView>)
    decreases s,
{
    if s.len() == 0 {
        (Seq::empty(), Seq::empty())
    } else {
        let first = tick_node(s[0], t);
        let rest = tick_forest(s.drop_first(), t);
        (seq![first.0] + rest.0, first.1 + rest.1)
    }
}

/// A full tick of the whole tree: the new tree, and the names of the
/// salmon caught at the root, in the order they were caught.
pub open spec fn tick_spec(n: NodeView, t: Tick) -> (NodeView, Seq<Seq<char>>) {
    let r = tick_node(n, t);
    (r.0, r.1.map_values(|s: SalmonView| s.name))
}


impl Node {
    /// Makes the node snowy; snow destroys a hydro power.
    pub fn become_snowy(&mut self)
        ensures
            final(self)@ == (NodeView {
                snowy: true,
                destroyed: if old(self)@.node_type is HydroPower {
                    true
                } else {
                    old(self)@.destroyed
                },
                ..old(self)@
            }),
            final(self).children == old(self).children,
    {
        self.snowy = true;
        match self.node_type {
            NodeType::HydroPower => self.destroyed = true,
            _ => (),
        }
        proof {
            assert(final(self)@ =~= (NodeView {
                snowy: true,
                destroyed: if old(self)@.node_type is HydroPower {
                    true
                } else {
                    old(self)@.destroyed
                },
                ..old(self)@
            }));
        }
    }

    /// Makes the node watered.
    pub fn become_watered(&mut self)
        ensures
            final(self)@ == (NodeView { watered: true, ..old(self)@ }),
            final(self).children == old(self).children,
    {
        self.watered = true;
        proof {
            assert(final(self)@ =~= (NodeView { watered: true, ..old(self)@ }));
        }
    }

    /// Spends one unit of a charged shallows' or rapids' delay; reports
    /// whether it did.
    fn spend_delay_if_charged(&mut self) -> (spent: bool)
        ensures
            spent == delay_active(old(self)@.node_type),
            spent ==> final(self)@ == (NodeView {
                node_type: spend_delay(old(self)@.node_type),
                ..old(self)@
            }),
            final(self).children == old(self).children,
            !spent ==> *final(self) == *old(self),
    {
        let mut spent = false;
        match &self.node_type {
            NodeType::Shallows(c) => {
                let c: u8 = *c;
                if c > 0 {
                    self.node_type = NodeType::Shallows(c - 1);
                    spent = true;
                }
            },
            NodeType::Rapids(c) => {
                let c: u8 = *c;
                if c > 0 {
                    self.node_type = NodeType::Rapids(c - 1);
                    spent = true;
                }
            },
            _ => (),
        }
        proof {
            if spent {
                assert(final(self)@ =~= (NodeView {
                    node_type: spend_delay(old(self)@.node_type),
                    ..old(self)@
                }));
            }
        }
        spent
    }

    /// The first child, in order, that does not refuse arriving salmon.
    fn first_open(&self) -> (r: Option<usize>)
        ensures
            match r {
                Some(i) => first_open_child(self@.children) == Some(i as int),
                None => first_open_child(self@.children) is None,
            },
    {
        proof {
            lemma_nodes_view(self.children@);
            lemma_first_open_child(self@.children);
        }
        let len = self.children.len();
        let mut i: usize = 0;
        while i < len
            invariant
                i <= len,
                len == self.children.len(),
                len == self@.children.len(),
                forall|j: int| 0 <= j < i ==> #[trigger] self@.children[j].very_block_salmon,
            decreases len - i,
        {
            proof {
                lemma_nodes_view(self.children@);
            }
            if !self.borrow_child(i).very_block_salmon {
                proof {
                    lemma_first_open_child(self@.children);
                }
                return Some(i);
            }
            i += 1;
        }
        proof {
            lemma_first_open_child(self@.children);
        }
        None
    }

    /// Removes every downstream salmon, in order, and hands them back; the
    /// rest stay, in order. Nothing else changes.
    fn drain_downstream(&mut self) -> (expelled: Vec<Salmon>)
        ensures
            final(self)@ == (NodeView {
                salmon: old(self)@.salmon.filter(|s: SalmonView| !(s.direction is Downstream)),
                ..old(self)@
            }),
            salmon_views(expelled@) == old(self)@.salmon.filter(
                |s: SalmonView| s.direction is Downstream,
            ),
            final(self).children == old(self).children,
    {
        broadcast use vstd::seq_lib::group_seq_properties;

        let mut work: Vec<Salmon> = Vec::new();
        std::mem::swap(&mut self.salmon, &mut work);
        let ghost orig = work@;
        let mut expelled: Vec<Salmon> = Vec::new();
        let ghost keep = |s: Salmon| !(s.direction is Downstream);
        let ghost go = |s: Salmon| s.direction is Downstream;
        let ghost mut k: int = 0;
        proof {
            assert(orig.take(0) =~= Seq::<Salmon>::empty());
            reveal_with_fuel(Seq::<_>::filter, 1);
        }
        while work.len() > 0
            invariant
                0 <= k <= orig.len(),
                orig == old(self).salmon@,
                work@ == orig.skip(k),
                self.salmon@ == orig.take(k).filter(keep),
                expelled@ == orig.take(k).filter(go),
                keep == (|s: Salmon| !(s.direction is Downstream)),
                go == (|s: Salmon| s.direction is Downstream),
                *self == (Node { salmon: self.salmon, ..*old(self) }),
            decreases work@.len(),
        {
            broadcast use vstd::seq_lib::group_seq_properties;

            let s = work.remove(0);
            proof {
                assert(orig.skip(k)[0] == orig[k]);
                assert(s == orig[k]);
                assert(work@ =~= orig.skip(k + 1));
                assert(orig.take(k + 1) =~= orig.take(k).push(orig[k]));
                orig.take(k).lemma_filter_push(orig[k], keep);
                orig.take(k).lemma_filter_push(orig[k], go);
            }
            if s.direction == Direction::Downstream {
                expelled.push(s);
            } else {
                self.salmon.push(s);
            }
            proof {
                k = k + 1;
            }
        }
        proof {
            assert(orig.skip(k).len() == orig.len() - k);
            assert(k == orig.len());
            assert(orig.take(k) =~= orig);
            let keepv = |s: SalmonView| !(s.direction is Downstream);
            let gov = |s: SalmonView| s.direction is Downstream;
            vstd::seq_lib::lemma_filter_view_commute(orig, keep, keepv);
            vstd::seq_lib::lemma_filter_view_commute(orig, go, gov);
            assert(salmon_views(orig.filter(keep)) == salmon_views(orig).filter(keepv));
            assert(salmon_views(expelled@) == salmon_views(orig).filter(gov));
            assert(old(self)@.salmon == salmon_views(orig));
            assert(final(self)@ =~= (NodeView {
                salmon: old(self)@.salmon.filter(keepv),
                ..old(self)@
            }));
        }
        expelled
    }
}

/// Name search and arrival-refusal read only a forest's names, shape and
/// flags, never the salmon resident at its roots: forests that differ only
/// there agree on both.
pub proof fn lemma_search_ignores_salmon(a: Seq<NodeView>, b: Seq<NodeView>, name: Seq<char>)
    requires
        a.len() == b.len(),
        forall|i: int|
            0 <= i < a.len() ==> #[trigger] b[i] == (NodeView { salmon: b[i].salmon, ..a[i] }),
    ensures
        spec_find_path(a, name) == spec_find_path(b, name),
        first_open_child(a) == first_open_child(b),
    decreases a,
{
    if a.len() > 0 {
        assert(b[0] == (NodeView { salmon: b[0].salmon, ..a[0] }));
        assert(b[0].contains_name(name) == a[0].contains_name(name));
        assert forall|i: int|
            0 <= i < a.drop_first().len() implies #[trigger] b.drop_first()[i] == (NodeView {
                salmon: b.drop_first()[i].salmon,
                ..a.drop_first()[i]
            }) by {
            assert(b.drop_first()[i] == b[i + 1]);
            assert(a.drop_first()[i] == a[i + 1]);
        }
        lemma_search_ignores_salmon(a.drop_first(), b.drop_first(), name);
    }
}

/// The destination of an upstream salmon reads nothing of the salmon
/// already resident in the children.
pub proof fn lemma_dest_ignores_salmon(a: NodeView, b: NodeView, name: Seq<char>)
    requires
        a.children.len() == b.children.len(),
        forall|i: int|
            0 <= i < a.children.len() ==> #[trigger] b.children[i] == (NodeView {
                salmon: b.children[i].salmon,
                ..a.children[i]
            }),
    ensures
        dest_for(b, name) == dest_for(a, name),
{
    lemma_search_ignores_salmon(a.children, b.children, name);
    match spec_find_path(a.children, name) {
        Some(i) => {
            lemma_find_path(a.children, name);
            assert(b.children[i].very_block_salmon == a.children[i].very_block_salmon);
        },
        None => {},
    }
}

/// Salmon views distribute over concatenation.
pub proof fn lemma_salmon_views_add(a: Seq<Salmon>, b: Seq<Salmon>)
    ensures
        salmon_views(a + b) =~= salmon_views(a) + salmon_views(b),
{
}

impl Node {
    /// Moves each upstream salmon, in order, into the child leading toward
    /// its namesake, or failing that into the first child that accepts
    /// arrivals; a salmon with nowhere to go stays, as does everything
    /// when `block_salmon` is set.
    fn relocate_upstream(&mut self)
        ensures
            final(self)@ == fish_up_move(old(self)@),
    {
        broadcast use vstd::seq_lib::group_seq_properties;

        if self.block_salmon {
            return ;
        }
        let ghost n0 = self@;
        let mut work: Vec<Salmon> = Vec::new();
        std::mem::swap(&mut self.salmon, &mut work);
        let ghost orig = work@;
        let ghost stay = |s: Salmon| !moves_up(n0, s@);
        let ghost mut k: int = 0;
        proof {
            lemma_nodes_view(self.children@);
            reveal_with_fuel(Seq::<_>::filter, 1);
            assert(orig.take(0) =~= Seq::<Salmon>::empty());
            assert forall|c: int|
                0 <= c < self.children@.len() implies #[trigger] self.children@[c].salmon@ == old(
                self,
            ).children@[c].salmon@ + orig.take(0).filter(
                |s: Salmon| s@.direction is Upstream && dest_for(n0, s@.name) == Some(c),
            ) by {
                assert(orig.take(0).filter(
                    |s: Salmon| s@.direction is Upstream && dest_for(n0, s@.name) == Some(c),
                ) =~= Seq::<Salmon>::empty());
                assert(self.children@[c].salmon@ + Seq::<Salmon>::empty()
                    =~= self.children@[c].salmon@);
            }
        }
        while work.len() > 0
            invariant
                0 <= k <= orig.len(),
                orig == old(self).salmon@,
                n0 == old(self)@,
                !n0.block_salmon,
                stay == (|s: Salmon| !moves_up(n0, s@)),
                work@ == orig.skip(k),
                self.salmon@ == orig.take(k).filter(stay),
                self.children@.len() == old(self).children@.len(),
                forall|c: int|
                    0 <= c < self.children@.len() ==> #[trigger] self.children@[c] == (Node {
                        salmon: self.children@[c].salmon,
                        ..old(self).children@[c]
                    }),
                forall|c: int|
                    0 <= c < self.children@.len() ==> #[trigger] self.children@[c].salmon@ == old(
                        self,
                    ).children@[c].salmon@ + orig.take(k).filter(
                        |s: Salmon| s@.direction is Upstream && dest_for(n0, s@.name) == Some(c),
                    ),
                *self == (Node { salmon: self.salmon, children: self.children, ..*old(self) }),
            decreases work@.len(),
        {
            broadcast use vstd::seq_lib::group_seq_properties;

            let s = work.remove(0);
            proof {
                lemma_nodes_view(self.children@);
                lemma_nodes_view(old(self).children@);
                assert(orig.skip(k)[0] == orig[k]);
                assert(s == orig[k]);
                assert(work@ =~= orig.skip(k + 1));
                assert(orig.take(k + 1) =~= orig.take(k).push(orig[k]));
                assert forall|c: int|
                    0 <= c < n0.children.len() implies #[trigger] self@.children[c] == (NodeView {
                        salmon: self@.children[c].salmon,
                        ..n0.children[c]
                    }) by {
                    assert(self@.children[c] == self.children@[c]@);
                    assert(n0.children[c] == old(self).children@[c]@);
                    assert(self.children@[c]@ =~= (NodeView {
                        salmon: self.children@[c]@.salmon,
                        ..old(self).children@[c]@
                    }));
                }
                lemma_dest_ignores_salmon(n0, self@, s@.name);
            }
            if s.direction == Direction::Upstream {
                let found = self.find_node_path(s.name.as_str());
                let dst: Option<usize> = match found {
                    Some(c) => {
                        proof {
                            lemma_find_path(self@.children, s@.name);
                        }
                        if !self.borrow_child(c).very_block_salmon {
                            Some(c)
                        } else {
                            self.first_open()
                        }
                    },
                    None => self.first_open(),
                };
                proof {
                    lemma_first_open_child(self@.children);
                    assert(dest_for(n0, s@.name) == (match dst {
                        Some(c) => Some(c as int),
                        None => None::<int>,
                    }));
                }
                match dst {
                    Some(c) => {
                        proof {
                            assert(moves_up(n0, s@));
                        }
                        let child = self.borrow_mut_child(c);
                        child.salmon.push(s);
                    },
                    None => {
                        proof {
                            assert(!moves_up(n0, s@));
                        }
                        self.salmon.push(s);
                    },
                }
            } else {
                proof {
                    assert(!moves_up(n0, s@));
                }
                self.salmon.push(s);
            }
            proof {
                orig.take(k).lemma_filter_push(orig[k], stay);
                assert forall|c: int|
                    0 <= c < self.children@.len() implies #[trigger] self.children@[c].salmon@
                    == old(self).children@[c].salmon@ + orig.take(k + 1).filter(
                    |s: Salmon| s@.direction is Upstream && dest_for(n0, s@.name) == Some(c),
                ) by {
                    let predc = |s: Salmon| s@.direction is Upstream && dest_for(n0, s@.name)
                        == Some(c);
                    orig.take(k).lemma_filter_push(orig[k], predc);
                    if predc(orig[k]) {
                        assert(old(self).children@[c].salmon@ + orig.take(k).filter(predc).push(
                            orig[k],
                        ) =~= (old(self).children@[c].salmon@ + orig.take(k).filter(predc)).push(
                            orig[k],
                        ));
                    }
                }
                k = k + 1;
            }
        }
        proof {
            lemma_nodes_view(self.children@);
            lemma_nodes_view(old(self).children@);
            assert(orig.skip(k).len() == orig.len() - k);
            assert(k == orig.len());
            assert(orig.take(k) =~= orig);
            let stayv = |s: SalmonView| !moves_up(n0, s);
            vstd::seq_lib::lemma_filter_view_commute(orig, stay, stayv);
            assert(n0.salmon == salmon_views(orig));
            assert(final(self)@.salmon == n0.salmon.filter(stayv));
            assert forall|c: int|
                0 <= c < n0.children.len() implies #[trigger] final(self)@.children[c]
                == child_after_up(n0, c) by {
                let predc = |s: Salmon| s@.direction is Upstream && dest_for(n0, s@.name) == Some(
                    c,
                );
                let predcv = |s: SalmonView| s.direction is Upstream && dest_for(n0, s.name)
                    == Some(c);
                vstd::seq_lib::lemma_filter_view_commute(orig, predc, predcv);
                lemma_salmon_views_add(old(self).children@[c].salmon@, orig.filter(predc));
                assert(final(self)@.children[c].salmon == n0.children[c].salmon + n0.salmon.filter(
                    predcv,
                ));
                assert(final(self)@.children[c] =~= child_after_up(n0, c));
            }
            assert(final(self)@.children.len() == n0.children.len());
            assert(final(self)@.children =~= fish_up_move(n0).children);
            assert(final(self)@.salmon =~= fish_up_move(n0).salmon);
            assert(final(self)@.name == fish_up_move(n0).name);
            assert(final(self)@.node_type == fish_up_move(n0).node_type);
            assert(final(self)@.block_salmon == fish_up_move(n0).block_salmon);
            assert(final(self)@ =~= fish_up_move(n0));
        }
    }
}

/// Ticking a forest tree by tree is ticking the front of it and then its
/// last tree: the decomposition a left-to-right loop maintains.
pub proof fn lemma_tick_forest_snoc(s: Seq<NodeView>, t: Tick)
    requires
        s.len() > 0,
    ensures
        tick_forest(s, t).0 == tick_forest(s.drop_last(), t).0.push(tick_node(s.last(), t).0),
        tick_forest(s, t).1 == tick_forest(s.drop_last(), t).1 + tick_node(s.last(), t).1,
    decreases s,
{
    if s.len() == 1 {
        assert(s.drop_last() =~= Seq::<NodeView>::empty());
        assert(tick_forest(s.drop_last(), t).0 =~= Seq::<NodeView>::empty());
        assert(s.drop_first() =~= Seq::<NodeView>::empty());
        assert(tick_forest(s, t).0 =~= seq![tick_node(s[0], t).0]);
        assert(tick_forest(s, t).0 =~= tick_forest(s.drop_last(), t).0.push(
            tick_node(s.last(), t).0,
        ));
        assert(tick_forest(s, t).1 =~= tick_forest(s.drop_last(), t).1 + tick_node(s.last(), t).1);
    } else {
        let rest = s.drop_first();
        lemma_tick_forest_snoc(rest, t);
        assert(s.drop_last().drop_first() =~= rest.drop_last());
        assert(s.drop_last().len() > 0);
        assert(s.drop_last()[0] == s[0]);
        assert(rest.last() == s.last());
        assert(tick_forest(s, t).0 =~= tick_forest(s.drop_last(), t).0.push(
            tick_node(s.last(), t).0,
        ));
        assert(tick_forest(s, t).1 =~= tick_forest(s.drop_last(), t).1 + tick_node(s.last(), t).1);
    }
}

impl Node {
    /// Applies the rule selected by (tick kind, node type) at this node,
    /// handing back the salmon the node expels toward its parent. Children
    /// are mutated only by the fish-up rule.
    fn run_tick(&mut self, t: Tick) -> (expelled: Vec<Salmon>)
        ensures
            final(self)@ == run_rule(old(self)@, t).0,
            salmon_views(expelled@) == run_rule(old(self)@, t).1,
            !(t is FishUp) ==> final(self).children == old(self).children,
    {
        proof {
            assert(salmon_views(Seq::<Salmon>::empty()) =~= Seq::<SalmonView>::empty());
        }
        match t {
            Tick::Snow => {
                if !self.snowy {
                    proof {
                        lemma_nodes_view(self.children@);
                    }
                    let len = self.children.len();
                    let mut i: usize = 0;
                    while i < len
                        invariant
                            i <= len,
                            len == self.children.len(),
                            len == self@.children.len(),
                            *self == *old(self),
                            t is Snow,
                            !self.snowy,
                            forall|j: int| 0 <= j < i ==> !#[trigger] self@.children[j].snowy,
                        decreases len - i,
                    {
                        proof {
                            lemma_nodes_view(self.children@);
                        }
                        if self.borrow_child(i).snowy {
                            proof {
                                assert(self@.children[i as int].snowy);
                            }
                            self.become_snowy();
                            proof {
                                assert(self@ =~= snow_rule(old(self)@));
                                assert(salmon_views(Seq::<Salmon>::empty())
                                    =~= Seq::<SalmonView>::empty());
                            }
                            return Vec::new();
                        }
                        i += 1;
                    }
                }
                proof {
                    assert(self@ =~= snow_rule(old(self)@));
                }
                Vec::new()
            },
            Tick::Water => {
                if !self.watered {
                    proof {
                        lemma_nodes_view(self.children@);
                    }
                    let len = self.children.len();
                    let mut i: usize = 0;
                    while i < len
                        invariant
                            i <= len,
                            len == self.children.len(),
                            len == self@.children.len(),
                            *self == *old(self),
                            t is Water,
                            !self.watered,
                            forall|j: int| 0 <= j < i ==> !#[trigger] self@.children[j].watered,
                        decreases len - i,
                    {
                        proof {
                            lemma_nodes_view(self.children@);
                        }
                        if self.borrow_child(i).watered {
                            proof {
                                assert(self@.children[i as int].watered);
                            }
                            self.become_watered();
                            proof {
                                assert(self@ =~= water_rule(old(self)@));
                                assert(salmon_views(Seq::<Salmon>::empty())
                                    =~= Seq::<SalmonView>::empty());
                            }
                            return Vec::new();
                        }
                        i += 1;
                    }
                }
                proof {
                    assert(self@ =~= water_rule(old(self)@));
                }
                Vec::new()
            },
            Tick::Power => {
                match self.node_type {
                    NodeType::HydroPower => self.powered = self.watered,
                    _ => (),
                }
                proof {
                    assert(self@ =~= power_rule(old(self)@));
                }
                Vec::new()
            },
            Tick::FishDown => self.move_salmon(Direction::Downstream),
            Tick::FishUp => self.move_salmon(Direction::Upstream),
            Tick::FishHatch => {
                match self.node_type {
                    NodeType::Hatchery => {
                        if self.is_powered() {
                            self.add_salmon(
                                Salmon {
                                    age: Age::Mature,
                                    direction: Direction::Upstream,
                                    name: String::from_str("homeless"),
                                },
                            );
                            proof {
                                assert(self@.salmon =~= old(self)@.salmon.push(homeless_salmon()));
                                assert(self@ =~= hatch_rule(old(self)@));
                            }
                        }
                    },
                    _ => (),
                }
                proof {
                    assert(self@ =~= hatch_rule(old(self)@));
                }
                Vec::new()
            },
            Tick::Misc => Vec::new(),
            Tick::Input => Vec::new(),
        }
    }

    /// Visits every child subtree, in order, for one tick, and appends
    /// whatever the children expel to this node's salmon. The ghost
    /// `measure` node bounds the recursion: its children are this node's.
    fn tick_children(&mut self, t: Tick, Ghost(measure): Ghost<Node>)
        requires
            old(self).children == measure.children,
        ensures
            final(self)@ == (NodeView {
                children: tick_forest(old(self)@.children, t).0,
                salmon: old(self)@.salmon + tick_forest(old(self)@.children, t).1,
                ..old(self)@
            }),
        decreases measure, 0int,
    {
        broadcast use vstd::seq_lib::group_seq_properties;

        let len = self.children.len();
        let mut i: usize = 0;
        proof {
            lemma_nodes_view(self.children@);
            assert(old(self)@.children.take(0) =~= Seq::<NodeView>::empty());
            assert(old(self)@.salmon + tick_forest(old(self)@.children.take(0), t).1
                =~= old(self)@.salmon);
            assert(nodes_view(self.children@).take(0) =~= tick_forest(
                old(self)@.children.take(0),
                t,
            ).0);
        }
        while i < len
            invariant
                i <= len,
                len == self.children.len(),
                len == old(self).children.len(),
                len == old(self)@.children.len(),
                old(self).children == measure.children,
                forall|j: int|
                    i <= j < len ==> #[trigger] self.children@[j] == old(self).children@[j],
                nodes_view(self.children@).take(i as int) == tick_forest(
                    old(self)@.children.take(i as int),
                    t,
                ).0,
                salmon_views(self.salmon@) == old(self)@.salmon + tick_forest(
                    old(self)@.children.take(i as int),
                    t,
                ).1,
                *self == (Node { salmon: self.salmon, children: self.children, ..*old(self) }),
            decreases len - i,
        {
            broadcast use vstd::seq_lib::group_seq_properties;

            proof {
                lemma_nodes_view(self.children@);
                lemma_nodes_view(old(self).children@);
                assert(self.children@[i as int] == measure.children@[i as int]);
                assert(decreases_to!(measure => measure.children));
                assert(decreases_to!(measure.children => measure.children[i as int]));
                assert(decreases_to!(measure => self.children[i as int]));
            }
            let ghost prev = *self;
            let child = self.borrow_mut_child(i);
            let mut batch = child.tick_helper(t);
            let ghost b0 = batch@;
            self.salmon.append(&mut batch);
            proof {
                lemma_nodes_view(self.children@);
                lemma_nodes_view(prev.children@);
                let oc = old(self)@.children;
                assert(oc.take(i + 1).drop_last() =~= oc.take(i as int));
                assert(oc.take(i + 1).last() == oc[i as int]);
                lemma_tick_forest_snoc(oc.take(i + 1), t);
                assert(prev.children@[i as int]@ == oc[i as int]);
                assert(nodes_view(self.children@).take(i + 1) =~= nodes_view(
                    prev.children@,
                ).take(i as int).push(tick_node(oc[i as int], t).0));
                lemma_salmon_views_add(prev.salmon@, b0);
                assert(salmon_views(self.salmon@) =~= old(self)@.salmon + tick_forest(
                    oc.take(i + 1),
                    t,
                ).1);
            }
            i += 1;
        }
        proof {
            lemma_nodes_view(self.children@);
            assert(old(self)@.children.take(len as int) =~= old(self)@.children);
            assert(nodes_view(self.children@).take(len as int) =~= nodes_view(self.children@));
            assert(self@ =~= (NodeView {
                children: tick_forest(old(self)@.children, t).0,
                salmon: old(self)@.salmon + tick_forest(old(self)@.children, t).1,
                ..old(self)@
            }));
        }
    }

    /// One full traversal of this subtree for one tick: a post-order kind
    /// visits the children before this node's own rule runs, every other
    /// kind after it. The salmon this node expels go to the caller.
    fn tick_helper(&mut self, t: Tick) -> (expelled: Vec<Salmon>)
        ensures
            final(self)@ == tick_node(old(self)@, t).0,
            salmon_views(expelled@) == tick_node(old(self)@, t).1,
        decreases *old(self), 1int,
    {
        match t.propagation_order() {
            PropagationOrder::PostOrder => {
                self.tick_children(t, Ghost(*old(self)));
                let expelled = self.run_tick(t);
                proof {
                    assert(final(self)@ == tick_node(old(self)@, t).0);
                }
                expelled
            },
            _ => {
                let expelled = self.run_tick(t);
                proof {
                    assert(run_rule(old(self)@, t).0.children == old(self)@.children);
                }
                self.tick_children(t, Ghost(*old(self)));
                proof {
                    assert(final(self)@ =~= tick_node(old(self)@, t).0);
                }
                expelled
            },
        }
    }

    /// Runs one tick of the chosen kind against this node as the root of
    /// the tree. The names of the salmon caught at the root come back in
    /// the order they were caught: the program's output for this tick.
    pub fn tick(&mut self, t: Tick) -> (output: Vec<String>)
        ensures
            final(self)@ == tick_spec(old(self)@, t).0,
            output@.map_values(|s: String| s@) == tick_spec(old(self)@, t).1,
    {
        let mut caught = self.tick_helper(t);
        let ghost moved = caught@;
        let mut output: Vec<String> = Vec::new();
        let ghost mut k: int = 0;
        proof {
            assert(output@.map_values(|s: String| s@) =~= moved.take(0).map_values(
                |x: Salmon| x.name@,
            ));
        }
        while caught.len() > 0
            invariant
                0 <= k <= moved.len(),
                caught@ == moved.skip(k),
                output@.map_values(|s: String| s@) == moved.take(k).map_values(
                    |x: Salmon| x.name@,
                ),
            decreases caught@.len(),
        {
            let s = caught.remove(0);
            proof {
                assert(moved.skip(k)[0] == moved[k]);
                assert(s == moved[k]);
                assert(caught@ =~= moved.skip(k + 1));
            }
            let ghost out0 = output@;
            output.push(s.name);
            proof {
                broadcast use Seq::lemma_push_map_commute;

                assert(moved.take(k + 1) =~= moved.take(k).push(moved[k]));
                assert(output@ == out0.push(moved[k].name));
                assert(output@.map_values(|s: String| s@) =~= out0.map_values(
                    |s: String| s@,
                ).push(moved[k].name@));
                assert(moved.take(k + 1).map_values(|x: Salmon| x.name@) =~= moved.take(
                    k,
                ).map_values(|x: Salmon| x.name@).push(moved[k].name@));
                k = k + 1;
            }
        }
        proof {
            assert(moved.take(k) =~= moved);
            assert(output@.map_values(|s: String| s@) =~= salmon_views(moved).map_values(
                |sv: SalmonView| sv.name,
            ));
        }
        output
    }

    /// Moves salmon through this node: downstream-flagged salmon leave
    /// toward the parent and are handed to the caller, upstream-flagged
    /// salmon move into the child leading toward their namesake. A charged
    /// shallows or rapids spends one unit of delay instead, whatever the
    /// direction, and nothing moves through it this tick.
    pub fn move_salmon(&mut self, direction: Direction) -> (expelled: Vec<Salmon>)
        ensures
            ({
                let moved = match direction {
                    Direction::Downstream => fish_down_rule(old(self)@),
                    Direction::Upstream => (fish_up_rule(old(self)@), Seq::<SalmonView>::empty()),
                };
                final(self)@ == moved.0 && salmon_views(expelled@) == moved.1
            }),
            direction is Downstream ==> final(self).children == old(self).children,
    {
        let spent = self.spend_delay_if_charged();
        if spent {
            let none: Vec<Salmon> = Vec::new();
            proof {
                assert(salmon_views(none@) =~= Seq::<SalmonView>::empty());
            }
            return none;
        }
        match direction {
            Direction::Downstream => self.drain_downstream(),
            Direction::Upstream => {
                self.relocate_upstream();
                let none: Vec<Salmon> = Vec::new();
                proof {
                    assert(salmon_views(none@) =~= Seq::<SalmonView>::empty());
                }
                none
            },
        }
    }
}

/// The index of the first non-empty token at or after `j`, if any: the
/// token that names the root.
pub open spec fn first_named(toks: Seq<Seq<char>>, j: int) -> Option<int>
    decreases toks.len() - j,
    when 0 <= j <= toks.len()
{
    if j >= toks.len() {
        None
    } else if toks[j].len() > 0 {
        Some(j)
    } else {
        first_named(toks, j + 1)
    }
}

/// One dedent of a builder stack: the node being populated becomes the
/// last child of the node below it, which is populated again.
pub open spec fn attach_top(stack: Seq<NodeView>) -> Seq<NodeView>
    recommends
        stack.len() >= 2,
{
    let top = stack.last();
    let below = stack[stack.len() - 2];
    stack.take(stack.len() - 2).push(NodeView { children: below.children.push(top), ..below })
}

/// Folds a builder stack into its root, dedent by dedent.
pub open spec fn collapse(stack: Seq<NodeView>) -> NodeView
    decreases stack.len(),
    when stack.len() >= 1
{
    if stack.len() <= 1 {
        stack[0]
    } else {
        collapse(attach_top(stack))
    }
}

/// Builds the tree from the tokens after the root: a named token starts a
/// new child and descends into it, an empty token — a doubled space —
/// ascends to the parent. Ascending from the root is malformed.
pub open spec fn build(stack: Seq<NodeView>, toks: Seq<Seq<char>>, j: int) -> Option<NodeView>
    decreases toks.len() - j,
    when 0 <= j <= toks.len() && stack.len() >= 1
{
    if j >= toks.len() {
        Some(collapse(stack))
    } else if toks[j].len() == 0 {
        if stack.len() <= 1 {
            None
        } else {
            build(attach_top(stack), toks, j + 1)
        }
    } else {
        build(stack.push(NodeView::spec_new(toks[j])), toks, j + 1)
    }
}

/// What a program text parses to. A text with no non-empty token is the
/// empty program; otherwise the first non-empty token names the root and
/// the tokens after it build the tree below it.
pub open spec fn parse_spec(s: Seq<char>) -> Result<ProgramView, ParseError> {
    match tokenize(s) {
        None => Err(ParseError::MalformedProgram),
        Some(toks) => match first_named(toks, 0) {
            None => Ok(ProgramView::Quine),
            Some(r) => match build(seq![NodeView::spec_new(toks[r])], toks, r + 1) {
                None => Err(ParseError::MalformedProgram),
                Some(root) => Ok(ProgramView::River(root)),
            },
        },
    }
}

impl Node {
    /// Parses a program text: tokens descend into new children, doubled
    /// spaces dedent, the '.' escape re-joins split tokens. A dedent past
    /// the root or a text that ends inside an escape is malformed.
    pub fn parse_program(code: &str) -> (r: Result<Program, ParseError>)
        ensures
            match r {
                Ok(p) => parse_spec(code@) == Ok::<ProgramView, ParseError>(p@),
                Err(e) => parse_spec(code@) == Err::<ProgramView, ParseError>(e),
            },
    {
        let splitter = HomespringSplit::new(code);
        let toks = match splitter.tokens() {
            Ok(v) => v,
            Err(e) => {
                return Err(e);
            },
        };
        let ghost tv = string_views(toks@);
        proof {
            assert(forall|i: int| 0 <= i < toks@.len() ==> tv[i] == #[trigger] toks@[i]@);
        }
        let n = toks.len();
        let mut r: usize = 0;
        while r < n && toks[r].as_str().is_empty()
            invariant
                0 <= r <= n,
                n == toks.len(),
                tv == string_views(toks@),
                first_named(tv, 0) == first_named(tv, r as int),
            decreases n - r,
        {
            proof {
                assert(tv[r as int] == toks@[r as int]@);
            }
            r += 1;
        }
        if r == n {
            proof {
                assert(first_named(tv, n as int) is None);
            }
            return Ok(Program::Quine);
        }
        proof {
            assert(tv[r as int] == toks@[r as int]@);
            assert(first_named(tv, 0) == Some(r as int));
        }
        let mut stack: Vec<Node> = Vec::new();
        stack.push(Node::new(toks[r].as_str()));
        proof {
            lemma_nodes_view(stack@);
            assert(nodes_view(stack@) =~= seq![NodeView::spec_new(tv[r as int])]);
        }
        let mut j: usize = r + 1;
        while j < n
            invariant
                r < j <= n,
                n == toks.len(),
                tv == string_views(toks@),
                tv.len() == n,
                tokenize(code@) == Some(tv),
                first_named(tv, 0) == Some(r as int),
                stack.len() >= 1,
                build(nodes_view(stack@), tv, j as int) == build(
                    seq![NodeView::spec_new(tv[r as int])],
                    tv,
                    r + 1,
                ),
            decreases n - j,
        {
            proof {
                lemma_nodes_view(stack@);
                assert(tv[j as int] == toks@[j as int]@);
            }
            if toks[j].as_str().is_empty() {
                if stack.len() <= 1 {
                    return Err(ParseError::MalformedProgram);
                }
                let ghost sv = nodes_view(stack@);
                let ghost s0 = stack@;
                let top = match stack.pop() {
                    Some(x) => x,
                    None => {
                        return Err(ParseError::MalformedProgram);
                    },
                };
                let mut below = match stack.pop() {
                    Some(x) => x,
                    None => {
                        return Err(ParseError::MalformedProgram);
                    },
                };
                let ghost bv = below@;
                below.add_child(top);
                stack.push(below);
                proof {
                    lemma_nodes_view(stack@);
                    assert(top@ == sv[sv.len() - 1]);
                    assert(bv == sv[sv.len() - 2]);
                    assert(stack@.len() == s0.len() - 1);
                    assert(forall|i: int|
                        0 <= i < s0.len() - 2 ==> #[trigger] stack@[i] == s0[i]);
                    assert(nodes_view(stack@) =~= attach_top(sv));
                }
            } else {
                let ghost s0 = stack@;
                stack.push(Node::new(toks[j].as_str()));
                proof {
                    lemma_nodes_view(stack@);
                    assert(nodes_view(stack@) =~= nodes_view(s0).push(
                        NodeView::spec_new(tv[j as int]),
                    ));
                }
            }
            j += 1;
        }
        proof {
            lemma_nodes_view(stack@);
            assert(build(nodes_view(stack@), tv, n as int) == Some(collapse(nodes_view(stack@))));
        }
        while stack.len() > 1
            invariant
                stack.len() >= 1,
                (r as int) < tv.len(),
                tv == string_views(toks@),
                tokenize(code@) == Some(tv),
                first_named(tv, 0) == Some(r as int),
                collapse(nodes_view(stack@)) == build(
                    seq![NodeView::spec_new(tv[r as int])],
                    tv,
                    r + 1,
                ).unwrap(),
                build(seq![NodeView::spec_new(tv[r as int])], tv, r + 1) is Some,
            decreases stack.len(),
        {
            proof {
                lemma_nodes_view(stack@);
            }
            let ghost sv = nodes_view(stack@);
            let ghost s0 = stack@;
            let top = match stack.pop() {
                Some(x) => x,
                None => {
                    return Err(ParseError::MalformedProgram);
                },
            };
            let mut below = match stack.pop() {
                Some(x) => x,
                None => {
                    return Err(ParseError::MalformedProgram);
                },
            };
            let ghost bv = below@;
            below.add_child(top);
            stack.push(below);
            proof {
                lemma_nodes_view(stack@);
                assert(top@ == sv[sv.len() - 1]);
                assert(bv == sv[sv.len() - 2]);
                assert(stack@.len() == s0.len() - 1);
                assert(forall|i: int| 0 <= i < s0.len() - 2 ==> #[trigger] stack@[i] == s0[i]);
                assert(nodes_view(stack@) =~= attach_top(sv));
                assert(collapse(sv) == collapse(attach_top(sv)));
            }
        }
        proof {
            lemma_nodes_view(stack@);
            assert(collapse(nodes_view(stack@)) == nodes_view(stack@)[0]);
        }
        let root = match stack.pop() {
            Some(x) => x,
            None => {
                return Err(ParseError::MalformedProgram);
            },
        };
        Ok(Program::River(root))
    }
}

} // verus!
