use vstd::prelude::*;

verus! {

/// Identifier of a node, unique within a model.
pub type NodeId = u32;

/// Sign of a link: the sender's value counts positively or negatively.
#[derive(Clone, Copy, Debug, PartialEq, Eq, Structural)]
pub enum Sign {
    Normal,
    Negative,
}

/// Arithmetic operation of a combinator, applied to its inputs left to right.
#[derive(Clone, Copy, Debug, PartialEq, Eq, Structural)]
pub enum Operation {
    Add,
    Sub,
    Mul,
    Div,
}

/// The character that encodes a sign on the wire.
pub open spec fn sign_char(s: Sign) -> char {
    match s {
        Sign::Normal => '+',
        Sign::Negative => '-',
    }
}

/// The sign that a character encodes, if any.
pub open spec fn sign_of_char(c: char) -> Option<Sign> {
    if c == '+' {
        Some(Sign::Normal)
    } else if c == '-' {
        Some(Sign::Negative)
    } else {
        None
    }
}

/// The character that encodes an operation on the wire.
pub open spec fn operation_char(o: Operation) -> char {
    match o {
        Operation::Add => '+',
        Operation::Sub => '-',
        Operation::Mul => '*',
        Operation::Div => '/',
    }
}

/// The operation that a character encodes, if any.
pub open spec fn operation_of_char(c: char) -> Option<Operation> {
    if c == '+' {
        Some(Operation::Add)
    } else if c == '-' {
        Some(Operation::Sub)
    } else if c == '*' {
        Some(Operation::Mul)
    } else if c == '/' {
        Some(Operation::Div)
    } else {
        None
    }
}

impl Sign {
    pub fn to_char(self) -> (r: char)
        ensures
            r == sign_char(self),
    {
        match self {
            Sign::Normal => '+',
            Sign::Negative => '-',
        }
    }

    pub fn from_char(c: char) -> (r: Option<Sign>)
        ensures
            r == sign_of_char(c),
    {
        if c == '+' {
            Some(Sign::Normal)
        } else if c == '-' {
            Some(Sign::Negative)
        } else {
            None
        }
    }
}

impl Operation {
    pub fn to_char(self) -> (r: char)
        ensures
            r == operation_char(self),
    {
        match self {
            Operation::Add => '+',
            Operation::Sub => '-',
            Operation::Mul => '*',
            Operation::Div => '/',
        }
    }

    pub fn from_char(c: char) -> (r: Option<Operation>)
        ensures
            r == operation_of_char(c),
    {
        if c == '+' {
            Some(Operation::Add)
        } else if c == '-' {
            Some(Operation::Sub)
        } else if c == '*' {
            Some(Operation::Mul)
        } else if c == '/' {
            Some(Operation::Div)
        } else {
            None
        }
    }
}

/// A component of a node's embedded adjacency: the node at the other end of
/// a link, and the sign it contributes with. On a combinator it names a
/// source, on a population a target.
#[derive(Clone, Copy, Debug, PartialEq, Eq, Structural)]
pub struct Component {
    pub node_id: NodeId,
    pub sign: Sign,
}

/// A directed, signed edge of the flat link list.
#[derive(Clone, Copy, Debug, PartialEq, Eq, Structural)]
pub struct Link {
    pub sender: NodeId,
    pub receiver: NodeId,
    pub link_type: Sign,
}

/// Which of the three variants a node is.
#[derive(Clone, Copy, Debug, PartialEq, Eq, Structural)]
pub enum NodeType {
    Constant,
    Population,
    Combinator,
}

/// A vertex of the model graph. Numeric payloads (a constant's value) are
/// kept as the text of a JSON number: the graph logic never reads them.
#[derive(Debug)]
pub enum Node {
    Constant { id: NodeId, name: String, value: String },
    Population {
        id: NodeId,
        name: String,
        related_constant_name: String,
        outgoing_links: Vec<Component>,
    },
    Combinator { id: NodeId, name: String, operation: Operation, inputs: Vec<Component> },
}

/// The mathematical value of a node.
pub enum NodeView {
    Constant { id: NodeId, name: Seq<char>, value: Seq<char> },
    Population {
        id: NodeId,
        name: Seq<char>,
        related_constant_name: Seq<char>,
        outgoing_links: Seq<Component>,
    },
    Combinator { id: NodeId, name: Seq<char>, operation: Operation, inputs: Seq<Component> },
}

impl NodeView {
    pub open spec fn id(self) -> NodeId {
        match self {
            NodeView::Constant { id, .. } => id,
            NodeView::Population { id, .. } => id,
            NodeView::Combinator { id, .. } => id,
        }
    }

    pub open spec fn node_type(self) -> NodeType {
        match self {
            NodeView::Constant { .. } => NodeType::Constant,
            NodeView::Population { .. } => NodeType::Population,
            NodeView::Combinator { .. } => NodeType::Combinator,
        }
    }

    pub open spec fn name(self) -> Seq<char> {
        match self {
            NodeView::Constant { name, .. } => name,
            NodeView::Population { name, .. } => name,
            NodeView::Combinator { name, .. } => name,
        }
    }
}

impl View for Node {
    type V = NodeView;

    open spec fn view(&self) -> NodeView {
        match self {
            Node::Constant { id, name, value } => NodeView::Constant {
                id: *id,
                name: name@,
                value: value@,
            },
            Node::Population { id, name, related_constant_name, outgoing_links } =>
                NodeView::Population {
                id: *id,
                name: name@,
                related_constant_name: related_constant_name@,
                outgoing_links: outgoing_links@,
            },
            Node::Combinator { id, name, operation, inputs } => NodeView::Combinator {
                id: *id,
                name: name@,
                operation: *operation,
                inputs: inputs@,
            },
        }
    }
}

impl Node {
    pub fn id(&self) -> (r: NodeId)
        ensures
            r == self@.id(),
    {
        match self {
            Node::Constant { id, .. } => *id,
            Node::Population { id, .. } => *id,
            Node::Combinator { id, .. } => *id,
        }
    }

    pub fn node_type(&self) -> (r: NodeType)
        ensures
            r == self@.node_type(),
    {
        match self {
            Node::Constant { .. } => NodeType::Constant,
            Node::Population { .. } => NodeType::Population,
            Node::Combinator { .. } => NodeType::Combinator,
        }
    }

    pub fn name(&self) -> (r: &String)
        ensures
            r@ == self@.name(),
    {
        match self {
            Node::Constant { name, .. } => name,
            Node::Population { name, .. } => name,
            Node::Combinator { name, .. } => name,
        }
    }
    /// A copy of a combinator's inputs; `None` for the other variants.
    pub fn inputs(&self) -> (r: Option<Vec<Component>>)
        ensures
            match self@ {
                NodeView::Combinator { inputs, .. } => r is Some && r->Some_0@ == inputs,
                _ => r is None,
            },
    {
        match self {
            Node::Combinator { inputs, .. } => Some(copy_components(inputs)),
            _ => None,
        }
    }

    /// A copy of a population's outgoing links; `None` for the other variants.
    pub fn outgoing_links(&self) -> (r: Option<Vec<Component>>)
        ensures
            match self@ {
                NodeView::Population { outgoing_links, .. } => r is Some && r->Some_0@
                    == outgoing_links,
                _ => r is None,
            },
    {
        match self {
            Node::Population { outgoing_links, .. } => Some(copy_components(outgoing_links)),
            _ => None,
        }
    }
}

fn copy_components(v: &Vec<Component>) -> (r: Vec<Component>)
    ensures
        r@ == v@,
{
    let mut r: Vec<Component> = Vec::new();
    let mut i: usize = 0;
    while i < v.len()
        invariant
            i <= v@.len(),
            r@ == v@.take(i as int),
        decreases v@.len() - i,
    {
        r.push(v[i]);
        i = i + 1;
        assert(r@ =~= v@.take(i as int));
    }
    assert(v@.take(i as int) =~= v@);
    r
}

} // verus!
