//! Nodes of a graph.
use vstd::prelude::*;
use crate::properties::Properties;

verus! {

/// What a node is: its id, label and properties.
pub struct NodeView {
    pub id: u64,
    pub label: Seq<char>,
    pub properties: Map<Seq<char>, Seq<char>>,
}

/// A labelled vertex with string properties. Its id is unique within its graph.
#[derive(Debug)]
pub struct Node {
    pub id: u64,
    pub label: String,
    pub properties: Properties,
}

impl View for Node {
    type V = NodeView;

    open spec fn view(&self) -> NodeView {
        NodeView { id: self.id, label: self.label@, properties: self.properties@ }
    }
}

impl Node {
    pub fn new(id: u64, label: String, properties: Properties) -> (r: Node)
        ensures
            r.id == id,
            r.label@ == label@,
            r.properties@ == properties@,
            r.properties.pairs() == properties.pairs(),
    {
        Node { id, label, properties }
    }

    pub fn id(&self) -> (r: u64)
        ensures
            r == self.id,
    {
        self.id
    }

    pub fn label(&self) -> (r: &String)
        ensures
            r@ == self.label@,
    {
        &self.label
    }

    pub fn properties(&self) -> (r: &Properties)
        ensures
            r@ == self.properties@,
            r.pairs() == self.properties.pairs(),
    {
        &self.properties
    }
}

impl Clone for Node {
    fn clone(&self) -> (r: Self)
        ensures
            r@ == self@,
            r.properties.pairs() == self.properties.pairs(),
    {
        Node { id: self.id, label: self.label.clone(), properties: self.properties.clone() }
    }
}

/// What a caller supplies to create a node whose id the graph allocates.
#[derive(Debug)]
pub struct CreateNodeDTO {
    pub label: String,
    pub properties: Properties,
}

impl CreateNodeDTO {
    pub fn new(label: String, properties: Properties) -> (r: CreateNodeDTO)
        ensures
            r.label@ == label@,
            r.properties@ == properties@,
    {
        CreateNodeDTO { label, properties }
    }
}

} // verus!
