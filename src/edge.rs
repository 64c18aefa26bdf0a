//! Directed edges of a graph.
use vstd::prelude::*;
use crate::properties::Properties;

verus! {

/// What an edge is: its id, label, endpoints and properties.
pub struct EdgeView {
    pub id: u64,
    pub label: Seq<char>,
    pub from: u64,
    pub to: u64,
    pub properties: Map<Seq<char>, Seq<char>>,
}

/// A labelled, directed arc between two nodes of the same graph.
#[derive(Debug)]
pub struct Edge {
    pub id: u64,
    pub label: String,
    pub from: u64,
    pub to: u64,
    pub properties: Properties,
}

impl View for Edge {
    type V = EdgeView;

    open spec fn view(&self) -> EdgeView {
        EdgeView {
            id: self.id,
            label: self.label@,
            from: self.from,
            to: self.to,
            properties: self.properties@,
        }
    }
}

impl Edge {
    pub fn new(id: u64, label: String, from: u64, to: u64, properties: Properties) -> (r: Edge)
        ensures
            r.id == id,
            r.label@ == label@,
            r.from == from,
            r.to == to,
            r.properties@ == properties@,
            r.properties.pairs() == properties.pairs(),
    {
        Edge { id, label, from, to, properties }
    }
}

impl Clone for Edge {
    fn clone(&self) -> (r: Self)
        ensures
            r@ == self@,
            r.properties.pairs() == self.properties.pairs(),
    {
        Edge {
            id: self.id,
            label: self.label.clone(),
            from: self.from,
            to: self.to,
            properties: self.properties.clone(),
        }
    }
}

/// What a caller supplies to create an edge whose id the graph allocates.
#[derive(Debug)]
pub struct CreateEdgeDTO {
    pub label: String,
    pub from: u64,
    pub to: u64,
    pub properties: Properties,
}

impl CreateEdgeDTO {
    pub fn new(label: String, from: u64, to: u64, properties: Properties) -> (r: CreateEdgeDTO)
        ensures
            r.label@ == label@,
            r.from == from,
            r.to == to,
            r.properties@ == properties@,
    {
        CreateEdgeDTO { label, from, to, properties }
    }
}

} // verus!
