//! A value with structure: what a listing or an error's facts are made of.

use crate::text::{decimal, deep, number};
use vstd::prelude::*;

verus! {

/// A value with no parts. A number is held by the text it is written with.
#[derive(Debug, Clone, PartialEq, Eq)]
pub enum Leaf {
    Null,
    Bool(bool),
    Number(String),
    Text(String),
}

/// A value whose objects remember the order their keys arrived in.
#[derive(Debug, PartialEq, Eq)]
pub enum Node {
    Leaf(Leaf),
    Array(Vec<Node>),
    Object(Vec<(String, Node)>),
}

#[verifier::ext_equal]
pub enum LeafView {
    Null,
    Bool(bool),
    Number(Seq<char>),
    Text(Seq<char>),
}

#[verifier::ext_equal]
pub enum NodeView {
    Leaf(LeafView),
    Array(Seq<NodeView>),
    Object(Seq<(Seq<char>, NodeView)>),
}

impl Leaf {
    pub open spec fn shape(&self) -> LeafView {
        match self {
            Leaf::Null => LeafView::Null,
            Leaf::Bool(b) => LeafView::Bool(*b),
            Leaf::Number(text) => LeafView::Number(text@),
            Leaf::Text(text) => LeafView::Text(text@),
        }
    }
}

impl Node {
    pub open spec fn shape(&self) -> NodeView
        decreases self,
    {
        match self {
            Node::Leaf(leaf) => NodeView::Leaf(leaf.shape()),
            Node::Array(items) => NodeView::Array(
                Seq::new(
                    items@.len(),
                    |i: int|
                        if 0 <= i < items@.len() {
                            items@[i].shape()
                        } else {
                            arbitrary()
                        },
                ),
            ),
            Node::Object(entries) => NodeView::Object(
                Seq::new(
                    entries@.len(),
                    |i: int|
                        if 0 <= i < entries@.len() {
                            (entries@[i].0@, entries@[i].1.shape())
                        } else {
                            arbitrary()
                        },
                ),
            ),
        }
    }
}

pub open spec fn text_node(text: Seq<char>) -> NodeView {
    NodeView::Leaf(LeafView::Text(text))
}

pub open spec fn number_node(n: nat) -> NodeView {
    NodeView::Leaf(LeafView::Number(decimal(n)))
}

pub open spec fn texts_node(texts: Seq<Seq<char>>) -> NodeView {
    NodeView::Array(Seq::new(texts.len(), |i: int| text_node(texts[i])))
}

impl Node {
    pub fn text(text: &str) -> (r: Node)
        ensures
            r.shape() == text_node(text@),
    {
        Node::Leaf(Leaf::Text(text.to_owned()))
    }

    pub fn number(n: usize) -> (r: Node)
        ensures
            r.shape() == number_node(n as nat),
    {
        Node::Leaf(Leaf::Number(number(n)))
    }

    pub fn texts(texts: &Vec<String>) -> (r: Node)
        ensures
            r.shape() == texts_node(deep(texts@)),
    {
        let mut items: Vec<Node> = Vec::new();
        let mut i: usize = 0;
        while i < texts.len()
            invariant
                i <= texts.len(),
                items@.len() == i,
                forall|j: int| 0 <= j < i ==> (#[trigger] items@[j]).shape() == text_node(texts@[j]@),
            decreases texts.len() - i,
        {
            items.push(Node::text(texts[i].as_str()));
            i += 1;
        }
        let r = Node::Array(items);
        assert(r.shape()->Array_0 =~= texts_node(deep(texts@))->Array_0);
        r
    }
}

impl Leaf {
    /// A copy of the value.
    pub fn copied(&self) -> (r: Leaf)
        ensures
            r.shape() == self.shape(),
    {
        match self {
            Leaf::Null => Leaf::Null,
            Leaf::Bool(b) => Leaf::Bool(*b),
            Leaf::Number(text) => Leaf::Number(text.clone()),
            Leaf::Text(text) => Leaf::Text(text.clone()),
        }
    }
}

impl Node {
    /// A copy of the value.
    pub fn copied(&self) -> (r: Node)
        ensures
            r.shape() == self.shape(),
        decreases self,
    {
        match self {
            Node::Leaf(leaf) => Node::Leaf(leaf.copied()),
            Node::Array(items) => {
                let mut copies: Vec<Node> = Vec::new();
                let mut i: usize = 0;
                while i < items.len()
                    invariant
                        *self == Node::Array(*items),
                        i <= items.len(),
                        copies@.len() == i,
                        forall|j: int|
                            0 <= j < i ==> (#[trigger] copies@[j]).shape() == items@[j].shape(),
                    decreases items.len() - i,
                {
                    assert(decreases_to!(*self => self->Array_0));
                    assert(decreases_to!(*items => items@));
                    assert(decreases_to!(items@ => items@[i as int]));
                    copies.push(items[i].copied());
                    i += 1;
                }
                let r = Node::Array(copies);
                assert(r.shape()->Array_0 =~= self.shape()->Array_0);
                r
            },
            Node::Object(entries) => {
                let mut copies: Vec<(String, Node)> = Vec::new();
                let mut i: usize = 0;
                while i < entries.len()
                    invariant
                        *self == Node::Object(*entries),
                        i <= entries.len(),
                        copies@.len() == i,
                        forall|j: int|
                            0 <= j < i ==> (#[trigger] copies@[j]).0@ == entries@[j].0@
                                && copies@[j].1.shape() == entries@[j].1.shape(),
                    decreases entries.len() - i,
                {
                    assert(decreases_to!(*self => self->Object_0));
                    assert(decreases_to!(*entries => entries@));
                    assert(decreases_to!(entries@ => entries@[i as int]));
                    assert(decreases_to!(entries@[i as int] => entries@[i as int].1));
                    let entry = &entries[i];
                    copies.push((entry.0.clone(), entry.1.copied()));
                    i += 1;
                }
                let r = Node::Object(copies);
                assert(r.shape()->Object_0 =~= self.shape()->Object_0);
                r
            },
        }
    }
}

impl Clone for Node {
    fn clone(&self) -> (r: Node)
        ensures
            r.shape() == self.shape(),
    {
        self.copied()
    }
}

} // verus!
