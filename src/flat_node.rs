//! A Huffman node as a single flat record: a leaf flag, the element of a leaf,
//! a weight, and the optional children of an internal node.

use vstd::prelude::*;

verus! {

#[derive(Debug)]
pub struct HuffmannNode {
    pub is_leaf: bool,
    pub element: Option<char>,
    pub weight: i32,
    pub left: Option<Box<HuffmannNode>>,
    pub right: Option<Box<HuffmannNode>>,
}

impl HuffmannNode {
    /// A leaf holding `el` with weight `wt`.
    pub fn new_leaf(el: char, wt: i32) -> (r: Self)
        ensures
            r.is_leaf,
            r.element == Some(el),
            r.weight == wt,
            r.left is None,
            r.right is None,
    {
        HuffmannNode { is_leaf: true, element: Some(el), weight: wt, left: None, right: None }
    }

    /// An internal node with weight `wt` owning `left` and `right`.
    pub fn new_internal(wt: i32, left: HuffmannNode, right: HuffmannNode) -> (r: Self)
        ensures
            !r.is_leaf,
            r.element is None,
            r.weight == wt,
            r.left == Some(Box::new(left)),
            r.right == Some(Box::new(right)),
    {
        HuffmannNode {
            is_leaf: false,
            element: None,
            weight: wt,
            left: Some(Box::new(left)),
            right: Some(Box::new(right)),
        }
    }

    #[allow(non_snake_case)]
    pub fn isLeaf(&self) -> (r: bool)
        ensures
            r == self.is_leaf,
    {
        self.is_leaf
    }

    pub fn value(&self) -> (r: Option<char>)
        ensures
            r == self.element,
    {
        self.element
    }

    pub fn weight(&self) -> (r: i32)
        ensures
            r == self.weight,
    {
        self.weight
    }

    pub fn left(&self) -> (r: Option<&HuffmannNode>)
        ensures
            r == (match self.left {
                Some(node) => Some(&*node),
                None => None,
            }),
    {
        match &self.left {
            Some(node) => Some(&**node),
            None => None,
        }
    }

    pub fn right(&self) -> (r: Option<&HuffmannNode>)
        ensures
            r == (match self.right {
                Some(node) => Some(&*node),
                None => None,
            }),
    {
        match &self.right {
            Some(node) => Some(&**node),
            None => None,
        }
    }
}

} // verus!
