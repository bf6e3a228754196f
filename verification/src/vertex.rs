//! A description of one vertex's memory layout, built up attribute by
//! attribute: the renderer outside the core turns it into its own format
//! descriptors.

use vstd::prelude::*;

verus! {

/// The shape of one vertex attribute: a vector of two, three or four 32-bit
/// components.
#[derive(Clone, Copy, Debug, PartialEq, Eq, Structural)]
pub enum AttributeType {
    Vec2,
    Vec3,
    Vec4,
}

/// One vertex's memory layout: the distance in bytes between consecutive
/// vertices, and each attribute's shape and byte offset, in declaration
/// order.
pub struct Info {
    /// The distance in bytes between consecutive vertices.
    pub stride: usize,
    /// Each attribute's shape and byte offset, in declaration order.
    pub attributes: Vec<(AttributeType, usize)>,
}

impl Info {
    /// Starts a layout with the given stride and no attributes.
    pub fn new(stride: usize) -> (r: Info)
        ensures
            r.stride == stride,
            r.attributes@ == Seq::<(AttributeType, usize)>::empty(),
    {
        Info { stride, attributes: Vec::new() }
    }

    /// Appends one attribute with its shape and byte offset.
    pub fn attribute(self, ty: AttributeType, offset: usize) -> (r: Info)
        ensures
            r.stride == self.stride,
            r.attributes@ == self.attributes@.push((ty, offset)),
    {
        let mut r = self;
        r.attributes.push((ty, offset));
        r
    }
}

} // verus!
