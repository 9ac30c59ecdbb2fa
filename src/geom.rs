//! Per-instance drawing data: where a shape sits, how large it is, and its
//! colour.
use vstd::prelude::*;
use crate::math::{Vec2, Vec4};

verus! {

/// Offset of a shape's centre.
#[derive(Clone, Copy, Debug)]
pub struct Translate<T>(pub Vec2<T>);

impl<T> From<Vec2<T>> for Translate<T> {
    fn from(vec: Vec2<T>) -> (r: Self) {
        Translate(vec)
    }
}

impl<T> vstd::std_specs::convert::FromSpecImpl<Vec2<T>> for Translate<T> {
    open spec fn obeys_from_spec() -> bool {
        true
    }

    open spec fn from_spec(v: Vec2<T>) -> Self {
        Translate(v)
    }
}

/// Extent of a shape along each axis.
#[derive(Clone, Copy, Debug)]
pub struct Scale<T>(pub Vec2<T>);

impl<T> From<Vec2<T>> for Scale<T> {
    fn from(vec: Vec2<T>) -> (r: Self) {
        Scale(vec)
    }
}

impl<T> vstd::std_specs::convert::FromSpecImpl<Vec2<T>> for Scale<T> {
    open spec fn obeys_from_spec() -> bool {
        true
    }

    open spec fn from_spec(v: Vec2<T>) -> Self {
        Scale(v)
    }
}

/// Red, green, blue and alpha.
#[derive(Clone, Copy, Debug)]
pub struct Color<T>(pub Vec4<T>);

impl<T> From<Vec4<T>> for Color<T> {
    fn from(vec: Vec4<T>) -> (r: Self) {
        Color(vec)
    }
}

impl<T> vstd::std_specs::convert::FromSpecImpl<Vec4<T>> for Color<T> {
    open spec fn obeys_from_spec() -> bool {
        true
    }

    open spec fn from_spec(v: Vec4<T>) -> Self {
        Color(v)
    }
}

/// One drawn quad: position, size and colour.
#[derive(Clone, Copy, Debug)]
pub struct Geom<T> {
    pub translate: Translate<T>,
    pub scale: Scale<T>,
    pub color: Color<T>,
}

/// A segment between two points.
#[derive(Clone, Copy, Debug)]
pub struct Line<T>(pub Vec2<T>, pub Vec2<T>);

} // verus!
