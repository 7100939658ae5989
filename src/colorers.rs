//! Ready-made colorers.
use vstd::prelude::*;
use crate::framebuffer::Tile;
use crate::primatives::{Point, TriColorer};

verus! {

/// `v` held to the range of a colour channel.
pub open spec fn channel_of(v: int) -> u8 {
    if v < 0 {
        0
    } else if v > 255 {
        255
    } else {
        v as u8
    }
}

/// Attribute `k`, or zero where there is none.
pub open spec fn attribute_or_zero(attributes: Seq<i32>, k: int) -> int {
    if k < attributes.len() {
        attributes[k] as int
    } else {
        0
    }
}

/// The opaque colour whose red, green and blue are the first three attributes.
pub open spec fn attribute_tile(attributes: Seq<i32>) -> Tile {
    Tile {
        r: channel_of(attribute_or_zero(attributes, 0)),
        g: channel_of(attribute_or_zero(attributes, 1)),
        b: channel_of(attribute_or_zero(attributes, 2)),
        a: 255,
    }
}

/// The opaque colour whose red is `uv.x` and green is `uv.y`.
pub open spec fn uv_tile(uv: Point) -> Tile {
    Tile { r: channel_of(uv.x as int), g: channel_of(uv.y as int), b: 0, a: 255 }
}

fn to_channel(v: i32) -> (c: u8)
    ensures
        c == channel_of(v as int),
{
    if v < 0 {
        0
    } else if v > 255 {
        255
    } else {
        v as u8
    }
}

fn attribute_at(attributes: &[i32], k: usize) -> (v: i32)
    ensures
        v == attribute_or_zero(attributes@, k as int),
{
    if k < attributes.len() {
        attributes[k]
    } else {
        0
    }
}

/// Colours a pixel with its interpolated attributes read as red, green and blue.
pub fn coloring_func(uv: Point, color: &[i32]) -> (t: Tile)
    ensures
        t == attribute_tile(color@),
{
    Tile {
        r: to_channel(attribute_at(color, 0)),
        g: to_channel(attribute_at(color, 1)),
        b: to_channel(attribute_at(color, 2)),
        a: 255,
    }
}

/// Colours a pixel with its bounding-box position: `u` as red, `v` as green.
pub fn uv_as_rg(uv: Point, color: &[i32]) -> (t: Tile)
    ensures
        t == uv_tile(uv),
{
    Tile { r: to_channel(uv.x), g: to_channel(uv.y), b: 0, a: 255 }
}

/// The colorer of `coloring_func`.
#[derive(Clone, Copy, Debug)]
pub struct AttributeColorer;

impl TriColorer for AttributeColorer {
    open spec fn shade(&self, uv: Point, attributes: Seq<i32>) -> Tile {
        attribute_tile(attributes)
    }

    fn color(&self, uv: Point, attributes: &[i32]) -> (t: Tile) {
        coloring_func(uv, attributes)
    }
}

/// The colorer of `uv_as_rg`.
#[derive(Clone, Copy, Debug)]
pub struct UvColorer;

impl TriColorer for UvColorer {
    open spec fn shade(&self, uv: Point, attributes: Seq<i32>) -> Tile {
        uv_tile(uv)
    }

    fn color(&self, uv: Point, attributes: &[i32]) -> (t: Tile) {
        uv_as_rg(uv, attributes)
    }
}

} // verus!
