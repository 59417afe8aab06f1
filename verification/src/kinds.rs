use vstd::prelude::*;

verus! {

/// Laser cutter layer semantics: Cut lines vs Engrave/raster regions.
#[derive(Clone, Copy, Debug, PartialEq, Eq, Structural)]
pub enum Layer {
    Cut,
    Engrave,
    Link,
    Marker,
}

/// The boundary shapes a scene can use.
#[derive(Clone, Copy, Debug, PartialEq, Eq, Structural)]
pub enum Shape {
    Rect,
    Circle,
    Hexagon,
    Star,
    Donut,
    Diamond,
    Heart,
}

impl Layer {
    /// Whether the viewer draws a polyline of this layer: cut lines always,
    /// walls, links and markers only when their toggle is on.
    pub fn shown(&self, walls: bool, links: bool, markers: bool) -> (res: bool)
        ensures
            res == match self {
                Layer::Cut => true,
                Layer::Engrave => walls,
                Layer::Link => links,
                Layer::Marker => markers,
            },
    {
        match self {
            Layer::Cut => true,
            Layer::Engrave => walls,
            Layer::Link => links,
            Layer::Marker => markers,
        }
    }

    /// The DXF layer this layer is exported to.
    pub open spec fn dxf_name_spec(self) -> Seq<char> {
        match self {
            Layer::Cut => "CUT"@,
            Layer::Engrave => "ENGRAVE"@,
            Layer::Link => "LINK"@,
            Layer::Marker => "MARKER"@,
        }
    }

    /// The name of the DXF layer (laser cutter convention) for this layer.
    pub fn dxf_name(&self) -> (res: &'static str)
        ensures
            res@ == self.dxf_name_spec(),
    {
        match self {
            Layer::Cut => "CUT",
            Layer::Engrave => "ENGRAVE",
            Layer::Link => "LINK",
            Layer::Marker => "MARKER",
        }
    }

    /// The DXF color index of the layer: red for cut, blue for engrave,
    /// yellow for link, green for marker.
    pub fn dxf_color_index(&self) -> (res: u8)
        ensures
            res == match self {
                Layer::Cut => 1u8,
                Layer::Engrave => 5u8,
                Layer::Link => 2u8,
                Layer::Marker => 3u8,
            },
    {
        match self {
            Layer::Cut => 1,
            Layer::Engrave => 5,
            Layer::Link => 2,
            Layer::Marker => 3,
        }
    }

}

impl Shape {
    /// The short name used on the command line and in exported file names.
    pub open spec fn name_spec(self) -> Seq<char> {
        match self {
            Shape::Rect => "rect"@,
            Shape::Circle => "circle"@,
            Shape::Hexagon => "hex"@,
            Shape::Star => "star"@,
            Shape::Donut => "donut"@,
            Shape::Diamond => "diamond"@,
            Shape::Heart => "heart"@,
        }
    }

    pub fn name(&self) -> (res: &'static str)
        ensures
            res@ == self.name_spec(),
    {
        match self {
            Shape::Rect => "rect",
            Shape::Circle => "circle",
            Shape::Hexagon => "hex",
            Shape::Star => "star",
            Shape::Donut => "donut",
            Shape::Diamond => "diamond",
            Shape::Heart => "heart",
        }
    }
}

} // verus!
