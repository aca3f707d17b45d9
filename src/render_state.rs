use vstd::prelude::*;

verus! {

/// How vertices are assembled into primitives.
#[derive(Clone, Copy, Debug, PartialEq, Eq, Structural)]
pub enum Topology {
    PointList,
    LineList,
    LineStrip,
    TriangleList,
    TriangleStrip,
}

/// Which winding marks a front-facing triangle.
#[derive(Clone, Copy, Debug, PartialEq, Eq, Structural)]
pub enum FrontFace {
    Cw,
    Ccw,
}

/// Which faces are culled.
#[derive(Clone, Copy, Debug, PartialEq, Eq, Structural)]
pub enum Face {
    Front,
    Back,
}

/// How polygons are rasterised.
#[derive(Clone, Copy, Debug, PartialEq, Eq, Structural)]
pub enum PolygonMode {
    Fill,
    Line,
    Point,
}

/// The fixed-function state a pipeline is built with.
#[derive(Clone, Copy, Debug, PartialEq, Eq, Structural)]
pub struct PrimitiveState {
    pub topology: Topology,
    pub front_face: FrontFace,
    pub cull_mode: Face,
    pub polygon_mode: PolygonMode,
}

/// Render state packed in one byte: bits 0-2 the topology, bit 3 the
/// winding (set: counter-clockwise), bit 4 the culled face (set: back), bits
/// 5-6 the polygon mode.
#[derive(Clone, Copy, Debug, PartialEq, Eq, Structural)]
pub struct ShaderRenderMethod {
    pub mask: u8,
}

pub const POINT_LIST: u8 = 0;
pub const LINE_LIST: u8 = 1;
pub const LINE_STRIP: u8 = 2;
pub const TRIANGLE_LIST: u8 = 3;
pub const TRIANGLE_STRIP: u8 = 4;
pub const CCW: u8 = 8;
pub const BACK: u8 = 16;
pub const LINE: u8 = 32;
pub const POINT: u8 = 64;

pub open spec fn topology_of(mask: u8) -> Topology {
    let t = mask % 8;
    if t == 0 {
        Topology::PointList
    } else if t == 1 {
        Topology::LineList
    } else if t == 2 {
        Topology::LineStrip
    } else if t == 3 {
        Topology::TriangleList
    } else {
        Topology::TriangleStrip
    }
}

pub open spec fn primitive_state_of(mask: u8) -> PrimitiveState {
    PrimitiveState {
        topology: topology_of(mask),
        front_face: if (mask / 8) % 2 == 0 {
            FrontFace::Cw
        } else {
            FrontFace::Ccw
        },
        cull_mode: if (mask / 16) % 2 == 0 {
            Face::Front
        } else {
            Face::Back
        },
        polygon_mode: if (mask / 32) % 4 == 0 {
            PolygonMode::Fill
        } else if (mask / 32) % 4 == 1 {
            PolygonMode::Line
        } else {
            PolygonMode::Point
        },
    }
}

impl ShaderRenderMethod {
    /// Counter-clockwise triangle lists with back faces culled, filled.
    pub fn triangle_ccw_back() -> (r: ShaderRenderMethod)
        ensures
            r.mask == CCW + TRIANGLE_LIST + BACK,
    {
        ShaderRenderMethod { mask: CCW + TRIANGLE_LIST + BACK }
    }

    /// The primitive state this mask stands for.
    pub fn get_primitive_state(&self) -> (r: PrimitiveState)
        ensures
            r == primitive_state_of(self.mask),
    {
        let m = self.mask;
        let t = m % 8;
        let topology = if t == 0 {
            Topology::PointList
        } else if t == 1 {
            Topology::LineList
        } else if t == 2 {
            Topology::LineStrip
        } else if t == 3 {
            Topology::TriangleList
        } else {
            Topology::TriangleStrip
        };
        let front_face = if (m / 8) % 2 == 0 {
            FrontFace::Cw
        } else {
            FrontFace::Ccw
        };
        let cull_mode = if (m / 16) % 2 == 0 {
            Face::Front
        } else {
            Face::Back
        };
        let p = (m / 32) % 4;
        let polygon_mode = if p == 0 {
            PolygonMode::Fill
        } else if p == 1 {
            PolygonMode::Line
        } else {
            PolygonMode::Point
        };
        PrimitiveState { topology, front_face, cull_mode, polygon_mode }
    }
}

} // verus!
