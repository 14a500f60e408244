//! The catalog of operations that a pipeline node can carry, and the graph
//! that an assembled pipeline is written out as.
//!
//! The builder carries an operation as a payload: it neither reads nor checks
//! its fields.

use vstd::prelude::*;

verus! {

/// Memory layout of a canvas.
#[derive(Clone, Copy, Debug, PartialEq, Eq)]
pub enum PixelFormat {
    Bgra32,
    Bgr24,
    Gray8,
}

/// A colour in the sRGB space, written as hexadecimal text.
#[derive(Debug, PartialEq, Eq)]
pub enum ColorSrgb {
    Hex(String),
}

impl Clone for ColorSrgb {
    fn clone(&self) -> (r: Self)
        ensures
            r == *self,
    {
        match self {
            ColorSrgb::Hex(s) => ColorSrgb::Hex(s.clone()),
        }
    }
}

/// The fill colour of a new canvas, or the matte of an encoder.
#[derive(Debug, PartialEq, Eq)]
pub enum Color {
    Transparent,
    Black,
    Srgb(ColorSrgb),
}

impl Clone for Color {
    fn clone(&self) -> (r: Self)
        ensures
            r == *self,
    {
        match self {
            Color::Transparent => Color::Transparent,
            Color::Black => Color::Black,
            Color::Srgb(c) => Color::Srgb(c.clone()),
        }
    }
}

/// Interpolation filter of a resampling step.
#[derive(Clone, Copy, Debug, PartialEq, Eq)]
pub enum Filter {
    RobidouxFast,
    Robidoux,
    RobidouxSharp,
    Ginseng,
    GinsengSharp,
    Lanczos,
    LanczosSharp,
    Lanczos2,
    Lanczos2Sharp,
    CubicFast,
    Cubic,
    CubicSharp,
    CatmullRom,
    Mitchell,
    CubicBSpline,
    Hermite,
    Jinc,
    Triangle,
    Linear,
    Box,
    Fastest,
}

/// Optional tuning of a resampling step. `sharpen_percent` is a whole
/// percentage.
#[derive(Clone, Copy, Debug, PartialEq, Eq)]
pub struct ResampleHints {
    pub sharpen_percent: Option<u32>,
    pub prefer_1d_twice: Option<bool>,
}

/// Bit depth of an encoded PNG.
#[derive(Clone, Copy, Debug, PartialEq, Eq)]
pub enum PngBitDepth {
    Png32,
    Png24,
}

/// Which encoder writes the image, and how.
#[derive(Debug, PartialEq, Eq)]
pub enum EncoderPreset {
    LibjpegTurbo { quality: Option<i32> },
    Libpng { depth: Option<PngBitDepth>, matte: Option<Color>, zlib_compression: Option<i32> },
}

impl EncoderPreset {
    /// JPEG at full quality.
    pub fn libjpegturbo() -> (r: EncoderPreset)
        ensures
            r == (EncoderPreset::LibjpegTurbo { quality: Some(100i32) }),
    {
        EncoderPreset::LibjpegTurbo { quality: Some(100) }
    }

    /// PNG with an alpha channel, no matte, default compression.
    pub fn libpng32() -> (r: EncoderPreset)
        ensures
            r == (EncoderPreset::Libpng {
                depth: Some(PngBitDepth::Png32),
                matte: None,
                zlib_compression: None,
            }),
    {
        EncoderPreset::Libpng {
            depth: Some(PngBitDepth::Png32),
            matte: None,
            zlib_compression: None,
        }
    }
}

impl Clone for EncoderPreset {
    fn clone(&self) -> (r: Self)
        ensures
            r == *self,
    {
        match self {
            EncoderPreset::LibjpegTurbo { quality } => EncoderPreset::LibjpegTurbo {
                quality: *quality,
            },
            EncoderPreset::Libpng { depth, matte, zlib_compression } => {
                let matte_copy = match matte {
                    Some(c) => Some(c.clone()),
                    None => None,
                };
                EncoderPreset::Libpng {
                    depth: *depth,
                    matte: matte_copy,
                    zlib_compression: *zlib_compression,
                }
            },
        }
    }
}

/// One operation of the pipeline.
#[derive(Debug, PartialEq, Eq)]
pub enum Node {
    FlipV,
    FlipH,
    Rotate90,
    Rotate180,
    Rotate270,
    Transpose,
    CreateCanvas { format: PixelFormat, w: usize, h: usize, color: Color },
    CopyRectToCanvas { from_x: u32, from_y: u32, width: u32, height: u32, x: u32, y: u32 },
    Decode { io_id: i32 },
    Encode { preset: EncoderPreset, io_id: i32 },
    Resample2D {
        w: usize,
        h: usize,
        down_filter: Option<Filter>,
        up_filter: Option<Filter>,
        hints: Option<ResampleHints>,
    },
}

impl Clone for Node {
    fn clone(&self) -> (r: Self)
        ensures
            r == *self,
    {
        match self {
            Node::FlipV => Node::FlipV,
            Node::FlipH => Node::FlipH,
            Node::Rotate90 => Node::Rotate90,
            Node::Rotate180 => Node::Rotate180,
            Node::Rotate270 => Node::Rotate270,
            Node::Transpose => Node::Transpose,
            Node::CreateCanvas { format, w, h, color } => Node::CreateCanvas {
                format: *format,
                w: *w,
                h: *h,
                color: color.clone(),
            },
            Node::CopyRectToCanvas { from_x, from_y, width, height, x, y } => {
                Node::CopyRectToCanvas {
                    from_x: *from_x,
                    from_y: *from_y,
                    width: *width,
                    height: *height,
                    x: *x,
                    y: *y,
                }
            },
            Node::Decode { io_id } => Node::Decode { io_id: *io_id },
            Node::Encode { preset, io_id } => Node::Encode {
                preset: preset.clone(),
                io_id: *io_id,
            },
            Node::Resample2D { w, h, down_filter, up_filter, hints } => Node::Resample2D {
                w: *w,
                h: *h,
                down_filter: *down_filter,
                up_filter: *up_filter,
                hints: *hints,
            },
        }
    }
}

/// The role in which a node depends on an ancestor.
#[derive(Clone, Copy, Debug, PartialEq, Eq, Structural)]
pub enum EdgeKind {
    /// The ancestor supplies the pixels that the node works on.
    Input,
    /// The ancestor is the canvas that the node draws onto.
    Canvas,
}

/// A dependency between two nodes of an emitted graph, by their indices.
#[derive(Clone, Copy, Debug, PartialEq, Eq, Structural)]
pub struct Edge {
    pub from: u64,
    pub to: u64,
    pub kind: EdgeKind,
}

/// An emitted graph: a table from the decimal text of an index to the
/// operation at that index, and the dependencies between indices.
#[derive(Debug, PartialEq, Eq)]
pub struct Graph {
    pub nodes: Vec<(String, Node)>,
    pub edges: Vec<Edge>,
}

impl Graph {
    /// The table holds `op` under `key`.
    pub open spec fn has_node(self, key: Seq<char>, op: Node) -> bool {
        exists|i: int|
            0 <= i < self.nodes@.len() && (#[trigger] self.nodes@[i]).0@ == key
                && self.nodes@[i].1 == op
    }

    /// No key stands twice in the table.
    pub open spec fn keys_distinct(self) -> bool {
        forall|i: int, j: int|
            0 <= i < j < self.nodes@.len() ==> (#[trigger] self.nodes@[i]).0@ != (
            #[trigger] self.nodes@[j]).0@
    }

    /// The keys of the table.
    pub open spec fn keys(self) -> Set<Seq<char>> {
        Set::new(|key: Seq<char>| exists|op: Node| self.has_node(key, op))
    }

    /// The table, as a set of pairs of key and operation.
    pub open spec fn node_set(self) -> Set<(Seq<char>, Node)> {
        Set::new(|p: (Seq<char>, Node)| self.has_node(p.0, p.1))
    }

    /// The dependencies, as a set.
    pub open spec fn edge_set(self) -> Set<Edge> {
        self.edges@.to_set()
    }
}

/// What a pipeline is handed on as: a graph, or a plain list of steps.
#[derive(Debug, PartialEq, Eq)]
pub enum Framewise {
    Graph(Graph),
    Steps(Vec<Node>),
}

} // verus!
