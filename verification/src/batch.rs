//! The vertex batch and its renderer.
//!
//! Shapes are appended to a batch of vertices and triangle indices. Once a
//! frame, [`GLContext::draw`] decides how the batch reaches the GPU, hands
//! the batch over as the frame to submit, and starts the next batch empty.
//! The component type of coordinates and colours is left open: the batch
//! stores and copies components and never computes with them.

use vstd::prelude::*;
use crate::layout::{Layout, LayoutType, OpenGLType};
use crate::shader::{split_stages, stages_of, ShaderError, ShaderStages};
use crate::vec2::Vec2;

verus! {

/// One vertex of a shape: position, texture coordinate and colour.
#[derive(Copy, Clone, Debug, PartialEq)]
pub struct ShapeData<T> {
    pub pos: Vec2<T>,
    pub tex: Vec2<T>,
    pub col: [T; 4],
}

/// How a buffer on the GPU is brought up to date.
#[derive(Copy, Clone, Debug, PartialEq, Eq, Structural)]
pub enum Upload {
    /// Nothing is sent.
    Skip,
    /// The buffer is allocated anew, as large as the data, and filled.
    Reallocate,
    /// The data overwrites the start of the buffer that is there.
    Update,
}

/// What the backend is to do for one frame: bring both buffers up to date,
/// then draw `index_count` indices in one call.
#[derive(Copy, Clone, Debug, PartialEq, Eq, Structural)]
pub struct DrawPlan {
    pub vertices: Upload,
    pub indices: Upload,
    pub vertex_count: usize,
    pub index_count: usize,
}

/// The upload for `count` elements into a buffer that has held up to
/// `high_water` of them: a buffer that was never that large is allocated
/// anew, otherwise the data overwrites its start, and no data is no upload.
pub open spec fn upload_for(high_water: usize, count: usize) -> Upload {
    if high_water < count {
        Upload::Reallocate
    } else if count > 0 {
        Upload::Update
    } else {
        Upload::Skip
    }
}

/// The triangles of a quad over its corners in the order top-left,
/// top-right, bottom-left, bottom-right.
pub open spec fn quad_indices() -> Seq<u32> {
    seq![0u32, 1u32, 2u32, 2u32, 1u32, 3u32]
}

/// The state of the batch renderer.
pub struct GLContext<T> {
    /// The vertices of the batch that is being built.
    pub shapedata: Vec<ShapeData<T>>,
    /// Its triangle indices, into `shapedata`.
    pub indexdata: Vec<u32>,
    /// The vertices of the frame that `draw` handed over last.
    pub frame_shapes: Vec<ShapeData<T>>,
    /// The indices of that frame.
    pub frame_indices: Vec<u32>,
    /// Most vertices that a frame has had so far.
    pub prev_shp_size: usize,
    /// Most indices that a frame has had so far.
    pub prev_ind_size: usize,
    /// Colour of the shapes that bring none.
    pub curfill: [T; 4],
    /// Texture coordinates that untextured shapes cycle through.
    pub texcoords: [Vec2<T>; 4],
}

impl<T: Copy> GLContext<T> {
    /// Every index of the batch points at one of its vertices.
    pub open spec fn valid(&self) -> bool {
        forall|i: int| 0 <= i < self.indexdata@.len() ==> self.indexdata@[i] < self.shapedata@.len()
    }

    /// The vertices that `push_shape` appends for `points`.
    pub open spec fn shape_vertices(&self, points: Seq<Vec2<T>>, color: [T; 4]) -> Seq<ShapeData<T>> {
        Seq::new(
            points.len(),
            |i: int| ShapeData { pos: points[i], tex: self.texcoords@[i % 4], col: color },
        )
    }

    /// The indices that `push_shape` appends for `index`: each one moved up
    /// by the number of vertices that the batch had before.
    pub open spec fn shape_indices(&self, index: Seq<u32>) -> Seq<u32> {
        Seq::new(index.len(), |i: int| (self.shapedata@.len() + index[i]) as u32)
    }

    /// An empty batch for a renderer that has not drawn yet.
    pub fn new(texcoords: [Vec2<T>; 4], curfill: [T; 4]) -> (ctx: Self)
        ensures
            ctx.shapedata@.len() == 0,
            ctx.indexdata@.len() == 0,
            ctx.frame_shapes@.len() == 0,
            ctx.frame_indices@.len() == 0,
            ctx.prev_shp_size == 0,
            ctx.prev_ind_size == 0,
            ctx.curfill == curfill,
            ctx.texcoords == texcoords,
            ctx.valid(),
    {
        GLContext {
            shapedata: Vec::new(),
            indexdata: Vec::new(),
            frame_shapes: Vec::new(),
            frame_indices: Vec::new(),
            prev_shp_size: 0,
            prev_ind_size: 0,
            curfill,
            texcoords,
        }
    }

    /// Appends a shape: one vertex per point, in the given colour and with
    /// the texture coordinates of the table in turn, and the shape's
    /// triangle indices, which count from the shape's first point.
    pub fn push_shape(&mut self, points: Vec<Vec2<T>>, index: Vec<u32>, color: [T; 4]) -> (ret:
        &mut Self)
        requires
            forall|i: int|
                0 <= i < index@.len() ==> old(self).shapedata@.len() + #[trigger] index@[i]
                    <= u32::MAX,
        ensures
            ret.shapedata@ == old(self).shapedata@ + old(self).shape_vertices(points@, color),
            ret.indexdata@ == old(self).indexdata@ + old(self).shape_indices(index@),
            ret.frame_shapes == old(self).frame_shapes,
            ret.frame_indices == old(self).frame_indices,
            ret.prev_shp_size == old(self).prev_shp_size,
            ret.prev_ind_size == old(self).prev_ind_size,
            ret.curfill == old(self).curfill,
            ret.texcoords == old(self).texcoords,
            old(self).valid() && (forall|i: int|
                0 <= i < index@.len() ==> #[trigger] index@[i] < points@.len()) ==> ret.valid(),
            *final(self) == *final(ret),
    {
        let ghost before = *self;
        let len = self.shapedata.len();
        let mut i: usize = 0;
        while i < points.len()
            invariant
                i <= points@.len(),
                len == before.shapedata@.len(),
                self.shapedata@ == before.shapedata@ + before.shape_vertices(points@, color).take(
                    i as int,
                ),
                self.indexdata == before.indexdata,
                self.frame_shapes == before.frame_shapes,
                self.frame_indices == before.frame_indices,
                self.prev_shp_size == before.prev_shp_size,
                self.prev_ind_size == before.prev_ind_size,
                self.curfill == before.curfill,
                self.texcoords == before.texcoords,
            decreases points@.len() - i,
        {
            self.shapedata.push(ShapeData { col: color, pos: points[i], tex: self.texcoords[i % 4] });
            i += 1;
        }
        let mut i: usize = 0;
        while i < index.len()
            invariant
                i <= index@.len(),
                len == before.shapedata@.len(),
                forall|k: int| 0 <= k < index@.len() ==> len + #[trigger] index@[k] <= u32::MAX,
                self.shapedata@ == before.shapedata@ + before.shape_vertices(points@, color),
                self.indexdata@ == before.indexdata@ + before.shape_indices(index@).take(i as int),
                self.frame_shapes == before.frame_shapes,
                self.frame_indices == before.frame_indices,
                self.prev_shp_size == before.prev_shp_size,
                self.prev_ind_size == before.prev_ind_size,
                self.curfill == before.curfill,
                self.texcoords == before.texcoords,
            decreases index@.len() - i,
        {
            self.indexdata.push(len as u32 + index[i]);
            i += 1;
        }
        self
    }

    /// The corners of the rectangle between two opposite corners, row by
    /// row.
    pub open spec fn corners(from: Vec2<T>, to: Vec2<T>) -> Seq<Vec2<T>> {
        seq![
            Vec2 { x: from.x, y: from.y },
            Vec2 { x: to.x, y: from.y },
            Vec2 { x: from.x, y: to.y },
            Vec2 { x: to.x, y: to.y },
        ]
    }

    /// Appends the rectangle between the corner `from` and the opposite
    /// corner `to` as two triangles in the fill colour.
    pub fn rect(&mut self, from: Vec2<T>, to: Vec2<T>)
        requires
            old(self).shapedata@.len() + 3 <= u32::MAX,
        ensures
            final(self).shapedata@ == old(self).shapedata@ + old(self).shape_vertices(
                Self::corners(from, to),
                old(self).curfill,
            ),
            final(self).indexdata@ == old(self).indexdata@ + old(self).shape_indices(quad_indices()),
            final(self).frame_shapes == old(self).frame_shapes,
            final(self).frame_indices == old(self).frame_indices,
            final(self).prev_shp_size == old(self).prev_shp_size,
            final(self).prev_ind_size == old(self).prev_ind_size,
            final(self).curfill == old(self).curfill,
            final(self).texcoords == old(self).texcoords,
            old(self).valid() ==> final(self).valid(),
    {
        let points = vec![
            Vec2 { x: from.x, y: from.y },
            Vec2 { x: to.x, y: from.y },
            Vec2 { x: from.x, y: to.y },
            Vec2 { x: to.x, y: to.y },
        ];
        let index: Vec<u32> = vec![0, 1, 2, 2, 1, 3];
        assert(index@ =~= quad_indices());
        assert(points@ =~= Self::corners(from, to));
        let fill = self.curfill;
        self.push_shape(points, index, fill);
    }

    /// Appends a quad with texture coordinates of its own, one per corner,
    /// as two triangles. The corners come in the order top-left, top-right,
    /// bottom-left, bottom-right.
    pub fn quad(&mut self, corners: [Vec2<T>; 4], tex: [Vec2<T>; 4], color: [T; 4])
        requires
            old(self).shapedata@.len() + 3 <= u32::MAX,
        ensures
            final(self).shapedata@ == old(self).shapedata@ + Seq::new(
                4,
                |i: int| ShapeData { pos: corners@[i], tex: tex@[i], col: color },
            ),
            final(self).indexdata@ == old(self).indexdata@ + old(self).shape_indices(quad_indices()),
            final(self).frame_shapes == old(self).frame_shapes,
            final(self).frame_indices == old(self).frame_indices,
            final(self).prev_shp_size == old(self).prev_shp_size,
            final(self).prev_ind_size == old(self).prev_ind_size,
            final(self).curfill == old(self).curfill,
            final(self).texcoords == old(self).texcoords,
            old(self).valid() ==> final(self).valid(),
    {
        let ghost before = *self;
        let len = self.shapedata.len() as u32;
        let mut i: usize = 0;
        while i < 4
            invariant
                i <= 4,
                len == before.shapedata@.len(),
                self.shapedata@ == before.shapedata@ + Seq::new(
                    4,
                    |k: int| ShapeData { pos: corners@[k], tex: tex@[k], col: color },
                ).take(i as int),
                self.indexdata == before.indexdata,
                self.frame_shapes == before.frame_shapes,
                self.frame_indices == before.frame_indices,
                self.prev_shp_size == before.prev_shp_size,
                self.prev_ind_size == before.prev_ind_size,
                self.curfill == before.curfill,
                self.texcoords == before.texcoords,
            decreases 4 - i,
        {
            self.shapedata.push(ShapeData { col: color, pos: corners[i], tex: tex[i] });
            i += 1;
        }
        self.indexdata.push(len);
        self.indexdata.push(len + 1);
        self.indexdata.push(len + 2);
        self.indexdata.push(len + 2);
        self.indexdata.push(len + 1);
        self.indexdata.push(len + 3);
        assert(self.indexdata@ =~= before.indexdata@ + before.shape_indices(quad_indices()));
    }

    /// What `draw` plans for the batch as it stands.
    pub open spec fn plan(&self) -> DrawPlan {
        DrawPlan {
            vertices: upload_for(self.prev_shp_size, self.shapedata.len()),
            indices: upload_for(self.prev_ind_size, self.indexdata.len()),
            vertex_count: self.shapedata.len(),
            index_count: self.indexdata.len(),
        }
    }

    /// Ends the frame. With an empty batch nothing happens and nothing is
    /// planned. Otherwise the batch becomes the frame to submit, the plan
    /// says how each buffer is brought up to date and how many indices the
    /// one draw call covers, the high-water marks rise to the frame's sizes,
    /// and the next batch starts empty.
    pub fn draw(&mut self) -> (plan: Option<DrawPlan>)
        ensures
            old(self).shapedata@.len() == 0 ==> plan is None && *final(self) == *old(self),
            old(self).shapedata@.len() > 0 ==> {
                &&& plan == Some(old(self).plan())
                &&& final(self).frame_shapes@ == old(self).shapedata@
                &&& final(self).frame_indices@ == old(self).indexdata@
                &&& final(self).shapedata@.len() == 0
                &&& final(self).indexdata@.len() == 0
                &&& final(self).prev_shp_size == if old(self).prev_shp_size < old(
                    self,
                ).shapedata.len() {
                    old(self).shapedata.len()
                } else {
                    old(self).prev_shp_size
                }
                &&& final(self).prev_ind_size == if old(self).prev_ind_size < old(
                    self,
                ).indexdata.len() {
                    old(self).indexdata.len()
                } else {
                    old(self).prev_ind_size
                }
                &&& final(self).curfill == old(self).curfill
                &&& final(self).texcoords == old(self).texcoords
                &&& final(self).valid()
            },
    {
        if self.shapedata.len() == 0 {
            return None;
        }
        let vertex_count = self.shapedata.len();
        let index_count = self.indexdata.len();

        // A buffer that was never this large is allocated anew.
        let vertices = if self.prev_shp_size < vertex_count {
            self.prev_shp_size = vertex_count;
            Upload::Reallocate
        } else {
            Upload::Update
        };
        let indices = if self.prev_ind_size < index_count {
            self.prev_ind_size = index_count;
            Upload::Reallocate
        } else if index_count > 0 {
            Upload::Update
        } else {
            Upload::Skip
        };

        // The batch changes places with the last frame, whose storage the
        // next batch fills again.
        core::mem::swap(&mut self.shapedata, &mut self.frame_shapes);
        core::mem::swap(&mut self.indexdata, &mut self.frame_indices);
        self.shapedata.clear();
        self.indexdata.clear();
        Some(DrawPlan { vertices, indices, vertex_count, index_count })
    }

    /// Cuts a shader text into the sources of its two stages.
    pub fn load_shaders<'a>(&self, file: &'a str) -> (stages: Result<ShaderStages<'a>, ShaderError>)
        ensures
            match stages {
                Ok(s) => stages_of(file@) == Some((s.vertex@, s.fragment@)),
                Err(e) => e == ShaderError::MissingMarker && stages_of(file@) is None,
            },
    {
        split_stages(file)
    }
}

/// The layout of a [`ShapeData`] of four-byte components: two for the
/// position, two for the texture coordinate, four for the colour.
pub fn shape_layout() -> (layout: Layout)
    ensures
        layout.wf(),
        layout.stride == 32,
        layout.types@ == seq![
            LayoutType { typeenum: OpenGLType::Float, count: 2 },
            LayoutType { typeenum: OpenGLType::Float, count: 2 },
            LayoutType { typeenum: OpenGLType::Float, count: 4 },
        ],
{
    let mut layout = Layout::new();
    layout.addf(2).addf(2).addf(4);
    assert(layout.types@ =~= seq![
        LayoutType { typeenum: OpenGLType::Float, count: 2 },
        LayoutType { typeenum: OpenGLType::Float, count: 2 },
        LayoutType { typeenum: OpenGLType::Float, count: 4 },
    ]);
    layout
}

} // verus!
