//! Uploads and draws of a prepared frame.
use vstd::prelude::*;
use crate::float32::doubled_until;
use crate::text_atlas::TextAtlas;
use crate::text_renderer::draws::OrderedDraw;
use crate::text_renderer::frame::{BufferSizes, Frame, PrepareStats, RendererState, TextRenderer};
use crate::text_renderer::geometry::{
    GlyphInstance, next_copy_buffer_size, raster_buffer_size, stride_for, uniform_stride,
};
use crate::types::RenderError;

verus! {

/// Bytes of a plain or decoration instance.
pub const INSTANCE_BYTES: u64 = 48;

/// Bytes of a raster vertex.
pub const RASTER_VERTEX_BYTES: u64 = 52;

/// Bytes of a decoration uniform.
pub const UNIFORM_BYTES: u64 = 32;

/// More items than any buffer can hold.
pub const ITEM_LIMIT: u64 = 0x100_0000_0000_0000;

/// What is done with a vertex buffer.
#[derive(Clone, Copy, Debug, PartialEq, Eq, Structural)]
pub enum Upload {
    /// There is nothing to draw from it.
    Nothing,
    /// The vertices are written to it.
    Write,
    /// It is replaced by one of this many bytes, and the vertices are written.
    Recreate(u64),
}

/// What is done with the buffers of the decorations.
#[derive(Clone, Copy, Debug, PartialEq, Eq, Structural)]
pub struct BorderUpload {
    /// The size of a new vertex buffer, if there has to be one.
    pub recreate_vertices: Option<u64>,
    /// Whether the instances are written.
    pub write_instances: bool,
    /// The size of a new uniform buffer, if there has to be one.
    pub recreate_uniforms: Option<u64>,
    /// The distance between two uniforms.
    pub stride: u64,
}

/// A draw of the render pass.
#[derive(Clone, Copy, Debug, PartialEq, Eq, Structural)]
pub enum DrawCommand {
    /// Plain instances.
    Glyphs { start: usize, end: usize },
    /// Decoration instances with the uniform at a byte offset.
    Decoration { fill_owning: bool, start: usize, end: usize, offset: u32 },
    /// A finished shadow.
    Shadow { job: usize },
    /// Quads of the raster atlas.
    Raster { count: usize },
}

/// What is done with a vertex buffer of `size` bytes that `bytes` bytes go to.
pub open spec fn upload_of(bytes: int, size: u64, least: int) -> Upload {
    if bytes == 0 {
        Upload::Nothing
    } else if bytes <= size {
        Upload::Write
    } else {
        Upload::Recreate(doubled_until(least, bytes) as u64)
    }
}

/// The size of a vertex buffer afterwards.
pub open spec fn size_after(upload: Upload, size: u64) -> u64 {
    match upload {
        Upload::Recreate(size) => size,
        _ => size,
    }
}

/// The draw command of an ordered draw.
pub open spec fn command_of(draw: OrderedDraw, stride: u64) -> DrawCommand {
    match draw {
        OrderedDraw::Underlay { start, end, uniform } => DrawCommand::Decoration {
            fill_owning: false,
            start,
            end,
            offset: ((uniform * stride) % 0x1_0000_0000) as u32,
        },
        OrderedDraw::RingFill { start, end, uniform } => DrawCommand::Decoration {
            fill_owning: true,
            start,
            end,
            offset: ((uniform * stride) % 0x1_0000_0000) as u32,
        },
        OrderedDraw::Fill { start, end } => DrawCommand::Glyphs { start, end },
        OrderedDraw::Shadow { job } => DrawCommand::Shadow { job },
    }
}

/// The draws of a prepared frame: all instances at once where nothing is
/// decorated, the ordered draws otherwise, and the raster quads at the end.
pub open spec fn commands_of(s: RendererState) -> Seq<DrawCommand> {
    let vector = if s.border.len() > 0 {
        s.draws.map_values(|d: OrderedDraw| command_of(d, s.buffers.uniform_stride))
    } else if s.glyphs > 0 {
        seq![DrawCommand::Glyphs { start: 0, end: s.glyphs as usize }]
    } else {
        Seq::empty()
    };
    if s.raster > 0 {
        vector.push(DrawCommand::Raster { count: s.raster as usize })
    } else {
        vector
    }
}

/// The instances refer to the data that the atlas holds now.
pub open spec fn is_current(s: RendererState, id: u64, generation: u32) -> bool {
    s.atlas_id == id && s.generation == generation
}

proof fn lemma_uniform_product(uniform: usize, stride: u64)
    ensures
        0 <= uniform * stride <= u128::MAX,
{
    assert(0 <= uniform * stride <= 0xffff_ffff_ffff_ffff * 0xffff_ffff_ffff_ffff) by (nonlinear_arith)
        requires
            0 <= uniform <= 0xffff_ffff_ffff_ffff,
            0 <= stride <= 0xffff_ffff_ffff_ffff,
    ;
}

fn uniform_offset(uniform: usize, stride: u64) -> (r: u32)
    ensures
        r == (uniform * stride) % 0x1_0000_0000,
{
    proof {
        lemma_uniform_product(uniform, stride);
    }
    ((uniform as u128 * stride as u128) % 0x1_0000_0000) as u32
}

impl TextRenderer {
    /// Makes the plain instances drawable and says what is done with their buffer.
    pub fn upload_vertices(&mut self) -> (r: Upload)
        requires
            old(self)@.instances.len() <= ITEM_LIMIT,
        ensures
            r == upload_of(old(self)@.instances.len() * INSTANCE_BYTES, old(self)@.buffers.vertices, 4),
            final(self)@ == (RendererState {
                glyphs: old(self)@.instances.len() as int,
                buffers: BufferSizes {
                    vertices: size_after(r, old(self)@.buffers.vertices),
                    ..old(self)@.buffers
                },
                ..old(self)@
            }),
    {
        self.glyphs_to_render = self.instances.len();
        if self.instances.len() == 0 {
            return Upload::Nothing;
        }
        let bytes: u64 = self.instances.len() as u64 * INSTANCE_BYTES;
        if self.buffers.vertices >= bytes {
            Upload::Write
        } else {
            let size: u64 = next_copy_buffer_size(bytes);
            self.buffers.vertices = size;
            Upload::Recreate(size)
        }
    }

    /// Makes `count` raster quads drawable and says what is done with their buffer.
    pub fn upload_raster_vertices(&mut self, count: usize) -> (r: Upload)
        requires
            count <= ITEM_LIMIT,
        ensures
            r == upload_of(count * RASTER_VERTEX_BYTES, old(self)@.buffers.raster_vertices, 4096),
            final(self)@ == (RendererState {
                raster: count as int,
                buffers: BufferSizes {
                    raster_vertices: size_after(r, old(self)@.buffers.raster_vertices),
                    ..old(self)@.buffers
                },
                ..old(self)@
            }),
    {
        self.raster_glyphs_to_render = count;
        if count == 0 {
            return Upload::Nothing;
        }
        let bytes: u64 = count as u64 * RASTER_VERTEX_BYTES;
        if self.buffers.raster_vertices >= bytes {
            Upload::Write
        } else {
            let size: u64 = raster_buffer_size(bytes);
            self.buffers.raster_vertices = size;
            Upload::Recreate(size)
        }
    }

    /// Says what is done with the buffers of the decorations, given the number of
    /// paints, the device's alignment of uniforms, and whether the instances
    /// changed. `None` where nothing is decorated.
    pub fn upload_border_resources(&mut self, uniforms: u32, alignment: u32, upload_instances: bool) -> (r: Option<BorderUpload>)
        requires
            old(self)@.border.len() <= ITEM_LIMIT,
            stride_for(alignment) * uniforms <= u64::MAX,
        ensures
            r.is_some() <==> old(self)@.border.len() > 0,
            r is None ==> final(self)@ == old(self)@,
            r is Some ==> {
                let before = old(self)@.buffers;
                let bytes = old(self)@.border.len() * INSTANCE_BYTES;
                let required = stride_for(alignment) * uniforms;
                let b = r->0;
                &&& b.stride == stride_for(alignment)
                &&& b.recreate_vertices == if before.border_vertices < bytes {
                    Some(doubled_until(4, bytes) as u64)
                } else {
                    None::<u64>
                }
                &&& b.write_instances == (upload_instances || before.border_vertices < bytes)
                &&& b.recreate_uniforms == if before.border_uniforms is None || before.border_uniforms->0 < required {
                    Some(if required < UNIFORM_BYTES { UNIFORM_BYTES } else { required as u64 })
                } else {
                    None::<u64>
                }
                &&& final(self)@ == (RendererState {
                    buffers: BufferSizes {
                        border_vertices: if b.recreate_vertices is Some {
                            b.recreate_vertices->0
                        } else {
                            before.border_vertices
                        },
                        border_uniforms: if b.recreate_uniforms is Some {
                            b.recreate_uniforms
                        } else {
                            before.border_uniforms
                        },
                        uniform_stride: b.stride,
                        ..before
                    },
                    ..old(self)@
                })
            },
    {
        if self.border_instances.len() == 0 {
            return None;
        }
        let bytes: u64 = self.border_instances.len() as u64 * INSTANCE_BYTES;
        let mut recreate_vertices: Option<u64> = None;
        if self.buffers.border_vertices < bytes {
            let size: u64 = next_copy_buffer_size(bytes);
            self.buffers.border_vertices = size;
            recreate_vertices = Some(size);
        }
        let stride: u64 = uniform_stride(alignment);
        self.buffers.uniform_stride = stride;
        let required: u64 = stride * uniforms as u64;
        let mut recreate_uniforms: Option<u64> = None;
        let short: bool = match self.buffers.border_uniforms {
            None => true,
            Some(size) => size < required,
        };
        if short {
            recreate_uniforms = Some(if required < UNIFORM_BYTES { UNIFORM_BYTES } else { required });
            self.buffers.border_uniforms = recreate_uniforms;
        }
        Some(
            BorderUpload {
                recreate_vertices,
                write_instances: upload_instances || recreate_vertices.is_some(),
                recreate_uniforms,
                stride,
            },
        )
    }

    /// Ends the preparation of a frame: what was emitted is drawable as long as the
    /// atlas keeps its data in place.
    pub fn finish_frame(&mut self, frame: Frame, atlas: &TextAtlas)
        ensures
            final(self)@ == (RendererState {
                generation: atlas@.generation,
                stats: frame.model().stats,
                ..old(self)@
            }),
    {
        self.prepared_atlas_generation = atlas.generation();
        self.last_prepare_stats = frame.stats;
    }

    /// The draws of the prepared frame. Fails where the atlas is not the one that
    /// the instances refer to, or has moved its data since they were prepared.
    pub fn render(&self, atlas: &TextAtlas) -> (r: Result<Vec<DrawCommand>, RenderError>)
        ensures
            r.is_ok() <==> is_current(self@, atlas@.id, atlas@.generation),
            r is Err ==> r->Err_0 == RenderError::RemovedFromAtlas,
            r is Ok ==> r->Ok_0@ == commands_of(self@),
    {
        if atlas.id() != self.atlas_id {
            return Err(RenderError::RemovedFromAtlas);
        }
        if atlas.generation() != self.prepared_atlas_generation {
            return Err(RenderError::RemovedFromAtlas);
        }
        let mut commands: Vec<DrawCommand> = Vec::new();
        let ghost s = self@;
        if self.border_instances.len() > 0 {
            let stride: u64 = self.buffers.uniform_stride;
            for i in 0..self.draws.len()
                invariant
                    stride == s.buffers.uniform_stride,
                    s.draws == self.draws@,
                    commands@.len() == i,
                    forall|j: int| 0 <= j < i ==> #[trigger] commands@[j] == command_of(s.draws[j], stride),
            {
                let command: DrawCommand = match self.draws[i] {
                    OrderedDraw::Underlay { start, end, uniform } => DrawCommand::Decoration {
                        fill_owning: false,
                        start,
                        end,
                        offset: uniform_offset(uniform, stride),
                    },
                    OrderedDraw::RingFill { start, end, uniform } => DrawCommand::Decoration {
                        fill_owning: true,
                        start,
                        end,
                        offset: uniform_offset(uniform, stride),
                    },
                    OrderedDraw::Fill { start, end } => DrawCommand::Glyphs { start, end },
                    OrderedDraw::Shadow { job } => DrawCommand::Shadow { job },
                };
                commands.push(command);
            }
            assert(commands@ =~= s.draws.map_values(|d: OrderedDraw| command_of(d, s.buffers.uniform_stride)));
        } else if self.glyphs_to_render > 0 {
            commands.push(DrawCommand::Glyphs { start: 0, end: self.glyphs_to_render });
            assert(commands@ =~= seq![DrawCommand::Glyphs { start: 0, end: s.glyphs as usize }]);
        } else {
            assert(commands@ =~= Seq::empty());
        }
        if self.raster_glyphs_to_render > 0 {
            commands.push(DrawCommand::Raster { count: self.raster_glyphs_to_render });
        }
        Ok(commands)
    }

    /// Does nothing: the raster atlas is trimmed by its owner.
    pub fn trim(&mut self)
        ensures
            *final(self) == *old(self),
    {
    }

    /// The plain instances of the last frame.
    pub fn prepared_instances(&self) -> (r: &Vec<GlyphInstance>)
        ensures
            r@ == self@.instances,
    {
        &self.instances
    }

    /// The decoration instances of the last frame.
    pub fn prepared_border_instances(&self) -> (r: &Vec<GlyphInstance>)
        ensures
            r@ == self@.border,
    {
        &self.border_instances
    }

    /// How the areas of the last frame were prepared.
    pub fn last_prepare_stats(&self) -> (r: PrepareStats)
        ensures
            r == self@.stats,
    {
        self.last_prepare_stats
    }
}

}
