//! The ordered draws of a decorated frame.
//!
//! Decorations are listed back to front like CSS `text-shadow`: the first one is
//! painted on top and so drawn last. Every analytic decoration of an area draws
//! the same instances; its paint is a uniform. A ring, which can only be the
//! first entry, supplies the fill of the glyphs it covers, and is interleaved with
//! the glyphs it does not cover so that glyphs keep their order.
use vstd::prelude::*;
use crate::blur::{BlurGeometry, shadow_job};
use crate::float32::{F32, f_from_int};
use crate::text_renderer::geometry::GlyphInstance;
use crate::text_renderer::runs::{Run, law_runs_partition_the_instances, runs_of, split_runs};
use crate::text_renderer::shadow::{bounds_at, depths_seen, distinct_depths, far_first, instance_bounds_at_depth};
use crate::types::{DecorationMode, PhysicalDecoration, blur_support, blurs, support_of};

verus! {

/// The paint of a decoration, as the shader reads it.
#[derive(Clone, Copy, Debug)]
pub struct BorderUniform {
    pub color: [F32; 4],
    pub spread: F32,
    /// 0 for a solid decoration, 1 for a ring.
    pub mode: u32,
    pub offset: [F32; 2],
}

/// One draw of a decorated frame. Ranges are of instances; `uniform` is an index
/// into the frame's paints and `job` one into its shadows.
#[derive(Clone, Copy, Debug)]
pub enum OrderedDraw {
    /// Decoration instances beneath a fill that another draw supplies. Writes no
    /// depth and no stencil.
    Underlay { start: usize, end: usize, uniform: usize },
    /// Decoration instances that supply the fill themselves.
    RingFill { start: usize, end: usize, uniform: usize },
    /// Plain instances.
    Fill { start: usize, end: usize },
    /// A finished shadow.
    Shadow { job: usize },
}

/// A blurred decoration that waits for its mask.
#[derive(Clone, Copy, Debug)]
pub struct PendingBlur {
    /// The decoration instances whose glyphs throw the shadow.
    pub start: usize,
    pub end: usize,
    pub geometry: BlurGeometry,
    pub color: [F32; 4],
    /// The mask is built from the instances at this depth only.
    pub depth: F32,
}

/// What is drawn for a frame.
pub ghost struct Paint {
    pub draws: Seq<OrderedDraw>,
    pub uniforms: Seq<BorderUniform>,
    pub blurs: Seq<PendingBlur>,
}

/// The paint of a decoration.
pub open spec fn uniform_of(d: PhysicalDecoration) -> BorderUniform {
    BorderUniform {
        color: d.color,
        spread: d.spread,
        mode: if d.mode == DecorationMode::Ring { 1 } else { 0 },
        offset: d.offset,
    }
}

impl BorderUniform {
    /// The paint of a decoration.
    pub fn of(d: &PhysicalDecoration) -> (r: BorderUniform)
        ensures
            r == uniform_of(*d),
    {
        BorderUniform {
            color: d.color,
            spread: d.spread,
            mode: match d.mode {
                DecorationMode::Solid => 0,
                DecorationMode::Ring => 1,
            },
            offset: d.offset,
        }
    }
}

/// The streams of one area within those of the frame.
pub ghost struct AreaSpan {
    /// The area's decoration instances.
    pub border: Seq<GlyphInstance>,
    /// Per plain instance: whether a ring covers it.
    pub flags: Seq<bool>,
    /// Where the area's plain and decoration instances start.
    pub normal_start: int,
    pub border_start: int,
    /// The area's visible rectangle.
    pub clip: Seq<F32>,
    pub scroll: Seq<F32>,
}

impl AreaSpan {
    pub open spec fn normal_end(self) -> int {
        self.normal_start + self.flags.len()
    }

    pub open spec fn border_end(self) -> int {
        self.border_start + self.border.len()
    }

    /// The shadow that a decoration throws from the instances at a depth.
    pub open spec fn job(self, d: PhysicalDecoration, depth: F32) -> Option<BlurGeometry> {
        match bounds_at(self.border, self.scroll, depth, self.border.len() as int) {
            None => None,
            Some(glyphs) => shadow_job(glyphs@, self.clip, d.offset, d.blur, support_of(d.blur)),
        }
    }
}

impl Paint {
    /// The shadow of a blurred decoration at one depth, if it is visible.
    pub open spec fn with_shadow(self, a: AreaSpan, d: PhysicalDecoration, depth: F32) -> Paint {
        match a.job(d, depth) {
            None => self,
            Some(geometry) => Paint {
                draws: self.draws.push(OrderedDraw::Shadow { job: self.blurs.len() as usize }),
                blurs: self.blurs.push(
                    PendingBlur {
                        start: a.border_start as usize,
                        end: a.border_end() as usize,
                        geometry,
                        color: d.color,
                        depth,
                    },
                ),
                ..self
            },
        }
    }

    /// The shadows of a blurred decoration at the first `n` depths.
    pub open spec fn with_shadows(self, a: AreaSpan, d: PhysicalDecoration, depths: Seq<F32>, n: int) -> Paint
        decreases n,
    {
        if n <= 0 {
            self
        } else {
            self.with_shadows(a, d, depths, n - 1).with_shadow(a, d, depths[n - 1])
        }
    }

    /// A decoration beneath the fill.
    #[verifier::opaque]
    pub open spec fn with_decoration(self, a: AreaSpan, d: PhysicalDecoration) -> Paint {
        if blurs(d.blur) {
            let depths = far_first(depths_seen(a.border, a.border.len() as int));
            self.with_shadows(a, d, depths, depths.len() as int)
        } else {
            Paint {
                draws: self.draws.push(
                    OrderedDraw::Underlay {
                        start: a.border_start as usize,
                        end: a.border_end() as usize,
                        uniform: self.uniforms.len() as usize,
                    },
                ),
                uniforms: self.uniforms.push(uniform_of(d)),
                ..self
            }
        }
    }

    /// The last `n` decorations of a list, the last one first.
    pub open spec fn with_decorations(self, a: AreaSpan, list: Seq<PhysicalDecoration>, n: int) -> Paint
        decreases n,
    {
        if n <= 0 {
            self
        } else {
            self.with_decorations(a, list, n - 1).with_decoration(a, list[list.len() - n])
        }
    }

    /// One run of an area under a ring.
    pub open spec fn with_run(self, a: AreaSpan, run: Run, uniform: usize) -> Paint {
        let draw = if run.covered {
            OrderedDraw::RingFill {
                start: (a.border_start + run.border_start) as usize,
                end: (a.border_start + run.border_end) as usize,
                uniform,
            }
        } else {
            OrderedDraw::Fill {
                start: (a.normal_start + run.start) as usize,
                end: (a.normal_start + run.end) as usize,
            }
        };
        Paint { draws: self.draws.push(draw), ..self }
    }

    /// The first `n` runs of an area under a ring.
    pub open spec fn with_runs(self, a: AreaSpan, runs: Seq<Run>, uniform: usize, n: int) -> Paint
        decreases n,
    {
        if n <= 0 {
            self
        } else {
            self.with_runs(a, runs, uniform, n - 1).with_run(a, runs[n - 1], uniform)
        }
    }

    /// The fill of an area: by the ring if there is one, else as a single range. A
    /// frame without any decoration needs no ordered draws.
    pub open spec fn with_fill(self, a: AreaSpan, list: Seq<PhysicalDecoration>, bordered_frame: bool) -> Paint {
        if has_ring(list) {
            let runs = runs_of(a.flags, a.flags.len() as int);
            let inked = Paint { uniforms: self.uniforms.push(uniform_of(list[0])), ..self };
            inked.with_runs(a, runs, self.uniforms.len() as usize, runs.len() as int)
        } else if bordered_frame && a.flags.len() > 0 {
            Paint {
                draws: self.draws.push(
                    OrderedDraw::Fill { start: a.normal_start as usize, end: a.normal_end() as usize },
                ),
                ..self
            }
        } else {
            self
        }
    }

    /// Everything that is drawn for an area.
    pub open spec fn with_area(self, a: AreaSpan, list: Seq<PhysicalDecoration>, bordered_frame: bool) -> Paint {
        let beneath = if a.border.len() > 0 {
            self.with_decorations(a, list, list.len() - if has_ring(list) { 1int } else { 0 })
        } else {
            self
        };
        beneath.with_fill(a, list, bordered_frame)
    }
}

/// The topmost decoration is a ring.
pub open spec fn has_ring(list: Seq<PhysicalDecoration>) -> bool {
    list.len() > 0 && list[0].mode == DecorationMode::Ring
}

/// A visible rectangle in floating point.
pub open spec fn float_rect(bounds: [i32; 4]) -> [F32; 4] {
    [
        f_from_int(bounds@[0] as int),
        f_from_int(bounds@[1] as int),
        f_from_int(bounds@[2] as int),
        f_from_int(bounds@[3] as int),
    ]
}

/// A visible rectangle in floating point.
pub fn plan_bounds(bounds: &[i32; 4]) -> (r: [F32; 4])
    ensures
        r == float_rect(*bounds),
{
    [
        F32::from_i64(bounds[0] as i64),
        F32::from_i64(bounds[1] as i64),
        F32::from_i64(bounds[2] as i64),
        F32::from_i64(bounds[3] as i64),
    ]
}

/// What is drawn for a frame, as it grows.
#[derive(Debug)]
pub struct DrawList {
    pub draws: Vec<OrderedDraw>,
    pub uniforms: Vec<BorderUniform>,
    pub blurs: Vec<PendingBlur>,
}

/// The streams of one area, as they are drawn from.
#[derive(Clone, Copy)]
pub struct AreaStreams<'a> {
    pub border: &'a [GlyphInstance],
    pub flags: &'a [bool],
    pub normal_start: usize,
    pub border_start: usize,
    pub clip: [F32; 4],
    pub scroll: [F32; 2],
}

impl<'a> AreaStreams<'a> {
    pub open spec fn model(&self) -> AreaSpan {
        AreaSpan {
            border: self.border@,
            flags: self.flags@,
            normal_start: self.normal_start as int,
            border_start: self.border_start as int,
            clip: self.clip@,
            scroll: self.scroll@,
        }
    }

    /// Indices into the frame's streams stay in range.
    pub open spec fn wf(&self) -> bool {
        &&& self.normal_start + self.flags@.len() <= usize::MAX
        &&& self.border_start + self.border@.len() <= usize::MAX
        &&& self.border_start + self.flags@.len() <= usize::MAX
    }
}

impl DrawList {
    pub open spec fn model(&self) -> Paint {
        Paint { draws: self.draws@, uniforms: self.uniforms@, blurs: self.blurs@ }
    }

    /// Nothing is drawn.
    pub fn new() -> (r: DrawList)
        ensures
            r.model() == (Paint { draws: Seq::empty(), uniforms: Seq::empty(), blurs: Seq::empty() }),
    {
        DrawList { draws: Vec::new(), uniforms: Vec::new(), blurs: Vec::new() }
    }

    fn push_shadow(&mut self, a: &AreaStreams, d: &PhysicalDecoration, depth: F32)
        requires
            a.wf(),
        ensures
            final(self).model() == old(self).model().with_shadow(a.model(), *d, depth),
    {
        let glyphs: [F32; 4] = match instance_bounds_at_depth(a.border, a.scroll, depth) {
            None => return,
            Some(glyphs) => glyphs,
        };
        let support: F32 = blur_support(d.blur);
        if let Some(geometry) = BlurGeometry::new(glyphs, a.clip, d.offset, d.blur, support) {
            self.draws.push(OrderedDraw::Shadow { job: self.blurs.len() });
            self.blurs.push(
                PendingBlur {
                    start: a.border_start,
                    end: a.border_start + a.border.len(),
                    geometry,
                    color: d.color,
                    depth,
                },
            );
        }
    }

    fn push_decoration(&mut self, a: &AreaStreams, d: &PhysicalDecoration)
        requires
            a.wf(),
        ensures
            final(self).model() == old(self).model().with_decoration(a.model(), *d),
    {
        reveal(Paint::with_decoration);
        let ghost start = self.model();
        if d.is_filtered() {
            let depths: Vec<F32> = distinct_depths(a.border);
            for i in 0..depths.len()
                invariant
                    a.wf(),
                    self.model() == start.with_shadows(a.model(), *d, depths@, i as int),
            {
                self.push_shadow(a, d, depths[i]);
            }
        } else {
            self.draws.push(
                OrderedDraw::Underlay {
                    start: a.border_start,
                    end: a.border_start + a.border.len(),
                    uniform: self.uniforms.len(),
                },
            );
            self.uniforms.push(BorderUniform::of(d));
        }
    }

    fn push_ring(&mut self, a: &AreaStreams, ring: &PhysicalDecoration)
        requires
            a.wf(),
        ensures
            ({
                let start = old(self).model();
                let runs = runs_of(a.flags@, a.flags@.len() as int);
                let inked = Paint { uniforms: start.uniforms.push(uniform_of(*ring)), ..start };
                final(self).model() == inked.with_runs(
                    a.model(),
                    runs,
                    start.uniforms.len() as usize,
                    runs.len() as int,
                )
            }),
    {
        let uniform: usize = self.uniforms.len();
        self.uniforms.push(BorderUniform::of(ring));
        let ghost inked = self.model();
        let runs: Vec<Run> = split_runs(a.flags);
        for i in 0..runs.len()
            invariant
                a.wf(),
                runs@ == runs_of(a.flags@, a.flags@.len() as int),
                self.model() == inked.with_runs(a.model(), runs@, uniform, i as int),
        {
            let run: Run = runs[i];
            proof {
                law_runs_partition_the_instances(a.flags@, a.flags@.len() as int, i as int);
            }
            if run.covered {
                self.draws.push(
                    OrderedDraw::RingFill {
                        start: a.border_start + run.border_start,
                        end: a.border_start + run.border_end,
                        uniform,
                    },
                );
            } else {
                self.draws.push(
                    OrderedDraw::Fill { start: a.normal_start + run.start, end: a.normal_start + run.end },
                );
            }
        }
    }

    /// Appends what is drawn for an area.
    pub fn push_area(&mut self, a: &AreaStreams, list: &Vec<PhysicalDecoration>, bordered_frame: bool)
        requires
            a.wf(),
        ensures
            final(self).model() == old(self).model().with_area(a.model(), list@, bordered_frame),
    {
        let ring: bool = list.len() > 0 && list[0].mode == DecorationMode::Ring;
        let first: usize = if ring { 1 } else { 0 };
        if a.border.len() > 0 {
            let ghost start = self.model();
            let mut i: usize = list.len();
            while i > first
                invariant
                    a.wf(),
                    first <= i <= list@.len(),
                    self.model() == start.with_decorations(a.model(), list@, list@.len() - i),
                decreases i,
            {
                i = i - 1;
                self.push_decoration(a, &list[i]);
            }
        }
        if ring {
            self.push_ring(a, &list[0]);
        } else if bordered_frame && a.flags.len() > 0 {
            self.draws.push(
                OrderedDraw::Fill { start: a.normal_start, end: a.normal_start + a.flags.len() },
            );
        }
    }
}

}
