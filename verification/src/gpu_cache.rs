//! Depth and stencil behaviour of the pipelines.
//!
//! A glyph's fill owns depth and stencil. Whatever is painted beneath a fill
//! that another draw supplies is tested against depth as the fill is, and writes
//! neither depth nor stencil.
use vstd::prelude::*;

verus! {

/// When a depth or stencil test passes.
#[derive(Clone, Copy, Debug, PartialEq, Eq, Structural)]
pub enum CompareFunction {
    Never,
    Less,
    Equal,
    LessEqual,
    Greater,
    NotEqual,
    GreaterEqual,
    Always,
}

/// What happens to a stencil value.
#[derive(Clone, Copy, Debug, PartialEq, Eq, Structural)]
pub enum StencilOperation {
    Keep,
    Zero,
    Replace,
    Invert,
    IncrementClamp,
    DecrementClamp,
    IncrementWrap,
    DecrementWrap,
}

/// Stencil behaviour of one side of the primitives.
#[derive(Clone, Copy, Debug, PartialEq, Eq, Structural)]
pub struct StencilFace {
    pub compare: CompareFunction,
    pub fail_op: StencilOperation,
    pub depth_fail_op: StencilOperation,
    pub pass_op: StencilOperation,
}

/// Depth and stencil behaviour of a pipeline.
#[derive(Clone, Copy, Debug, PartialEq, Eq, Structural)]
pub struct DepthStencil {
    pub depth_write_enabled: Option<bool>,
    pub depth_compare: Option<CompareFunction>,
    pub front: StencilFace,
    pub back: StencilFace,
    pub read_mask: u32,
    pub write_mask: u32,
}

/// The face with the same test and no effect.
pub open spec fn testing_face(face: StencilFace) -> StencilFace {
    StencilFace {
        compare: face.compare,
        fail_op: StencilOperation::Keep,
        depth_fail_op: StencilOperation::Keep,
        pass_op: StencilOperation::Keep,
    }
}

/// The state with the same tests and no writes.
pub open spec fn testing_only(state: DepthStencil) -> DepthStencil {
    DepthStencil {
        depth_write_enabled: Some(false),
        depth_compare: state.depth_compare,
        front: testing_face(state.front),
        back: testing_face(state.back),
        read_mask: state.read_mask,
        write_mask: 0,
    }
}

/// The state under which a blurred shadow is composited: geometry occludes it as
/// it occludes the text, and it writes neither depth nor stencil.
pub fn composite_depth_stencil(state: Option<DepthStencil>) -> (r: Option<DepthStencil>)
    ensures
        r == match state {
            Some(state) => Some(testing_only(state)),
            None => None::<DepthStencil>,
        },
{
    match state {
        None => None,
        Some(state) => {
            let mut quiet: DepthStencil = state;
            quiet.depth_write_enabled = Some(false);
            quiet.front.fail_op = StencilOperation::Keep;
            quiet.front.depth_fail_op = StencilOperation::Keep;
            quiet.front.pass_op = StencilOperation::Keep;
            quiet.back.fail_op = StencilOperation::Keep;
            quiet.back.depth_fail_op = StencilOperation::Keep;
            quiet.back.pass_op = StencilOperation::Keep;
            quiet.write_mask = 0;
            Some(quiet)
        },
    }
}

/// The state of the decoration pipeline. A ring owns the fill of its glyphs and
/// keeps the caller's state; any other decoration lies beneath a fill.
pub fn border_depth_stencil(state: Option<DepthStencil>, fill_owning: bool) -> (r: Option<DepthStencil>)
    ensures
        r == if fill_owning {
            state
        } else {
            match state {
                Some(state) => Some(testing_only(state)),
                None => None::<DepthStencil>,
            }
        },
{
    if fill_owning { state } else { composite_depth_stencil(state) }
}

}
