//! Where a prepared area goes when it is moved.
use vstd::prelude::*;
use crate::float32::{F32, abs_int, lemma_difference_error};
use crate::text_atlas::AtlasState;
use crate::text_renderer::frame::{FrameModel, RendererState, area_class, planned};
use crate::text_renderer::geometry::PlacementClass;
use crate::text_renderer::layout::LayoutRun;
use crate::text_renderer::masks::{lemma_finite_difference, lemma_moderate_value, moderate};
use crate::text_renderer::plan::{PlanModel, area_id};
use crate::types::TextArea;

verus! {

/// A step leads from one place to another, up to rounding.
pub open spec fn leads_to(from: F32, step: F32, to: F32) -> bool {
    let e = from.value() + step.value() - to.value();
    let slack = abs_int(from.value()) + abs_int(to.value()) + 0x80_0000;
    step.finite() && e * 0x80_0000 <= slack && -e * 0x80_0000 <= slack
}

/// An area that is culled again is moved from where it was prepared to where it now is.
pub proof fn law_moved_areas_arrive(
    s: RendererState,
    f: FrameModel,
    atlas: AtlasState,
    area: TextArea,
    runs: Seq<LayoutRun>,
)
    requires
        area_class(s, f, atlas, area) == PlacementClass::ReCull,
        ({
            let cached = s.cache[area_id(area.buffer, s.occurrences(area.buffer))];
            moderate(area.left) && moderate(area.top) && moderate(cached.left) && moderate(cached.top)
        }),
    ensures
        ({
            let cached = s.cache[area_id(area.buffer, s.occurrences(area.buffer))];
            let plan = planned(s, f, atlas, area, runs).0.plans.last();
            &&& plan matches PlanModel::ReCull { dx, dy, left, top, .. } && {
                &&& leads_to(cached.left, dx, area.left)
                &&& leads_to(cached.top, dy, area.top)
                &&& left == area.left
                &&& top == area.top
            }
        }),
{
    let cached = s.cache[area_id(area.buffer, s.occurrences(area.buffer))];
    lemma_moderate_value(area.left);
    lemma_moderate_value(area.top);
    lemma_moderate_value(cached.left);
    lemma_moderate_value(cached.top);
    lemma_finite_difference(area.left, cached.left);
    lemma_finite_difference(area.top, cached.top);
    lemma_difference_error(area.left, cached.left);
    lemma_difference_error(area.top, cached.top);
}

}
