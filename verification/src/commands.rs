//! The commands that the user interface invokes and that need no file
//! access.
use crate::domain::{MergePlan, PreviewRequest, SupportedKind};
use crate::errors::AppError;
use crate::services::merger::{has_kind, total_size, MergerService};
use vstd::prelude::*;

verus! {

/// The merge plan of a queue; it never fails.
pub fn preview_merge_plan(request: PreviewRequest) -> (r: Result<MergePlan, AppError>)
    requires
        total_size(request.items@) <= u64::MAX,
    ensures
        r matches Ok(plan) && plan.total_items == request.items.len() && plan.total_bytes
            == total_size(request.items@) && plan.contains_images == has_kind(
            request.items@,
            SupportedKind::Image,
        ) && plan.contains_pdfs == has_kind(request.items@, SupportedKind::Pdf),
{
    let service = MergerService::default();
    Ok(service.preview_plan(request))
}

} // verus!
