//! Verified core of a quadric-error-metric mesh simplifier: hashing, spatial hash
//! chains, an indexed binary heap, a disjoint-set forest, triangle-corner arithmetic
//! and the integer budgeting rules of scene simplification.
pub mod cli;
pub mod glb;
pub mod hash;
pub mod scene;
pub mod scene_tree;
pub mod simplifier;
pub mod util;

use vstd::prelude::*;

verus! {

/// Version of the C interface; scene-graph callers require this value.
pub const QEM_ABI_VERSION: u32 = 7;

/// The call succeeded.
pub const QEM_STATUS_SUCCESS: i32 = 0;
/// An argument was missing or inconsistent.
pub const QEM_STATUS_INVALID_ARGUMENT: i32 = -1;
/// The simplifier failed while running.
pub const QEM_STATUS_PANIC: i32 = -2;
/// An output buffer was too small for the result.
pub const QEM_STATUS_INSUFFICIENT_BUFFER: i32 = -3;

/// Progress events of a single mesh simplification.
pub const QEM_PROGRESS_SCOPE_MESH: u32 = 0;
/// Progress events of a scene simplification.
pub const QEM_PROGRESS_SCOPE_SCENE: u32 = 1;
/// First event of a run.
pub const QEM_PROGRESS_STAGE_BEGIN: u32 = 0;
/// Intermediate event of a run.
pub const QEM_PROGRESS_STAGE_UPDATE: u32 = 1;
/// Last event of a run.
pub const QEM_PROGRESS_STAGE_END: u32 = 2;

/// Status of a call that writes `count` records into an optional buffer of
/// `capacity` records: a present buffer must hold them all, an absent one must
/// come with capacity `0`.
pub open spec fn spec_output_buffer_status(count: u32, has_buffer: bool, capacity: u32) -> i32 {
    if has_buffer {
        if capacity < count {
            QEM_STATUS_INSUFFICIENT_BUFFER
        } else {
            QEM_STATUS_SUCCESS
        }
    } else if capacity != 0 {
        QEM_STATUS_INVALID_ARGUMENT
    } else {
        QEM_STATUS_SUCCESS
    }
}

/// Status of a call that writes `count` records into an optional buffer.
pub fn output_buffer_status(count: u32, has_buffer: bool, capacity: u32) -> (r: i32)
    ensures
        r == spec_output_buffer_status(count, has_buffer, capacity),
{
    if has_buffer {
        if capacity < count {
            QEM_STATUS_INSUFFICIENT_BUFFER
        } else {
            QEM_STATUS_SUCCESS
        }
    } else if capacity != 0 {
        QEM_STATUS_INVALID_ARGUMENT
    } else {
        QEM_STATUS_SUCCESS
    }
}

/// Law: the two-phase buffer protocol works: probing without a buffer succeeds,
/// and a buffer sized to the probed count succeeds.
pub proof fn lemma_two_phase_buffer(count: u32, capacity: u32)
    ensures
        spec_output_buffer_status(count, false, 0) == QEM_STATUS_SUCCESS,
        capacity >= count ==> spec_output_buffer_status(count, true, capacity) == QEM_STATUS_SUCCESS,
        capacity < count ==> spec_output_buffer_status(count, true, capacity) == QEM_STATUS_INSUFFICIENT_BUFFER,
{
}

/// The arguments of a single-mesh simplification are usable: every array is
/// present, there are vertices and a nonempty whole number of triangles, and
/// attribute weights come with attributes.
pub open spec fn spec_simplify_arguments_valid(
    has_vertices: bool,
    has_indices: bool,
    has_material_ids: bool,
    num_vertices: u32,
    num_indices: u32,
    num_attributes: u32,
    has_attribute_weights: bool,
) -> bool {
    &&& has_vertices
    &&& has_indices
    &&& has_material_ids
    &&& num_vertices != 0
    &&& num_indices != 0
    &&& num_indices % 3 == 0
    &&& !(num_attributes > 0 && !has_attribute_weights)
}

/// Checks the arguments of a single-mesh simplification.
pub fn simplify_arguments_valid(
    has_vertices: bool,
    has_indices: bool,
    has_material_ids: bool,
    num_vertices: u32,
    num_indices: u32,
    num_attributes: u32,
    has_attribute_weights: bool,
) -> (r: bool)
    ensures
        r == spec_simplify_arguments_valid(
            has_vertices,
            has_indices,
            has_material_ids,
            num_vertices,
            num_indices,
            num_attributes,
            has_attribute_weights,
        ),
{
    !(!has_vertices || !has_indices || !has_material_ids || num_vertices == 0 || num_indices == 0
        || num_indices % 3 != 0 || (num_attributes > 0 && !has_attribute_weights))
}

} // verus!
