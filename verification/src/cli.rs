//! Checks and layouts behind the command-line front end: which progress events
//! a bar follows, scene input validation, polygon triangulation, the scene tree
//! and the binary glTF container.
use vstd::prelude::*;
use crate::scene::MeshBinding;

verus! {

/// Which kind of progress events a progress bar follows.
#[derive(Clone, Copy, Debug)]
pub enum CliProgressScope {
    Mesh,
    Scene,
}

/// The event scope that a bar of scope `scope` follows.
pub open spec fn followed_scope(scope: CliProgressScope) -> u32 {
    match scope {
        CliProgressScope::Mesh => crate::QEM_PROGRESS_SCOPE_MESH,
        CliProgressScope::Scene => crate::QEM_PROGRESS_SCOPE_SCENE,
    }
}

/// A bar of scope `scope` follows events of scope `event_scope`.
pub fn scope_matches(scope: CliProgressScope, event_scope: u32) -> (r: bool)
    ensures
        r == (event_scope == followed_scope(scope)),
{
    match scope {
        CliProgressScope::Mesh => event_scope == crate::QEM_PROGRESS_SCOPE_MESH,
        CliProgressScope::Scene => event_scope == crate::QEM_PROGRESS_SCOPE_SCENE,
    }
}

/// How a progress bar ends.
#[derive(Clone, Copy, Debug, PartialEq, Eq)]
pub enum BarFinish {
    /// The bar stays as it is.
    Keep,
    /// The bar is filled and marked done.
    Complete,
    /// The bar is left where it is and marked failed.
    Abandon,
}

/// What a progress bar does with one progress event.
#[derive(Clone, Copy, Debug, PartialEq, Eq)]
pub struct ProgressReaction {
    /// The event is for this bar: its position and message follow the event.
    pub follow: bool,
    /// The bar goes back to zero (the event opens a stage).
    pub reset: bool,
    /// How the bar ends on this event.
    pub finish: BarFinish,
    /// Whether the bar has ended after this event.
    pub finished: bool,
}

/// How a bar ends for a run that ended with `status`: complete on success,
/// abandoned otherwise.
pub open spec fn finish_for(status: i32) -> BarFinish {
    if status == crate::QEM_STATUS_SUCCESS {
        BarFinish::Complete
    } else {
        BarFinish::Abandon
    }
}

/// The reaction of a bar of scope `scope`, ended already when `finished`, to an
/// event of scope `event_scope` and stage `stage` reporting `status`: events of
/// another scope are ignored; a begin event resets the bar; an end event ends a
/// bar that has not ended yet, by the event's status.
pub open spec fn spec_progress_reaction(
    scope: CliProgressScope,
    finished: bool,
    event_scope: u32,
    stage: u32,
    status: i32,
) -> ProgressReaction {
    if event_scope != followed_scope(scope) {
        ProgressReaction { follow: false, reset: false, finish: BarFinish::Keep, finished }
    } else {
        ProgressReaction {
            follow: true,
            reset: stage == crate::QEM_PROGRESS_STAGE_BEGIN,
            finish: if stage == crate::QEM_PROGRESS_STAGE_END && !finished {
                finish_for(status)
            } else {
                BarFinish::Keep
            },
            finished: finished || stage == crate::QEM_PROGRESS_STAGE_END,
        }
    }
}

/// The reaction of a bar to one progress event (see `spec_progress_reaction`).
pub fn progress_reaction(scope: CliProgressScope, finished: bool, event_scope: u32, stage: u32, status: i32) -> (r:
    ProgressReaction)
    ensures
        r == spec_progress_reaction(scope, finished, event_scope, stage, status),
{
    if !scope_matches(scope, event_scope) {
        return ProgressReaction { follow: false, reset: false, finish: BarFinish::Keep, finished };
    }
    let reset = stage == crate::QEM_PROGRESS_STAGE_BEGIN;
    let end = stage == crate::QEM_PROGRESS_STAGE_END;
    let finish = if end && !finished {
        if status == crate::QEM_STATUS_SUCCESS {
            BarFinish::Complete
        } else {
            BarFinish::Abandon
        }
    } else {
        BarFinish::Keep
    };
    ProgressReaction { follow: true, reset, finish, finished: finished || end }
}

/// How a bar ends when its run returns `status`, ended already when `finished`,
/// and whether it has ended afterwards.
pub open spec fn spec_finish_reaction(finished: bool, status: i32) -> (BarFinish, bool) {
    (if finished {
        BarFinish::Keep
    } else {
        finish_for(status)
    }, true)
}

/// How a bar ends when its run returns (see `spec_finish_reaction`).
pub fn finish_reaction(finished: bool, status: i32) -> (r: (BarFinish, bool))
    ensures
        r == spec_finish_reaction(finished, status),
{
    if finished {
        (BarFinish::Keep, true)
    } else if status == crate::QEM_STATUS_SUCCESS {
        (BarFinish::Complete, true)
    } else {
        (BarFinish::Abandon, true)
    }
}

/// A bar ends at most once: once it has ended, no later event or finish ends it
/// again, and it stays ended.
pub proof fn lemma_bar_ends_once(scope: CliProgressScope, event_scope: u32, stage: u32, status: i32)
    ensures
        spec_progress_reaction(scope, true, event_scope, stage, status).finish == BarFinish::Keep,
        spec_progress_reaction(scope, true, event_scope, stage, status).finished,
        spec_finish_reaction(true, status).0 == BarFinish::Keep,
        spec_finish_reaction(true, status).1,
{
}

/// The first end event of the bar's own scope ends it: completed when the
/// status is success, abandoned otherwise.
pub proof fn lemma_end_event_finishes(scope: CliProgressScope, status: i32)
    ensures
        spec_progress_reaction(scope, false, followed_scope(scope), crate::QEM_PROGRESS_STAGE_END, status).finish
            == finish_for(status),
        finish_for(status) != BarFinish::Keep,
{
}

/// Display name of an importance weight mode.
pub fn weight_mode_name(weight_mode: u32) -> (r: &'static str)
    ensures
        weight_mode == 0 ==> r@ == "Uniform"@,
        weight_mode == 1 ==> r@ == "Volume"@,
        weight_mode == 2 ==> r@ == "Volume*Instances"@,
        weight_mode == 3 ==> r@ == "External"@,
        weight_mode > 3 ==> r@ == "Unknown"@,
{
    if weight_mode == 0 {
        "Uniform"
    } else if weight_mode == 1 {
        "Volume"
    } else if weight_mode == 2 {
        "Volume*Instances"
    } else if weight_mode == 3 {
        "External"
    } else {
        "Unknown"
    }
}

/// Array lengths of one loaded mesh: position floats, corner indices, material ids.
#[derive(Clone, Copy, Debug)]
pub struct MeshArrayLengths {
    pub vertices: usize,
    pub indices: usize,
    pub material_ids: usize,
}

/// The first problem found in a loaded scene.
#[allow(inconsistent_fields)]
#[derive(Clone, Copy, Debug, PartialEq, Eq)]
pub enum SceneInputError {
    InvalidVertices { mesh: usize, len: usize },
    InvalidIndices { mesh: usize, len: usize },
    MaterialCountMismatch { mesh: usize, material_ids: usize, triangles: usize },
    ParentOutOfRange { node: usize, parent: i32, num_nodes: usize },
    BindingNodeOutOfRange { binding: usize, node: u32, num_nodes: usize },
    BindingMeshOutOfRange { binding: usize, mesh: u32, num_meshes: usize },
}

/// The problem with mesh `i`, if any: positions must be a nonempty multiple of
/// three floats, indices a nonempty whole number of triangles, and there must be
/// one material id per triangle.
pub open spec fn mesh_problem(m: MeshArrayLengths, i: int) -> Option<SceneInputError> {
    if m.vertices == 0 || m.vertices % 3 != 0 {
        Some(SceneInputError::InvalidVertices { mesh: i as usize, len: m.vertices })
    } else if m.indices == 0 || m.indices % 3 != 0 {
        Some(SceneInputError::InvalidIndices { mesh: i as usize, len: m.indices })
    } else if m.material_ids != m.indices / 3 {
        Some(
            SceneInputError::MaterialCountMismatch {
                mesh: i as usize,
                material_ids: m.material_ids,
                triangles: m.indices / 3,
            },
        )
    } else {
        None
    }
}

/// The parent of a node is a root marker or an existing node.
pub open spec fn parent_ok(parent: i32, num_nodes: nat) -> bool {
    parent < 0 || parent < num_nodes
}

/// The problem with binding `j`, if any: its node, then its mesh, must exist.
pub open spec fn binding_problem(b: MeshBinding, j: int, num_nodes: nat, num_meshes: nat) -> Option<SceneInputError> {
    if b.node_index >= num_nodes {
        Some(SceneInputError::BindingNodeOutOfRange { binding: j as usize, node: b.node_index, num_nodes: num_nodes as usize })
    } else if b.mesh_index >= num_meshes {
        Some(SceneInputError::BindingMeshOutOfRange { binding: j as usize, mesh: b.mesh_index, num_meshes: num_meshes as usize })
    } else {
        None
    }
}

/// The first problem of a loaded scene, checking meshes, then node parents, then
/// bindings, each in order.
pub fn validate_scene_input(
    meshes: &[MeshArrayLengths],
    parents: &[i32],
    bindings: &[MeshBinding],
) -> (r: Result<(), SceneInputError>)
    ensures
        r is Ok <==> (forall|i: int| 0 <= i < meshes@.len() ==> #[trigger] mesh_problem(meshes@[i], i) is None)
            && (forall|i: int| 0 <= i < parents@.len() ==> #[trigger] parent_ok(parents@[i], parents@.len()))
            && (forall|j: int|
            0 <= j < bindings@.len() ==> #[trigger] binding_problem(bindings@[j], j, parents@.len(), meshes@.len())
                is None),
        r matches Err(e) ==> {
            ||| exists|i: int|
                0 <= i < meshes@.len() && #[trigger] mesh_problem(meshes@[i], i) == Some(e) && forall|k: int|
                    0 <= k < i ==> mesh_problem(meshes@[k], k) is None
            ||| (forall|k: int| 0 <= k < meshes@.len() ==> #[trigger] mesh_problem(meshes@[k], k) is None)
                && exists|i: int|
                0 <= i < parents@.len() && !#[trigger] parent_ok(parents@[i], parents@.len()) && e
                    == (SceneInputError::ParentOutOfRange {
                    node: i as usize,
                    parent: parents@[i],
                    num_nodes: parents@.len() as usize,
                }) && forall|k: int| 0 <= k < i ==> parent_ok(parents@[k], parents@.len())
            ||| (forall|k: int| 0 <= k < meshes@.len() ==> #[trigger] mesh_problem(meshes@[k], k) is None) && (
            forall|k: int| 0 <= k < parents@.len() ==> #[trigger] parent_ok(parents@[k], parents@.len()))
                && exists|j: int|
                0 <= j < bindings@.len() && #[trigger] binding_problem(
                    bindings@[j],
                    j,
                    parents@.len(),
                    meshes@.len(),
                ) == Some(e) && forall|k: int|
                    0 <= k < j ==> binding_problem(bindings@[k], k, parents@.len(), meshes@.len()) is None
        },
{
    let nm = meshes.len();
    let mut i: usize = 0;
    while i < nm
        invariant
            nm == meshes@.len(),
            i <= nm,
            forall|k: int| 0 <= k < i ==> #[trigger] mesh_problem(meshes@[k], k) is None,
        decreases nm - i,
    {
        let m = meshes[i];
        if m.vertices == 0 || m.vertices % 3 != 0 {
            assert(mesh_problem(meshes@[i as int], i as int) == Some(
                SceneInputError::InvalidVertices { mesh: i, len: m.vertices },
            ));
            return Err(SceneInputError::InvalidVertices { mesh: i, len: m.vertices });
        }
        if m.indices == 0 || m.indices % 3 != 0 {
            assert(mesh_problem(meshes@[i as int], i as int) == Some(
                SceneInputError::InvalidIndices { mesh: i, len: m.indices },
            ));
            return Err(SceneInputError::InvalidIndices { mesh: i, len: m.indices });
        }
        let triangles = m.indices / 3;
        if m.material_ids != triangles {
            let e = SceneInputError::MaterialCountMismatch { mesh: i, material_ids: m.material_ids, triangles };
            assert(mesh_problem(meshes@[i as int], i as int) == Some(e));
            return Err(e);
        }
        i = i + 1;
    }
    let nn = parents.len();
    let mut k: usize = 0;
    while k < nn
        invariant
            nn == parents@.len(),
            k <= nn,
            forall|q: int| 0 <= q < k ==> #[trigger] parent_ok(parents@[q], parents@.len()),
            forall|q: int| 0 <= q < meshes@.len() ==> #[trigger] mesh_problem(meshes@[q], q) is None,
        decreases nn - k,
    {
        let p = parents[k];
        if p >= 0 && p as usize >= nn {
            assert(!parent_ok(parents@[k as int], parents@.len()));
            return Err(SceneInputError::ParentOutOfRange { node: k, parent: p, num_nodes: nn });
        }
        k = k + 1;
    }
    let nb = bindings.len();
    let mut j: usize = 0;
    while j < nb
        invariant
            nb == bindings@.len(),
            nn == parents@.len(),
            nm == meshes@.len(),
            j <= nb,
            forall|q: int|
                0 <= q < j ==> #[trigger] binding_problem(bindings@[q], q, parents@.len(), meshes@.len()) is None,
            forall|q: int| 0 <= q < meshes@.len() ==> #[trigger] mesh_problem(meshes@[q], q) is None,
            forall|q: int| 0 <= q < parents@.len() ==> #[trigger] parent_ok(parents@[q], parents@.len()),
        decreases nb - j,
    {
        let b = bindings[j];
        if b.node_index as usize >= nn {
            let e = SceneInputError::BindingNodeOutOfRange { binding: j, node: b.node_index, num_nodes: nn };
            assert(binding_problem(bindings@[j as int], j as int, parents@.len(), meshes@.len()) == Some(e));
            return Err(e);
        }
        if b.mesh_index as usize >= nm {
            let e = SceneInputError::BindingMeshOutOfRange { binding: j, mesh: b.mesh_index, num_meshes: nm };
            assert(binding_problem(bindings@[j as int], j as int, parents@.len(), meshes@.len()) == Some(e));
            return Err(e);
        }
        j = j + 1;
    }
    Ok(())
}

/// At most this many samples of each kind are listed by the input diagnostics.
pub const DIAGNOSTIC_SAMPLES: usize = 8;

/// One listed problem of the nodes and bindings.
#[allow(inconsistent_fields)]
#[derive(Clone, Copy, Debug, PartialEq, Eq)]
pub enum NodeSample {
    /// A node whose parent index is out of range.
    Parent { node: usize, parent: i32 },
    /// A binding that names a missing node or a missing mesh.
    Binding { node: u32, mesh: u32 },
}

/// Counts of the problems in a loaded scene, with the first few of each kind.
pub struct SceneDiagnostics {
    pub invalid_meshes: usize,
    pub invalid_parents: usize,
    pub invalid_binding_nodes: usize,
    pub invalid_binding_meshes: usize,
    /// The first invalid meshes, by index.
    pub mesh_samples: Vec<usize>,
    /// The first bad parents, then the first bad bindings, together at most
    /// `DIAGNOSTIC_SAMPLES`.
    pub node_samples: Vec<NodeSample>,
}

/// The problems in `s` that `bad` marks: their number among the first `k`.
pub open spec fn count_upto<T>(s: Seq<T>, bad: spec_fn(T, int) -> bool, k: int) -> nat
    decreases k,
{
    if k <= 0 {
        0
    } else {
        count_upto(s, bad, k - 1) + if bad(s[k - 1], k - 1) {
            1nat
        } else {
            0nat
        }
    }
}

/// Mesh `i` is invalid.
pub open spec fn mesh_invalid(m: MeshArrayLengths, i: int) -> bool {
    mesh_problem(m, i) is Some
}

/// Binding `b` names a missing node.
pub open spec fn binding_node_missing(b: MeshBinding, num_nodes: nat) -> bool {
    b.node_index >= num_nodes
}

/// Binding `b` names a missing mesh.
pub open spec fn binding_mesh_missing(b: MeshBinding, num_meshes: nat) -> bool {
    b.mesh_index >= num_meshes
}

/// The invalid meshes among the first `k`, by index.
pub open spec fn invalid_meshes_upto(meshes: Seq<MeshArrayLengths>, k: int) -> Seq<usize>
    decreases k,
{
    if k <= 0 {
        Seq::empty()
    } else {
        invalid_meshes_upto(meshes, k - 1) + if mesh_invalid(meshes[k - 1], k - 1) {
            seq![(k - 1) as usize]
        } else {
            Seq::empty()
        }
    }
}

/// The bad parents among the first `k` nodes, then the bad bindings among the
/// first `j` bindings, in order.
pub open spec fn bad_parents_upto(parents: Seq<i32>, k: int) -> Seq<NodeSample>
    decreases k,
{
    if k <= 0 {
        Seq::empty()
    } else {
        bad_parents_upto(parents, k - 1) + if !parent_ok(parents[k - 1], parents.len()) {
            seq![NodeSample::Parent { node: (k - 1) as usize, parent: parents[k - 1] }]
        } else {
            Seq::empty()
        }
    }
}

/// The bindings among the first `j` that name a missing node or mesh, in order.
pub open spec fn bad_bindings_upto(bindings: Seq<MeshBinding>, num_nodes: nat, num_meshes: nat, j: int) -> Seq<
    NodeSample,
>
    decreases j,
{
    if j <= 0 {
        Seq::empty()
    } else {
        let b = bindings[j - 1];
        bad_bindings_upto(bindings, num_nodes, num_meshes, j - 1) + if binding_node_missing(b, num_nodes)
            || binding_mesh_missing(b, num_meshes) {
            seq![NodeSample::Binding { node: b.node_index, mesh: b.mesh_index }]
        } else {
            Seq::empty()
        }
    }
}

/// The first `n` entries of `s`, or all of them when there are fewer.
pub open spec fn first_n<T>(s: Seq<T>, n: int) -> Seq<T> {
    if s.len() <= n {
        s
    } else {
        s.subrange(0, n)
    }
}

proof fn lemma_count_le<T>(s: Seq<T>, bad: spec_fn(T, int) -> bool, k: int)
    requires
        k >= 0,
    ensures
        count_upto(s, bad, k) <= k,
    decreases k,
{
    if k > 0 {
        lemma_count_le(s, bad, k - 1);
    }
}

/// Counts the problems of a loaded scene (the ones `validate_scene_input`
/// reports first) and lists the first few of each kind.
pub fn scene_input_diagnostics(meshes: &[MeshArrayLengths], parents: &[i32], bindings: &[MeshBinding]) -> (r:
    SceneDiagnostics)
    ensures
        r.invalid_meshes == count_upto(meshes@, |m: MeshArrayLengths, i: int| mesh_invalid(m, i), meshes@.len() as int),
        r.invalid_parents == count_upto(
            parents@,
            |p: i32, i: int| !parent_ok(p, parents@.len()),
            parents@.len() as int,
        ),
        r.invalid_binding_nodes == count_upto(
            bindings@,
            |b: MeshBinding, i: int| binding_node_missing(b, parents@.len()),
            bindings@.len() as int,
        ),
        r.invalid_binding_meshes == count_upto(
            bindings@,
            |b: MeshBinding, i: int| binding_mesh_missing(b, meshes@.len()),
            bindings@.len() as int,
        ),
        r.mesh_samples@ == first_n(invalid_meshes_upto(meshes@, meshes@.len() as int), DIAGNOSTIC_SAMPLES as int),
        r.node_samples@ == first_n(
            bad_parents_upto(parents@, parents@.len() as int) + bad_bindings_upto(
                bindings@,
                parents@.len(),
                meshes@.len(),
                bindings@.len() as int,
            ),
            DIAGNOSTIC_SAMPLES as int,
        ),
{
    let ghost mesh_bad = |m: MeshArrayLengths, i: int| mesh_invalid(m, i);
    let mut invalid_meshes: usize = 0;
    let mut mesh_samples: Vec<usize> = Vec::new();
    let mut i: usize = 0;
    while i < meshes.len()
        invariant
            i <= meshes@.len(),
            mesh_bad == (|m: MeshArrayLengths, i: int| mesh_invalid(m, i)),
            invalid_meshes == count_upto(meshes@, mesh_bad, i as int),
            mesh_samples@ == first_n(invalid_meshes_upto(meshes@, i as int), DIAGNOSTIC_SAMPLES as int),
        decreases meshes@.len() - i,
    {
        proof {
            lemma_count_le(meshes@, mesh_bad, i as int);
        }
        let m = meshes[i];
        let problem = m.vertices == 0 || m.vertices % 3 != 0 || m.indices == 0 || m.indices % 3 != 0 || m.material_ids
            != m.indices / 3;
        assert(problem == mesh_invalid(meshes@[i as int], i as int));
        if problem {
            invalid_meshes = invalid_meshes + 1;
            if mesh_samples.len() < DIAGNOSTIC_SAMPLES {
                mesh_samples.push(i);
            }
        }
        proof {
            let all = invalid_meshes_upto(meshes@, i + 1);
            let prev = invalid_meshes_upto(meshes@, i as int);
            assert(all == prev + if problem {
                seq![i]
            } else {
                Seq::<usize>::empty()
            });
            if prev.len() >= DIAGNOSTIC_SAMPLES {
                assert(first_n(all, DIAGNOSTIC_SAMPLES as int) =~= first_n(prev, DIAGNOSTIC_SAMPLES as int));
            } else {
                assert(first_n(all, DIAGNOSTIC_SAMPLES as int) =~= mesh_samples@);
            }
        }
        i = i + 1;
    }

    let n = parents.len();
    let ghost parent_bad = |p: i32, i: int| !parent_ok(p, parents@.len());
    let mut invalid_parents: usize = 0;
    let mut node_samples: Vec<NodeSample> = Vec::new();
    let mut k: usize = 0;
    while k < n
        invariant
            n == parents@.len(),
            k <= n,
            parent_bad == (|p: i32, i: int| !parent_ok(p, parents@.len())),
            invalid_parents == count_upto(parents@, parent_bad, k as int),
            node_samples@ == first_n(bad_parents_upto(parents@, k as int), DIAGNOSTIC_SAMPLES as int),
        decreases n - k,
    {
        proof {
            lemma_count_le(parents@, parent_bad, k as int);
        }
        let p = parents[k];
        let bad = p >= 0 && (p as usize) >= n;
        if bad {
            invalid_parents = invalid_parents + 1;
            if node_samples.len() < DIAGNOSTIC_SAMPLES {
                node_samples.push(NodeSample::Parent { node: k, parent: p });
            }
        }
        proof {
            let all = bad_parents_upto(parents@, k + 1);
            let prev = bad_parents_upto(parents@, k as int);
            if prev.len() >= DIAGNOSTIC_SAMPLES {
                assert(first_n(all, DIAGNOSTIC_SAMPLES as int) =~= first_n(prev, DIAGNOSTIC_SAMPLES as int));
            } else {
                assert(first_n(all, DIAGNOSTIC_SAMPLES as int) =~= node_samples@);
            }
        }
        k = k + 1;
    }

    let nm = meshes.len();
    let ghost parent_part = bad_parents_upto(parents@, n as int);
    let ghost node_bad = |b: MeshBinding, i: int| binding_node_missing(b, parents@.len());
    let ghost mesh_ref_bad = |b: MeshBinding, i: int| binding_mesh_missing(b, meshes@.len());
    let mut invalid_binding_nodes: usize = 0;
    let mut invalid_binding_meshes: usize = 0;
    let mut j: usize = 0;
    while j < bindings.len()
        invariant
            n == parents@.len(),
            nm == meshes@.len(),
            j <= bindings@.len(),
            node_bad == (|b: MeshBinding, i: int| binding_node_missing(b, parents@.len())),
            mesh_ref_bad == (|b: MeshBinding, i: int| binding_mesh_missing(b, meshes@.len())),
            parent_part == bad_parents_upto(parents@, n as int),
            invalid_binding_nodes == count_upto(bindings@, node_bad, j as int),
            invalid_binding_meshes == count_upto(bindings@, mesh_ref_bad, j as int),
            node_samples@ == first_n(
                parent_part + bad_bindings_upto(bindings@, parents@.len(), meshes@.len(), j as int),
                DIAGNOSTIC_SAMPLES as int,
            ),
        decreases bindings@.len() - j,
    {
        proof {
            lemma_count_le(bindings@, node_bad, j as int);
            lemma_count_le(bindings@, mesh_ref_bad, j as int);
        }
        let b = bindings[j];
        let node_missing = b.node_index as usize >= n;
        let mesh_missing = b.mesh_index as usize >= nm;
        if node_missing {
            invalid_binding_nodes = invalid_binding_nodes + 1;
        }
        if mesh_missing {
            invalid_binding_meshes = invalid_binding_meshes + 1;
        }
        if (node_missing || mesh_missing) && node_samples.len() < DIAGNOSTIC_SAMPLES {
            node_samples.push(NodeSample::Binding { node: b.node_index, mesh: b.mesh_index });
        }
        proof {
            let all = parent_part + bad_bindings_upto(bindings@, parents@.len(), meshes@.len(), j + 1);
            let prev = parent_part + bad_bindings_upto(bindings@, parents@.len(), meshes@.len(), j as int);
            assert(all == prev + if node_missing || mesh_missing {
                seq![NodeSample::Binding { node: b.node_index, mesh: b.mesh_index }]
            } else {
                Seq::<NodeSample>::empty()
            }) by {
                assert(bad_bindings_upto(bindings@, parents@.len(), meshes@.len(), j + 1) == bad_bindings_upto(
                    bindings@,
                    parents@.len(),
                    meshes@.len(),
                    j as int,
                ) + if node_missing || mesh_missing {
                    seq![NodeSample::Binding { node: b.node_index, mesh: b.mesh_index }]
                } else {
                    Seq::<NodeSample>::empty()
                });
            }
            if prev.len() >= DIAGNOSTIC_SAMPLES {
                assert(first_n(all, DIAGNOSTIC_SAMPLES as int) =~= first_n(prev, DIAGNOSTIC_SAMPLES as int));
            } else {
                assert(first_n(all, DIAGNOSTIC_SAMPLES as int) =~= node_samples@);
            }
        }
        j = j + 1;
    }
    SceneDiagnostics {
        invalid_meshes,
        invalid_parents,
        invalid_binding_nodes,
        invalid_binding_meshes,
        mesh_samples,
        node_samples,
    }
}

/// A polygon of a loaded mesh: `count` corner indices starting at `begin`.
#[derive(Clone, Copy, Debug)]
pub struct FaceRange {
    pub begin: u32,
    pub count: u32,
}

/// The corner vertex indices of face `f`.
pub open spec fn face_corners(vertex_indices: Seq<u32>, f: FaceRange) -> Seq<u32> {
    vertex_indices.subrange(f.begin as int, f.begin + f.count)
}

/// Triangles of a fan over `corners` for its first `j` fan steps: triangle `k`
/// joins the first corner with corners `k + 1` and `k + 2`.
pub open spec fn fan(corners: Seq<u32>, j: int) -> Seq<u32>
    decreases j,
{
    if j <= 0 {
        Seq::empty()
    } else {
        fan(corners, j - 1) + seq![corners[0], corners[j], corners[j + 1]]
    }
}

/// Every corner of face `f` names an existing vertex.
pub open spec fn face_valid(vertex_indices: Seq<u32>, f: FaceRange, num_vertices: nat) -> bool {
    forall|k: int| 0 <= k < f.count ==> #[trigger] vertex_indices[f.begin + k] < num_vertices
}

/// Triangle corner indices that face `f` contributes: none for a face of fewer
/// than three corners or one naming a missing vertex, otherwise its fan.
pub open spec fn face_triangles(vertex_indices: Seq<u32>, f: FaceRange, num_vertices: nat) -> Seq<u32> {
    if f.count < 3 || !face_valid(vertex_indices, f, num_vertices) {
        Seq::empty()
    } else {
        fan(face_corners(vertex_indices, f), f.count - 2)
    }
}

/// Triangle corner indices of the first `n` faces.
pub open spec fn faces_triangles(vertex_indices: Seq<u32>, faces: Seq<FaceRange>, num_vertices: nat, n: int) -> Seq<u32>
    decreases n,
{
    if n <= 0 {
        Seq::empty()
    } else {
        faces_triangles(vertex_indices, faces, num_vertices, n - 1) + face_triangles(
            vertex_indices,
            faces[n - 1],
            num_vertices,
        )
    }
}

/// Number of faces among the first `n` with more than three corners, all valid.
pub open spec fn count_fanned(vertex_indices: Seq<u32>, faces: Seq<FaceRange>, num_vertices: nat, n: int) -> int
    decreases n,
{
    if n <= 0 {
        0
    } else {
        count_fanned(vertex_indices, faces, num_vertices, n - 1) + if faces[n - 1].count > 3 && face_valid(
            vertex_indices,
            faces[n - 1],
            num_vertices,
        ) {
            1int
        } else {
            0int
        }
    }
}

/// Number of faces among the first `n` with at least three corners and a missing vertex.
pub open spec fn count_invalid_faces(vertex_indices: Seq<u32>, faces: Seq<FaceRange>, num_vertices: nat, n: int) -> int
    decreases n,
{
    if n <= 0 {
        0
    } else {
        count_invalid_faces(vertex_indices, faces, num_vertices, n - 1) + if faces[n - 1].count >= 3
            && !face_valid(vertex_indices, faces[n - 1], num_vertices) {
            1int
        } else {
            0int
        }
    }
}

/// Law: the first `j` steps of a fan give `3 * j` indices, and triangle `k` of
/// them is the first corner followed by corners `k + 1` and `k + 2`.
pub proof fn lemma_fan_triangles(corners: Seq<u32>, j: int)
    requires
        0 <= j,
        j + 1 < corners.len(),
    ensures
        fan(corners, j).len() == 3 * j,
        forall|k: int|
            0 <= k < j ==> #[trigger] fan(corners, j)[3 * k] == corners[0] && fan(corners, j)[3 * k + 1] == corners[k
                + 1] && fan(corners, j)[3 * k + 2] == corners[k + 2],
    decreases j,
{
    if j > 0 {
        lemma_fan_triangles(corners, j - 1);
        let prev = fan(corners, j - 1);
        assert forall|k: int| 0 <= k < j implies #[trigger] fan(corners, j)[3 * k] == corners[0] && fan(corners, j)[3
            * k + 1] == corners[k + 1] && fan(corners, j)[3 * k + 2] == corners[k + 2] by {
            if k < j - 1 {
                assert(prev[3 * k] == corners[0]);
            }
        }
    }
}

/// Indices that a face contributes: `3 * (n - 2)` for a face of `n >= 3`
/// corners that all name existing vertices, none otherwise.
pub open spec fn face_index_count(vertex_indices: Seq<u32>, f: FaceRange, num_vertices: nat) -> int {
    if f.count >= 3 && face_valid(vertex_indices, f, num_vertices) {
        3 * (f.count - 2)
    } else {
        0
    }
}

/// Where the indices of face `n` begin: the indices of the faces before it.
pub open spec fn face_offset(vertex_indices: Seq<u32>, faces: Seq<FaceRange>, num_vertices: nat, n: int) -> int
    decreases n,
{
    if n <= 0 {
        0
    } else {
        face_offset(vertex_indices, faces, num_vertices, n - 1) + face_index_count(vertex_indices, faces[n - 1], num_vertices)
    }
}

/// Law: a face of `n >= 3` corners that names only existing vertices
/// contributes exactly `3 * (n - 2)` indices, triangle `k` of them being its
/// corners `0`, `k + 1` and `k + 2`; any other face contributes nothing.
pub proof fn lemma_face_triangles_shape(vertex_indices: Seq<u32>, f: FaceRange, num_vertices: nat)
    requires
        f.begin + f.count <= vertex_indices.len(),
    ensures
        face_triangles(vertex_indices, f, num_vertices).len() == face_index_count(vertex_indices, f, num_vertices),
        forall|k: int|
            0 <= k < face_index_count(vertex_indices, f, num_vertices) / 3 ==> #[trigger] face_triangles(
                vertex_indices,
                f,
                num_vertices,
            )[3 * k] == vertex_indices[f.begin as int] && face_triangles(vertex_indices, f, num_vertices)[3 * k + 1]
                == vertex_indices[f.begin + k + 1] && face_triangles(vertex_indices, f, num_vertices)[3 * k + 2]
                == vertex_indices[f.begin + k + 2],
{
    if f.count >= 3 && face_valid(vertex_indices, f, num_vertices) {
        let c = face_corners(vertex_indices, f);
        lemma_fan_triangles(c, f.count - 2);
        assert((3 * (f.count - 2)) / 3 == f.count - 2);
        assert forall|k: int| 0 <= k < f.count - 2 implies #[trigger] fan(c, f.count - 2)[3 * k] == vertex_indices[f.begin
            as int] && fan(c, f.count - 2)[3 * k + 1] == vertex_indices[f.begin + k + 1] && fan(c, f.count - 2)[3 * k
            + 2] == vertex_indices[f.begin + k + 2] by {
            assert(c[0] == vertex_indices[f.begin as int]);
            assert(c[k + 1] == vertex_indices[f.begin + k + 1]);
            assert(c[k + 2] == vertex_indices[f.begin + k + 2]);
        }
    }
}

/// Positions `o`, `o + 1`, `o + 2` of `t` hold triangle `k` of the fan of face
/// `f`: its corners `0`, `k + 1` and `k + 2`.
pub open spec fn fan_slot_ok(t: Seq<u32>, o: int, vertex_indices: Seq<u32>, f: FaceRange, k: int) -> bool {
    &&& 0 <= o
    &&& o + 2 < t.len()
    &&& t[o] == vertex_indices[f.begin as int]
    &&& t[o + 1] == vertex_indices[f.begin + k + 1]
    &&& t[o + 2] == vertex_indices[f.begin + k + 2]
}

/// Law: the triangulated indices of the first `n` faces are those faces'
/// contributions laid end to end: they number `face_offset(n)`, and face `i`'s
/// triangle `k` sits at `face_offset(i) + 3 * k` as its corners `0`, `k + 1`, `k + 2`.
pub proof fn lemma_faces_triangles_layout(
    vertex_indices: Seq<u32>,
    faces: Seq<FaceRange>,
    num_vertices: nat,
    n: int,
)
    requires
        0 <= n <= faces.len(),
        forall|i: int| 0 <= i < faces.len() ==> #[trigger] faces[i].begin + faces[i].count <= vertex_indices.len(),
    ensures
        faces_triangles(vertex_indices, faces, num_vertices, n).len() == face_offset(vertex_indices, faces, num_vertices, n),
        forall|i: int, k: int|
            0 <= i < n && 0 <= k < face_index_count(vertex_indices, faces[i], num_vertices) / 3 ==> #[trigger] fan_slot_ok(
                faces_triangles(vertex_indices, faces, num_vertices, n),
                face_offset(vertex_indices, faces, num_vertices, i) + 3 * k,
                vertex_indices,
                faces[i],
                k,
            ),
    decreases n,
{
    if n > 0 {
        lemma_faces_triangles_layout(vertex_indices, faces, num_vertices, n - 1);
        lemma_face_triangles_shape(vertex_indices, faces[n - 1], num_vertices);
        let prev = faces_triangles(vertex_indices, faces, num_vertices, n - 1);
        let last = face_triangles(vertex_indices, faces[n - 1], num_vertices);
        let t = faces_triangles(vertex_indices, faces, num_vertices, n);
        assert(t == prev + last);
        assert forall|i: int, k: int|
            0 <= i < n && 0 <= k < face_index_count(vertex_indices, faces[i], num_vertices) / 3 implies #[trigger] fan_slot_ok(
            t,
            face_offset(vertex_indices, faces, num_vertices, i) + 3 * k,
            vertex_indices,
            faces[i],
            k,
        ) by {
            let o = face_offset(vertex_indices, faces, num_vertices, i) + 3 * k;
            if i < n - 1 {
                lemma_face_offset_mono(vertex_indices, faces, num_vertices, i + 1, n - 1);
                lemma_face_index_count_bound(vertex_indices, faces[i], num_vertices);
                assert(fan_slot_ok(prev, o, vertex_indices, faces[i], k));
                assert(o + 2 < prev.len());
            } else {
                assert(last[3 * k] == vertex_indices[faces[i].begin as int]);
                lemma_face_index_count_bound(vertex_indices, faces[i], num_vertices);
            }
        }
    }
}

proof fn lemma_face_index_count_bound(vertex_indices: Seq<u32>, f: FaceRange, num_vertices: nat)
    ensures
        face_index_count(vertex_indices, f, num_vertices) >= 0,
        face_index_count(vertex_indices, f, num_vertices) % 3 == 0,
{
}

proof fn lemma_face_offset_mono(vertex_indices: Seq<u32>, faces: Seq<FaceRange>, num_vertices: nat, a: int, b: int)
    requires
        0 <= a <= b,
    ensures
        face_offset(vertex_indices, faces, num_vertices, a) <= face_offset(vertex_indices, faces, num_vertices, b),
    decreases b - a,
{
    if a < b {
        lemma_face_offset_mono(vertex_indices, faces, num_vertices, a, b - 1);
        lemma_face_index_count_bound(vertex_indices, faces[b - 1], num_vertices);
    }
}

/// Result of triangulating the polygons of a mesh.
pub struct Triangulation {
    pub indices: Vec<u32>,
    pub triangulated_faces: usize,
    pub skipped_invalid_faces: usize,
}

/// Triangulates polygons as fans around their first corner, dropping faces of
/// fewer than three corners and faces that name a missing vertex.
pub fn triangulate_faces(vertex_indices: &[u32], faces: &[FaceRange], num_vertices: usize) -> (r: Triangulation)
    requires
        forall|i: int| 0 <= i < faces@.len() ==> #[trigger] faces@[i].begin + faces@[i].count <= vertex_indices@.len(),
        faces@.len() < usize::MAX,
    ensures
        r.indices@ == faces_triangles(vertex_indices@, faces@, num_vertices as nat, faces@.len() as int),
        r.triangulated_faces == count_fanned(vertex_indices@, faces@, num_vertices as nat, faces@.len() as int),
        r.skipped_invalid_faces == count_invalid_faces(
            vertex_indices@,
            faces@,
            num_vertices as nat,
            faces@.len() as int,
        ),
        r.indices@.len() == face_offset(vertex_indices@, faces@, num_vertices as nat, faces@.len() as int),
        forall|i: int, k: int|
            0 <= i < faces@.len() && 0 <= k < face_index_count(vertex_indices@, faces@[i], num_vertices as nat) / 3
                ==> #[trigger] fan_slot_ok(
                r.indices@,
                face_offset(vertex_indices@, faces@, num_vertices as nat, i) + 3 * k,
                vertex_indices@,
                faces@[i],
                k,
            ),
{
    let mut indices: Vec<u32> = Vec::new();
    let mut triangulated: usize = 0;
    let mut skipped: usize = 0;
    let nf = faces.len();
    let mut fi: usize = 0;
    while fi < nf
        invariant
            nf == faces@.len(),
            nf < usize::MAX,
            fi <= nf,
            forall|i: int| 0 <= i < faces@.len() ==> #[trigger] faces@[i].begin + faces@[i].count <= vertex_indices@.len(),
            indices@ == faces_triangles(vertex_indices@, faces@, num_vertices as nat, fi as int),
            triangulated == count_fanned(vertex_indices@, faces@, num_vertices as nat, fi as int),
            skipped == count_invalid_faces(vertex_indices@, faces@, num_vertices as nat, fi as int),
            triangulated <= fi,
            skipped <= fi,
        decreases nf - fi,
    {
        let f = faces[fi];
        proof {
            lemma_counts_bounded(vertex_indices@, faces@, num_vertices as nat, fi as int);
        }
        if f.count >= 3 {
            let mut corners: Vec<u32> = Vec::new();
            let mut invalid = false;
            let mut j: u32 = 0;
            while j < f.count && !invalid
                invariant
                    fi < faces@.len(),
                    f == faces@[fi as int],
                    vertex_indices@.len() == vertex_indices.len(),
                    f.begin + f.count <= vertex_indices@.len(),
                    j <= f.count,
                    !invalid ==> corners@ == face_corners(vertex_indices@, f).subrange(0, j as int),
                    !invalid ==> forall|k: int| 0 <= k < j ==> #[trigger] vertex_indices@[f.begin + k] < num_vertices,
                    invalid ==> !face_valid(vertex_indices@, f, num_vertices as nat),
                decreases f.count - j + if invalid { 0int } else { 1int },
            {
                let raw = vertex_indices[f.begin as usize + j as usize];
                if raw as usize >= num_vertices {
                    invalid = true;
                } else {
                    corners.push(raw);
                    j = j + 1;
                }
            }
            let ghost before = indices@;
            if invalid {
                skipped = skipped + 1;
            } else {
                assert(corners@ =~= face_corners(vertex_indices@, f));
                let mut k: usize = 1;
                while k + 1 < corners.len()
                    invariant
                        corners@.len() == f.count,
                        f.count >= 3,
                        1 <= k <= corners@.len() - 1,
                        indices@ == before + fan(corners@, (k - 1) as int),
                    decreases corners@.len() - k,
                {
                    indices.push(corners[0]);
                    indices.push(corners[k]);
                    indices.push(corners[k + 1]);
                    assert(indices@ =~= before + fan(corners@, k as int));
                    k = k + 1;
                }
                if f.count > 3 {
                    triangulated = triangulated + 1;
                }
            }
        }
        proof {
            let fs = faces@;
            assert(fs[fi as int] == f);
            if f.count >= 3 && face_valid(vertex_indices@, f, num_vertices as nat) {
                assert(indices@ =~= faces_triangles(vertex_indices@, fs, num_vertices as nat, fi as int + 1));
            } else {
                assert(indices@ =~= faces_triangles(vertex_indices@, fs, num_vertices as nat, fi as int + 1));
            }
        }
        fi = fi + 1;
    }
    proof {
        lemma_faces_triangles_layout(vertex_indices@, faces@, num_vertices as nat, faces@.len() as int);
    }
    Triangulation { indices, triangulated_faces: triangulated, skipped_invalid_faces: skipped }
}

proof fn lemma_counts_bounded(vi: Seq<u32>, faces: Seq<FaceRange>, nv: nat, n: int)
    requires
        n >= 0,
    ensures
        0 <= count_fanned(vi, faces, nv, n) <= n,
        0 <= count_invalid_faces(vi, faces, nv, n) <= n,
    decreases n,
{
    if n > 0 {
        lemma_counts_bounded(vi, faces, nv, n - 1);
    }
}

} // verus!
