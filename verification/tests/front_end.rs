use qem_simplifier::cli::{
    scope_matches, triangulate_faces, validate_scene_input, weight_mode_name, CliProgressScope, FaceRange,
    MeshArrayLengths, SceneInputError,
};
use qem_simplifier::glb::{glb_container, pack_scene_buffer, pack_u32_le, BufferSlices, MeshWords};
use qem_simplifier::scene::MeshBinding;
use qem_simplifier::scene_tree::{
    bound_meshes, node_mesh_assignment, scene_hierarchy, scene_preview_lines, PreviewLine, TreeBranch,
};
use qem_simplifier::simplifier::{compact_topology, corner_index_moved, is_duplicate_tri};
use qem_simplifier::hash::FHashTable;
use qem_simplifier::{
    output_buffer_status, simplify_arguments_valid, QEM_PROGRESS_SCOPE_MESH, QEM_PROGRESS_SCOPE_SCENE,
    QEM_STATUS_INSUFFICIENT_BUFFER, QEM_STATUS_INVALID_ARGUMENT, QEM_STATUS_SUCCESS,
};

use qem_simplifier::cli::{finish_reaction, progress_reaction, BarFinish, ProgressReaction};
use qem_simplifier::cli::{scene_input_diagnostics, NodeSample};
use qem_simplifier::hash::INVALID_INDEX;
use qem_simplifier::simplifier::{gather_corner, set_vert_index, WedgeVert, ADJ_TRI_MASK};
use qem_simplifier::util::disjoint_set::DisjointSet;
use qem_simplifier::util::order::{f32_from_order_key, f32_order_key, f64_order_key};
use qem_simplifier::{QEM_PROGRESS_STAGE_BEGIN, QEM_PROGRESS_STAGE_END, QEM_PROGRESS_STAGE_UPDATE};

fn line(node: usize, depth: usize, branch: TreeBranch) -> PreviewLine {
    PreviewLine { node, depth, branch }
}

#[test]
fn two_phase_buffer_protocol() {
    assert_eq!(output_buffer_status(5, false, 0), QEM_STATUS_SUCCESS);
    assert_eq!(output_buffer_status(5, false, 3), QEM_STATUS_INVALID_ARGUMENT);
    assert_eq!(output_buffer_status(5, true, 3), QEM_STATUS_INSUFFICIENT_BUFFER);
    assert_eq!(output_buffer_status(5, true, 5), QEM_STATUS_SUCCESS);
    assert_eq!(output_buffer_status(0, true, 0), QEM_STATUS_SUCCESS);
}

#[test]
fn simplify_arguments_checks() {
    assert!(simplify_arguments_valid(true, true, true, 3, 3, 0, false));
    assert!(!simplify_arguments_valid(true, true, true, 3, 4, 0, false));
    assert!(!simplify_arguments_valid(true, true, true, 0, 3, 0, false));
    assert!(!simplify_arguments_valid(true, false, true, 3, 3, 0, false));
    assert!(!simplify_arguments_valid(true, true, true, 3, 3, 2, false));
    assert!(simplify_arguments_valid(true, true, true, 3, 3, 2, true));
}

#[test]
fn weight_mode_names() {
    assert_eq!(weight_mode_name(0), "Uniform");
    assert_eq!(weight_mode_name(1), "Volume");
    assert_eq!(weight_mode_name(2), "Volume*Instances");
    assert_eq!(weight_mode_name(3), "External");
    assert_eq!(weight_mode_name(7), "Unknown");
}

#[test]
fn progress_scopes() {
    assert!(scope_matches(CliProgressScope::Mesh, QEM_PROGRESS_SCOPE_MESH));
    assert!(!scope_matches(CliProgressScope::Mesh, QEM_PROGRESS_SCOPE_SCENE));
    assert!(scope_matches(CliProgressScope::Scene, QEM_PROGRESS_SCOPE_SCENE));
}

#[test]
fn scene_input_validation() {
    let good = [MeshArrayLengths { vertices: 9, indices: 6, material_ids: 2 }];
    let bind = [MeshBinding { node_index: 1, mesh_index: 0 }];
    assert_eq!(validate_scene_input(&good, &[-1, 0], &bind), Ok(()));
    assert_eq!(
        validate_scene_input(&[MeshArrayLengths { vertices: 8, indices: 3, material_ids: 1 }], &[], &[]),
        Err(SceneInputError::InvalidVertices { mesh: 0, len: 8 })
    );
    assert_eq!(
        validate_scene_input(&[good[0], MeshArrayLengths { vertices: 9, indices: 0, material_ids: 0 }], &[], &[]),
        Err(SceneInputError::InvalidIndices { mesh: 1, len: 0 })
    );
    assert_eq!(
        validate_scene_input(&[MeshArrayLengths { vertices: 9, indices: 6, material_ids: 1 }], &[], &[]),
        Err(SceneInputError::MaterialCountMismatch { mesh: 0, material_ids: 1, triangles: 2 })
    );
    assert_eq!(
        validate_scene_input(&good, &[-1, 5], &bind),
        Err(SceneInputError::ParentOutOfRange { node: 1, parent: 5, num_nodes: 2 })
    );
    assert_eq!(
        validate_scene_input(&good, &[-1, 0], &[MeshBinding { node_index: 2, mesh_index: 0 }]),
        Err(SceneInputError::BindingNodeOutOfRange { binding: 0, node: 2, num_nodes: 2 })
    );
    assert_eq!(
        validate_scene_input(&good, &[-1, 0], &[bind[0], MeshBinding { node_index: 0, mesh_index: 3 }]),
        Err(SceneInputError::BindingMeshOutOfRange { binding: 1, mesh: 3, num_meshes: 1 })
    );
}

#[test]
fn polygons_are_fanned() {
    let vi = [0u32, 1, 2, 3, 4, 5, 6, 0, 9, 1, 2, 3];
    let faces = [
        FaceRange { begin: 0, count: 4 },
        FaceRange { begin: 4, count: 3 },
        FaceRange { begin: 7, count: 3 },
        FaceRange { begin: 10, count: 2 },
    ];
    let t = triangulate_faces(&vi, &faces, 8);
    assert_eq!(t.indices, vec![0, 1, 2, 0, 2, 3, 4, 5, 6]);
    assert_eq!(t.triangulated_faces, 1);
    assert_eq!(t.skipped_invalid_faces, 1);
    let pentagon = triangulate_faces(&[4, 3, 2, 1, 0], &[FaceRange { begin: 0, count: 5 }], 5);
    assert_eq!(pentagon.indices, vec![4, 3, 2, 4, 2, 1, 4, 1, 0]);
    assert_eq!(pentagon.triangulated_faces, 1);
}

#[test]
fn words_are_packed_little_endian() {
    assert_eq!(pack_u32_le(&[1, 0x0102_0304]), vec![1, 0, 0, 0, 4, 3, 2, 1]);
    assert_eq!(pack_u32_le(&[1.0f32.to_bits()]), 1.0f32.to_le_bytes().to_vec());
    assert!(pack_u32_le(&[]).is_empty());
}

#[test]
fn glb_container_layout() {
    let glb = glb_container(b"{}", &[1, 2, 3, 4]);
    let mut expected: Vec<u8> = Vec::new();
    expected.extend_from_slice(b"glTF");
    expected.extend_from_slice(&2u32.to_le_bytes());
    expected.extend_from_slice(&36u32.to_le_bytes());
    expected.extend_from_slice(&4u32.to_le_bytes());
    expected.extend_from_slice(b"JSON");
    expected.extend_from_slice(b"{}  ");
    expected.extend_from_slice(&4u32.to_le_bytes());
    expected.extend_from_slice(b"BIN\0");
    expected.extend_from_slice(&[1, 2, 3, 4]);
    assert_eq!(glb, expected);
    let aligned = glb_container(b"{ab}", &[]);
    assert_eq!(aligned.len(), 12 + 8 + 4 + 8);
    assert_eq!(&aligned[8..12], &32u32.to_le_bytes());
}

#[test]
fn scene_buffer_layout() {
    let meshes = [
        MeshWords { vertices: vec![1, 2, 3], indices: vec![0, 0, 0] },
        MeshWords { vertices: vec![], indices: vec![7] },
    ];
    let (buffer, slices) = pack_scene_buffer(&meshes);
    assert_eq!(buffer.len(), 28);
    assert_eq!(&buffer[24..28], &[7, 0, 0, 0]);
    assert_eq!(slices[0], BufferSlices { vertex_offset: 0, vertex_length: 12, index_offset: 12, index_length: 12 });
    assert_eq!(slices[1], BufferSlices { vertex_offset: 24, vertex_length: 0, index_offset: 24, index_length: 4 });
}

#[test]
fn hierarchy_groups_children() {
    let h = scene_hierarchy(&[-1, 0, 0, 7, 1]);
    assert_eq!(h.children, vec![vec![1, 2], vec![4], vec![], vec![], vec![]]);
    assert_eq!(h.roots, vec![0, 3]);
}

#[test]
fn exported_nodes_carry_last_valid_binding() {
    let b = [
        MeshBinding { node_index: 0, mesh_index: 1 },
        MeshBinding { node_index: 1, mesh_index: 2 },
        MeshBinding { node_index: 0, mesh_index: 3 },
        MeshBinding { node_index: 9, mesh_index: 0 },
        MeshBinding { node_index: 1, mesh_index: 8 },
    ];
    assert_eq!(node_mesh_assignment(&b, 3, 4), vec![Some(3), Some(2), None]);
    assert_eq!(bound_meshes(&b, 0), vec![1, 3]);
    assert_eq!(bound_meshes(&b, 1), vec![2, 8]);
    assert_eq!(bound_meshes(&b, 2), Vec::<u32>::new());
}

#[test]
fn preview_draws_depth_first() {
    let parents = [-1, 0, 0, 1];
    assert_eq!(
        scene_preview_lines(&parents, 0, 100),
        vec![
            line(0, 0, TreeBranch::Root),
            line(1, 1, TreeBranch::Branch),
            line(3, 2, TreeBranch::Last),
            line(2, 1, TreeBranch::Last),
        ]
    );
    assert_eq!(
        scene_preview_lines(&parents, 0, 2),
        vec![line(0, 0, TreeBranch::Root), line(1, 1, TreeBranch::Branch)]
    );
    assert!(scene_preview_lines(&[], 0, 10).is_empty());
}

#[test]
fn preview_covers_cycles_and_requested_root() {
    assert_eq!(
        scene_preview_lines(&[1, 0, -1], -1, 10),
        vec![line(2, 0, TreeBranch::Root), line(0, 0, TreeBranch::Root), line(1, 1, TreeBranch::Last)]
    );
    assert_eq!(
        scene_preview_lines(&[1, 0, -1], 1, 10),
        vec![line(1, 0, TreeBranch::Root), line(0, 1, TreeBranch::Last), line(2, 0, TreeBranch::Root)]
    );
    assert_eq!(
        scene_preview_lines(&[1, 0], -1, 10),
        vec![line(0, 0, TreeBranch::Root), line(1, 1, TreeBranch::Last)]
    );
}

#[test]
fn moved_corner_is_found() {
    let flags = [1u8, 0, 0, 0, 0, 0, 2, 3, 0, 4, 0, 8];
    assert_eq!(corner_index_moved(&flags, 0), 0);
    assert_eq!(corner_index_moved(&flags, 1), 3);
    assert_eq!(corner_index_moved(&flags, 2), 4);
    assert_eq!(corner_index_moved(&flags, 3), 3);
}

#[test]
fn duplicate_triangles_are_detected() {
    let indexes = [0u32, 1, 2, 1, 2, 0, 0, 1, 2];
    let mut corners = FHashTable::new(16, 9);
    for c in 0..9u32 {
        corners.add(indexes[c as usize], c);
    }
    assert!(is_duplicate_tri(&corners, &indexes, 0, indexes[0]));
    assert!(is_duplicate_tri(&corners, &indexes, 1, indexes[3]));

    let flipped = [0u32, 1, 2, 0, 2, 1];
    let mut corners = FHashTable::new(16, 6);
    for c in 0..6u32 {
        corners.add(flipped[c as usize], c);
    }
    assert!(!is_duplicate_tri(&corners, &flipped, 0, flipped[0]));
    assert!(!is_duplicate_tri(&corners, &flipped, 1, flipped[3]));
}

#[test]
fn compaction_renumbers_vertices_and_keeps_triangle_order() {
    let mut indexes = vec![0u32, 2, 3, 1, 1, 1, 3, 2, 0];
    let mut materials = vec![5i32, 6, 7];
    let remap = compact_topology(&[1, 0, 2, 1], &[false, true, false], &mut indexes, &mut materials);
    assert_eq!(remap, vec![0, 0, 1, 2]);
    assert_eq!(indexes, vec![0, 1, 2, 2, 1, 0, 3, 2, 0]);
    assert_eq!(materials, vec![5, 7, 7]);
}

#[test]
fn progress_events_drive_the_bar() {
    let ignored = progress_reaction(CliProgressScope::Mesh, false, QEM_PROGRESS_SCOPE_SCENE, QEM_PROGRESS_STAGE_END, 0);
    assert_eq!(ignored, ProgressReaction { follow: false, reset: false, finish: BarFinish::Keep, finished: false });
    let begin = progress_reaction(CliProgressScope::Scene, false, QEM_PROGRESS_SCOPE_SCENE, QEM_PROGRESS_STAGE_BEGIN, 0);
    assert_eq!(begin, ProgressReaction { follow: true, reset: true, finish: BarFinish::Keep, finished: false });
    let update = progress_reaction(CliProgressScope::Scene, false, QEM_PROGRESS_SCOPE_SCENE, QEM_PROGRESS_STAGE_UPDATE, 0);
    assert_eq!(update, ProgressReaction { follow: true, reset: false, finish: BarFinish::Keep, finished: false });
    let end = progress_reaction(CliProgressScope::Mesh, false, QEM_PROGRESS_SCOPE_MESH, QEM_PROGRESS_STAGE_END, QEM_STATUS_SUCCESS);
    assert_eq!(end, ProgressReaction { follow: true, reset: false, finish: BarFinish::Complete, finished: true });
    let failed = progress_reaction(CliProgressScope::Mesh, false, QEM_PROGRESS_SCOPE_MESH, QEM_PROGRESS_STAGE_END, QEM_STATUS_INVALID_ARGUMENT);
    assert_eq!(failed.finish, BarFinish::Abandon);
    let again = progress_reaction(CliProgressScope::Mesh, true, QEM_PROGRESS_SCOPE_MESH, QEM_PROGRESS_STAGE_END, QEM_STATUS_SUCCESS);
    assert_eq!(again.finish, BarFinish::Keep);
    assert!(again.finished);
    assert_eq!(finish_reaction(false, QEM_STATUS_SUCCESS), (BarFinish::Complete, true));
    assert_eq!(finish_reaction(false, QEM_STATUS_INVALID_ARGUMENT), (BarFinish::Abandon, true));
    assert_eq!(finish_reaction(true, QEM_STATUS_SUCCESS), (BarFinish::Keep, true));
}

#[test]
fn corner_reassignment_moves_references() {
    let mut indexes = vec![0u32, 1, 2, 0, 2, 3];
    let mut refs = vec![2u32, 1, 2, 1];
    let mut vert_hash = FHashTable::new(4, 4);
    for v in 0..4u32 {
        vert_hash.add(100 + v, v);
    }
    let mut remaining = 4u32;

    set_vert_index(&mut indexes, &mut refs, &mut vert_hash, &mut remaining, 1, 3, 101);
    assert_eq!(indexes, vec![0, 3, 2, 0, 2, 3]);
    assert_eq!(refs, vec![2, 0, 2, 2]);
    assert_eq!(remaining, 3);
    assert_eq!(vert_hash.first(101), INVALID_INDEX);

    set_vert_index(&mut indexes, &mut refs, &mut vert_hash, &mut remaining, 0, INVALID_INDEX, 100);
    assert_eq!(indexes[0], INVALID_INDEX);
    assert_eq!(refs, vec![1, 0, 2, 2]);
    assert_eq!(remaining, 3);
    assert_eq!(vert_hash.first(100), 0);

    set_vert_index(&mut indexes, &mut refs, &mut vert_hash, &mut remaining, 2, 2, 102);
    assert_eq!(refs, vec![1, 0, 2, 2]);
    assert_eq!(remaining, 3);
}

#[test]
fn scene_diagnostics_count_and_sample_problems() {
    let meshes = [
        MeshArrayLengths { vertices: 9, indices: 6, material_ids: 2 },
        MeshArrayLengths { vertices: 8, indices: 6, material_ids: 2 },
        MeshArrayLengths { vertices: 9, indices: 6, material_ids: 1 },
    ];
    let parents = [-1, 7, 0, 9];
    let bindings = [
        MeshBinding { node_index: 0, mesh_index: 0 },
        MeshBinding { node_index: 4, mesh_index: 5 },
        MeshBinding { node_index: 2, mesh_index: 3 },
    ];
    let d = scene_input_diagnostics(&meshes, &parents, &bindings);
    assert_eq!(d.invalid_meshes, 2);
    assert_eq!(d.mesh_samples, vec![1, 2]);
    assert_eq!(d.invalid_parents, 2);
    assert_eq!(d.invalid_binding_nodes, 1);
    assert_eq!(d.invalid_binding_meshes, 2);
    assert_eq!(
        d.node_samples,
        vec![
            NodeSample::Parent { node: 1, parent: 7 },
            NodeSample::Parent { node: 3, parent: 9 },
            NodeSample::Binding { node: 4, mesh: 5 },
            NodeSample::Binding { node: 2, mesh: 3 },
        ]
    );
}

#[test]
fn scene_diagnostics_keep_at_most_eight_samples() {
    let meshes: Vec<MeshArrayLengths> = (0..12).map(|_| MeshArrayLengths { vertices: 1, indices: 3, material_ids: 1 }).collect();
    let parents: Vec<i32> = vec![50; 10];
    let d = scene_input_diagnostics(&meshes, &parents, &[]);
    assert_eq!(d.invalid_meshes, 12);
    assert_eq!(d.mesh_samples, (0..8).collect::<Vec<usize>>());
    assert_eq!(d.invalid_parents, 10);
    assert_eq!(d.node_samples.len(), 8);
}

#[test]
fn float_sort_keys_follow_float_order() {
    let values = [f32::NEG_INFINITY, -3.5, -1.0, -0.0, 0.0, 1e-30, 1.0, 2.5, f32::INFINITY];
    for w in values.windows(2) {
        assert!(f32_order_key(w[0].to_bits()) < f32_order_key(w[1].to_bits()));
    }
    for v in values {
        assert_eq!(f32_from_order_key(f32_order_key(v.to_bits())), v.to_bits());
    }
    let doubles = [-2.0f64, -0.5, 0.0, 0.25, 0.75, 3.0];
    for w in doubles.windows(2) {
        assert!(f64_order_key(w[0].to_bits()) < f64_order_key(w[1].to_bits()));
    }
}

#[test]
fn gathering_corners_builds_adjacency_and_wedges() {
    let indexes = [0u32, 1, 2, 0, 3, 4];
    let mut flags = [0u8; 6];
    let mut adj_tris: Vec<u32> = Vec::new();
    let mut set = DisjointSet::new(0);
    let mut wedges: Vec<WedgeVert> = Vec::new();

    let g = gather_corner(0, 0, &indexes, &mut flags, &mut adj_tris, &mut set, &mut wedges);
    assert_eq!((g.flags, g.adj_tri_index, g.new_tri), (1, 0, true));
    assert!(g.wedge.is_none());
    assert_eq!(flags[0], 1 | ADJ_TRI_MASK);

    let g = gather_corner(3, 0, &indexes, &mut flags, &mut adj_tris, &mut set, &mut wedges);
    assert_eq!((g.flags, g.adj_tri_index, g.new_tri, g.wedge), (1, 1, true, Some(0)));
    assert_eq!(set.parents, vec![0, 0]);

    let g = gather_corner(1, 1, &indexes, &mut flags, &mut adj_tris, &mut set, &mut wedges);
    assert_eq!((g.flags, g.adj_tri_index, g.new_tri), (2, 0, false));
    assert!(g.wedge.is_none());
    assert_eq!(flags, [5, 2, 0, 5, 0, 0]);
    assert_eq!(adj_tris, vec![0, 1]);
    assert_eq!(wedges.len(), 2);
    assert_eq!((wedges[1].vert_index, wedges[1].adj_tri_index), (1, 0));
    assert_eq!(set.find(1), 0);
}
