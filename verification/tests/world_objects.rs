use rapier_bevy::world_objects::bench::{grid_cells, stacked_box_slots};
use rapier_bevy::world_objects::colliders::{merge_mesh_indices, merge_triangles, obj_source, ObjModel};
use rapier_bevy::world_objects::mesh::ring_triangle_indices;

#[test]
fn grid_cells_row_by_row() {
    assert_eq!(grid_cells(5, 2), vec![(0, 0), (1, 0), (0, 1), (1, 1), (0, 2)]);
    assert_eq!(grid_cells(0, 0), vec![]);
}

#[test]
fn stacked_slots_fill_cube() {
    assert_eq!(
        stacked_box_slots(5, 2),
        vec![(0, 0, 0), (0, 0, 1), (0, 1, 0), (0, 1, 1), (1, 0, 0)]
    );
    assert_eq!(stacked_box_slots(100, 2).len(), 8);
    assert_eq!(stacked_box_slots(3, 0), vec![]);
    let mut expected = Vec::new();
    'outer: for row in 0..3u32 {
        for col in 0..3u32 {
            for stack in 0..3u32 {
                if expected.len() >= 20 {
                    break 'outer;
                }
                expected.push((row, col, stack));
            }
        }
    }
    assert_eq!(stacked_box_slots(20, 3), expected);
}

#[test]
fn ring_indices_of_rounded_cylinder() {
    let n_radial = 48u32;
    let profile_len = 20u32;
    let mut expected: Vec<u32> = Vec::new();
    for i in 0..profile_len - 1 {
        for j in 0..n_radial {
            let jn = (j + 1) % n_radial;
            let a = i * n_radial + j;
            let b = (i + 1) * n_radial + j;
            let c = (i + 1) * n_radial + jn;
            let d = i * n_radial + jn;
            expected.extend_from_slice(&[a, b, c, a, c, d]);
        }
    }
    assert_eq!(ring_triangle_indices(profile_len, n_radial), expected);
    assert_eq!(ring_triangle_indices(2, 1), vec![0, 1, 1, 0, 1, 0]);
    assert_eq!(ring_triangle_indices(1, 5), vec![]);
}

fn model(name: &str, vertices: usize, indices: Vec<u32>) -> ObjModel {
    ObjModel { name: name.to_string(), position_count: vertices * 3, indices }
}

#[test]
fn obj_source_maps_chassis() {
    assert_eq!(obj_source("vehicle-racer-chassis"), ("vehicle-racer", Some("vehicle-racer")));
    assert_eq!(obj_source("wheel-medium"), ("wheel-medium", None));
}

#[test]
fn merge_indices_offsets_by_vertices() {
    let models = vec![
        model("body", 3, vec![0, 1, 2]),
        model("glass", 2, vec![0, 1]),
        model("body", 4, vec![3, 0]),
    ];
    assert_eq!(merge_mesh_indices(&models, None), Some(vec![0, 1, 2, 3, 4, 8, 5]));
    assert_eq!(merge_mesh_indices(&models, Some("body")), Some(vec![0, 1, 2, 6, 3]));
    assert_eq!(merge_mesh_indices(&models, Some("none")), Some(vec![]));
}

#[test]
fn merge_indices_overflow_is_none() {
    let models = vec![model("a", 3, vec![0]), model("b", 1, vec![u32::MAX - 1])];
    assert_eq!(merge_mesh_indices(&models, None), None);
    assert_eq!(merge_mesh_indices(&models, Some("b")), Some(vec![u32::MAX - 1]));
}

#[test]
fn merge_triangles_drops_incomplete() {
    let models = vec![
        model("a", 3, vec![0, 1, 2, 2]),
        model("b", 3, vec![2, 1, 0]),
    ];
    assert_eq!(merge_triangles(&models, None), Some(vec![(0, 1, 2), (5, 4, 3)]));
    assert_eq!(merge_triangles(&models, Some("b")), Some(vec![(2, 1, 0)]));
    let big = vec![model("a", 1, vec![1, 2, 3, u32::MAX]), model("b", 1, vec![u32::MAX, 0, 0])];
    // The last, incomplete triangle of `a` is never shifted; `b` overflows.
    assert_eq!(merge_triangles(&big, Some("a")), Some(vec![(1, 2, 3)]));
    assert_eq!(merge_triangles(&big, None), None);
}
