use tracer::bounded_rect::BoundingBox;
use tracer::geometry::{contains_triangle, Vec2};
use tracer::layer::{LayerInfo, UiLayer};
use tracer::processor::{EditorEvent, ImageProcessor};
use tracer::segmentation::{build_mask, Segmentation};
use tracer::triangulator::{get_triangle, triangulate};

fn categories() -> Vec<(String, [u8; 4])> {
    vec![
        (String::from("road"), [255, 0, 0, 255]),
        (String::from("tree"), [0, 0, 255, 255]),
    ]
}

fn workspace() -> ImageProcessor {
    ImageProcessor::new("images/scene.0007.png", (0, 0), &categories())
}

fn doubled_area_of(processor: &ImageProcessor, layer: usize) -> u128 {
    let segments = processor.create_segmentations();
    segments[layer].doubled_area()
}

#[test]
fn square_closes_with_two_triangles_of_area_sixteen() {
    let mut p = workspace();
    for point in [(0, 0), (4, 0), (4, 4), (0, 4)] {
        p.add_point(point);
    }
    p.select_existing_vertex(0);
    assert_eq!(p.layers().len(), 1);
    let layer = &p.layers()[0];
    assert!(layer.is_completed());
    assert!(p.selected_layer().is_none());
    assert_eq!(layer.triangles().len(), 2);
    assert_eq!(doubled_area_of(&p, 0), 32);
}

#[test]
fn two_points_give_no_triangles() {
    let mut p = workspace();
    p.add_point((0, 0));
    p.add_point((1, 1));
    assert_eq!(p.layers()[0].triangles().len(), 0);
    let mut triangles = vec![[9, 9, 9]];
    triangulate(&vec![(0, 0), (1, 1)], &vec![0, 1], &mut triangles);
    assert!(triangles.is_empty());
}

#[test]
fn bowtie_is_triangulated_partially() {
    let pool: Vec<(i16, i16)> = vec![(0, 0), (2, 2), (2, 0), (0, 2)];
    let mut triangles = Vec::new();
    triangulate(&pool, &vec![0, 1, 2, 3], &mut triangles);
    assert!(triangles.len() < 2);
}

#[test]
fn adding_then_selecting_the_same_point_closes_the_layer() {
    let mut p = workspace();
    p.add_point((5, 5));
    let index = p.vertices().len() - 1;
    p.select_existing_vertex(index);
    assert!(p.layers()[0].is_completed());
    assert!(p.selected_layer().is_none());
    assert_eq!(p.layers()[0].indices(), &vec![0]);
}

#[test]
fn selecting_the_last_point_of_an_open_layer_appends_it_again() {
    let mut p = workspace();
    p.add_point((0, 0));
    p.add_point((3, 0));
    p.select_existing_vertex(1);
    assert!(!p.layers()[0].is_completed());
    assert_eq!(p.layers()[0].indices(), &vec![0, 1, 1]);
}

#[test]
fn outline_round_trip_keeps_the_triangle_count() {
    let mut p = ImageProcessor::new("images/scene.0007.png", (20, 10), &categories());
    for point in [(0, 0), (6, 0), (6, 2), (2, 2), (2, 6), (0, 6)] {
        p.add_point(point);
    }
    let original = p.layers()[0].triangles().len();
    let segments = p.create_segmentations();
    let flat = segments[0].vertices();
    assert_eq!(flat[0], 10);
    assert_eq!(flat[1], 5);
    let pool: Vec<(i16, i16)> = flat.chunks(2).map(|c| (c[0] as i16, c[1] as i16)).collect();
    let indices: Vec<usize> = (0..pool.len()).collect();
    let mut again = Vec::new();
    triangulate(&pool, &indices, &mut again);
    assert_eq!(again.len(), original);
    assert_eq!(original, 4);
}

#[test]
fn concave_polygon_area_matches_shoelace() {
    let mut p = workspace();
    for point in [(0, 0), (6, 0), (6, 2), (2, 2), (2, 6), (0, 6)] {
        p.add_point(point);
    }
    assert_eq!(p.layers()[0].triangles().len(), 4);
    // The L shape covers 6 * 2 + 2 * 4 = 20 square units.
    assert_eq!(doubled_area_of(&p, 0), 40);
}

#[test]
fn convex_polygon_triangles_are_not_degenerate() {
    let pool: Vec<(i16, i16)> = vec![(0, 0), (5, -1), (8, 3), (4, 7), (-1, 4)];
    let mut triangles = Vec::new();
    triangulate(&pool, &vec![0, 1, 2, 3, 4], &mut triangles);
    assert_eq!(triangles.len(), 3);
    let points: Vec<Vec2> = pool.iter().map(|&(x, y)| Vec2::new(x as i64, y as i64)).collect();
    for t in &triangles {
        let (a, b, c) = (points[t[0]], points[t[1]], points[t[2]]);
        let cross = a.sub(b).cross(c.sub(b));
        assert_ne!(cross, 0);
    }
}

#[test]
fn first_ear_is_taken_in_scan_order() {
    let pool: Vec<(i16, i16)> = vec![(0, 0), (4, 0), (4, 4), (0, 4)];
    let mut triangles = Vec::new();
    triangulate(&pool, &vec![0, 1, 2, 3], &mut triangles);
    assert_eq!(triangles, vec![[3, 0, 1], [3, 1, 2]]);
}

#[test]
fn clockwise_square_is_triangulated_too() {
    let pool: Vec<(i16, i16)> = vec![(0, 0), (0, 4), (4, 4), (4, 0)];
    let mut triangles = Vec::new();
    triangulate(&pool, &vec![0, 1, 2, 3], &mut triangles);
    assert_eq!(triangles.len(), 2);
}

#[test]
fn later_layer_wins_in_the_mask() {
    let mut p = ImageProcessor::new("images/scene.0007.png", (0, 0), &categories());
    for point in [(0, 0), (6, 0), (6, 6), (0, 6)] {
        p.add_point(point);
    }
    p.select_existing_vertex(0);
    p.set_active_category(1);
    for point in [(3, 3), (9, 3), (9, 9), (3, 9)] {
        p.add_point(point);
    }
    p.select_existing_vertex(4);
    let segments = p.create_segmentations();
    assert_eq!(segments[0].color, [255, 0, 0]);
    assert_eq!(segments[1].color, [0, 0, 255]);
    let mask = build_mask((12, 12), &segments);
    assert_eq!(mask.len(), 12);
    assert_eq!(mask[0].len(), 12);
    // Pixel (4, 4) lies strictly inside both squares; row 12 - 1 - 4 holds y = 4.
    assert_eq!(mask[7][4], [0, 0, 255]);
    // Pixel (1, 2) lies inside the first square only.
    assert_eq!(mask[9][1], [255, 0, 0]);
    // Pixel (11, 11) lies in neither.
    assert_eq!(mask[0][11], [0, 0, 0]);
}

#[test]
fn snapshot_of_empty_workspace_is_empty() {
    let p = workspace();
    assert!(p.create_segmentations().is_empty());
    assert!(p.nodes().is_empty());
}

#[test]
fn category_out_of_range_creates_no_layer() {
    let mut p = workspace();
    p.set_active_category(5);
    p.add_point((1, 1));
    assert_eq!(p.vertices().len(), 1);
    assert!(p.layers().is_empty());
    assert!(p.nodes().is_empty());
    p.select_existing_vertex(0);
    assert!(p.layers().is_empty());
}

#[test]
fn selection_outside_the_pool_is_ignored() {
    let mut p = workspace();
    p.add_point((1, 1));
    p.select_existing_vertex(7);
    assert_eq!(p.layers()[0].indices(), &vec![0]);
    assert!(p.selected_layer().is_some());
}

#[test]
fn new_layer_uses_the_current_category() {
    let mut p = workspace();
    p.handle_event(EditorEvent::NewLayer(1));
    p.handle_event(EditorEvent::NewPoint((2, 2)));
    let layer = &p.layers()[0];
    assert_eq!(layer.layer_info().id, 2);
    assert_eq!(layer.layer_info().layer_type, "tree");
    assert_eq!(p.layer_types()[0].id, 1);
}

#[test]
fn active_points_follow_the_layers() {
    let mut p = workspace();
    p.set_active_category(5);
    p.add_point((1, 1));
    p.set_active_category(0);
    p.add_point((2, 2));
    p.add_point((3, 3));
    assert_eq!(p.nodes(), &vec![1, 2]);
    p.handle_event(EditorEvent::PointSelected(0));
    assert_eq!(p.nodes(), &vec![0, 1, 2]);
}

#[test]
fn shared_vertex_starts_a_second_layer() {
    let mut p = workspace();
    for point in [(0, 0), (4, 0), (4, 4)] {
        p.add_point(point);
    }
    p.select_existing_vertex(0);
    p.select_existing_vertex(2);
    assert_eq!(p.layers().len(), 2);
    assert_eq!(p.layers()[1].indices(), &vec![2]);
    assert_eq!(p.layers()[1].id(), 1);
}

#[test]
fn save_event_returns_snapshots() {
    let mut p = workspace();
    for point in [(0, 0), (4, 0), (0, 4)] {
        p.add_point(point);
    }
    let saved = p.handle_event(EditorEvent::Save).unwrap();
    assert_eq!(saved.len(), 1);
    assert_eq!(saved[0].type_id, 1);
    assert_eq!(saved[0].id, 0);
    assert_eq!(saved[0].vertices, vec![0, 0, 4, 0, 0, 4]);
    assert_eq!(saved[0].doubled_area(), 16);
    let b = saved[0].bounding_box();
    assert_eq!((b.left, b.top, b.right, b.bottom), (0, 0, 4, 4));
    assert!(p.handle_event(EditorEvent::NewPoint((1, 1))).is_none());
}

#[test]
fn empty_segmentation_box_is_the_empty_box() {
    let s = Segmentation { vertices: vec![], triangles: vec![], id: 0, type_id: 1, color: [0, 0, 0] };
    let b = s.bounding_box();
    assert_eq!(b.left, i64::MAX);
    assert_eq!(b.right, i64::MIN);
    assert_eq!(s.doubled_area(), 0);
}

#[test]
fn layer_hit_test_is_strict() {
    let pool: Vec<(i16, i16)> = vec![(0, 0), (4, 0), (0, 4)];
    let info = LayerInfo { layer_type: String::from("road"), color: [1, 2, 3, 4], id: 1 };
    let mut layer = UiLayer::new(0, info).ok().unwrap();
    layer.add_node(0);
    layer.add_node(1);
    layer.add_node(2);
    layer.update(&pool);
    assert!(layer.contains(&pool, (1, 1)));
    assert!(!layer.contains(&pool, (2, 2)));
    assert!(!layer.contains(&pool, (0, 0)));
    assert!(!layer.contains(&pool, (5, 5)));
    assert_eq!(layer.triangle_indices().len(), 3);
    layer.add_node(0);
    assert!(layer.is_completed());
    layer.add_node(1);
    assert_eq!(layer.indices(), &vec![0, 1, 2]);
}

#[test]
fn point_in_triangle_excludes_the_boundary() {
    let t = (Vec2::new(0, 0), Vec2::new(10, 0), Vec2::new(0, 10));
    assert!(contains_triangle(t, Vec2::new(2, 3)));
    assert!(!contains_triangle(t, Vec2::new(5, 5)));
    assert!(!contains_triangle(t, Vec2::new(5, 0)));
    assert!(!contains_triangle(t, Vec2::new(10, 0)));
    assert!(!contains_triangle(t, Vec2::new(-1, 3)));
    let reversed = (t.2, t.1, t.0);
    assert!(contains_triangle(reversed, Vec2::new(2, 3)));
}

#[test]
fn vector_operations() {
    let a = Vec2::new(3, 4);
    let b = Vec2::new(1, 2);
    assert_eq!(a.cross(b), 2);
    assert_eq!(a.dot(b), 11);
    assert_eq!(a.sub(b), Vec2::new(2, 2));
    assert_eq!(a.perp(), Vec2::new(-4, 3));
}

#[test]
fn corner_triangle_wraps_around() {
    let v = vec![10, 20, 30];
    assert_eq!(get_triangle(&v, 0), (30, 10, 20));
    assert_eq!(get_triangle(&v, 2), (20, 30, 10));
}

#[test]
fn bounding_box_operations() {
    let b = BoundingBox::from_quad((1, 2), (3, 4));
    assert_eq!(b, BoundingBox::new(1, 2, 4, 6));
    assert_eq!(b.width(), 3);
    assert_eq!(b.height(), 4);
    assert!(b.contains((2, 3)));
    assert!(!b.contains((1, 3)));
    assert!(!b.contains((4, 6)));
}

#[test]
fn base_file_name_drops_the_extension() {
    assert_eq!(ImageProcessor::extract_base_filename("a/b/img.0042.png"), Some(String::from("img.0042")));
    assert_eq!(ImageProcessor::extract_base_filename("photo.jpg"), Some(String::from("photo")));
    assert_eq!(ImageProcessor::extract_base_filename("dir/noext"), Some(String::new()));
}

#[test]
fn active_points_carry_their_coordinates() {
    let mut p = workspace();
    p.set_active_category(9);
    p.add_point((7, 7));
    p.set_active_category(0);
    p.add_point((1, 2));
    p.add_point((3, 4));
    assert_eq!(p.active_points(), vec![(1, (1, 2)), (2, (3, 4))]);
}
