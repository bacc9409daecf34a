use tracer::layer::LayerInfo;
use tracer::layer_json_exporter::{
    build_coco, create_annotations, create_images, create_layer_info, parse_image_path,
    parse_usize,
};
use tracer::processor::ImageProcessor;
use tracer::vertex::{quad_ind, ring_ind, IndexBuffer, Vertex, VertexBuffer};

fn categories() -> Vec<(String, [u8; 4])> {
    vec![(String::from("road"), [255, 0, 0, 255]), (String::from("tree"), [0, 255, 0, 255])]
}

#[test]
fn image_path_is_split_into_its_parts() {
    let (file, name, id) = parse_image_path("data/set/img.0042.png").unwrap();
    assert_eq!(file, "img.0042.png");
    assert_eq!(name, "img.0042");
    assert_eq!(id, 42);
    let (file, name, id) = parse_image_path("17.jpg").unwrap();
    assert_eq!((file.as_str(), name.as_str(), id), ("17.jpg", "17", 17));
}

#[test]
fn image_path_without_number_or_extension_is_refused() {
    assert!(parse_image_path("data/img.png").is_none());
    assert!(parse_image_path("data/0042").is_none());
    assert!(parse_image_path("data/.png").is_none());
    assert!(parse_image_path("").is_none());
}

#[test]
fn numbers_are_read_as_usize_from_str_reads_them() {
    assert_eq!(parse_usize("0"), Some(0));
    assert_eq!(parse_usize("+42"), Some(42));
    assert_eq!(parse_usize("18446744073709551615"), Some(usize::MAX));
    assert_eq!(parse_usize("18446744073709551616"), None);
    assert_eq!(parse_usize("+"), None);
    assert_eq!(parse_usize(""), None);
    assert_eq!(parse_usize("-1"), None);
    assert_eq!(parse_usize("4a"), None);
    for s in ["7", "+9", "123456", "x", "99999999999999999999"] {
        assert_eq!(parse_usize(s), s.parse::<usize>().ok());
    }
}

#[test]
fn annotations_carry_box_area_and_outline() {
    let mut p = ImageProcessor::new("img.0003.png", (10, 20), &categories());
    p.set_active_category(1);
    for point in [(-2, -3), (2, -3), (2, 1)] {
        p.add_point(point);
    }
    let segments = p.create_segmentations();
    let annotations = create_annotations(3, &segments);
    assert_eq!(annotations.len(), 1);
    let a = &annotations[0];
    assert_eq!(a.id, 1);
    assert_eq!(a.iscrowd, 0);
    assert_eq!(a.image_id, 3);
    assert_eq!(a.category_id, 2);
    assert_eq!(a.segmentation, vec![3, 7, 7, 7, 7, 11]);
    assert_eq!(a.bbox, [3, 7, 4, 4]);
    assert_eq!(a.doubled_area, 16);
}

#[test]
fn coco_record_is_built_from_the_workspace() {
    let mut p = ImageProcessor::new("shots/frame.12.png", (8, 8), &categories());
    for point in [(0, 0), (2, 0), (2, 2), (0, 2)] {
        p.add_point(point);
    }
    let segments = p.create_segmentations();
    let types: Vec<LayerInfo> = p.layer_types().iter().map(|t| t.duplicate()).collect();
    let coco = build_coco("shots/frame.12.png", (8, 8), &segments, &types).unwrap();
    assert_eq!(coco.info.description, "my-project-name");
    assert_eq!(coco.images[0].id, 12);
    assert_eq!(coco.images[0].file_name, "frame.12.png");
    assert_eq!((coco.images[0].width, coco.images[0].height), (8, 8));
    assert_eq!(coco.annotations.len(), 1);
    assert_eq!(coco.annotations[0].image_id, 12);
    assert_eq!(coco.annotations[0].doubled_area, 8);
    assert_eq!(coco.categories.len(), 2);
    assert_eq!(coco.categories[1].id, 2);
    assert_eq!(coco.categories[1].name, "tree");
    assert!(build_coco("shots/frame.png", (8, 8), &segments, &types).is_none());
}

#[test]
fn image_and_category_records() {
    let img = create_images("a.1.png", 1, (640, 480));
    assert_eq!((img.id, img.width, img.height, img.file_name.as_str()), (1, 640, 480, "a.1.png"));
    let info = vec![LayerInfo { layer_type: String::from("sky"), color: [0, 0, 0, 0], id: 1 }];
    let cats = create_layer_info(&info);
    assert_eq!(cats.len(), 1);
    assert_eq!((cats[0].id, cats[0].name.as_str()), (1, "sky"));
}

#[test]
fn index_buffers() {
    let quad = IndexBuffer::<3>::quad();
    assert_eq!(quad.indices, vec![[0, 1, 3], [2, 3, 0]]);
    assert_eq!(quad.count(), 2);
    assert_eq!(quad.index_count(), 6);
    assert_eq!(quad.size(), 24);
    let ring = IndexBuffer::<3>::ring(2);
    assert_eq!(ring.indices, vec![[0, 1, 2], [2, 3, 0], [1, 2, 3], [3, 0, 1]]);
    let mut lines = IndexBuffer::<2>::new(vec![]);
    lines.add_point([4, 5]);
    assert_eq!(lines.indices, vec![[4, 5]]);
    assert_eq!(lines.index_count(), 2);
    assert_eq!(quad_ind(), vec![0, 1, 2, 2, 3, 0]);
    assert_eq!(ring_ind(2), vec![0, 1, 2, 1, 2, 3, 2, 3, 0, 3, 0, 1]);
}

#[derive(Clone, Copy)]
struct Point3(u32, u32, u32);

impl Vertex for Point3 {}

#[test]
fn vertex_buffer_size_is_in_bytes() {
    let buffer = VertexBuffer::new(vec![Point3(0, 0, 0), Point3(1, 1, 1)]);
    assert_eq!(buffer.size(), 24);
    assert_eq!(buffer.vertices.len(), 2);
    assert_eq!(buffer.vertices[1].0, 1);
    Point3::declare_layout();
    let _ = (buffer.vertices[0].1, buffer.vertices[0].2);
}
