use streets::geom::{boxes_overlap_exec, segments_intersect_exec, BoundingBox, Coord};
use streets::output::render_geojson;
use streets::cluster::get_clusters;
use streets::store::{Node, ObjectStore, Segment, Way};
use streets::{get_streets, OutputExt, Street};

fn add_way(id: i64, name: &str, nodes: Vec<i64>, store: &mut ObjectStore) {
    let way = Way {
        id,
        name: Some(name.to_string()),
        nodes,
    };
    store.ways.push(way);
}

fn add_node(id: i64, lng: f64, lat: f64, store: &mut ObjectStore) {
    let decimicro_lat = lat as i32 * 10_000_000;
    let decimicro_lon = lng as i32 * 10_000_000;
    let node = Node {
        id,
        coord: Coord {
            x: decimicro_lon,
            y: decimicro_lat,
        },
    };
    store.nodes.push(node);
}

fn empty_store() -> ObjectStore {
    ObjectStore {
        nodes: Vec::new(),
        ways: Vec::new(),
    }
}

fn street_coordinates(street: &Street) -> Vec<Vec<(f64, f64)>> {
    street
        .segments
        .iter()
        .map(|segment| {
            segment
                .points
                .iter()
                .map(|c| (c.x as f64 / 1e7, c.y as f64 / 1e7))
                .collect()
        })
        .collect()
}

fn create_segment(id: i64, coordinates: Vec<(f64, f64)>) -> Segment {
    let points: Vec<Coord> = coordinates
        .into_iter()
        .map(|(x, y)| Coord {
            x: (x * 1e7) as i32,
            y: (y * 1e7) as i32,
        })
        .collect();
    Segment::from_points(id, points).unwrap()
}

#[test]
fn one_street_with_three_segments() {
    let mut objs = empty_store();
    add_node(1, 13., 52., &mut objs);
    add_node(2, 14., 52., &mut objs);
    add_node(3, 14., 53., &mut objs);
    add_node(4, 15., 53., &mut objs);

    let node_ids = vec![1, 2];
    add_way(42, "street a", node_ids, &mut objs);

    let node_ids = vec![2, 3];
    add_way(41, "street a", node_ids, &mut objs);

    let node_ids = vec![3, 4];
    add_way(43, "street a", node_ids, &mut objs);

    let streets = get_streets(&objs);
    assert_eq!(streets.len(), 1);

    let street = &streets[0];
    let nested_coordinates = street_coordinates(street);
    assert_eq!(nested_coordinates.len(), 3);
    let expected: Vec<Vec<(f64, f64)>> = vec![
        vec![(14.0, 53.0), (15.0, 53.0)],
        vec![(14.0, 52.0), (14.0, 53.0)],
        vec![(13.0, 52.0), (14.0, 52.0)],
    ];
    for polyline in &expected {
        assert!(nested_coordinates.contains(polyline));
    }
}

#[test]
fn connected_ways_with_distinct_names() {
    let mut objs = empty_store();
    add_node(1, 13., 52., &mut objs);
    add_node(2, 14., 52., &mut objs);
    add_node(3, 14., 53., &mut objs);

    let node_ids = vec![1, 2];
    add_way(42, "street a", node_ids, &mut objs);

    let node_ids = vec![2, 3];
    add_way(41, "street b", node_ids, &mut objs);

    let streets = get_streets(&objs);
    assert_eq!(streets.len(), 2);
}

#[test]
fn two_streets_with_one_segment_each() {
    let mut objs = empty_store();
    add_node(1, 13., 52., &mut objs);
    add_node(2, 14., 52., &mut objs);
    add_node(3, 14., 53., &mut objs);
    add_node(4, 15., 53., &mut objs);

    let node_ids = vec![1, 2];
    add_way(42, "street a", node_ids, &mut objs);

    let node_ids = vec![2, 3];
    add_way(41, "street b", node_ids, &mut objs);

    let streets = get_streets(&objs);
    assert_eq!(streets.len(), 2);
}

#[test]
fn cluster_unrelated() {
    let seg_1 = create_segment(42, vec![(0., 1.), (0., 3.)]);
    let seg_2 = create_segment(43, vec![(1., 1.), (1., 3.)]);
    let segments = vec![seg_1, seg_2];
    let clusters = get_clusters(segments);
    assert_eq!(clusters.len(), 2);
}

#[test]
fn cluster_crossing() {
    let seg_1 = create_segment(42, vec![(0., 1.), (3., 1.)]);
    let seg_2 = create_segment(43, vec![(2., 0.), (2., 3.)]);
    let segments = vec![seg_1, seg_2];
    let clusters = get_clusters(segments);
    assert_eq!(clusters.len(), 1);
    let cluster = &clusters[0];
    assert_eq!(cluster.len(), 2);
}

#[test]
fn cluster_touching() {
    let seg_1 = create_segment(42, vec![(0., 1.), (3., 1.)]);
    let seg_2 = create_segment(43, vec![(3., 1.), (2., 3.)]);
    let segments = vec![seg_1, seg_2];
    let clusters = get_clusters(segments);
    assert_eq!(clusters.len(), 1);
    let cluster = &clusters[0];
    assert_eq!(cluster.len(), 2);
}

#[test]
fn cluster_not_touching() {
    let seg_1 = create_segment(42, vec![(1., 1.), (3., 3.)]);
    let seg_2 = create_segment(43, vec![(2., 0.), (3., 2.)]);
    let segments = vec![seg_1, seg_2];
    let clusters = get_clusters(segments);
    assert_eq!(clusters.len(), 2);
}

#[test]
fn two_separate_streets_same_name() {
    let mut objs = empty_store();
    add_node(1, 13., 52., &mut objs);
    add_node(2, 14., 52., &mut objs);
    add_node(3, 20., 60., &mut objs);
    add_node(4, 21., 60., &mut objs);

    add_way(42, "street a", vec![1, 2], &mut objs);
    add_way(43, "street a", vec![3, 4], &mut objs);

    let streets = get_streets(&objs);
    assert_eq!(streets.len(), 2);
    assert_eq!(streets[0].segments.len(), 1);
    assert_eq!(streets[1].segments.len(), 1);
    assert_eq!(streets[0].name, "street a");
    assert_eq!(streets[1].name, "street a");
}

#[test]
fn overlapping_ways_with_distinct_names() {
    let mut objs = empty_store();
    add_node(1, 13., 52., &mut objs);
    add_node(2, 14., 52., &mut objs);

    add_way(42, "street a", vec![1, 2], &mut objs);
    add_way(43, "street b", vec![1, 2], &mut objs);

    let streets = get_streets(&objs);
    assert_eq!(streets.len(), 2);
    assert_eq!(streets[0].segments.len(), 1);
    assert_eq!(streets[1].segments.len(), 1);
    assert_ne!(streets[0].name, streets[1].name);
}

#[test]
fn way_with_no_resolvable_node_yields_no_street() {
    let mut objs = empty_store();
    add_node(1, 13., 52., &mut objs);
    add_node(2, 14., 52., &mut objs);

    add_way(42, "street a", vec![7, 8], &mut objs);
    add_way(43, "street b", vec![1, 2], &mut objs);

    let streets = get_streets(&objs);
    assert_eq!(streets.len(), 1);
    assert_eq!(streets[0].name, "street b");
}

#[test]
fn unnamed_ways_are_excluded() {
    let mut objs = empty_store();
    add_node(1, 13., 52., &mut objs);
    add_node(2, 14., 52., &mut objs);
    objs.ways.push(Way {
        id: 42,
        name: None,
        nodes: vec![1, 2],
    });
    objs.ways.push(Way {
        id: 43,
        name: Some(String::new()),
        nodes: vec![1, 2],
    });

    let streets = get_streets(&objs);
    assert_eq!(streets.len(), 0);
}

#[test]
fn segment_from_empty_polyline_fails() {
    assert!(Segment::from_points(42, Vec::new()).is_none());
    assert!(Segment::from_points(42, vec![Coord { x: 1, y: 2 }]).is_some());
}

#[test]
fn segments_touching_at_endpoint_intersect() {
    let p = Coord { x: 0, y: 0 };
    let q = Coord { x: 10, y: 0 };
    let r = Coord { x: 10, y: 0 };
    let s = Coord { x: 10, y: 10 };
    assert!(segments_intersect_exec(p, q, r, s));
}

#[test]
fn parallel_segments_do_not_intersect() {
    let p = Coord { x: 0, y: 0 };
    let q = Coord { x: 10, y: 0 };
    let r = Coord { x: 0, y: 5 };
    let s = Coord { x: 10, y: 5 };
    assert!(!segments_intersect_exec(p, q, r, s));
}

#[test]
fn collinear_overlapping_segments_intersect() {
    let p = Coord { x: 0, y: 0 };
    let q = Coord { x: 10, y: 0 };
    let r = Coord { x: 5, y: 0 };
    let s = Coord { x: 20, y: 0 };
    assert!(segments_intersect_exec(p, q, r, s));
}

#[test]
fn bounding_boxes_overlap_on_shared_edge() {
    let a = BoundingBox {
        min_x: 0,
        min_y: 0,
        max_x: 5,
        max_y: 5,
    };
    let b = BoundingBox {
        min_x: 5,
        min_y: 0,
        max_x: 9,
        max_y: 9,
    };
    let c = BoundingBox {
        min_x: 6,
        min_y: 0,
        max_x: 9,
        max_y: 9,
    };
    assert!(boxes_overlap_exec(&a, &b));
    assert!(!boxes_overlap_exec(&a, &c));
}

#[test]
fn render_geojson_exact_document() {
    let segment = create_segment(42, vec![(13.0, 52.0), (14.0, 53.0)]);
    let street = Street {
        name: "street a".to_string(),
        segments: vec![segment],
    };
    let streets = vec![street];
    let colors = vec![(0u8, 255u8, 16u8)];
    let rendered = render_geojson(&streets, &colors);
    let mut expected = String::new();
    expected.push_str("{\"type\":\"FeatureCollection\",\"features\":[");
    expected.push_str("{\"type\":\"Feature\",\"properties\":{\"name\":\"street a\",\"stroke\":\"#00FF10\"},");
    expected.push_str("\"geometry\":{\"type\":\"MultiLineString\",\"coordinates\":[");
    expected.push_str("[[13.0000000,52.0000000],[14.0000000,53.0000000]]");
    expected.push_str("]}}");
    expected.push_str("]}");
    assert_eq!(rendered, expected);
}

#[test]
fn to_geojson_drops_streets_without_geometry() {
    let long_segment = create_segment(42, vec![(13.0, 52.0), (14.0, 53.0)]);
    let short_segment = Segment::from_points(43, vec![Coord { x: 5, y: 5 }]).unwrap();
    let streets = vec![
        Street {
            name: "street a".to_string(),
            segments: vec![long_segment],
        },
        Street {
            name: "street b".to_string(),
            segments: vec![short_segment],
        },
    ];
    let rendered = streets.to_geojson();
    assert!(rendered.starts_with("{\"type\":\"FeatureCollection\",\"features\":["));
    assert!(rendered.contains("\"name\":\"street a\""));
    assert!(!rendered.contains("street b"));
    assert!(rendered.ends_with("]}"));
}

#[test]
fn negative_coordinates_render_signed() {
    let segment = create_segment(7, vec![(-0.5, -1.25), (1.0, 2.0)]);
    let street = Street {
        name: "s".to_string(),
        segments: vec![segment],
    };
    let streets = vec![street];
    let colors = vec![(255u8, 0u8, 171u8)];
    let rendered = render_geojson(&streets, &colors);
    assert!(rendered.contains("[-0.5000000,-1.2500000]"));
    assert!(rendered.contains("\"stroke\":\"#FF00AB\""));
}

#[test]
fn names_are_json_escaped() {
    let segment = create_segment(9, vec![(1.0, 1.0), (2.0, 2.0)]);
    let street = Street {
        name: "a \"b\" \\ c".to_string(),
        segments: vec![segment],
    };
    let streets = vec![street];
    let colors = vec![(1u8, 2u8, 3u8)];
    let rendered = render_geojson(&streets, &colors);
    assert!(rendered.contains("\"name\":\"a \\\"b\\\" \\\\ c\""));
}
