use geozero::{process_geom, Coordinate, Dims, GeoJsonEmitter, GeomError, Geometry};
use geozero::{LimitedSink, Multiplexer, ProcessorSink};

fn xy(x: &str, y: &str) -> Coordinate {
    Coordinate::xy(x, y)
}

#[test]
fn polygon_two_rings_renders_exactly() {
    let exterior = vec![xy("0", "0"), xy("1", "0"), xy("1", "1"), xy("0", "0")];
    let interior = vec![
        xy("0.2", "0.2"),
        xy("0.8", "0.2"),
        xy("0.8", "0.8"),
        xy("0.2", "0.2"),
    ];
    let geom = Geometry::Polygon(vec![exterior, interior]);
    let mut em = GeoJsonEmitter::new();
    let r = process_geom(&geom, Dims::Xy, &mut em);
    assert!(r.is_ok());
    assert_eq!(
        em.out,
        "{\"type\": \"Polygon\", \"coordinates\": [[[0,0],[1,0],[1,1],[0,0]],[[0.2,0.2],[0.8,0.2],[0.8,0.8],[0.2,0.2]]]}"
    );
}

#[test]
fn multipoint_three_points_renders_exactly() {
    let geom = Geometry::MultiPoint(vec![xy("1", "1"), xy("2", "2"), xy("3", "3")]);
    let mut em = GeoJsonEmitter::new();
    let r = process_geom(&geom, Dims::Xy, &mut em);
    assert!(r.is_ok());
    assert_eq!(
        em.out,
        "{\"type\": \"MultiPoint\", \"coordinates\": [[1,1],[2,2],[3,3]]}"
    );
}

#[test]
fn point_renders_exactly() {
    let geom = Geometry::Point(xy("10", "20"));
    let mut em = GeoJsonEmitter::new();
    let r = process_geom(&geom, Dims::Xy, &mut em);
    assert!(r.is_ok());
    assert_eq!(em.out, "{\"type\": \"Point\", \"coordinates\": [10,20]}");
}

#[test]
fn point_xyz_renders_all_components() {
    let geom = Geometry::Point(Coordinate::xyz("1", "2", "3"));
    let mut em = GeoJsonEmitter::new();
    let r = process_geom(&geom, Dims::Xyz, &mut em);
    assert!(r.is_ok());
    assert_eq!(em.out, "{\"type\": \"Point\", \"coordinates\": [1,2,3]}");
}

#[test]
fn linestring_renders_exactly() {
    let geom = Geometry::LineString(vec![xy("0", "0"), xy("5", "5")]);
    let mut em = GeoJsonEmitter::new();
    let r = process_geom(&geom, Dims::Xy, &mut em);
    assert!(r.is_ok());
    assert_eq!(
        em.out,
        "{\"type\": \"LineString\", \"coordinates\": [[0,0],[5,5]]}"
    );
}

#[test]
fn multipolygon_renders_exactly() {
    let poly1 = vec![vec![xy("0", "0"), xy("1", "0"), xy("0", "1"), xy("0", "0")]];
    let poly2 = vec![vec![xy("2", "2"), xy("3", "2"), xy("2", "3"), xy("2", "2")]];
    let geom = Geometry::MultiPolygon(vec![poly1, poly2]);
    let mut em = GeoJsonEmitter::new();
    let r = process_geom(&geom, Dims::Xy, &mut em);
    assert!(r.is_ok());
    assert_eq!(
        em.out,
        "{\"type\": \"MultiPolygon\", \"coordinates\": [[[[0,0],[1,0],[0,1],[0,0]]],[[[2,2],[3,2],[2,3],[2,2]]]]}"
    );
}

#[test]
fn empty_multipoint_renders_empty_list() {
    let geom = Geometry::MultiPoint(vec![]);
    let mut em = GeoJsonEmitter::new();
    let r = process_geom(&geom, Dims::Xy, &mut em);
    assert!(r.is_ok());
    assert_eq!(em.out, "{\"type\": \"MultiPoint\", \"coordinates\": []}");
}

#[test]
fn empty_polygon_renders_empty_list() {
    let geom = Geometry::Polygon(vec![]);
    let mut em = GeoJsonEmitter::new();
    let r = process_geom(&geom, Dims::Xy, &mut em);
    assert!(r.is_ok());
    assert_eq!(em.out, "{\"type\": \"Polygon\", \"coordinates\": []}");
}

#[test]
fn sink_accepts_every_kind() {
    let geoms = vec![
        Geometry::Point(xy("0", "0")),
        Geometry::MultiPoint(vec![xy("1", "1")]),
        Geometry::LineString(vec![xy("0", "0"), xy("1", "1")]),
        Geometry::MultiLineString(vec![vec![xy("0", "0"), xy("1", "1")]]),
        Geometry::Polygon(vec![vec![xy("0", "0")]]),
        Geometry::MultiPolygon(vec![vec![vec![xy("0", "0")]]]),
    ];
    for geom in &geoms {
        let mut sink = ProcessorSink::new();
        assert!(process_geom(geom, Dims::Xy, &mut sink).is_ok());
    }
}

#[test]
fn rendering_is_idempotent_across_fresh_instances() {
    let geom = Geometry::Polygon(vec![
        vec![xy("0", "0"), xy("4", "0"), xy("4", "4"), xy("0", "0")],
        vec![xy("1", "1"), xy("2", "1"), xy("1", "2"), xy("1", "1")],
    ]);
    let mut first = GeoJsonEmitter::new();
    let mut second = GeoJsonEmitter::new();
    assert!(process_geom(&geom, Dims::Xy, &mut first).is_ok());
    assert!(process_geom(&geom, Dims::Xy, &mut second).is_ok());
    assert_eq!(first.out, second.out);
}

#[test]
fn limited_sink_fails_after_its_quota() {
    let geom = Geometry::Point(xy("0", "0"));
    let mut sink = LimitedSink::new(0);
    let r = process_geom(&geom, Dims::Xy, &mut sink);
    assert_eq!(r, Err(GeomError::Encoding));
}

#[test]
fn multiplexer_reaches_all_targets_in_order() {
    let geom = Geometry::MultiPoint(vec![xy("1", "1"), xy("2", "2")]);
    let mux_bc = Multiplexer::new(GeoJsonEmitter::new(), GeoJsonEmitter::new());
    let mut mux = Multiplexer::new(GeoJsonEmitter::new(), mux_bc);
    let r = process_geom(&geom, Dims::Xy, &mut mux);
    assert!(r.is_ok());
    let expected = "{\"type\": \"MultiPoint\", \"coordinates\": [[1,1],[2,2]]}";
    assert_eq!(mux.p1.out, expected);
    assert_eq!(mux.p2.p1.out, expected);
    assert_eq!(mux.p2.p2.out, expected);
}

#[test]
fn multiplexer_short_circuits_on_middle_failure() {
    // A five-point line; the middle consumer accepts the line begin and the
    // first coordinate, then fails on the second coordinate.
    let geom = Geometry::LineString(vec![
        xy("0", "0"),
        xy("1", "1"),
        xy("2", "2"),
        xy("3", "3"),
        xy("4", "4"),
    ]);
    let mux_bc = Multiplexer::new(LimitedSink::new(2), GeoJsonEmitter::new());
    let mut mux = Multiplexer::new(GeoJsonEmitter::new(), mux_bc);
    let r = process_geom(&geom, Dims::Xy, &mut mux);
    // The failure is reported unchanged.
    assert_eq!(r, Err(GeomError::Encoding));
    // The first consumer saw the event that made the second fail...
    assert_eq!(
        mux.p1.out,
        "{\"type\": \"LineString\", \"coordinates\": [[0,0],[1,1]"
    );
    // ...the third never received it.
    assert_eq!(
        mux.p2.p2.out,
        "{\"type\": \"LineString\", \"coordinates\": [[0,0]"
    );
    assert_eq!(mux.p2.p1.remaining, 0);
}

#[test]
fn driver_stops_at_first_failure() {
    // A consumer failing on the second coordinate of a five-point line: the
    // driver issues no callbacks for the remaining points nor the closing end.
    let geom = Geometry::LineString(vec![
        xy("0", "0"),
        xy("1", "1"),
        xy("2", "2"),
        xy("3", "3"),
        xy("4", "4"),
    ]);
    let mut mux = Multiplexer::new(LimitedSink::new(2), GeoJsonEmitter::new());
    let r = process_geom(&geom, Dims::Xy, &mut mux);
    assert!(r.is_err());
    // The witness behind the failing consumer received the begin callback and
    // the first coordinate, and nothing after the failure.
    assert_eq!(
        mux.p2.out,
        "{\"type\": \"LineString\", \"coordinates\": [[0,0]"
    );
}

#[test]
fn nested_multiplexers_compose() {
    let geom = Geometry::Point(xy("7", "8"));
    let inner = Multiplexer::new(ProcessorSink::new(), GeoJsonEmitter::new());
    let mut outer = Multiplexer::new(LimitedSink::new(100), inner);
    let r = process_geom(&geom, Dims::Xy, &mut outer);
    assert!(r.is_ok());
    assert_eq!(outer.p2.p2.out, "{\"type\": \"Point\", \"coordinates\": [7,8]}");
    assert_eq!(outer.p1.remaining, 97);
}

#[test]
fn separator_stands_before_every_sibling_but_the_first() {
    let geom = Geometry::MultiPoint(vec![xy("1", "1"), xy("2", "2"), xy("3", "3")]);
    let mut em = GeoJsonEmitter::new();
    assert!(process_geom(&geom, Dims::Xy, &mut em).is_ok());
    // No leading separator, no trailing separator, one between each pair.
    assert!(!em.out.contains("[,"));
    assert!(!em.out.contains(",]"));
    assert_eq!(em.out.matches("],[").count(), 2);
}

#[test]
fn nested_output_brackets_balance() {
    // Every begin token the emitter writes is closed by its end token, so the
    // rendered text of a deeply nested geometry balances its brackets.
    let poly1 = vec![
        vec![xy("0", "0"), xy("9", "0"), xy("9", "9"), xy("0", "0")],
        vec![xy("1", "1"), xy("2", "1"), xy("1", "2"), xy("1", "1")],
    ];
    let poly2 = vec![vec![xy("5", "5"), xy("6", "5"), xy("5", "6"), xy("5", "5")]];
    let geom = Geometry::MultiPolygon(vec![poly1, poly2]);
    let mut em = GeoJsonEmitter::new();
    assert!(process_geom(&geom, Dims::Xy, &mut em).is_ok());
    assert_eq!(
        em.out.matches('[').count(),
        em.out.matches(']').count()
    );
    assert_eq!(
        em.out.matches('{').count(),
        em.out.matches('}').count()
    );
}

#[test]
fn comma_only_before_later_siblings() {
    let mut em = GeoJsonEmitter::new();
    em.comma(0);
    assert_eq!(em.out, "");
    em.comma(3);
    assert_eq!(em.out, ",");
}
