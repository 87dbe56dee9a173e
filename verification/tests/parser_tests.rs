use simple_renderer::geometry::Point3D;
use simple_renderer::wavefront::parse;
use simple_renderer::wavefront::LoadError;

#[test]
fn parses_one_vertex_and_one_face() {
    let text = b"v 1.0 2.0 3.0\nf 1/1/1 1/1/1 1/1/1\n";
    let mesh = parse(text).unwrap();
    assert_eq!(mesh.vertices.len(), 1);
    assert_eq!(mesh.vertices[0], Point3D::new(1_000_000, 2_000_000, 3_000_000));
    assert_eq!(mesh.faces.len(), 1);
    assert_eq!(mesh.faces[0].a, 0);
    assert_eq!(mesh.faces[0].b, 0);
    assert_eq!(mesh.faces[0].c, 0);
}

#[test]
fn missing_coordinate_is_a_load_error() {
    let text = b"v 1.0 2.0\n";
    assert_eq!(parse(text).unwrap_err(), LoadError::BadVertex);
    // a bad line anywhere poisons the whole load: no partial mesh
    let text = b"v 1 1 1\nv 1.0 2.0\nv 2 2 2\n";
    assert_eq!(parse(text).unwrap_err(), LoadError::BadVertex);
}

#[test]
fn comments_and_unknown_lines_are_ignored() {
    let text = b"# a comment\nvt 0.0 0.0\nvn 1 0 0\ng group\nv 0.5 -0.25 0.0\n";
    let mesh = parse(text).unwrap();
    assert_eq!(mesh.vertices.len(), 1);
    assert_eq!(mesh.vertices[0], Point3D::new(500_000, -250_000, 0));
    assert_eq!(mesh.faces.len(), 0);
}

#[test]
fn malformed_coordinate_is_a_load_error() {
    assert_eq!(parse(b"v 1.0 two 3.0\n").unwrap_err(), LoadError::BadVertex);
    assert_eq!(parse(b"v 1..0 2.0 3.0\n").unwrap_err(), LoadError::BadVertex);
}

#[test]
fn coordinate_beyond_capacity_is_a_load_error() {
    assert_eq!(parse(b"v 76.0 0.0 0.0\n").unwrap_err(), LoadError::BadVertex);
    assert_eq!(parse(b"v 1.0e9 0.0 0.0\n").unwrap_err(), LoadError::BadVertex);
}

#[test]
fn malformed_face_group_is_a_load_error() {
    assert_eq!(parse(b"v 1 1 1\nf x/1/1 1/1/1 1/1/1\n").unwrap_err(), LoadError::BadFace);
    assert_eq!(parse(b"v 1 1 1\nf 1/1/1 2/2\n").unwrap_err(), LoadError::BadFace);
}

#[test]
fn face_index_out_of_range_is_a_load_error() {
    assert_eq!(
        parse(b"v 1 1 1\nf 2/1/1 1/1/1 1/1/1\n").unwrap_err(),
        LoadError::BadIndex
    );
    assert_eq!(
        parse(b"v 1 1 1\nf 0/1/1 1/1/1 1/1/1\n").unwrap_err(),
        LoadError::BadIndex
    );
    assert_eq!(
        parse(b"v 1 1 1\nf -1/1/1 1/1/1 1/1/1\n").unwrap_err(),
        LoadError::BadIndex
    );
}

#[test]
fn fraction_digits_truncate_toward_zero() {
    let mesh = parse(b"v 0.1234567 -0.1234567 0\n").unwrap();
    assert_eq!(mesh.vertices[0], Point3D::new(123_456, -123_456, 0));
}

#[test]
fn face_groups_without_slashes_are_read_whole() {
    let mesh = parse(b"v 0 0 0\nv 1 0 0\nv 0 1 0\nf 1 2 3\n").unwrap();
    assert_eq!(mesh.faces.len(), 1);
    assert_eq!(mesh.faces[0].a, 0);
    assert_eq!(mesh.faces[0].b, 1);
    assert_eq!(mesh.faces[0].c, 2);
}

#[test]
fn last_line_needs_no_newline() {
    let mesh = parse(b"v 1 2 3").unwrap();
    assert_eq!(mesh.vertices.len(), 1);
    assert_eq!(mesh.vertices[0], Point3D::new(1_000_000, 2_000_000, 3_000_000));
}

#[test]
fn windows_line_endings_are_accepted() {
    let mesh = parse(b"v 1 0 0\r\nv 0 1 0\r\n").unwrap();
    assert_eq!(mesh.vertices.len(), 2);
    assert_eq!(mesh.vertices[0], Point3D::new(1_000_000, 0, 0));
    assert_eq!(mesh.vertices[1], Point3D::new(0, 1_000_000, 0));
}

#[test]
fn empty_input_gives_an_empty_mesh() {
    let mesh = parse(b"").unwrap();
    assert_eq!(mesh.vertices.len(), 0);
    assert_eq!(mesh.faces.len(), 0);
}

#[test]
fn exponent_notation_scales_the_value() {
    let mesh = parse(b"v 2e-1 1.5e1 25.0E-2\n").unwrap();
    assert_eq!(mesh.vertices[0], Point3D::new(200_000, 15_000_000, 250_000));
    let mesh = parse(b"v 5e0 -1.25e+1 0e7\n").unwrap();
    assert_eq!(mesh.vertices[0], Point3D::new(5_000_000, -12_500_000, 0));
}

#[test]
fn tiny_exponents_truncate_to_zero() {
    let mesh = parse(b"v 1e-10 -3.5e-7 0 \n").unwrap();
    assert_eq!(mesh.vertices[0], Point3D::new(0, 0, 0));
}

#[test]
fn empty_or_doubled_exponent_is_a_load_error() {
    assert_eq!(parse(b"v 1e 0 0\n").unwrap_err(), LoadError::BadVertex);
    assert_eq!(parse(b"v 1e2e3 0 0\n").unwrap_err(), LoadError::BadVertex);
    assert_eq!(parse(b"v 1e+ 0 0\n").unwrap_err(), LoadError::BadVertex);
}
