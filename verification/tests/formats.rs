use agg::conv_stroke;
use agg::path_storage::{invert_polygon, split, PathCommand, PathOrientation, Vertex};
use agg::ppm::{first_difference, ppm_bytes, ppm_header, same_image};
use agg::stroke;

#[test]
fn ppm_header_and_bytes() {
    assert_eq!(ppm_header(320, 7), b"P6 320 7 255 ".to_vec());
    assert_eq!(ppm_header(0, 10), b"P6 0 10 255 ".to_vec());
    let mut expected = b"P6 1 1 255 ".to_vec();
    expected.extend_from_slice(&[1, 2, 3]);
    assert_eq!(ppm_bytes(&[1, 2, 3], 1, 1), expected);
}

#[test]
fn image_comparison() {
    assert_eq!(first_difference(&[1, 2, 3], &[1, 9]), Some(1));
    assert_eq!(first_difference(&[1, 2, 3], &[1, 2]), None);
    assert_eq!(first_difference(&[], &[4]), None);
    assert!(same_image(&[1, 2], 1, 1, &[1, 2], 1, 1));
    assert!(!same_image(&[1, 2], 1, 1, &[1, 2], 2, 1));
    assert!(!same_image(&[1, 2], 1, 1, &[1, 3], 1, 1));
}

#[test]
fn vertices_and_styles() {
    let v = Vertex::move_to(1.5, 2.5);
    assert_eq!((v.x, v.y, v.cmd), (1.5, 2.5, PathCommand::MoveTo));
    assert_eq!(Vertex::line_to(1, 2).cmd, PathCommand::LineTo);
    assert_eq!(Vertex::close_polygon(1, 2).cmd, PathCommand::Close);
    assert_eq!(Vertex::xy(3, 4).cmd, PathCommand::Stop);
    assert_eq!(Vertex::new(3, 4, PathCommand::Close).x, 3);
    assert_eq!(PathCommand::default(), PathCommand::MoveTo);
    assert_ne!(PathOrientation::Clockwise, PathOrientation::CounterClockwise);
    assert_eq!(conv_stroke::LineCap::default(), conv_stroke::LineCap::Butt);
    assert_eq!(conv_stroke::LineJoin::default(), conv_stroke::LineJoin::Miter);
    assert_eq!(conv_stroke::InnerJoin::default(), conv_stroke::InnerJoin::Miter);
    assert_ne!(stroke::LineJoin::NoJoin, stroke::LineJoin::Round);
    assert_ne!(stroke::LineCap::Square, stroke::LineCap::Round);
    assert_ne!(stroke::InnerJoin::Jag, stroke::InnerJoin::Bevel);
}

#[test]
fn path_is_split_at_each_move_to() {
    let path = vec![
        Vertex::move_to(0i64, 0),
        Vertex::line_to(1, 0),
        Vertex::line_to(1, 1),
        Vertex::move_to(5, 5),
        Vertex::move_to(6, 6),
        Vertex::line_to(7, 6),
        Vertex::close_polygon(7, 6),
    ];
    assert_eq!(split(&path), vec![(0, 2), (4, 6)]);
    let lone: Vec<Vertex<i64>> = vec![Vertex::move_to(0, 0)];
    assert_eq!(split(&lone), vec![]);
    let no_move: Vec<Vertex<i64>> = vec![Vertex::line_to(0, 0), Vertex::line_to(1, 1)];
    assert_eq!(split(&no_move), vec![]);
    assert_eq!(split::<i64>(&[]), vec![]);
}

#[test]
fn polygon_is_inverted_keeping_end_commands() {
    let mut poly = vec![
        Vertex::move_to(0i64, 0),
        Vertex::line_to(1, 0),
        Vertex::line_to(2, 3),
        Vertex::close_polygon(2, 3),
    ];
    let orig = poly.clone();
    invert_polygon(&mut poly);
    let pts: Vec<(i64, i64)> = poly.iter().map(|v| (v.x, v.y)).collect();
    assert_eq!(pts, vec![(2, 3), (2, 3), (1, 0), (0, 0)]);
    let cmds: Vec<PathCommand> = poly.iter().map(|v| v.cmd).collect();
    assert_eq!(cmds, vec![PathCommand::MoveTo, PathCommand::LineTo, PathCommand::LineTo, PathCommand::Close]);
    invert_polygon(&mut poly);
    let back: Vec<(i64, i64, PathCommand)> = poly.iter().map(|v| (v.x, v.y, v.cmd)).collect();
    let want: Vec<(i64, i64, PathCommand)> = orig.iter().map(|v| (v.x, v.y, v.cmd)).collect();
    assert_eq!(back, want);
}
