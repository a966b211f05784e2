use apl::cell::Cell;
use apl::quad_plot::parse_config;
use apl::shape::Shape;
use apl::value::ValueP;

fn text(s: &str) -> ValueP {
    ValueP::char_vector(&s.chars().map(|c| c as u32).collect::<Vec<_>>())
}

#[test]
fn test_parse_config_auto_open() {
    let config = parse_config(&text("auto_open=true")).unwrap();
    assert_eq!(config.auto_open, Some(true));
    let config = parse_config(&text("auto_open=false")).unwrap();
    assert_eq!(config.auto_open, Some(false));
}

#[test]
fn test_parse_config_lines_of_a_vector() {
    let config = parse_config(&text(" Title = My Plot \nWIDTH=3\ncolor=Red\nbackground=navy\ngrid=TRUE\nno equals here\nshape=round")).unwrap();
    assert_eq!(config.title.as_deref(), Some("My Plot"));
    assert_eq!(config.line_width, Some(3));
    assert_eq!(config.line_color_rgb, Some((255, 0, 0)));
    assert_eq!(config.background_rgb, None);
    assert_eq!(config.show_grid, Some(true));
    assert_eq!(config.auto_open, None);
    assert_eq!(config.x_label, None);
}

#[test]
fn test_parse_config_rows_of_a_matrix() {
    let rows = ["xlabel=ab", "width=-1", "grid=0   "];
    let mut cells = Vec::new();
    for r in rows.iter() {
        for c in r.chars() {
            cells.push(Cell::Char(c as u32));
        }
    }
    let m = ValueP::from_parts(Shape::matrix(3, 9), cells).unwrap();
    let config = parse_config(&m).unwrap();
    assert_eq!(config.x_label.as_deref(), Some("ab"));
    assert_eq!(config.line_width, None);
    assert_eq!(config.show_grid, Some(false));
}

#[test]
fn test_parse_config_plot_kind_and_errors() {
    let config = parse_config(&ValueP::int_vector(&[2])).unwrap();
    assert_eq!(config.title, None);
    assert!(parse_config(&ValueP::int_vector(&[])).is_err());
}
