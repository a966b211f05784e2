use apl::plugins::gtk::GtkPlugin;
use apl::plugins::python::PythonPlugin;

#[test]
fn test_gtk_plugin_info() {
    let plugin = GtkPlugin;
    let info = plugin.info();
    assert_eq!(info.name, "gtk");
    assert!(info.description.contains("⎕GTK"));
}

#[test]
fn test_python_plugin_info() {
    let plugin = PythonPlugin;
    let info = plugin.info();
    assert_eq!(info.name, "python");
    assert!(info.description.contains("⎕PYTHON"));
}

#[test]
fn cdr_encodes_integers_and_characters() {
    let v = apl::value::ValueP::scalar_from(apl::cell::Cell::Int(42));
    let z = apl::plugins::cdr::cdr_encode(&v).unwrap();
    let bytes: Vec<i64> = z.cells().iter().map(|c| c.get_int_value().unwrap()).collect();
    assert_eq!(bytes, vec![1, 42, 0, 0, 0, 0, 0, 0, 0]);
    let w = apl::value::ValueP::char_vector(&['A' as u32]);
    let z = apl::plugins::cdr::cdr_encode(&w).unwrap();
    let bytes: Vec<i64> = z.cells().iter().map(|c| c.get_int_value().unwrap()).collect();
    assert_eq!(bytes, vec![3, 65, 0, 0, 0]);
    let m = apl::value::ValueP::scalar_from(apl::cell::Cell::Int(-1));
    let z = apl::plugins::cdr::cdr_encode(&m).unwrap();
    let bytes: Vec<i64> = z.cells().iter().map(|c| c.get_int_value().unwrap()).collect();
    assert_eq!(bytes, vec![1, 255, 255, 255, 255, 255, 255, 255, 255]);
}

#[test]
fn test_cdr_empty() {
    let v = apl::value::ValueP::int_vector(&[]);
    assert!(apl::plugins::cdr::quad_cdr(&v, None).is_ok());
}

#[test]
fn test_cdr_scalar() {
    let v = apl::value::ValueP::scalar_from(apl::cell::Cell::Int(42));
    assert!(apl::plugins::cdr::quad_cdr(&v, None).is_ok());
}

#[test]
fn test_cdr_read_missing_file() {
    // the file could not be read: nothing came back from reading it
    let v = apl::value::ValueP::char_vector(
        &"nonexistent.cdr".chars().map(|c| c as u32).collect::<Vec<_>>(),
    );
    assert!(apl::plugins::cdr::quad_cdr(&v, None).is_err());
}

#[test]
fn cdr_reads_the_bytes_of_a_file() {
    let v = apl::value::ValueP::char_vector(&"data.cdr".chars().map(|c| c as u32).collect::<Vec<_>>());
    assert_eq!(apl::plugins::cdr::cdr_file_name(&v), Some("data.cdr".to_string()));
    let z = apl::plugins::cdr::quad_cdr(&v, Some(&[7u8, 255, 0])).unwrap();
    let bytes: Vec<i64> = z.cells().iter().map(|c| c.get_int_value().unwrap()).collect();
    assert_eq!(bytes, vec![7, 255, 0]);
    let n = apl::value::ValueP::int_vector(&[1, 2]);
    assert_eq!(apl::plugins::cdr::cdr_file_name(&n), None);
}

#[test]
fn test_fft_empty() {
    let v = apl::value::ValueP::int_vector(&[]);
    assert!(apl::plugins::fft::quad_fft(&v).is_err());
}

#[test]
fn test_png_disabled_read() {
    let v = apl::value::ValueP::char_vector(&"test.png".chars().map(|c| c as u32).collect::<Vec<_>>());
    assert!(apl::plugins::png::quad_png(&v).is_err());
}

#[test]
fn test_quad_plot_empty() {
    let v = apl::value::ValueP::int_vector(&[]);
    assert!(apl::quad_plot::quad_plot(&v).is_err());
}

#[test]
fn sql_is_a_domain_error() {
    let v = apl::value::ValueP::char_vector(&"db.sqlite".chars().map(|c| c as u32).collect::<Vec<_>>());
    assert_eq!(apl::plugins::sql::quad_sql(&v).err(), Some(apl::types::ErrorCode::DomainError));
}
