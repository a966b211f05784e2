use apl::cell::Cell;
use apl::quad::{quad_mx, quad_rval, quad_dlx, quad_json, quad_xml, quad_av, quad_cc_with_case, quad_dft, quad_dm, quad_en, quad_map, quad_rl, quad_svc, quad_svo,
    quad_svq, quad_svr, quad_svs, quad_tc, quad_tf, quad_ts, quad_ucs, quad_wa};
use apl::value::ValueP;


#[test]
fn test_quad_ucs_int_to_char() {
    let v = ValueP::int_vector(&[65, 66, 67]);
    let result = quad_ucs(&v).unwrap();
    assert_eq!(result.cells()[0], Cell::Char('A' as u32));
    assert_eq!(result.cells()[1], Cell::Char('B' as u32));
    assert_eq!(result.cells()[2], Cell::Char('C' as u32));
}

#[test]
fn test_quad_ucs_char_to_int() {
    let v = ValueP::char_vector(&['A' as u32, 'B' as u32, 'C' as u32]);
    let result = quad_ucs(&v).unwrap();
    assert_eq!(result.cells()[0], Cell::Int(65));
    assert_eq!(result.cells()[1], Cell::Int(66));
    assert_eq!(result.cells()[2], Cell::Int(67));
}

#[test]
fn test_quad_ucs_invalid_codepoint() {
    let v = ValueP::int_vector(&[0x110000]); // Invalid codepoint
    assert!(quad_ucs(&v).is_err());
}

#[test]
fn test_quad_av() {
    let result = quad_av();
    assert_eq!(result.element_count(), 256);
}

#[test]
fn test_quad_ts() {
    let result = quad_ts().unwrap();
    assert_eq!(result.element_count(), 8);
    // Year should be >= 2026
    assert!(result.cells()[0].get_int_value().unwrap() >= 2026);
}

#[test]
fn test_quad_wa() {
    let result = quad_wa().unwrap();
    assert!(result.cells()[0].get_int_value().unwrap() > 0);
}

#[test]
fn test_quad_tc() {
    let result = quad_tc();
    assert_eq!(result.element_count(), 3);
    assert_eq!(result.cells()[0], Cell::Char('\u{08}' as u32));
    assert_eq!(result.cells()[1], Cell::Char('\n' as u32));
    assert_eq!(result.cells()[2], Cell::Char('\r' as u32));
}

#[test]
fn test_quad_dm() {
    let result = quad_dm();
    assert_eq!(result.element_count(), 0);
}

#[test]
fn test_quad_en() {
    let result = quad_en();
    assert_eq!(result.cells()[0], Cell::Int(0));
}

#[test]
fn test_quad_dft() {
    let result = quad_dft();
    assert_eq!(result.element_count(), 7);
}





#[test]
fn test_quad_rl_get_set() {
    // Get current seed
    let mut seed: u64 = 42;
    let empty = ValueP::int_vector(&[]);
    let result = quad_rl(&mut seed, &empty).unwrap();
    assert_eq!(result.element_count(), 1);

    // Set seed
    let set_seed = ValueP::int_vector(&[12345]);
    let result = quad_rl(&mut seed, &set_seed).unwrap();
    assert_eq!(result.element_count(), 1);
}

#[test]
fn test_quad_cc_upper() {
    let v = ValueP::char_vector(&['a' as u32, 'b' as u32, 'c' as u32]);
    let result = quad_cc_with_case(1, &v).unwrap();
    assert_eq!(result.cells()[0], Cell::Char('A' as u32));
    assert_eq!(result.cells()[1], Cell::Char('B' as u32));
    assert_eq!(result.cells()[2], Cell::Char('C' as u32));
}

#[test]
fn test_quad_cc_lower() {
    let v = ValueP::char_vector(&['A' as u32, 'B' as u32, 'C' as u32]);
    let result = quad_cc_with_case(2, &v).unwrap();
    assert_eq!(result.cells()[0], Cell::Char('a' as u32));
    assert_eq!(result.cells()[1], Cell::Char('b' as u32));
    assert_eq!(result.cells()[2], Cell::Char('c' as u32));
}









#[test]
fn test_quad_tf() {
    let v = ValueP::char_vector(&['F' as u32, 'O' as u32, 'O' as u32]);
    let result = quad_tf(&v).unwrap();
    assert_eq!(result.cells()[0], Cell::Char('F' as u32));
}

#[test]
fn test_quad_map_empty() {
    let env = apl::parser::Environment::new();
    let empty = ValueP::int_vector(&[]);
    let result = quad_map(&env, &empty).unwrap();
    assert_eq!(result.element_count(), 1);
}





















#[test]
fn test_quad_svc_empty() {
    let result = quad_svc().unwrap();
    assert_eq!(result.element_count(), 0);
}

#[test]
fn test_quad_svo_err() {
    let v = ValueP::char_vector(&"X".chars().map(|c| c as u32).collect::<Vec<_>>());
    assert!(quad_svo(&v).is_err());
}

#[test]
fn test_quad_svq_err() {
    let v = ValueP::char_vector(&"X".chars().map(|c| c as u32).collect::<Vec<_>>());
    assert!(quad_svq(&v).is_err());
}

#[test]
fn test_quad_svr_err() {
    let v = ValueP::char_vector(&"X".chars().map(|c| c as u32).collect::<Vec<_>>());
    assert!(quad_svr(&v).is_err());
}

#[test]
fn test_quad_svs_err() {
    let v = ValueP::int_vector(&[1, 2]);
    assert!(quad_svs(&v).is_err());
}

#[test]
fn test_quad_json_parse_number() {
    let v = ValueP::char_vector(&['4' as u32, '2' as u32]);
    let result = quad_json(&v).unwrap();
    assert_eq!(result.cells()[0], Cell::Int(42));
}

#[test]
fn test_quad_json_parse_string() {
    let mut chars: Vec<u32> = vec!['"' as u32];
    chars.extend("hello".chars().map(|c| c as u32));
    chars.push('"' as u32);
    let v = ValueP::char_vector(&chars);
    let result = quad_json(&v).unwrap();
    assert_eq!(result.cells()[0], Cell::Char('h' as u32));
}

#[test]
fn test_quad_json_parse_array() {
    let v = ValueP::char_vector(&[
        '[' as u32, '1' as u32, ',' as u32, '2' as u32, ',' as u32, '3' as u32, ']' as u32,
    ]);
    let result = quad_json(&v).unwrap();
    assert_eq!(result.element_count(), 3);
    assert_eq!(result.cells()[0], Cell::Int(1));
    assert_eq!(result.cells()[1], Cell::Int(2));
    assert_eq!(result.cells()[2], Cell::Int(3));
}

#[test]
fn test_quad_json_serialize() {
    let v = ValueP::int_vector(&[1, 2, 3]);
    let result = quad_json(&v).unwrap();
    // Should return a char vector with JSON representation
    assert!(result.element_count() > 0);
}

#[test]
fn test_quad_json_bool() {
    let mut chars: Vec<u32> = "true".chars().map(|c| c as u32).collect();
    let v = ValueP::char_vector(&chars);
    let result = quad_json(&v).unwrap();
    assert_eq!(result.cells()[0], Cell::Int(1));
}

#[test]
fn test_quad_xml_parse() {
    let xml = "<root>hello world</root>";
    let chars: Vec<u32> = xml.chars().map(|c| c as u32).collect();
    let v = ValueP::char_vector(&chars);
    let result = quad_xml(&v).unwrap();
    // Should extract content between tags
    assert_eq!(result.cells()[0], Cell::Char('h' as u32));
}

#[test]
fn test_quad_xml_serialize() {
    let v = ValueP::int_vector(&[42]);
    let result = quad_xml(&v).unwrap();
    // Should return XML representation
    assert!(result.element_count() > 0);
}

#[test]
fn test_quad_dlx_simple() {
    // 2x2 identity matrix: each row covers one column
    // Row 0: covers col 0
    // Row 1: covers col 1
    // Solution: both rows
    let shape = apl::shape::Shape::matrix(2, 2);
    let v = ValueP::from_parts(
        shape,
        vec![Cell::Int(1), Cell::Int(0), Cell::Int(0), Cell::Int(1)],
    )
    .unwrap();
    let result = quad_dlx(&v).unwrap();
    // Should return a 2x2 solution (the identity matrix itself)
    assert_eq!(result.element_count(), 4);
}

#[test]
fn test_quad_dlx_empty() {
    let v = ValueP::int_vector(&[]);
    let result = quad_dlx(&v).unwrap();
    assert_eq!(result.element_count(), 0);
}

#[test]
fn test_quad_rval_scalar() {
    let v = ValueP::int_vector(&[0, 1, 1]); // rank=0, shape=1, type=int
    let result = quad_rval(&v).unwrap();
    assert_eq!(result.element_count(), 1);
    assert!(matches!(result.cells()[0], Cell::Int(_)));
}

#[test]
fn quad_rval_vector_of_integers() {
    let v = ValueP::int_vector(&[1, 5, 1]);
    let result = quad_rval(&v).unwrap();
    assert_eq!(result.element_count(), 5);
    for c in result.cells() {
        let k = c.get_int_value().unwrap();
        assert!(-100 <= k && k < 100);
    }
}

#[test]
fn test_quad_mx_info() {
    let v = ValueP::int_vector(&[0]); // determinant info
    let result = quad_mx(&v).unwrap();
    assert!(result.element_count() > 0);
}

#[test]
fn quad_mx_trace_needs_floating_numbers() {
    let v = ValueP::int_vector(&[3, 1, 0, 0, 1]);
    assert!(quad_mx(&v).is_err());
}

#[test]
fn test_quad_ucs_refuses_out_of_range_integers() {
    assert!(quad_ucs(&ValueP::int_vector(&[(1i64 << 32) + 65])).is_err());
    assert!(quad_ucs(&ValueP::int_vector(&[-1])).is_err());
}

#[test]
fn test_timestamp_fields_civil_calendar() {
    // 2000-02-29 12:34:56.789012 UTC, a leap day
    let secs: u64 = 951_827_696;
    assert_eq!(apl::quad::timestamp_fields(secs, 789_012), vec![2000, 2, 29, 12, 34, 56, 789, 12]);
    // 1970-12-31, the last day of a 365-day year (day 364 reads as December)
    assert_eq!(apl::quad::timestamp_fields(364 * 86400, 0), vec![1970, 12, 31, 0, 0, 0, 0, 0]);
    // the epoch itself
    assert_eq!(apl::quad::timestamp_fields(0, 0), vec![1970, 1, 1, 0, 0, 0, 0, 0]);
}
