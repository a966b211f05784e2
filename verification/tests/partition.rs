use apl::cell::Cell;
use apl::partition::partition;
use apl::value::ValueP;


fn char_vec(s: &str) -> ValueP {
    ValueP::char_vector(&s.chars().map(|c| c as u32).collect::<Vec<_>>())
}

/// read a partition result back as the list of its pieces
fn pieces_of(v: &ValueP) -> Vec<String> {
    v.cells()
        .iter()
        .map(|c| match c {
            Cell::Pointer(p) => {
                let inner = ValueP {
                    inner: p.value.clone(),
                };
                inner
                    .cells()
                    .iter()
                    .map(|ic| match ic {
                        Cell::Char(u) => char::from_u32(*u).unwrap_or('?'),
                        _ => '?',
                    })
                    .collect()
            }
            other => panic!("expected nested piece, got {other:?}"),
        })
        .collect()
}


#[test]
fn test_partition_basic() {
    // 1 1 2 2 1⊂'abcde' → 'ab' 'cde'
    // The trailing 1 is a DECREASE from 2, so it continues that piece
    // rather than opening a third one.
    let a = ValueP::int_vector(&[1, 1, 2, 2, 1]);
    let r = partition(&a, &char_vec("abcde")).unwrap();
    assert_eq!(pieces_of(&r), vec!["ab", "cde"]);
}

#[test]
fn test_partition_with_zeros() {
    // 1 0 1⊂'abc' → 'a' 'c' — b dropped, and c opens a new piece
    let a = ValueP::int_vector(&[1, 0, 1]);
    let r = partition(&a, &char_vec("abc")).unwrap();
    assert_eq!(pieces_of(&r), vec!["a", "c"]);
}

#[test]
fn test_partition_increase_splits() {
    // 1 1 2 2⊂'abcd' → 'ab' 'cd'
    let a = ValueP::int_vector(&[1, 1, 2, 2]);
    let r = partition(&a, &char_vec("abcd")).unwrap();
    assert_eq!(pieces_of(&r), vec!["ab", "cd"]);
}

#[test]
fn test_partition_decrease_does_not_split() {
    // 2 2 1 1⊂'abcd' → 'abcd' (one piece) — this is the case the old
    // implementation got wrong by splitting on any key CHANGE
    let a = ValueP::int_vector(&[2, 2, 1, 1]);
    let r = partition(&a, &char_vec("abcd")).unwrap();
    assert_eq!(pieces_of(&r), vec!["abcd"]);
}

#[test]
fn test_partition_single_decrease_mid_vector() {
    // 1 2 1⊂'abc' → 'a' 'bc'
    let a = ValueP::int_vector(&[1, 2, 1]);
    let r = partition(&a, &char_vec("abc")).unwrap();
    assert_eq!(pieces_of(&r), vec!["a", "bc"]);
}

#[test]
fn test_partition_every_increase_splits_each_item() {
    // 1 2 3⊂'abc' → 'a' 'b' 'c'
    let a = ValueP::int_vector(&[1, 2, 3]);
    let r = partition(&a, &char_vec("abc")).unwrap();
    assert_eq!(pieces_of(&r), vec!["a", "b", "c"]);
}

#[test]
fn test_partition_leading_zeros_skipped() {
    // 0 0 1 1⊂'abcd' → 'cd'
    let a = ValueP::int_vector(&[0, 0, 1, 1]);
    let r = partition(&a, &char_vec("abcd")).unwrap();
    assert_eq!(pieces_of(&r), vec!["cd"]);
}

#[test]
fn test_partition_words_by_blanks_idiom() {
    // the classic split-on-spaces: 1 1 0 1 1⊂'ab cd' → 'ab' 'cd'
    let a = ValueP::int_vector(&[1, 1, 0, 1, 1]);
    let r = partition(&a, &char_vec("ab cd")).unwrap();
    assert_eq!(pieces_of(&r), vec!["ab", "cd"]);
}

#[test]
fn test_partition_all_zeros_is_empty() {
    let a = ValueP::int_vector(&[0, 0, 0]);
    let r = partition(&a, &char_vec("abc")).unwrap();
    assert_eq!(r.element_count(), 0);
}

#[test]
fn test_partition_length_mismatch_errors() {
    let a = ValueP::int_vector(&[1, 1]);
    assert!(partition(&a, &char_vec("abc")).is_err());
}

#[test]
fn test_partition_matrix_encloses_whole() {
    let a = ValueP::int_vector(&[1, 1, 2, 2]);
    let m = char_vec("abcd");
    let b = ValueP::from_parts(apl::shape::Shape::matrix(2, 2), m.cells().to_vec()).unwrap();
    let r = partition(&a, &b).unwrap();
    assert!(r.is_scalar());
    match &r.cells()[0] {
        Cell::Pointer(p) => {
            let inner = ValueP { inner: p.value.clone() };
            assert_eq!(inner.dim_list(), vec![2, 2]);
            assert_eq!(pieces_of(&ValueP::nested(inner.clone())), vec!["abcd".to_string()]);
        }
        other => panic!("expected an enclosed matrix, got {other:?}"),
    }
}
