use boggler::error::Error;
use boggler::kernel::parse_neighbors_kernel;

#[test]
fn test_parse_default_kernel() {
    let kernel = parse_neighbors_kernel("-1,-1 0,-1 -1,0 1,1 0,1 1,0 -1,1 1,-1").unwrap();
    assert_eq!(
        kernel,
        vec![(-1, -1), (0, -1), (-1, 0), (1, 1), (0, 1), (1, 0), (-1, 1), (1, -1)]
    );
}

#[test]
fn test_parse_kernel_skips_entries_without_comma() {
    let kernel = parse_neighbors_kernel("1,2 x 3,4").unwrap();
    assert_eq!(kernel, vec![(1, 2), (3, 4)]);
    assert_eq!(parse_neighbors_kernel("").unwrap(), vec![]);
    assert_eq!(parse_neighbors_kernel("solo").unwrap(), vec![]);
}

#[test]
fn test_parse_kernel_signs() {
    let kernel = parse_neighbors_kernel("+5,-7").unwrap();
    assert_eq!(kernel, vec![(5, -7)]);
}

#[test]
fn test_parse_kernel_bad_number() {
    match parse_neighbors_kernel("1,a 2,3") {
        Err(Error::InvalidKernelNumber(tok)) => assert_eq!(tok, "a"),
        other => panic!("expected a bad-number error, got {:?}", other),
    }
    match parse_neighbors_kernel(",1") {
        Err(Error::InvalidKernelNumber(tok)) => assert_eq!(tok, ""),
        other => panic!("expected a bad-number error, got {:?}", other),
    }
}

#[test]
fn test_parse_kernel_out_of_range() {
    match parse_neighbors_kernel("99999999999999999999999999,0") {
        Err(Error::InvalidKernelNumber(tok)) => {
            assert_eq!(tok, "99999999999999999999999999")
        }
        other => panic!("expected an out-of-range error, got {:?}", other),
    }
}

#[test]
fn test_parse_kernel_first_error_wins() {
    match parse_neighbors_kernel("1,1 b,2 3,c") {
        Err(Error::InvalidKernelNumber(tok)) => assert_eq!(tok, "b"),
        other => panic!("expected a bad-number error, got {:?}", other),
    }
}
