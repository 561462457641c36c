use n_tensor::parse_tensor;
use n_tensor::Field;

/// A floating-point scalar for tensors, parsed with Rust's own `f64` grammar.
#[derive(Clone, Copy, Debug, PartialEq)]
struct F64(f64);

impl Field for F64 {
    // The specification-level half of the trait is erased from compiled code
    // and never called at run time.
    fn spec_parse(_token: vstd::seq::Seq<u8>) -> Option<F64> {
        panic!("specification-level only");
    }

    fn parse_token(token: &[u8]) -> Option<F64> {
        let text = std::str::from_utf8(token).ok()?;
        text.parse().ok().map(F64)
    }
}

/// A single-precision scalar for tensors.
#[derive(Clone, Copy, Debug, PartialEq)]
struct F32(f32);

impl Field for F32 {
    fn spec_parse(_token: vstd::seq::Seq<u8>) -> Option<F32> {
        panic!("specification-level only");
    }

    fn parse_token(token: &[u8]) -> Option<F32> {
        let text = std::str::from_utf8(token).ok()?;
        text.parse().ok().map(F32)
    }
}

#[test]
fn mod_test_parse_tensor_higher_rank() {
    let t = parse_tensor::<F64>("[[1,2,3], [3,4,5], [6,7,8]]").unwrap();
    assert_eq!(t.dimensions(), 3);
    assert_eq!(*t.shape(), [3, 3]);
    assert_eq!(t.rank(), 2);
    assert_eq!(
        *t.value(),
        vec![F64(1.), F64(2.), F64(3.), F64(3.), F64(4.), F64(5.), F64(6.), F64(7.), F64(8.)]
    );
}

#[test]
fn test_parse_row_vector() {
    let v = parse_tensor::<F64>("[[1, 2, 3]]").unwrap();
    assert_eq!(v.dimensions(), 3);
    assert_eq!(*v.shape(), [1, 3]);
    assert_eq!(v.rank(), 1);
    assert_eq!(v.value().len(), 3);
}

#[test]
fn n_lang_test_parse_tensor_higher_rank() {
    let t = parse_tensor::<F64>("[[1,2,3], [3,4,5], [6,7,8]]").unwrap();
    assert_eq!(t.dimensions(), 3);
    assert_eq!(*t.shape(), [3, 3]);
    assert_eq!(t.rank(), 2);
    assert_eq!(
        *t.value(),
        vec![F64(1.), F64(2.), F64(3.), F64(3.), F64(4.), F64(5.), F64(6.), F64(7.), F64(8.)]
    );
}

#[test]
fn test_row_vector_rank_1_tensor() {
    let v = parse_tensor::<F64>("[[1, 2, 3]]").unwrap();
    assert_eq!(v.dimensions(), 3);
    assert_eq!(*v.shape(), [1, 3]);
    assert_eq!(v.rank(), 1);
    assert_eq!(v.value().len(), 3);
}

#[test]
fn test_column_vector_rank_1_tensor() {
    let col_v = parse_tensor::<F64>("[[1], [2], [3], [4]]").unwrap();
    assert_eq!(col_v.dimensions(), 4);
    assert_eq!(col_v.rank(), 1);
    assert_eq!(*col_v.shape(), [4, 1]);
    assert_eq!(col_v.value().len(), 4);
}

#[test]
fn test_matrix_rank_2_tensor() {
    let t = parse_tensor::<F64>("[[1,2,3], [3,4,5], [6,7,8]]").unwrap();
    assert_eq!(t.dimensions(), 3);
    assert_eq!(*t.shape(), [3, 3]);
    assert_eq!(t.rank(), 2);
    assert_eq!(
        *t.value(),
        vec![F64(1.), F64(2.), F64(3.), F64(3.), F64(4.), F64(5.), F64(6.), F64(7.), F64(8.)]
    );
}

#[test]
fn test_rank_6_tensor() {
    let t = parse_tensor::<F64>(
        "[
            [
                [
                    [
                        [[1, 1, 1, 1], [1, 1, 1, 1], [1, 1, 1, 1], [1, 1, 1, 1]],
                        [[1, 1, 1, 1], [1, 1, 1, 1], [1, 1, 1, 1], [1, 1, 1, 1]]
                    ],
                    [
                        [[1, 1, 1, 1], [1, 1, 1, 1], [1, 1, 1, 1], [1, 1, 1, 1]],
                        [[1, 1, 1, 1], [1, 1, 1, 1], [1, 1, 1, 1], [1, 1, 1, 1]]
                    ]
                ],
                [
                    [
                        [[1, 1, 1, 1], [1, 1, 1, 1], [1, 1, 1, 1], [1, 1, 1, 1]],
                        [[1, 1, 1, 1], [1, 1, 1, 1], [1, 1, 1, 1], [1, 1, 1, 1]]
                    ],
                    [
                        [[1, 1, 1, 1], [1, 1, 1, 1], [1, 1, 1, 1], [1, 1, 1, 1]],
                        [[1, 1, 1, 1], [1, 1, 1, 1], [1, 1, 1, 1], [1, 1, 1, 1]]
                    ]
                ]
            ],
            [
                [
                    [
                        [[1, 1, 1, 1], [1, 1, 1, 1], [1, 1, 1, 1], [1, 1, 1, 1]],
                        [[1, 1, 1, 1], [1, 1, 1, 1], [1, 1, 1, 1], [1, 1, 1, 1]]
                    ],
                    [
                        [[1, 1, 1, 1], [1, 1, 1, 1], [1, 1, 1, 1], [1, 1, 1, 1]],
                        [[1, 1, 1, 1], [1, 1, 1, 1], [1, 1, 1, 1], [1, 1, 1, 1]]
                    ]
                ],
                [
                    [
                        [[1, 1, 1, 1], [1, 1, 1, 1], [1, 1, 1, 1], [1, 1, 1, 1]],
                        [[1, 1, 1, 1], [1, 1, 1, 1], [1, 1, 1, 1], [1, 1, 1, 1]]
                    ],
                    [
                        [[1, 1, 1, 1], [1, 1, 1, 1], [1, 1, 1, 1], [1, 1, 1, 1]],
                        [[1, 1, 1, 1], [1, 1, 1, 1], [1, 1, 1, 1], [1, 1, 1, 1]]
                    ]
                ]
            ]
        ]",
    )
    .unwrap();
    assert_eq!(t.rank(), 6);
    assert_eq!(t.dimensions(), 4);
    assert_eq!(*t.shape(), [2, 2, 2, 2, 4, 4]);
    assert_eq!(t.value().len(), 2 * 2 * 2 * 2 * 4 * 4);
}

#[test]
fn test_tensor_with_several_indices() {
    let t = parse_tensor::<F32>(
        "[
            [
                [
                    [
                        [[1, 1, 1, 1], [1, 1, 1, 1], [1, 1, 1, 1], [1, 1, 1, 1]],
                        [[1, 1, 1, 1], [1, 1, 1, 1], [1, 1, 1, 1], [1, 1, 1, 1]]
                    ],
                    [
                        [[1, 1, 1, 1], [1, 1, 1, 1], [1, 1, 1, 1], [1, 1, 1, 1]],
                        [[1, 1, 1, 1], [1, 1, 1, 1], [1, 1, 1, 1], [1, 1, 1, 1]]
                    ]
                ],
                [
                    [
                        [[1, 1, 1, 1], [1, 1, 1, 1], [1, 1, 1, 1], [1, 1, 1, 1]],
                        [[1, 1, 1, 1], [1, 1, 1, 1], [1, 1, 1, 1], [1, 1, 1, 1]]
                    ],
                    [
                        [[1, 1, 1, 1], [1, 1, 1, 1], [1, 1, 1, 1], [1, 1, 1, 1]],
                        [[1, 1, 1, 1], [1, 1, 1, 1], [1, 1, 1, 1], [1, 1, 1, 1]]
                    ]
                ]
            ],
            [
                [
                    [
                        [[1, 1, 1, 1], [1, 1, 1, 1], [1, 1, 1, 1], [1, 1, 1, 1]],
                        [[1, 1, 1, 1], [1, 1, 1, 1], [1, 1, 1, 1], [1, 1, 1, 1]]
                    ],
                    [
                        [[1, 1, 1, 1], [1, 1, 1, 1], [1, 1, 1, 1], [1, 1, 1, 1]],
                        [[1, 1, 1, 1], [1, 1, 1, 1], [1, 1, 1, 1], [1, 1, 1, 1]]
                    ]
                ],
                [
                    [
                        [[1, 1, 1, 1], [1, 1, 1, 1], [1, 1, 1, 1], [1, 1, 1, 1]],
                        [[1, 1, 1, 1], [1, 1, 1, 1], [1, 1, 1, 1], [1, 1, 1, 1]]
                    ],
                    [
                        [[1, 1, 1, 1], [1, 1, 1, 1], [1, 1, 1, 1], [1, 1, 1, 1]],
                        [[1, 1, 1, 1], [1, 1, 1, 1], [1, 1, 1, 1], [1, 1, 1, 1]]
                    ]
                ]
            ]
        ]",
    )
    .unwrap();
    assert_eq!(t.rank(), 6);
    assert_eq!(t.dimensions(), 4);
    assert_eq!(*t.shape(), [2, 2, 2, 2, 4, 4]);
    assert_eq!(t.value().len(), 2 * 2 * 2 * 2 * 4 * 4);
}
