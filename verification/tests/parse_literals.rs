use n_tensor::parse_tensor;
use n_tensor::TensorError;

#[test]
fn mod_test_parse_tensor_scalar() {
    let t = parse_tensor::<i32>("[123]").unwrap();
    assert_eq!(t.dimensions(), 1);
    assert_eq!(*t.shape(), [1]);
    assert_eq!(t.rank(), 0);
    assert_eq!(t.value().len(), 1);
    assert_eq!(t.value()[0], 123);
}

#[test]
fn n_lang_test_parse_tensor_scalar() {
    let t = parse_tensor::<i32>("[123]").unwrap();
    assert_eq!(t.dimensions(), 1);
    assert_eq!(*t.shape(), [1]);
    assert_eq!(t.rank(), 0);
    assert_eq!(t.value().len(), 1);
    assert_eq!(t.value()[0], 123);
}

#[test]
fn test_parse_column_vector() {
    let col_v = parse_tensor::<i64>("[[1], [2], [3]]").unwrap();
    assert_eq!(col_v.dimensions(), 3);
    assert_eq!(col_v.rank(), 1);
    assert_eq!(*col_v.shape(), [3, 1]);
    assert_eq!(col_v.value().len(), 3);
}

#[test]
fn test_scalar_rank_0_tensor() {
    let t = parse_tensor::<i32>("[123]").unwrap();
    assert_eq!(t.dimensions(), 1);
    assert_eq!(*t.shape(), [1]);
    assert_eq!(t.rank(), 0);
    assert_eq!(t.value().len(), 1);
    assert_eq!(t.value()[0], 123);
}

#[test]
fn test_rank_4_indices() {
    let t = parse_tensor::<i64>(
        "[
            [[[1, 2, 3], [4, 5, 6]], [[7, 8, 9], [10, 11, 12],]],
            [[[13, 14, 15], [16, 17, 18]], [[19, 20, 21], [22, 23, 24],]]
        ]",
    )
    .unwrap();

    let shape = t.shape().clone();
    assert_eq!(shape, vec![2, 2, 2, 3]);

    let mut n = 1;
    for i in 0..shape[0] {
        for j in 0..shape[1] {
            for k in 0..shape[2] {
                for l in 0..shape[3] {
                    let value = t.index(&[i, j, k, l]).unwrap();
                    assert_eq!(value, n);
                    n += 1;
                }
            }
        }
    }
}

#[test]
fn test_bare_scalar_literal() {
    let t = parse_tensor::<i32>("123").unwrap();
    assert_eq!(t.dimensions(), 1);
    assert_eq!(*t.shape(), [1]);
    assert_eq!(t.rank(), 0);
    assert_eq!(*t.value(), vec![123]);
}

#[test]
fn test_flat_vector_literal() {
    let t = parse_tensor::<i64>("[1,2,3]").unwrap();
    assert_eq!(*t.shape(), [3]);
    assert_eq!(t.rank(), 1);
    assert_eq!(t.dimensions(), 3);
    assert_eq!(*t.value(), vec![1, 2, 3]);
}

#[test]
fn test_trailing_comma_is_accepted() {
    let t = parse_tensor::<i64>("[1,2,]").unwrap();
    assert_eq!(*t.shape(), [2]);
    assert_eq!(*t.value(), vec![1, 2]);
}

#[test]
fn test_whitespace_is_stripped() {
    let t = parse_tensor::<i64>("\t[ [1,\n 2] ,\r [3, 4] ]\n").unwrap();
    assert_eq!(*t.shape(), [2, 2]);
    assert_eq!(t.rank(), 2);
    assert_eq!(*t.value(), vec![1, 2, 3, 4]);
}

#[test]
fn test_signed_scalars() {
    let t = parse_tensor::<i64>("[-1, +2, -3]").unwrap();
    assert_eq!(*t.value(), vec![-1, 2, -3]);
}

#[test]
fn test_extreme_scalars() {
    let t = parse_tensor::<i64>("[9223372036854775807, -9223372036854775808]").unwrap();
    assert_eq!(*t.value(), vec![i64::MAX, i64::MIN]);
}

#[test]
fn test_value_count_is_shape_product() {
    for literal in ["[123]", "[[1,2,3]]", "[[1],[2],[3],[4]]", "[[1,2,3],[3,4,5],[6,7,8]]"] {
        let t = parse_tensor::<i64>(literal).unwrap();
        let product: usize = t.shape().iter().product();
        assert_eq!(t.value().len(), product);
    }
}

#[test]
fn test_unbalanced_literal_is_grammar_error() {
    assert_eq!(parse_tensor::<i32>("[1,2").unwrap_err(), TensorError::GrammarError);
}

#[test]
fn test_more_grammar_errors() {
    assert_eq!(parse_tensor::<i32>("").unwrap_err(), TensorError::GrammarError);
    assert_eq!(parse_tensor::<i32>("[]").unwrap_err(), TensorError::GrammarError);
    assert_eq!(parse_tensor::<i32>("[1,,2]").unwrap_err(), TensorError::GrammarError);
    assert_eq!(parse_tensor::<i32>("1]").unwrap_err(), TensorError::GrammarError);
    assert_eq!(parse_tensor::<i32>("[1][2]").unwrap_err(), TensorError::GrammarError);
}

#[test]
fn test_non_numeric_scalar_is_scalar_parse_error() {
    assert_eq!(parse_tensor::<i32>("[abc]").unwrap_err(), TensorError::ScalarParseError);
}

#[test]
fn test_scalar_overflow_is_scalar_parse_error() {
    assert_eq!(
        parse_tensor::<i64>("[9223372036854775808]").unwrap_err(),
        TensorError::ScalarParseError
    );
    assert_eq!(parse_tensor::<i32>("[2147483648]").unwrap_err(), TensorError::ScalarParseError);
}

#[test]
fn test_ragged_literal_is_ragged_shape_error() {
    assert_eq!(
        parse_tensor::<i32>("[[1,2],[3]]").unwrap_err(),
        TensorError::RaggedShapeError
    );
}

#[test]
fn test_flat_index_bounds() {
    let t = parse_tensor::<i32>("[5,6,7]").unwrap();
    assert_eq!(t.flat_index(2).unwrap(), 7);
    assert_eq!(t.flat_index(3).unwrap_err(), TensorError::IndexOutOfRange);
}

#[test]
fn test_index_out_of_range() {
    let t = parse_tensor::<i32>("[[1,2],[3,4]]").unwrap();
    assert_eq!(t.index(&[1, 1]).unwrap(), 4);
    assert_eq!(t.index(&[2, 0]).unwrap_err(), TensorError::IndexOutOfRange);
}

#[test]
fn test_grammar_adapter_builds_the_tree() {
    let node = n_tensor::N::parse("[1, [2]]").unwrap();
    match node {
        n_tensor::Node::Composite(children) => {
            assert_eq!(children.len(), 2);
            match &children[0] {
                n_tensor::Node::Scalar(token) => assert_eq!(token.as_slice(), b"1"),
                _ => panic!("first child should be a scalar"),
            }
            match &children[1] {
                n_tensor::Node::Composite(inner) => assert_eq!(inner.len(), 1),
                _ => panic!("second child should be a composite"),
            }
        },
        _ => panic!("the literal is a composite"),
    }
    assert_eq!(n_tensor::N::parse("[1,2").unwrap_err(), TensorError::GrammarError);
}
