//! Errors, and checked variants of tensor operations.
use vstd::prelude::*;
use vstd::string::StringExecFns;
use crate::number::Number;
use crate::tensor;
use crate::tensor::{copy_slice, count_of, Tensor};
use crate::text;
use crate::text::{decimal, list};

verus! {

/// What can go wrong.
#[derive(Debug, Clone)]
#[non_exhaustive]
pub enum RustNnError {
    /// Two shapes do not go together.
    ShapeMismatch {
        op: &'static str,
        expected: Vec<usize>,
        actual: Vec<usize>,
        detail: &'static str,
    },
    /// A tensor has the wrong number of axes.
    InvalidNdims { op: &'static str, expected: usize, actual: usize },
    /// An input is not acceptable.
    InvalidInput { op: &'static str, msg: String },
    /// An index lies outside a tensor.
    IndexOutOfBounds { op: &'static str, index: Vec<usize>, shape: Vec<usize> },
    /// A tensor without elements where one with elements is needed.
    EmptyTensor { op: &'static str },
    /// Saving or restoring failed.
    Serialization(String),
    /// A device failed.
    DeviceError(String),
    /// Loading data failed.
    DataLoad(String),
}

/// A result or an error.
pub type Result<T> = std::result::Result<T, RustNnError>;

/// The error is a shape mismatch with these parts.
pub open spec fn is_mismatch(
    e: RustNnError,
    op: &str,
    expected: Seq<usize>,
    actual: Seq<usize>,
    detail: &str,
) -> bool {
    e matches RustNnError::ShapeMismatch { op: o, expected: x, actual: a, detail: d } && o == op
        && x@ == expected && a@ == actual && d == detail
}

impl RustNnError {
    /// A shape mismatch.
    pub fn shape_mismatch(
        op: &'static str,
        expected: &[usize],
        actual: &[usize],
        detail: &'static str,
    ) -> (r: Self)
        ensures
            is_mismatch(r, op, expected@, actual@, detail),
    {
        RustNnError::ShapeMismatch {
            op,
            expected: copy_slice(expected),
            actual: copy_slice(actual),
            detail,
        }
    }

    /// A wrong number of axes.
    pub fn invalid_ndims(op: &'static str, expected: usize, actual: usize) -> (r: Self)
        ensures
            r == (RustNnError::InvalidNdims { op, expected, actual }),
    {
        RustNnError::InvalidNdims { op, expected, actual }
    }

    /// What is said of the error.
    pub open spec fn spec_message(&self) -> Seq<char> {
        match *self {
            RustNnError::ShapeMismatch { op, expected, actual, detail } => op@
                + ": shape mismatch - expected "@ + text::listed(expected@) + ", got "@
                + text::listed(actual@) + ". "@ + detail@,
            RustNnError::InvalidNdims { op, expected, actual } => op@ + ": expected "@
                + text::digits(expected as nat) + " dimensions, got "@ + text::digits(
                actual as nat,
            ),
            RustNnError::InvalidInput { op, msg } => op@ + ": invalid input - "@ + msg@,
            RustNnError::IndexOutOfBounds { op, index, shape } => op@ + ": index "@
                + text::listed(index@) + " is out of bounds for shape "@ + text::listed(shape@),
            RustNnError::EmptyTensor { op } => op@ + ": input tensor is empty"@,
            RustNnError::Serialization(msg) => "serialization error: "@ + msg@,
            RustNnError::DeviceError(msg) => "device error: "@ + msg@,
            RustNnError::DataLoad(msg) => "data loading error: "@ + msg@,
        }
    }

    /// What is said of the error.
    pub fn message(&self) -> (r: String)
        ensures
            r@ == self.spec_message(),
    {
        match self {
            RustNnError::ShapeMismatch { op, expected, actual, detail } => String::from_str(
                op,
            ).concat(": shape mismatch - expected ").concat(list(expected).as_str()).concat(
                ", got ",
            ).concat(list(actual).as_str()).concat(". ").concat(detail),
            RustNnError::InvalidNdims { op, expected, actual } => String::from_str(op).concat(
                ": expected ",
            ).concat(decimal(*expected as u64).as_str()).concat(" dimensions, got ").concat(
                decimal(*actual as u64).as_str(),
            ),
            RustNnError::InvalidInput { op, msg } => String::from_str(op).concat(
                ": invalid input - ",
            ).concat(msg.as_str()),
            RustNnError::IndexOutOfBounds { op, index, shape } => String::from_str(op).concat(
                ": index ",
            ).concat(list(index).as_str()).concat(" is out of bounds for shape ").concat(
                list(shape).as_str(),
            ),
            RustNnError::EmptyTensor { op } => String::from_str(op).concat(
                ": input tensor is empty",
            ),
            RustNnError::Serialization(msg) => String::from_str("serialization error: ").concat(
                msg.as_str(),
            ),
            RustNnError::DeviceError(msg) => String::from_str("device error: ").concat(
                msg.as_str(),
            ),
            RustNnError::DataLoad(msg) => String::from_str("data loading error: ").concat(
                msg.as_str(),
            ),
        }
    }
}

/// An invalid input with the given message.
pub fn from_io(op: &'static str, e: &str) -> (r: RustNnError)
    ensures
        r matches RustNnError::InvalidInput { op: o, msg } && o == op && msg@ == e@,
{
    RustNnError::InvalidInput { op, msg: String::from_str(e) }
}

/// Why two tensors cannot be multiplied, if they cannot.
pub open spec fn matmul_refused<S>(a: &Tensor<S>, b: &Tensor<S>, e: RustNnError) -> bool {
    if a.shape@.len() != 2 {
        e == (RustNnError::InvalidNdims {
            op: "checked_matmul",
            expected: 2,
            actual: a.shape@.len() as usize,
        })
    } else if b.shape@.len() != 2 {
        e == (RustNnError::InvalidNdims {
            op: "checked_matmul",
            expected: 2,
            actual: b.shape@.len() as usize,
        })
    } else {
        a.shape@[1] != b.shape@[0] && is_mismatch(
            e,
            "checked_matmul",
            seq![a.shape@[1]],
            seq![b.shape@[0]],
            "A's columns must equal B's rows for A[m,k] @ B[k,n]",
        )
    }
}

/// The product of two matrices, or an error where their shapes do not allow it.
pub fn checked_matmul<S: Number>(a: &Tensor<S>, b: &Tensor<S>) -> (r: Result<Tensor<S>>)
    requires
        a.wf(),
        b.wf(),
        a@.is_matrix() && b@.is_matrix() && a@.shape[1] == b@.shape[0] ==> tensor::matmul_fits(
            a@,
            b@,
        ),
    ensures
        r is Ok <==> a@.is_matrix() && b@.is_matrix() && a@.shape[1] == b@.shape[0],
        match r {
            Ok(t) => t.wf() && t@ == tensor::matmul_value(a@, b@),
            Err(e) => matmul_refused(a, b, e),
        },
{
    let n: usize = a.shape.len();
    if n != 2 {
        return Err(RustNnError::invalid_ndims("checked_matmul", 2, n));
    }
    let n: usize = b.shape.len();
    if n != 2 {
        return Err(RustNnError::invalid_ndims("checked_matmul", 2, n));
    }
    if a.shape[1] != b.shape[0] {
        let expected: Vec<usize> = vec![a.shape[1]];
        let actual: Vec<usize> = vec![b.shape[0]];
        assert(expected@ =~= seq![a.shape@[1]]);
        assert(actual@ =~= seq![b.shape@[0]]);
        return Err(
            RustNnError::shape_mismatch(
                "checked_matmul",
                &expected,
                &actual,
                "A's columns must equal B's rows for A[m,k] @ B[k,n]",
            ),
        );
    }
    Ok(a.matmul(b))
}

/// The elements in another shape, or an error where it has another number of elements.
pub fn checked_reshape<S: Number>(tensor: &Tensor<S>, shape: &[usize]) -> (r: Result<Tensor<S>>)
    requires
        tensor.wf(),
        tensor::countable(shape@),
    ensures
        r is Ok <==> tensor::volume(tensor.shape@) == tensor::volume(shape@),
        match r {
            Ok(t) => t.wf() && t.data@ == tensor.data@ && t.shape@ == shape@,
            Err(e) => is_mismatch(
                e,
                "checked_reshape",
                seq![tensor::volume(tensor.shape@) as usize],
                seq![tensor::volume(shape@) as usize],
                "total element count must be preserved",
            ),
        },
{
    let old_count: usize = count_of(&tensor.shape);
    let new_count: usize = count_of(shape);
    if old_count != new_count {
        let expected: Vec<usize> = vec![old_count];
        let actual: Vec<usize> = vec![new_count];
        assert(expected@ =~= seq![old_count]);
        assert(actual@ =~= seq![new_count]);
        return Err(
            RustNnError::shape_mismatch(
                "checked_reshape",
                &expected,
                &actual,
                "total element count must be preserved",
            ),
        );
    }
    Ok(tensor.reshape(shape))
}

/// The axis at distance `i` from the last, or one beyond the first.
pub open spec fn axis_from_last(shape: Seq<usize>, i: int) -> usize {
    if i < shape.len() {
        shape[shape.len() - 1 - i]
    } else {
        1
    }
}

/// Two axes go together.
pub open spec fn axes_fit(a: Seq<usize>, b: Seq<usize>, i: int) -> bool {
    let (x, y) = (axis_from_last(a, i), axis_from_last(b, i));
    x == y || x == 1 || y == 1
}

/// Shapes go together exactly where each pair of axes from the last does.
proof fn lemma_axes(a: Seq<usize>, b: Seq<usize>)
    ensures
        tensor::broadcastable(a, b) <==> forall|i: int| 0 <= i ==> #[trigger] axes_fit(a, b, i),
    decreases a.len(),
{
    if a.len() > 0 && b.len() > 0 {
        let (aa, bb) = (a.drop_last(), b.drop_last());
        lemma_axes(aa, bb);
        assert forall|i: int| 0 <= i implies axes_fit(aa, bb, i) == #[trigger] axes_fit(
            a,
            b,
            i + 1,
        ) by {}
        assert(axes_fit(a, b, 0) <==> (a.last() == b.last() || a.last() == 1 || b.last() == 1));
        if tensor::broadcastable(a, b) {
            assert forall|i: int| 0 <= i implies #[trigger] axes_fit(a, b, i) by {
                if i > 0 {
                    assert(axes_fit(aa, bb, i - 1) == axes_fit(a, b, (i - 1) + 1));
                }
            }
        } else if forall|i: int| 0 <= i ==> #[trigger] axes_fit(a, b, i) {
            assert(axes_fit(a, b, 0));
            assert forall|i: int| 0 <= i implies #[trigger] axes_fit(aa, bb, i) by {
                assert(axes_fit(aa, bb, i) == axes_fit(a, b, i + 1));
            }
        }
    }
}

/// The sum of two tensors, or an error where their shapes do not go together.
pub fn checked_add<S: Number>(a: &Tensor<S>, b: &Tensor<S>) -> (r: Result<Tensor<S>>)
    requires
        a.wf(),
        b.wf(),
        tensor::broadcastable(a.shape@, b.shape@) ==> tensor::zips(a@, b@),
    ensures
        r is Ok <==> tensor::broadcastable(a.shape@, b.shape@),
        match r {
            Ok(t) => t.wf() && t@ == tensor::zipped(tensor::Op::Add, a@, b@),
            Err(e) => is_mismatch(
                e,
                "checked_add",
                a.shape@,
                b.shape@,
                "shapes are not broadcast-compatible",
            ),
        },
{
    let n: usize = a.shape.len();
    let m: usize = b.shape.len();
    let max_dims: usize = if n < m {
        m
    } else {
        n
    };
    proof {
        lemma_axes(a.shape@, b.shape@);
    }
    for i in 0..max_dims
        invariant
            n == a.shape@.len(),
            m == b.shape@.len(),
            tensor::broadcastable(a.shape@, b.shape@) <==> forall|k: int|
                0 <= k ==> #[trigger] axes_fit(a.shape@, b.shape@, k),
            forall|k: int| 0 <= k < i ==> #[trigger] axes_fit(a.shape@, b.shape@, k),
    {
        let a_dim: usize = if i < n {
            a.shape[n - 1 - i]
        } else {
            1
        };
        let b_dim: usize = if i < m {
            b.shape[m - 1 - i]
        } else {
            1
        };
        if a_dim != b_dim && a_dim != 1 && b_dim != 1 {
            assert(!axes_fit(a.shape@, b.shape@, i as int));
            return Err(
                RustNnError::shape_mismatch(
                    "checked_add",
                    &a.shape,
                    &b.shape,
                    "shapes are not broadcast-compatible",
                ),
            );
        }
    }
    Ok(a.add(b))
}

/// Accepts a tensor with the expected number of axes only.
pub fn validate_ndims<S: Number>(
    tensor: &Tensor<S>,
    op: &'static str,
    expected_dims: usize,
) -> (r: Result<()>)
    ensures
        r is Ok <==> tensor.shape@.len() == expected_dims,
        r matches Err(e) ==> e == (RustNnError::InvalidNdims {
            op,
            expected: expected_dims,
            actual: tensor.shape@.len() as usize,
        }),
{
    let actual: usize = tensor.ndim();
    if actual != expected_dims {
        return Err(RustNnError::invalid_ndims(op, expected_dims, actual));
    }
    Ok(())
}

/// Accepts a tensor with elements only.
pub fn validate_non_empty<S: Number>(tensor: &Tensor<S>, op: &'static str) -> (r: Result<()>)
    ensures
        r is Ok <==> tensor.data@.len() > 0,
        r matches Err(e) ==> e == (RustNnError::EmptyTensor { op }),
{
    if tensor.is_empty() {
        return Err(RustNnError::EmptyTensor { op });
    }
    Ok(())
}

} // verus!
