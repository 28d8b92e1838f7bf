//! Constraint algebra for a STARK prover over the 252-bit Proth prime field:
//! symbolic expressions in the indeterminate and in trace cells, their
//! degrees and evaluations, and the combination of rational constraints into
//! one composition of bounded degree.

pub mod modular;
pub mod field;
pub mod error;
pub mod polynomial;
pub mod expression;
pub mod sparse_polynomial_expression;
pub mod fraction;
pub mod trace_multinomial;
pub mod domain;
pub mod constraint;
pub mod grouping;
pub mod agreement;
pub mod bound;
pub mod trace_table;
pub mod exchange;

pub use constraint::{combine_constraints, Constraint, GroupedConstraints};
pub use error::Error;
pub use expression::{Expression, Operation, Other, Term};
pub use field::FieldElement;
pub use fraction::Fraction;
pub use polynomial::dense::DensePolynomial;
pub use polynomial::sparse::SparsePolynomial;
pub use sparse_polynomial_expression::{Constant, SparsePolynomialExpression, X};
pub use trace_multinomial::TraceMultinomial;
pub use trace_table::TraceTable;
