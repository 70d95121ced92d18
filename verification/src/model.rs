use vstd::prelude::*;

verus! {

/// The kind of number that a model takes or gives.
#[derive(Clone, Copy, Debug, PartialEq, Eq, Structural)]
pub enum ModelDataType {
    Int,
    Float,
}

/// Where in a multi-layer index a model may stand.
#[derive(Clone, Copy, Debug, PartialEq, Eq, Structural)]
pub enum ModelRestriction {
    /// Any layer.
    Unrestricted,
    /// Only the first layer.
    MustBeTop,
    /// Only the last layer.
    MustBeBottom,
}

/// One trained constant of a model.
#[derive(Clone, Debug, PartialEq, Eq)]
pub enum ModelParam {
    Int(u64),
    Int32Array(Vec<u32>),
}

/// What every model family offers to whoever assembles an index from
/// models. Each family states the values for its models.
pub trait Model {
    /// The kind of number that the model takes.
    fn input_type(&self) -> ModelDataType;

    /// The kind of number that the model gives.
    fn output_type(&self) -> ModelDataType;

    /// The trained constants, in the order in which the generated code
    /// takes them.
    fn params(&self) -> Vec<ModelParam>;

    /// Source text of a function in C that computes the model's estimate.
    fn code(&self) -> String;

    /// The name of the function that `code` defines.
    fn function_name(&self) -> String;

    /// Whether an estimate must be clamped before it is used as an index.
    fn needs_bounds_check(&self) -> bool;

    /// Where in a multi-layer index the model may stand.
    fn restriction(&self) -> ModelRestriction;

    /// The largest absolute error of the model on its training set, where
    /// it was measured.
    fn error_bound(&self) -> Option<u64>;
}

} // verus!
