use vstd::prelude::*;

verus! {

/// A unique identifier for a task.
#[derive(PartialEq, Eq, Structural, Clone, Copy, Hash, Debug)]
pub struct TaskId(pub u128);

/// Relies on `rand::random::<u128>`: a value drawn from the thread-local generator.
/// Nothing is promised of it.
#[verifier::external_body]
fn random_u128() -> (r: u128) {
    rand::random::<u128>()
}

impl TaskId {
    /// Generates a new random `TaskId`.
    pub fn generate() -> (r: TaskId) {
        TaskId(random_u128())
    }

    /// The identifier as a decimal number.
    pub fn to_string(&self) -> (r: String) {
        self.0.to_string()
    }
}

} // verus!
