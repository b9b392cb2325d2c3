//! Permission-check outcomes: the default denial error, and the decisions of the
//! `and` / `or` combinators of two checks.

use vstd::prelude::*;

verus! {

/// The error of a failed permission check.
#[derive(Debug, Clone, Copy, PartialEq, Eq, Structural)]
pub enum PermissionCheckError {
    Forbidden,
}

/// An error type that has a value standing for "permission denied".
pub trait PermissionDenied: Sized {
    fn permission_denied() -> Self;
}

impl PermissionDenied for PermissionCheckError {
    fn permission_denied() -> (r: Self)
        ensures
            r == PermissionCheckError::Forbidden,
    {
        PermissionCheckError::Forbidden
    }
}

/// Where a combined check stands once its left check has answered: decided, or
/// waiting for the right check, whose answer is then the answer.
#[derive(Debug)]
pub enum CombinedStep<E> {
    Decided(Result<bool, E>),
    AskRight,
}

/// The answer of a combined check, given where it stood after its left check and
/// what its right check answers.
pub open spec fn combined_answer<E>(step: CombinedStep<E>, right: Result<bool, E>) -> Result<
    bool,
    E,
> {
    match step {
        CombinedStep::Decided(r) => r,
        CombinedStep::AskRight => right,
    }
}

/// Both checks must pass. The left check runs first; the right one runs only
/// when the left one passed.
pub struct And<L, R> {
    left: L,
    right: R,
}

/// One of the checks must pass. The left check runs first; the right one runs
/// only when the left one did not pass.
pub struct Or<L, R> {
    left: L,
    right: R,
}

impl<L, R> And<L, R> {
    pub closed spec fn left_check(&self) -> L {
        self.left
    }

    pub closed spec fn right_check(&self) -> R {
        self.right
    }

    /// Combines two checks.
    pub fn new(left: L, right: R) -> (r: Self)
        ensures
            r.left_check() == left,
            r.right_check() == right,
    {
        And { left, right }
    }

    /// The check that runs first.
    pub fn left(&self) -> (r: &L)
        ensures
            *r == self.left_check(),
    {
        &self.left
    }

    /// The check that runs second.
    pub fn right(&self) -> (r: &R)
        ensures
            *r == self.right_check(),
    {
        &self.right
    }

    /// Where the combination stands once the left check has answered `left`: an
    /// error or a refusal decides it; a pass hands over to the right check.
    pub fn after_left<E>(left: Result<bool, E>) -> (step: CombinedStep<E>)
        ensures
            step == and_step(left),
    {
        match left {
            Ok(true) => CombinedStep::AskRight,
            Ok(false) => CombinedStep::Decided(Ok(false)),
            Err(e) => CombinedStep::Decided(Err(e)),
        }
    }
}

impl<L, R> Or<L, R> {
    pub closed spec fn left_check(&self) -> L {
        self.left
    }

    pub closed spec fn right_check(&self) -> R {
        self.right
    }

    /// Combines two checks.
    pub fn new(left: L, right: R) -> (r: Self)
        ensures
            r.left_check() == left,
            r.right_check() == right,
    {
        Or { left, right }
    }

    /// The check that runs first.
    pub fn left(&self) -> (r: &L)
        ensures
            *r == self.left_check(),
    {
        &self.left
    }

    /// The check that runs second.
    pub fn right(&self) -> (r: &R)
        ensures
            *r == self.right_check(),
    {
        &self.right
    }

    /// Where the combination stands once the left check has answered `left`: an
    /// error or a pass decides it; a refusal hands over to the right check.
    pub fn after_left<E>(left: Result<bool, E>) -> (step: CombinedStep<E>)
        ensures
            step == or_step(left),
    {
        match left {
            Ok(true) => CombinedStep::Decided(Ok(true)),
            Ok(false) => CombinedStep::AskRight,
            Err(e) => CombinedStep::Decided(Err(e)),
        }
    }
}

/// Where `and` stands after its left check: a pass asks the right check;
/// anything else is the answer.
pub open spec fn and_step<E>(left: Result<bool, E>) -> CombinedStep<E> {
    if left == Ok::<bool, E>(true) {
        CombinedStep::AskRight
    } else {
        CombinedStep::Decided(left)
    }
}

/// Where `or` stands after its left check: a refusal asks the right check;
/// anything else is the answer.
pub open spec fn or_step<E>(left: Result<bool, E>) -> CombinedStep<E> {
    if left == Ok::<bool, E>(false) {
        CombinedStep::AskRight
    } else {
        CombinedStep::Decided(left)
    }
}

/// `and` is the conjunction of two answers and `or` their disjunction; an error
/// of the left check is the answer of either, and the right check is consulted
/// only when the left one does not decide.
pub proof fn lemma_combinators<E>(left: Result<bool, E>, right: Result<bool, E>)
    ensures
        left is Ok && right is Ok ==> combined_answer(and_step(left), right) == Ok::<bool, E>(
            left->Ok_0 && right->Ok_0,
        ) && combined_answer(or_step(left), right) == Ok::<bool, E>(left->Ok_0 || right->Ok_0),
        left is Err ==> combined_answer(and_step(left), right) == left && combined_answer(
            or_step(left),
            right,
        ) == left,
        and_step(left) is AskRight <==> left == Ok::<bool, E>(true),
        or_step(left) is AskRight <==> left == Ok::<bool, E>(false),
{
}

} // verus!
