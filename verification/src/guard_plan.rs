//! The decisions of the `permissions` guard attribute: how its arguments are
//! read, where the request context comes from, which error a refusal returns,
//! and how the checks it inserts before a function body behave.
//!
//! Expressions are carried through as an opaque `E`; an assignment argument
//! `target = value` records its target when that is a single identifier.

use vstd::prelude::*;

use crate::text::same_text;

verus! {

/// The name of the context parameter that the guard inserts when the function
/// has no context of the expected type.
pub const DEFAULT_CONTEXT_NAME: &'static str = "db";

/// The path of the type of the inserted context parameter.
pub const DEFAULT_CONTEXT_TYPE: &'static str = "crate::database::Database";

/// The last segment of [`DEFAULT_CONTEXT_TYPE`]: a parameter whose type path
/// ends in it serves as the context.
pub const DEFAULT_CONTEXT_TYPE_LAST: &'static str = "Database";

/// One argument of the guard attribute.
#[derive(Debug, Clone)]
pub enum GuardArg<E> {
    /// `target = value`; `target` is `Some` when it is a single identifier.
    Assign { target: Option<String>, value: E },
    /// Any other expression: a permission to check.
    Check(E),
}

/// The guard's arguments, sorted out.
#[derive(Debug, Clone)]
pub struct GuardArgs<E> {
    pub context: Option<E>,
    pub error: Option<E>,
    pub permissions: Vec<E>,
}

/// The first argument that the guard refuses, by position.
#[derive(Debug, Clone, Copy, PartialEq, Eq, Structural)]
pub enum GuardArgsError {
    DuplicateContext { index: usize },
    DuplicateError { index: usize },
    UnsupportedAssignment { index: usize },
}

/// The message that reports a refused guard argument.
pub open spec fn guard_args_message(e: GuardArgsError) -> Seq<char> {
    match e {
        GuardArgsError::DuplicateContext { .. } => "duplicate `context = ...`"@,
        GuardArgsError::DuplicateError { .. } => "duplicate `error = ...`"@,
        GuardArgsError::UnsupportedAssignment { .. } => "unsupported assignment in `#[permissions(...)]`"@,
    }
}

impl GuardArgsError {
    /// The message that reports this error.
    pub fn message(&self) -> (r: &'static str)
        ensures
            r@ == guard_args_message(*self),
    {
        match self {
            GuardArgsError::DuplicateContext { .. } => "duplicate `context = ...`",
            GuardArgsError::DuplicateError { .. } => "duplicate `error = ...`",
            GuardArgsError::UnsupportedAssignment { .. } => "unsupported assignment in `#[permissions(...)]`",
        }
    }
}

/// The target of an assignment argument is the identifier `word`.
pub open spec fn targets(target: Option<String>, word: Seq<char>) -> bool {
    target matches Some(t) && t@ == word
}

/// The guard's arguments sorted out (context, error, permissions in order), or
/// the first one refused: a second `context = ..`, a second `error = ..`, or an
/// assignment to anything else.
pub open spec fn args_outcome<E>(args: Seq<GuardArg<E>>) -> Result<
    (Option<E>, Option<E>, Seq<E>),
    GuardArgsError,
>
    decreases args.len(),
{
    if args.len() == 0 {
        Ok((None, None, Seq::empty()))
    } else {
        let index = (args.len() - 1) as usize;
        match args_outcome(args.drop_last()) {
            Err(e) => Err(e),
            Ok((context, error, permissions)) => match args.last() {
                GuardArg::Check(p) => Ok((context, error, permissions.push(p))),
                GuardArg::Assign { target, value } => if targets(target, "context"@) {
                    if context is Some {
                        Err(GuardArgsError::DuplicateContext { index })
                    } else {
                        Ok((Some(value), error, permissions))
                    }
                } else if targets(target, "error"@) {
                    if error is Some {
                        Err(GuardArgsError::DuplicateError { index })
                    } else {
                        Ok((context, Some(value), permissions))
                    }
                } else {
                    Err(GuardArgsError::UnsupportedAssignment { index })
                },
            },
        }
    }
}

/// The argument is an assignment to the identifier `word`.
pub open spec fn assigns_to<E>(arg: GuardArg<E>, word: Seq<char>) -> bool {
    match arg {
        GuardArg::Assign { target, .. } => targets(target, word),
        GuardArg::Check(_) => false,
    }
}

/// The permission that an argument asks to check, if it is a check.
pub open spec fn checked<E>(arg: GuardArg<E>) -> Option<E> {
    match arg {
        GuardArg::Check(p) => Some(p),
        GuardArg::Assign { .. } => None,
    }
}

/// The value that an argument assigns, if it is an assignment.
pub open spec fn assigned<E>(arg: GuardArg<E>) -> Option<E> {
    match arg {
        GuardArg::Assign { value, .. } => Some(value),
        GuardArg::Check(_) => None,
    }
}

/// What sorting out the guard's arguments means. When they are accepted, the
/// permissions are the checks in order, every assignment sets `context` or
/// `error`, neither is set twice, and the context (the error) is the value of
/// the one assignment to it, or nothing without one. A refusal names an
/// argument that is a second `context = ..`, a second `error = ..`, or an
/// assignment to anything else.
pub proof fn lemma_args_outcome_meaning<E>(args: Seq<GuardArg<E>>)
    requires
        args.len() <= usize::MAX,
    ensures
        match args_outcome(args) {
            Ok((context, error, permissions)) => {
                &&& permissions == args.filter_map(|a: GuardArg<E>| checked(a))
                &&& forall|i: int|
                    0 <= i < args.len() && (#[trigger] args[i]) is Assign ==> assigns_to(
                        args[i],
                        "context"@,
                    ) || assigns_to(args[i], "error"@)
                &&& forall|i: int, j: int|
                    #![trigger args[i], args[j]]
                    0 <= i < j < args.len() && assigns_to(args[i], "context"@) ==> !assigns_to(
                        args[j],
                        "context"@,
                    )
                &&& forall|i: int, j: int|
                    #![trigger args[i], args[j]]
                    0 <= i < j < args.len() && assigns_to(args[i], "error"@) ==> !assigns_to(
                        args[j],
                        "error"@,
                    )
                &&& (context is None <==> forall|i: int|
                    0 <= i < args.len() ==> !assigns_to(#[trigger] args[i], "context"@))
                &&& (context is Some ==> exists|i: int|
                    0 <= i < args.len() && assigns_to(#[trigger] args[i], "context"@) && assigned(
                        args[i],
                    ) == context)
                &&& (error is None <==> forall|i: int|
                    0 <= i < args.len() ==> !assigns_to(#[trigger] args[i], "error"@))
                &&& (error is Some ==> exists|i: int|
                    0 <= i < args.len() && assigns_to(#[trigger] args[i], "error"@) && assigned(
                        args[i],
                    ) == error)
            },
            Err(GuardArgsError::DuplicateContext { index }) => index < args.len() && assigns_to(
                args[index as int],
                "context"@,
            ) && exists|j: int| 0 <= j < index && assigns_to(#[trigger] args[j], "context"@),
            Err(GuardArgsError::DuplicateError { index }) => index < args.len() && assigns_to(
                args[index as int],
                "error"@,
            ) && exists|j: int| 0 <= j < index && assigns_to(#[trigger] args[j], "error"@),
            Err(GuardArgsError::UnsupportedAssignment { index }) => index < args.len()
                && args[index as int] is Assign && !assigns_to(args[index as int], "context"@)
                && !assigns_to(args[index as int], "error"@),
        },
    decreases args.len(),
{
    if args.len() > 0 {
        let a0 = args.drop_last();
        let n = args.len() - 1;
        reveal_strlit("context");
        reveal_strlit("error");
        assert("context"@.len() != "error"@.len());
        lemma_args_outcome_meaning(a0);
        assert(args.last() == args[n]);
        assert forall|i: int| 0 <= i < n implies #[trigger] args[i] == a0[i] by {}
        match args_outcome(a0) {
            Err(e) => {
                match e {
                    GuardArgsError::DuplicateContext { index } => {
                        let j = choose|j: int| 0 <= j < index && assigns_to(#[trigger] a0[j], "context"@);
                        assert(args[j] == a0[j]);
                        assert(args[index as int] == a0[index as int]);
                    },
                    GuardArgsError::DuplicateError { index } => {
                        let j = choose|j: int| 0 <= j < index && assigns_to(#[trigger] a0[j], "error"@);
                        assert(args[j] == a0[j]);
                        assert(args[index as int] == a0[index as int]);
                    },
                    GuardArgsError::UnsupportedAssignment { index } => {
                        assert(args[index as int] == a0[index as int]);
                    },
                }
            },
            Ok((c, e, ps)) => {
                assert(forall|i: int| 0 <= i < n ==> args[i] == a0[i]);
                match args[n] {
                    GuardArg::Check(p) => {
                        assert(args.filter_map(|a: GuardArg<E>| checked(a)) == a0.filter_map(
                            |a: GuardArg<E>| checked(a),
                        ) + seq![p]);
                        assert(ps.push(p) =~= ps + seq![p]);
                    },
                    GuardArg::Assign { target, value } => {
                        assert(args.filter_map(|a: GuardArg<E>| checked(a)) == a0.filter_map(
                            |a: GuardArg<E>| checked(a),
                        ));
                        if targets(target, "context"@) {
                            if c is Some {
                                let j = choose|j: int|
                                    0 <= j < a0.len() && assigns_to(#[trigger] a0[j], "context"@)
                                        && assigned(a0[j]) == c;
                                assert(args[j] == a0[j]);
                            }
                        } else if targets(target, "error"@) {
                            if e is Some {
                                let j = choose|j: int|
                                    0 <= j < a0.len() && assigns_to(#[trigger] a0[j], "error"@)
                                        && assigned(a0[j]) == e;
                                assert(args[j] == a0[j]);
                            }
                        }
                    },
                }
            },
        }
    }
}

/// Whether `target` is the identifier `word`.
fn target_is(target: &Option<String>, word: &str) -> (r: bool)
    ensures
        r == targets(*target, word@),
{
    match target {
        Some(t) => same_text(t.as_str(), word),
        None => false,
    }
}

/// An error found for a prefix of the arguments is the error for all of them.
proof fn lemma_args_outcome_prefix<E>(args: Seq<GuardArg<E>>, k: int)
    requires
        0 <= k <= args.len(),
        args_outcome(args.take(k)) is Err,
    ensures
        args_outcome(args) == args_outcome(args.take(k)),
    decreases args.len() - k,
{
    if k < args.len() {
        assert(args.take(k + 1).drop_last() =~= args.take(k));
        lemma_args_outcome_prefix(args, k + 1);
    } else {
        assert(args.take(k) =~= args);
    }
}

/// Sorts out the guard's arguments: `context = ..` and `error = ..` at most once
/// each, any other assignment refused, and every other expression a permission
/// to check, in order.
pub fn parse_args<E>(args: Vec<GuardArg<E>>) -> (r: Result<GuardArgs<E>, GuardArgsError>)
    ensures
        match r {
            Ok(sorted) => args_outcome(args@) == Ok::<_, GuardArgsError>(
                (sorted.context, sorted.error, sorted.permissions@),
            ),
            Err(e) => args_outcome(args@) == Err::<(Option<E>, Option<E>, Seq<E>), _>(e),
        },
{
    let ghost given = args@;
    let count = args.len();
    let mut context: Option<E> = None;
    let mut error: Option<E> = None;
    let mut permissions: Vec<E> = Vec::new();
    let mut index: usize = 0;
    assert(given.take(0) =~= Seq::<GuardArg<E>>::empty());
    for arg in it: args.into_iter()
        invariant
            it.seq() == given,
            index == it.index(),
            index <= given.len(),
            given.len() == count,
            args_outcome(given.take(it.index() as int)) == Ok::<_, GuardArgsError>(
                (context, error, permissions@),
            ),
    {
        let ghost i = it.index() as int;
        assert(i < given.len());
        let ghost prefix = given.take(i + 1);
        assert(prefix.drop_last() =~= given.take(i));
        assert(prefix.last() == arg);
        match arg {
            GuardArg::Check(p) => {
                permissions.push(p);
            },
            GuardArg::Assign { target, value } => {
                if target_is(&target, "context") {
                    if context.is_some() {
                        proof {
                            lemma_args_outcome_prefix(given, i + 1);
                            assert(given.take(given.len() as int) =~= given);
                        }
                        return Err(GuardArgsError::DuplicateContext { index });
                    }
                    context = Some(value);
                } else if target_is(&target, "error") {
                    if error.is_some() {
                        proof {
                            lemma_args_outcome_prefix(given, i + 1);
                            assert(given.take(given.len() as int) =~= given);
                        }
                        return Err(GuardArgsError::DuplicateError { index });
                    }
                    error = Some(value);
                } else {
                    proof {
                        lemma_args_outcome_prefix(given, i + 1);
                        assert(given.take(given.len() as int) =~= given);
                    }
                    return Err(GuardArgsError::UnsupportedAssignment { index });
                }
            },
        }
        index = index + 1;
    }
    assert(given.take(given.len() as int) =~= given);
    Ok(GuardArgs { context, error, permissions })
}

/// A parameter of the guarded function, as far as the choice of context goes.
#[derive(Debug, Clone)]
pub struct FnParam {
    /// The parameter's name, when its pattern is a plain identifier.
    pub ident: Option<String>,
    /// The last segment of the parameter's type, when that type is a path.
    pub type_last: Option<String>,
}

/// Where the context of the checks comes from, when no `context = ..` is given.
#[derive(Debug, Clone, Copy, PartialEq, Eq, Structural)]
pub enum ContextParam {
    /// The parameter at this position.
    Existing { index: usize },
    /// A new first parameter [`DEFAULT_CONTEXT_NAME`] of type
    /// [`DEFAULT_CONTEXT_TYPE`].
    Inserted,
}

/// The parameter `p` is named by an identifier and its type path ends in
/// `expected_last`.
pub open spec fn serves_as_context(p: FnParam, expected_last: Seq<char>) -> bool {
    p.ident is Some && (p.type_last matches Some(t) && t@ == expected_last)
}

/// The first parameter that serves as context, or a new one.
pub open spec fn context_param(params: Seq<FnParam>, expected_last: Seq<char>) -> ContextParam {
    if exists|j: int| 0 <= j < params.len() && serves_as_context(#[trigger] params[j], expected_last) {
        let j = choose|j: int|
            0 <= j < params.len() && serves_as_context(#[trigger] params[j], expected_last) && forall|
                k: int,
            | 0 <= k < j ==> !serves_as_context(#[trigger] params[k], expected_last);
        ContextParam::Existing { index: j as usize }
    } else {
        ContextParam::Inserted
    }
}

/// Picks the context parameter: the first parameter named by an identifier
/// whose type path ends in `expected_last`, or else a new one.
pub fn ensure_typed_arg(params: &Vec<FnParam>, expected_last: &str) -> (r: ContextParam)
    ensures
        r == context_param(params@, expected_last@),
        match r {
            ContextParam::Existing { index } => index < params@.len() && serves_as_context(
                params@[index as int],
                expected_last@,
            ) && forall|k: int|
                0 <= k < index ==> !serves_as_context(#[trigger] params@[k], expected_last@),
            ContextParam::Inserted => forall|k: int|
                0 <= k < params@.len() ==> !serves_as_context(#[trigger] params@[k], expected_last@),
        },
{
    let n = params.len();
    for j in 0..n
        invariant
            n == params@.len(),
            forall|k: int| 0 <= k < j ==> !serves_as_context(#[trigger] params@[k], expected_last@),
    {
        let serves = match (&params[j].ident, &params[j].type_last) {
            (Some(_), Some(t)) => same_text(t.as_str(), expected_last),
            _ => false,
        };
        if serves {
            proof {
                let c = choose|c: int|
                    0 <= c < params@.len() && serves_as_context(#[trigger] params@[c], expected_last@)
                        && forall|k: int|
                        0 <= k < c ==> !serves_as_context(#[trigger] params@[k], expected_last@);
                if c < j {
                } else if c > j {
                    assert(!serves_as_context(params@[j as int], expected_last@));
                }
            }
            return ContextParam::Existing { index: j };
        }
    }
    ContextParam::Inserted
}

/// Where the context of the checks comes from.
#[derive(Debug, Clone)]
pub enum ContextSource<E> {
    /// The `context = ..` argument.
    Given(E),
    /// The parameter at this position.
    Param { index: usize },
    /// A new first parameter [`DEFAULT_CONTEXT_NAME`] of type
    /// [`DEFAULT_CONTEXT_TYPE`].
    Inserted,
}

/// The error that a refused check returns.
#[derive(Debug, Clone)]
pub enum DeniedError<E> {
    /// `PermissionDenied::permission_denied()` of the function's error type.
    PermissionDenied,
    /// The `error = ..` argument, converted with `Into`.
    Into(E),
}

/// What the guard inserts before the function body.
#[derive(Debug, Clone)]
pub struct GuardPlan<E> {
    pub context: ContextSource<E>,
    pub denied: DeniedError<E>,
    /// The permissions to check, in order.
    pub checks: Vec<E>,
}

/// The context that the plan uses, given the `context = ..` argument if any.
pub open spec fn planned_context<E>(given: Option<E>, params: Seq<FnParam>) -> ContextSource<E> {
    match given {
        Some(c) => ContextSource::Given(c),
        None => match context_param(params, DEFAULT_CONTEXT_TYPE_LAST@) {
            ContextParam::Existing { index } => ContextSource::Param { index },
            ContextParam::Inserted => ContextSource::Inserted,
        },
    }
}

/// The refusal error that the plan uses, given the `error = ..` argument if any.
pub open spec fn planned_denied<E>(given: Option<E>) -> DeniedError<E> {
    match given {
        Some(e) => DeniedError::Into(e),
        None => DeniedError::PermissionDenied,
    }
}

/// The guard's plan for a function with parameters `params`: the permissions to
/// check in order, the context (the `context = ..` argument, or the first
/// parameter whose type path ends in `Database`, or a new `db` parameter), and
/// the refusal error (the `error = ..` argument, or the default denial); or the
/// first refused argument.
pub fn plan_guard<E>(args: Vec<GuardArg<E>>, params: &Vec<FnParam>) -> (r: Result<
    GuardPlan<E>,
    GuardArgsError,
>)
    ensures
        match r {
            Ok(plan) => match args_outcome(args@) {
                Ok((context, error, permissions)) => plan.checks@ == permissions && plan.context
                    == planned_context(context, params@) && plan.denied == planned_denied(error),
                Err(_) => false,
            },
            Err(e) => args_outcome(args@) == Err::<(Option<E>, Option<E>, Seq<E>), _>(e),
        },
        r is Ok ==> match args_outcome(args@)->Ok_0.0 {
            Some(c) => r->Ok_0.context == ContextSource::<E>::Given(c),
            None => match r->Ok_0.context {
                ContextSource::Given(_) => false,
                ContextSource::Param { index } => index < params@.len() && serves_as_context(
                    params@[index as int],
                    DEFAULT_CONTEXT_TYPE_LAST@,
                ) && forall|k: int|
                    0 <= k < index ==> !serves_as_context(
                        #[trigger] params@[k],
                        DEFAULT_CONTEXT_TYPE_LAST@,
                    ),
                ContextSource::Inserted => forall|k: int|
                    0 <= k < params@.len() ==> !serves_as_context(
                        #[trigger] params@[k],
                        DEFAULT_CONTEXT_TYPE_LAST@,
                    ),
            },
        },
{
    let sorted = parse_args(args)?;
    let context = match sorted.context {
        Some(c) => ContextSource::Given(c),
        None => match ensure_typed_arg(params, DEFAULT_CONTEXT_TYPE_LAST) {
            ContextParam::Existing { index } => ContextSource::Param { index },
            ContextParam::Inserted => ContextSource::Inserted,
        },
    };
    let denied = match sorted.error {
        Some(e) => DeniedError::Into(e),
        None => DeniedError::PermissionDenied,
    };
    Ok(GuardPlan { context, denied, checks: sorted.permissions })
}

/// Where the guarded function stands after one check has answered.
#[derive(Debug)]
pub enum GuardStep<E> {
    /// The check passed: go on with the next check, or the body.
    Proceed,
    /// The check refused: return the refusal error.
    Refuse,
    /// The check failed: return its error.
    Fail(E),
}

/// The step after one answer: a pass proceeds, a refusal refuses, an error
/// fails with that error.
pub open spec fn guard_step_of<E>(answer: Result<bool, E>) -> GuardStep<E> {
    if answer == Ok::<bool, E>(true) {
        GuardStep::Proceed
    } else if answer == Ok::<bool, E>(false) {
        GuardStep::Refuse
    } else {
        GuardStep::Fail(answer->Err_0)
    }
}

/// Where the guarded function stands once a check has answered `answer`.
pub fn guard_step<E>(answer: Result<bool, E>) -> (r: GuardStep<E>)
    ensures
        r == guard_step_of(answer),
{
    match answer {
        Ok(true) => GuardStep::Proceed,
        Ok(false) => GuardStep::Refuse,
        Err(e) => GuardStep::Fail(e),
    }
}

/// Where the guarded function ends up after checks answering `answers` in order:
/// the first step that is not `Proceed`, or `Proceed` when they all pass.
pub open spec fn guard_outcome<E>(answers: Seq<Result<bool, E>>) -> GuardStep<E>
    decreases answers.len(),
{
    if answers.len() == 0 {
        GuardStep::Proceed
    } else {
        match guard_outcome(answers.drop_last()) {
            GuardStep::Proceed => guard_step_of(answers.last()),
            other => other,
        }
    }
}

/// The body of a guarded function runs exactly when every check passes; the
/// first check that does not pass decides what is returned, as `guard_step`
/// decides it.
pub proof fn lemma_guard_runs_body_iff_all_pass<E>(answers: Seq<Result<bool, E>>)
    ensures
        guard_outcome(answers) is Proceed <==> forall|i: int|
            0 <= i < answers.len() ==> #[trigger] answers[i] == Ok::<bool, E>(true),
        !(guard_outcome(answers) is Proceed) ==> exists|i: int|
            0 <= i < answers.len() && guard_outcome(answers) == guard_step_of(#[trigger] answers[i])
                && forall|k: int| 0 <= k < i ==> #[trigger] answers[k] == Ok::<bool, E>(true),
    decreases answers.len(),
{
    if answers.len() > 0 {
        let a0 = answers.drop_last();
        lemma_guard_runs_body_iff_all_pass(a0);
        let last = answers.len() - 1;
        assert(answers.last() == answers[last]);
        if guard_outcome(a0) is Proceed {
            assert forall|i: int| 0 <= i < last implies #[trigger] answers[i] == Ok::<bool, E>(true) by {
                assert(answers[i] == a0[i]);
            }
            if !(guard_outcome(answers) is Proceed) {
                assert(guard_outcome(answers) == guard_step_of(answers[last]));
            }
        } else {
            let i = choose|i: int|
                0 <= i < a0.len() && guard_outcome(a0) == guard_step_of(#[trigger] a0[i]) && forall|
                    k: int,
                | 0 <= k < i ==> #[trigger] a0[k] == Ok::<bool, E>(true);
            assert(answers[i] == a0[i]);
            assert forall|k: int| 0 <= k < i implies #[trigger] answers[k] == Ok::<bool, E>(true) by {
                assert(answers[k] == a0[k]);
            }
            assert(a0[i] != Ok::<bool, E>(true));
        }
    }
}

} // verus!
