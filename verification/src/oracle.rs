use vstd::prelude::*;
use crate::cnf::{pos_lit, neg_lit, all_sat};
use rustsat::solvers::Solve;

verus! {

#[verifier::external_type_specification]
#[verifier::external_body]
pub struct ExAssignment(rustsat::types::Assignment);

/// A growing collection of CNF clauses over freshly allocated variables,
/// backed by rustsat's `SatInstance`. Verus sees the instance only through
/// the named contents `instance_clauses` and `instance_n_vars` and the
/// trusted wrappers below; rustsat's generic variable-manager bound keeps the
/// type itself from being declared to Verus directly.
#[verifier::external_body]
pub struct CnfInstance {
    inner: rustsat::instances::SatInstance,
}

/// One session with the SAT oracle, backed by rustsat-batsat's `BasicSolver`
/// (the BatSat engine behind rustsat's `Solve` interface). Verus sees it only
/// through the named contents `solver_clauses` and `solver_model` and the
/// trusted wrappers below.
#[verifier::external_body]
pub struct Oracle {
    inner: rustsat_batsat::BasicSolver,
}

/// The clauses the instance holds, as signed variable identifiers: `v + 1`
/// for variable `v` asserted, `-(v + 1)` for it denied.
pub uninterp spec fn instance_clauses(inst: CnfInstance) -> Seq<Seq<int>>;

/// How many variables the instance's variable manager has handed out.
pub uninterp spec fn instance_n_vars(inst: CnfInstance) -> int;

/// The clauses loaded into the oracle, in the same signed form.
pub uninterp spec fn solver_clauses(s: Oracle) -> Seq<Seq<int>>;

/// The variables the oracle's model makes true.
pub uninterp spec fn solver_model(s: Oracle) -> Set<int>;

/// The variables an assignment makes true.
pub uninterp spec fn assignment_true_vars(a: rustsat::types::Assignment) -> Set<int>;

/// A variable index every wrapper keeps well below rustsat's `Var::MAX_IDX`,
/// so that no literal constructor can panic.
pub open spec fn small(n: int) -> bool {
    n < 0x1000_0000
}

/// Relies on rustsat's `SatInstance::new`: a fresh instance holds no clause,
/// and its basic variable manager has handed out no variable.
#[verifier::external_body]
pub fn inst_new() -> (inst: CnfInstance)
    ensures
        instance_clauses(inst) == Seq::<Seq<int>>::empty(),
        instance_n_vars(inst) == 0,
{
    CnfInstance { inner: rustsat::instances::SatInstance::new() }
}

/// Relies on rustsat's `SatInstance::new_lit` with the basic variable manager:
/// it returns the positive literal of the next fresh variable, whose index
/// counts up from zero, and touches no clause.
#[verifier::external_body]
pub fn inst_new_var(inst: &mut CnfInstance) -> (v: usize)
    requires
        small(instance_n_vars(*old(inst))),
    ensures
        v as int == instance_n_vars(*old(inst)),
        instance_n_vars(*final(inst)) == instance_n_vars(*old(inst)) + 1,
        instance_clauses(*final(inst)) == instance_clauses(*old(inst)),
{
    inst.inner.new_lit().var().idx()
}

/// Relies on rustsat's `SatInstance::add_unit`: it appends the one-literal
/// clause; a variable already handed out leaves the manager unchanged.
#[verifier::external_body]
pub fn inst_add_unit(inst: &mut CnfInstance, v: usize)
    requires
        (v as int) < instance_n_vars(*old(inst)),
        small(instance_n_vars(*old(inst))),
    ensures
        instance_clauses(*final(inst)) == instance_clauses(*old(inst)).push(
            seq![pos_lit(v as int)],
        ),
        instance_n_vars(*final(inst)) == instance_n_vars(*old(inst)),
{
    inst.inner.add_unit(rustsat::types::Lit::positive(v as u32));
}

/// Relies on rustsat's `SatInstance::add_binary`: it appends the two-literal
/// clause, here of two denied variables.
#[verifier::external_body]
pub fn inst_add_pair_neg(inst: &mut CnfInstance, v1: usize, v2: usize)
    requires
        (v1 as int) < instance_n_vars(*old(inst)),
        (v2 as int) < instance_n_vars(*old(inst)),
        small(instance_n_vars(*old(inst))),
    ensures
        instance_clauses(*final(inst)) == instance_clauses(*old(inst)).push(
            seq![neg_lit(v1 as int), neg_lit(v2 as int)],
        ),
        instance_n_vars(*final(inst)) == instance_n_vars(*old(inst)),
{
    inst.inner.add_binary(
        rustsat::types::Lit::negative(v1 as u32),
        rustsat::types::Lit::negative(v2 as u32),
    );
}

/// Relies on rustsat's `SatInstance::add_nary`: it appends the clause made of
/// the given literals in order, here the listed variables asserted.
#[verifier::external_body]
pub fn inst_add_clause_pos(inst: &mut CnfInstance, vs: &Vec<usize>)
    requires
        forall|i: int| 0 <= i < vs@.len() ==> #[trigger] vs@[i] < instance_n_vars(*old(inst)),
        small(instance_n_vars(*old(inst))),
    ensures
        instance_clauses(*final(inst)) == instance_clauses(*old(inst)).push(
            Seq::new(vs@.len(), |i: int| pos_lit(vs@[i] as int)),
        ),
        instance_n_vars(*final(inst)) == instance_n_vars(*old(inst)),
{
    let lits: Vec<rustsat::types::Lit> = vs.iter().map(
        |v: &usize| rustsat::types::Lit::positive(*v as u32),
    ).collect();
    inst.inner.add_nary(&lits);
}

/// Relies on rustsat's `SatInstance::n_clauses`.
#[verifier::external_body]
pub fn inst_n_clauses(inst: &CnfInstance) -> (n: usize)
    ensures
        n as int == instance_clauses(*inst).len(),
{
    inst.inner.n_clauses()
}

/// The oracle's terminal verdict for one solve.
pub enum Verdict {
    Sat,
    Unsat,
    Interrupted,
}

/// Relies on rustsat-batsat's derived `Default`: a fresh solver holds no
/// clauses.
#[verifier::external_body]
pub fn oracle_new() -> (s: Oracle)
    ensures
        solver_clauses(s) == Seq::<Seq<int>>::empty(),
{
    Oracle { inner: rustsat_batsat::BasicSolver::default() }
}

/// Relies on rustsat's `SatInstance::into_cnf` and `Solve::add_cnf`: an
/// instance that holds only clauses converts to exactly those clauses, and on
/// success the solver has stored them after its own.
#[verifier::external_body]
pub fn oracle_load(s: &mut Oracle, inst: &CnfInstance) -> (ok: bool)
    ensures
        ok ==> solver_clauses(*final(s)) == solver_clauses(*old(s)) + instance_clauses(*inst),
{
    let cnf = inst.inner.clone().into_cnf().0;
    s.inner.add_cnf(cnf).is_ok()
}

/// Relies on rustsat's `Solve::solve` for BatSat: `Sat` means the solver found
/// a model of its clauses, `Unsat` that no assignment of truth values
/// satisfies them all; anything else is reported as an interruption.
#[verifier::external_body]
pub fn oracle_run(s: &mut Oracle) -> (v: Verdict)
    ensures
        solver_clauses(*final(s)) == solver_clauses(*old(s)),
        v is Sat ==> all_sat(solver_model(*final(s)), solver_clauses(*final(s))),
        v is Unsat ==> forall|t: Set<int>| !all_sat(t, solver_clauses(*final(s))),
{
    match s.inner.solve() {
        Ok(rustsat::solvers::SolverResult::Sat) => Verdict::Sat,
        Ok(rustsat::solvers::SolverResult::Unsat) => Verdict::Unsat,
        _ => Verdict::Interrupted,
    }
}

/// Relies on rustsat's `Solve::full_solution` for BatSat: after a `Sat`
/// verdict it returns the model's truth value for every variable the solver
/// knows; in any other state it reports an error, given back here as `None`.
#[verifier::external_body]
pub fn oracle_solution(s: &Oracle) -> (r: Option<rustsat::types::Assignment>)
    ensures
        (match r {
            Some(a) => assignment_true_vars(a) == solver_model(*s),
            None => true,
        }),
{
    match s.inner.full_solution() {
        Ok(a) => Some(a),
        Err(_) => None,
    }
}

/// Relies on rustsat's `Assignment::var_value`: it answers `True` exactly for
/// the variables the assignment makes true, and never panics, reporting
/// variables beyond its range as unassigned.
#[verifier::external_body]
pub fn assignment_var_true(a: &rustsat::types::Assignment, v: usize) -> (b: bool)
    requires
        small(v as int),
    ensures
        b == assignment_true_vars(*a).contains(v as int),
{
    a.var_value(rustsat::types::Var::new(v as u32)) == rustsat::types::TernaryVal::True
}

} // verus!
