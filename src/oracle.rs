//! The satisfiability oracle: a CaDiCaL-backed satoxid encoder over edge
//! literals, seen through the set of truth assignments that satisfy every
//! constraint added so far.
use vstd::prelude::*;

verus! {

/// An edge literal `(giver, receiver)`: both are indices into the roster.
pub type Edge = (usize, usize);

/// Exactly one of the listed literals is true in `m`.
pub open spec fn exactly_one(m: Set<Edge>, lits: Seq<Edge>) -> bool {
    exists|i: int|
        0 <= i < lits.len() && #[trigger] m.contains(lits[i]) && forall|j: int|
            0 <= j < lits.len() && j != i ==> !#[trigger] m.contains(lits[j])
}

/// None of the listed literals is true in `m`.
pub open spec fn none_of(m: Set<Edge>, lits: Seq<Edge>) -> bool {
    forall|i: int| 0 <= i < lits.len() ==> !#[trigger] m.contains(lits[i])
}

/// Every listed literal is true in `m`.
pub open spec fn all_of(m: Set<Edge>, lits: Seq<Edge>) -> bool {
    forall|i: int| 0 <= i < lits.len() ==> #[trigger] m.contains(lits[i])
}

/// The literals that a solver answer marks true.
pub open spec fn true_lits(answer: Seq<(Edge, bool)>) -> Set<Edge> {
    Set::new(|l: Edge| answer.contains((l, true)))
}

/// No literal appears twice in a solver answer.
pub open spec fn lits_listed_once(answer: Seq<(Edge, bool)>) -> bool {
    forall|i: int, j: int|
        0 <= i < answer.len() && 0 <= j < answer.len() && i != j ==> (#[trigger] answer[i]).0
            != (#[trigger] answer[j]).0
}

/// A formula under construction, held by a satoxid encoder backed by the
/// CaDiCaL solver. One is built per solving session and dropped afterwards.
/// The encoder stays opaque: its solver type has a trait-bounded parameter
/// that cannot be declared to Verus, so the formula is seen only through
/// [`models_of`].
#[verifier::external_body]
pub struct Oracle {
    enc: satoxid::CadicalEncoder<Edge>,
}

/// The truth assignments (each given as the set of literals it makes true)
/// that satisfy every constraint added to the oracle so far.
pub uninterp spec fn models_of(o: Oracle) -> Set<Set<Edge>>;

impl Oracle {
    /// Relies on `satoxid::Encoder::new`: a fresh encoder holds no constraint.
    #[verifier::external_body]
    pub(crate) fn new() -> (r: Oracle)
        ensures
            forall|m: Set<Edge>| #[trigger] models_of(r).contains(m),
    {
        Oracle { enc: satoxid::CadicalEncoder::new() }
    }
}

/// Relies on `satoxid::Encoder::add_constraint` with
/// `satoxid::constraints::ExactlyK` (`k == 1`): exactly one of the literals
/// holds. satoxid panics on an empty list.
#[verifier::external_body]
pub(crate) fn add_exactly_one(o: &mut Oracle, lits: Vec<Edge>)
    requires
        lits@.len() > 0,
        lits@.no_duplicates(),
    ensures
        models_of(*final(o)) == models_of(*old(o)).filter(|m: Set<Edge>| exactly_one(m, lits@)),
{
    o.enc.add_constraint(satoxid::constraints::ExactlyK { k: 1, lits: lits.into_iter() });
}

/// Relies on `satoxid::Encoder::add_constraint` with
/// `Not(Or(lits))`: none of the literals holds.
#[verifier::external_body]
pub(crate) fn add_none_of(o: &mut Oracle, lits: Vec<Edge>)
    ensures
        models_of(*final(o)) == models_of(*old(o)).filter(|m: Set<Edge>| none_of(m, lits@)),
{
    o.enc.add_constraint(
        satoxid::constraints::Not(satoxid::constraints::Or(lits.into_iter())),
    );
}

/// Relies on `satoxid::Encoder::add_constraint` with `And(lits)`: every
/// literal holds.
#[verifier::external_body]
pub(crate) fn add_all_of(o: &mut Oracle, lits: Vec<Edge>)
    ensures
        models_of(*final(o)) == models_of(*old(o)).filter(|m: Set<Edge>| all_of(m, lits@)),
{
    o.enc.add_constraint(satoxid::constraints::And(lits.into_iter()));
}

/// Relies on `satoxid::Encoder::add_constraint` with
/// `If { cond: a, then: Not(b) }`: `a` true forces `b` false.
#[verifier::external_body]
pub(crate) fn add_if_not(o: &mut Oracle, a: Edge, b: Edge)
    ensures
        models_of(*final(o)) == models_of(*old(o)).filter(|m: Set<Edge>| (m.contains(a) ==> !m.contains(b))),
{
    o.enc.add_constraint(
        satoxid::constraints::If { cond: a, then: satoxid::constraints::Not(b) },
    );
}

/// Relies on `satoxid::Encoder::solve` and `satoxid::Model::vars`: on
/// success, each named literal once, with the value the model gives it, and
/// the literals marked true satisfy every constraint added so far; `None`
/// means that no truth assignment satisfies them. The constraints themselves
/// are kept. Which model comes back is the solver's choice.
#[verifier::external_body]
pub(crate) fn solve(o: &mut Oracle) -> (r: Option<Vec<(Edge, bool)>>)
    ensures
        models_of(*final(o)) == models_of(*old(o)),
        r matches Some(answer) ==> models_of(*old(o)).contains(true_lits(answer@)),
        r matches Some(answer) ==> lits_listed_once(answer@),
        r is None ==> models_of(*old(o)) =~= Set::<Set<Edge>>::empty(),
{
    o.enc.solve().map(|model| model.vars().map(|l| (*l.var(), l.is_pos())).collect())
}

} // verus!
