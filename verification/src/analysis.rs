//! Identifies units of analysis work by content identity.

use vstd::prelude::*;
use vstd::pervasive::cloned;
use vstd::std_specs::cmp::PartialEqSpec;
use crate::{EntryKind, ID, Snapshot};

verus! {

/// Defines how to analyze source code from a particular family of
/// programming languages.  Implementations are supplied by analysis
/// engines outside this crate; the framework promises nothing of their
/// behaviour beyond their signatures.
pub trait LanguageAnalyzer: Sized {
    type Result;

    type Additional;

    type Error;

    /// Returns the name of the language family this analyzer handles.
    fn name(&self) -> &'static str;

    /// Returns the version of this analyzer.  Cached results must be
    /// partitioned by analyzer name and version: changing the version
    /// invalidates all previously cached results.
    fn version(&self) -> &'static str;

    /// Determines the complete list of operations needed to analyze the
    /// snapshot this analyzer was given.  This planning step is not
    /// cache-aware; a follow-on step decides what was already performed.
    fn categorize_snapshot(&mut self) -> Result<Vec<Operation<Self::Additional>>, Self::Error>;

    /// Performs an operation, returning its result.
    fn perform_operation(&mut self, snapshot_id: ID, op: &Operation<Self::Additional>) -> Result<
        Self::Result,
        Self::Error,
    >;

    /// Ensures that an operation has been performed, without returning
    /// its result.
    fn ensure_operation_performed(
        &mut self,
        snapshot_id: ID,
        op: &Operation<Self::Additional>,
    ) -> Result<(), Self::Error>;
}

/// The mathematical form of an operation identity.
pub struct OperationV<AV> {
    pub kind: EntryKind,
    pub id: Seq<char>,
    pub additional: AV,
}

/// Describes one unit of analysis work by content identity: what kind of
/// content it analyzes, the identifier of that content, and any
/// additional data the operation needs.  Two operations are equal
/// exactly when all three parts are equal, so an operation is usable as
/// a cache key; which work is done is up to the analyzer it belongs to.
pub struct Operation<A> {
    /// Whether this operation analyzes a file or a tree.
    pub kind: EntryKind,
    /// The ID of the file or tree to be analyzed.
    pub id: ID,
    /// Any additional data that is needed to perform this operation.
    pub additional: A,
}

impl<A: DeepView> DeepView for Operation<A> {
    type V = OperationV<A::V>;

    open spec fn deep_view(&self) -> OperationV<A::V> {
        OperationV { kind: self.kind, id: self.id@, additional: self.additional.deep_view() }
    }
}

impl<A> Operation<A> {
    /// Creates a new operation.
    pub fn new(kind: EntryKind, id: ID, additional: A) -> (r: Operation<A>)
        ensures
            r.kind == kind,
            r.id@ == id@,
            r.additional == additional,
    {
        Operation { kind, id, additional }
    }
}

impl<A: PartialEq> PartialEq for Operation<A> {
    fn eq(&self, other: &Operation<A>) -> (r: bool) {
        let same_kind = self.kind == other.kind;
        let same_id = self.id == other.id;
        let same_additional = self.additional == other.additional;
        same_kind && same_id && same_additional
    }
}

impl<A: PartialEq> vstd::std_specs::cmp::PartialEqSpecImpl for Operation<A> {
    open spec fn obeys_eq_spec() -> bool {
        A::obeys_eq_spec()
    }

    open spec fn eq_spec(&self, other: &Operation<A>) -> bool {
        &&& self.kind == other.kind
        &&& self.id@ == other.id@
        &&& self.additional.eq_spec(&other.additional)
    }
}

impl<A: Clone> Clone for Operation<A> {
    fn clone(&self) -> (r: Operation<A>)
        ensures
            r.kind == self.kind,
            r.id == self.id,
            cloned::<A>(self.additional, r.additional),
    {
        Operation { kind: self.kind, id: self.id.clone(), additional: self.additional.clone() }
    }
}

/// Law: operations compare by deep content whenever their additional
/// data does, so operation equality is content equality.
pub proof fn lemma_operation_obeys_deep_eq<A: PartialEq + DeepView>()
    requires
        vstd::laws_eq::obeys_deep_eq::<A>(),
    ensures
        vstd::laws_eq::obeys_deep_eq::<Operation<A>>(),
{
    reveal(vstd::laws_eq::obeys_deep_eq);
    assert forall|x: Operation<A>, y: Operation<A>| x.eq_spec(&y) <==> x.deep_view()
        == y.deep_view() by {
        assert(x.additional.eq_spec(&y.additional) <==> x.additional.deep_view()
            == y.additional.deep_view());
        if x.deep_view() == y.deep_view() {
            assert(x.deep_view().additional == y.deep_view().additional);
            assert(x.deep_view().kind == y.deep_view().kind);
            assert(x.deep_view().id == y.deep_view().id);
        }
    }
}

} // verus!
