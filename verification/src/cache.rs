//! Memoizes analysis results by operation identity.
//!
//! A [`Cache`] fixes the shape of memoization and nothing more: no
//! eviction, expiry or size bound.  [`CachedLanguageAnalyzer`] composes
//! any cache with any analyzer so that each distinct operation identity
//! is performed at most once per cache.

use vstd::prelude::*;
use vstd::pervasive::{cloned, strictly_cloned};
use crate::analysis::{LanguageAnalyzer, Operation};
use crate::assoc::{assoc_map, has_key, lemma_assoc_map_dom};
use crate::ID;

verus! {

/// Cloning a value of this type always returns the value itself.
pub open spec fn clone_preserves_value<T: Clone>() -> bool {
    forall|a: T, b: T| #[trigger] strictly_cloned(a, b) ==> b == a
}

/// Cloning a value of this type always preserves its deep content.
pub open spec fn clone_preserves_deep_view<T: Clone + DeepView>() -> bool {
    forall|a: T, b: T| #[trigger] strictly_cloned(a, b) ==> b.deep_view() == a.deep_view()
}

/// A store of analysis results keyed by operation identity.
///
/// `contents` is the mapping the cache stands for and `reliable` says
/// when its operations are faithful to that mapping; a cache that
/// cannot tell its keys apart, or that deliberately retains nothing,
/// promises nothing.
pub trait Cache<O: DeepView, R>: Sized {
    /// The mapping from operation identity to stored result.
    spec fn contents(&self) -> Map<O::V, R>;

    /// Whether this cache's operations are faithful to `contents`.
    spec fn reliable(&self) -> bool;

    /// Whether a result for this operation is stored.
    fn contains(&self, op: &O) -> (b: bool)
        ensures
            self.reliable() ==> b == self.contents().dom().contains(op.deep_view()),
    ;

    /// Returns the stored result for this operation, if any.
    fn get<'a>(&'a self, op: &O) -> (r: Option<&'a R>)
        ensures
            self.reliable() ==> match r {
                Some(v) => self.contents().dom().contains(op.deep_view()) && *v
                    == self.contents()[op.deep_view()],
                None => !self.contents().dom().contains(op.deep_view()),
            },
    ;

    /// Stores the result for this operation; a duplicate store for the
    /// same identity is idempotent (the last write wins).
    fn put(&mut self, op: &O, result: R)
        ensures
            old(self).reliable() ==> final(self).reliable() && final(self).contents() == old(
                self,
            ).contents().insert(op.deep_view(), result),
    ;
}

/// A cache that retains nothing: every lookup misses.
pub struct NoCache<O, R> {
    marker: core::marker::PhantomData<(O, R)>,
}

impl<O, R> NoCache<O, R> {
    /// Creates the cache that retains nothing.
    pub fn new() -> (r: NoCache<O, R>) {
        NoCache { marker: core::marker::PhantomData }
    }
}

impl<O: DeepView, R> Cache<O, R> for NoCache<O, R> {
    closed spec fn contents(&self) -> Map<O::V, R> {
        Map::<O::V, R>::empty()
    }

    closed spec fn reliable(&self) -> bool {
        false
    }

    fn contains(&self, op: &O) -> (b: bool)
        ensures
            !b,
    {
        false
    }

    fn get<'a>(&'a self, op: &O) -> (r: Option<&'a R>)
        ensures
            r is None,
    {
        None::<&'a R>
    }

    fn put(&mut self, op: &O, result: R) {
    }
}

/// An in-memory cache: an append-only list of key-result pairs where
/// the latest entry for an identity wins.
pub struct MemoryCache<O, R> {
    entries: Vec<(O, R)>,
}

/// The mapping a cache entry list stands for.
pub open spec fn cache_contents<O: DeepView, R>(s: Seq<(O, R)>) -> Map<O::V, R> {
    assoc_map(s.map_values(|p: (O, R)| (p.0.deep_view(), p.1)))
}

impl<O: DeepView + PartialEq + Clone, R> MemoryCache<O, R> {
    /// Creates an empty cache.
    pub fn new() -> (r: MemoryCache<O, R>)
        ensures
            r.contents() == Map::<O::V, R>::empty(),
    {
        let r = MemoryCache { entries: Vec::new() };
        proof {
            let s = r.entries@.map_values(|p: (O, R)| (p.0.deep_view(), p.1));
            assert(s =~= Seq::<(O::V, R)>::empty());
        }
        r
    }
}

impl<O: DeepView + PartialEq + Clone, R> Cache<O, R> for MemoryCache<O, R> {
    closed spec fn contents(&self) -> Map<O::V, R> {
        cache_contents(self.entries@)
    }

    /// The cache is faithful when operation equality decides deep
    /// content equality and cloning a key preserves its deep content.
    closed spec fn reliable(&self) -> bool {
        &&& vstd::laws_eq::obeys_deep_eq::<O>()
        &&& clone_preserves_deep_view::<O>()
    }

    fn contains(&self, op: &O) -> (b: bool) {
        self.get(op).is_some()
    }

    fn get<'a>(&'a self, op: &O) -> (r: Option<&'a R>) {
        proof {
            reveal(vstd::laws_eq::obeys_deep_eq);
        }
        let ghost s = self.entries@.map_values(|p: (O, R)| (p.0.deep_view(), p.1));
        let ghost key = op.deep_view();
        let n: usize = self.entries.len();
        let mut i: usize = n;
        while i > 0
            invariant
                i <= n,
                n == self.entries@.len(),
                s == self.entries@.map_values(|p: (O, R)| (p.0.deep_view(), p.1)),
                s.len() == n,
                key == op.deep_view(),
                vstd::laws_eq::obeys_deep_eq::<O>() ==> forall|j: int|
                    i <= j < n ==> #[trigger] s[j].0 != key,
            decreases i,
        {
            proof {
                reveal(vstd::laws_eq::obeys_deep_eq);
            }
            i = i - 1;
            proof {
                assert(s[i as int].0 == self.entries@[i as int].0.deep_view());
                assert(s[i as int].1 == self.entries@[i as int].1);
            }
            let hit = self.entries[i].0 == *op;
            if hit {
                proof {
                    if vstd::laws_eq::obeys_deep_eq::<O>() {
                        crate::assoc::lemma_assoc_tail_lookup(s, i as int);
                    }
                }
                return Some(&self.entries[i].1);
            }
        }
        proof {
            lemma_assoc_map_dom(s);
            if vstd::laws_eq::obeys_deep_eq::<O>() && has_key(s, key) {
                let j = choose|j: int| 0 <= j < s.len() && s[j].0 == key;
            }
        }
        None
    }

    fn put(&mut self, op: &O, result: R) {
        let ghost s = self.entries@.map_values(|p: (O, R)| (p.0.deep_view(), p.1));
        let stored = op.clone();
        proof {
            assert(cloned::<O>(*op, stored));
        }
        self.entries.push((stored, result));
        proof {
            let s2 = self.entries@.map_values(|p: (O, R)| (p.0.deep_view(), p.1));
            assert(s2.drop_last() =~= s);
            if old(self).reliable() {
                assert(s2.last().0 == op.deep_view());
            }
        }
    }
}

/// Composes an analyzer with a cache of its results: an operation whose
/// result is cached is never performed again through this wrapper.
pub struct CachedLanguageAnalyzer<L, C> {
    wrapped: L,
    cache: C,
}

impl<L, C> CachedLanguageAnalyzer<L, C> {
    /// The wrapped analyzer.
    pub closed spec fn spec_wrapped(&self) -> L {
        self.wrapped
    }

    /// The cache of results.
    pub closed spec fn spec_cache(&self) -> C {
        self.cache
    }

    /// Wraps an analyzer with a cache.
    pub fn new(wrapped: L, cache: C) -> (r: CachedLanguageAnalyzer<L, C>)
        ensures
            r.spec_wrapped() == wrapped,
            r.spec_cache() == cache,
    {
        CachedLanguageAnalyzer { wrapped, cache }
    }
}

impl<L, C, A, R> LanguageAnalyzer for CachedLanguageAnalyzer<L, C> where
    L: LanguageAnalyzer<Result = R, Additional = A>,
    C: Cache<Operation<A>, R>,
    A: DeepView,
    R: Clone,
 {
    type Result = R;

    type Additional = A;

    type Error = L::Error;

    fn name(&self) -> &'static str {
        self.wrapped.name()
    }

    fn version(&self) -> &'static str {
        self.wrapped.version()
    }

    fn categorize_snapshot(&mut self) -> Result<Vec<Operation<A>>, L::Error> {
        self.wrapped.categorize_snapshot()
    }

    /// Performs the operation through the cache: a stored result is
    /// returned as-is and the wrapped analyzer is left untouched; on a
    /// miss the wrapped analyzer performs the operation and a successful
    /// result is stored.  With a reliable cache, each operation identity
    /// is performed at most once per cache, and a repeated call returns
    /// an equal result without invoking the analyzer again.
    fn perform_operation(&mut self, snapshot_id: ID, op: &Operation<A>) -> (r: Result<
        R,
        L::Error,
    >)
        ensures
            ({
                let opv = op.deep_view();
                let pre = old(self).spec_cache();
                let post = final(self).spec_cache();
                &&& pre.reliable() ==> post.reliable()
                &&& pre.reliable() && pre.contents().dom().contains(opv) ==> {
                    &&& final(self).spec_wrapped() == old(self).spec_wrapped()
                    &&& post.contents() == pre.contents()
                    &&& r matches Ok(v) && cloned::<R>(pre.contents()[opv], v)
                    &&& clone_preserves_value::<R>() ==> r == Ok::<R, L::Error>(
                        pre.contents()[opv],
                    )
                }
                &&& pre.reliable() && !pre.contents().dom().contains(opv) ==> match r {
                    Ok(v) => exists|w: R|
                        #[trigger] cloned::<R>(v, w) && post.contents() == pre.contents().insert(
                            opv,
                            w,
                        ),
                    Err(_) => post.contents() == pre.contents(),
                }
                &&& pre.reliable() && !pre.contents().dom().contains(opv)
                    && clone_preserves_value::<R>() ==> match r {
                    Ok(v) => post.contents() == pre.contents().insert(opv, v),
                    Err(_) => post.contents() == pre.contents(),
                }
            }),
    {
        let hit = match self.cache.get(op) {
            Some(v) => Some(v.clone()),
            None => None,
        };
        match hit {
            Some(v) => {
                proof {
                    if old(self).spec_cache().reliable() {
                        assert(cloned::<R>(
                            old(self).spec_cache().contents()[op.deep_view()],
                            v,
                        ));
                    }
                }
                Ok(v)
            },
            None => {
                match self.wrapped.perform_operation(snapshot_id, op) {
                    Ok(result) => {
                        let stored = result.clone();
                        proof {
                            assert(cloned::<R>(result, stored));
                        }
                        self.cache.put(op, stored);
                        Ok(result)
                    },
                    Err(e) => Err(e),
                }
            },
        }
    }

    /// Ensures the operation has been performed: presence in the cache
    /// counts as performed; on a miss the wrapped analyzer performs the
    /// operation and a successful result is stored, discarded from the
    /// return value.
    fn ensure_operation_performed(&mut self, snapshot_id: ID, op: &Operation<A>) -> (r: Result<
        (),
        L::Error,
    >)
        ensures
            ({
                let opv = op.deep_view();
                let pre = old(self).spec_cache();
                let post = final(self).spec_cache();
                &&& pre.reliable() ==> post.reliable()
                &&& pre.reliable() && pre.contents().dom().contains(opv) ==> {
                    &&& final(self).spec_wrapped() == old(self).spec_wrapped()
                    &&& post.contents() == pre.contents()
                    &&& r is Ok
                }
                &&& pre.reliable() && !pre.contents().dom().contains(opv) ==> match r {
                    Ok(()) => exists|w: R| #![auto] post.contents() == pre.contents().insert(
                        opv,
                        w,
                    ),
                    Err(_) => post.contents() == pre.contents(),
                }
            }),
    {
        if self.cache.contains(op) {
            return Ok(());
        }
        match self.wrapped.perform_operation(snapshot_id, op) {
            Ok(result) => {
                self.cache.put(op, result);
                Ok(())
            },
            Err(e) => Err(e),
        }
    }
}


/// Law: an operation key is dependable for caching whenever its
/// additional data is — operation equality decides deep content
/// equality, and cloning an operation preserves its deep content.
pub proof fn lemma_operation_keys_dependable<A: PartialEq + Clone + DeepView>()
    requires
        vstd::laws_eq::obeys_deep_eq::<A>(),
        clone_preserves_deep_view::<A>(),
    ensures
        vstd::laws_eq::obeys_deep_eq::<Operation<A>>(),
        clone_preserves_deep_view::<Operation<A>>(),
{
    crate::analysis::lemma_operation_obeys_deep_eq::<A>();
    assert forall|a: Operation<A>, b: Operation<A>| #[trigger] strictly_cloned(a, b) implies b
        .deep_view() == a.deep_view() by {
        assert(b.kind == a.kind && b.id == a.id && cloned::<A>(a.additional, b.additional));
        if strictly_cloned(a.additional, b.additional) {
            assert(b.additional.deep_view() == a.additional.deep_view());
        }
    }
}


} // verus!
