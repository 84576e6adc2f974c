//! The narrow escape hatch for target-only inheritance: a final adapter of
//! an approved external framework base, with one composed delegate.
use vstd::prelude::*;

use crate::metadata::{TargetHeritageFinality, TargetHeritagePurpose};

verus! {

/// The position of a generated type in its package.
#[derive(Clone, Copy, Debug, PartialEq, Eq, PartialOrd, Ord)]
pub struct GeneratedTypeId(usize);

/// The position of a generated value in its package.
#[derive(Clone, Copy, Debug, PartialEq, Eq, PartialOrd, Ord)]
pub struct GeneratedValueId(usize);

impl GeneratedTypeId {
    pub fn from_index(index: usize) -> (result: Self)
        ensures
            result.index() == index,
    {
        GeneratedTypeId(index)
    }

    pub closed spec fn spec_index(self) -> usize {
        self.0
    }

    #[verifier::when_used_as_spec(spec_index)]
    pub fn index(self) -> (result: usize)
        ensures
            result == self.spec_index(),
    {
        self.0
    }
}

impl GeneratedValueId {
    pub fn from_index(index: usize) -> (result: Self)
        ensures
            result.index() == index,
    {
        GeneratedValueId(index)
    }

    pub closed spec fn spec_index(self) -> usize {
        self.0
    }

    #[verifier::when_used_as_spec(spec_index)]
    pub fn index(self) -> (result: usize)
        ensures
            result == self.spec_index(),
    {
        self.0
    }
}

/// The origin of a target-only base: an external base of the language's
/// own approved family, or a generated type.
#[derive(Clone, Debug, PartialEq, Eq, PartialOrd, Ord)]
pub enum TargetHeritageBase<E> {
    ApprovedExternal(E),
    Generated(GeneratedTypeId),
}

/// One proposed target-only heritage edge.
#[derive(Clone, Debug, PartialEq, Eq)]
pub struct TargetHeritageEdge<E> {
    pub subclass: GeneratedTypeId,
    pub base: TargetHeritageBase<E>,
    pub delegated_component: GeneratedValueId,
    pub finality: TargetHeritageFinality,
    pub purpose: TargetHeritagePurpose,
}

/// How many generated types and values a package holds.
#[derive(Clone, Copy, Debug, PartialEq, Eq)]
pub struct TargetHeritageScope {
    generated_types: usize,
    generated_values: usize,
}

impl TargetHeritageScope {
    pub fn new(generated_types: usize, generated_values: usize) -> (result: Self)
        ensures
            result.types() == generated_types,
            result.values() == generated_values,
    {
        TargetHeritageScope { generated_types, generated_values }
    }

    pub closed spec fn types(self) -> usize {
        self.generated_types
    }

    pub closed spec fn values(self) -> usize {
        self.generated_values
    }
}

/// A refused heritage edge: its position among the edges and why.
#[derive(Clone, Debug)]
pub struct HeritageViolation {
    pub edge: usize,
    pub message: &'static str,
}

/// The generated type that edge `e` extends, if any.
pub open spec fn generated_index<E>(e: TargetHeritageEdge<E>) -> Option<usize> {
    match e.base {
        TargetHeritageBase::Generated(b) => Some(b.index()),
        TargetHeritageBase::ApprovedExternal(_) => None,
    }
}

/// Whether some edge of `edges` extends the generated type `t`.
pub open spec fn generated_base<E>(edges: Seq<TargetHeritageEdge<E>>, t: usize) -> bool {
    exists|j: int| 0 <= j < edges.len() && generated_index(#[trigger] edges[j]) == Some(t)
}

/// What is wrong with edge `e`, in order; `approved` is whether its base, if
/// external, is in the language's approved family.
pub open spec fn edge_messages<E>(
    scope: TargetHeritageScope,
    edges: Seq<TargetHeritageEdge<E>>,
    e: TargetHeritageEdge<E>,
    approved: bool,
) -> Seq<Seq<char>> {
    (if e.subclass.index() >= scope.types() {
        seq!["heritage subclass is not a generated type"@]
    } else {
        Seq::empty()
    }) + (if e.delegated_component.index() >= scope.values() {
        seq!["heritage adapter has no valid composed delegation component"@]
    } else {
        Seq::empty()
    }) + (if !(e.finality is Final) {
        seq!["target-only heritage adapter must be final"@]
    } else {
        Seq::empty()
    }) + (if !(e.purpose is ExternalFrameworkAdapter) {
        seq!["target-only heritage is allowed only for an external framework adapter"@]
    } else {
        Seq::empty()
    }) + (match e.base {
        TargetHeritageBase::ApprovedExternal(_) => if approved {
            Seq::empty()
        } else {
            seq!["target-only heritage base is not in the language's approved external-base enum"@]
        },
        TargetHeritageBase::Generated(_) => seq!["target-only heritage cannot extend a generated type"@],
    }) + (if generated_base(edges, e.subclass.index()) {
        seq!["a generated heritage subclass cannot also be a generated base"@]
    } else {
        Seq::empty()
    })
}

/// The messages about the first `n` edges, each with its edge's position.
pub open spec fn edge_violations<E>(
    scope: TargetHeritageScope,
    edges: Seq<TargetHeritageEdge<E>>,
    approved: Seq<bool>,
    n: int,
) -> Seq<(int, Seq<char>)>
    decreases n,
{
    if n <= 0 {
        Seq::empty()
    } else {
        edge_violations(scope, edges, approved, n - 1) + edge_messages(
            scope,
            edges,
            edges[n - 1],
            approved[n - 1],
        ).map_values(|m: Seq<char>| (n - 1, m))
    }
}

/// Whether edge `i` is the first of two or more edges with its subclass.
pub open spec fn first_of_several<E>(edges: Seq<TargetHeritageEdge<E>>, i: int) -> bool {
    &&& forall|j: int| 0 <= j < i ==> (#[trigger] edges[j]).subclass != edges[i].subclass
    &&& exists|j: int| i < j < edges.len() && (#[trigger] edges[j]).subclass == edges[i].subclass
}

/// One refusal, at its first edge, for each subclass with more than one
/// edge, in order of first edge.
pub open spec fn repeated_violations<E>(edges: Seq<TargetHeritageEdge<E>>, n: int) -> Seq<(int, Seq<char>)>
    decreases n,
{
    if n <= 0 {
        Seq::empty()
    } else {
        repeated_violations(edges, n - 1) + if first_of_several(edges, n - 1) {
            seq![(n - 1, "target-only heritage permits at most one generated edge per adapter"@)]
        } else {
            Seq::empty()
        }
    }
}

pub open spec fn heritage_violations<E>(
    scope: TargetHeritageScope,
    edges: Seq<TargetHeritageEdge<E>>,
    approved: Seq<bool>,
) -> Seq<(int, Seq<char>)> {
    edge_violations(scope, edges, approved, edges.len() as int) + repeated_violations(edges, edges.len() as int)
}

pub open spec fn violations_view(vs: Seq<HeritageViolation>) -> Seq<(int, Seq<char>)> {
    vs.map_values(|v: HeritageViolation| (v.edge as int, v.message@))
}

fn refuse(violations: &mut Vec<HeritageViolation>, edge: usize, message: &'static str)
    ensures
        violations_view(final(violations)@) == violations_view(old(violations)@).push((edge as int, message@)),
{
    let ghost before = violations@;
    violations.push(HeritageViolation { edge, message });
    assert(violations_view(violations@) =~= violations_view(before).push((edge as int, message@)));
}

/// Certifies target-only inheritance edges. An edge is refused when its
/// subclass or delegate lies outside the package, when it is not a final
/// adapter of an external framework, when its base is generated or not an
/// approved external base (`approved[k]` answers that for edge `k`), and
/// when its subclass is itself a generated base; a subclass with more than
/// one edge is refused once. Refusals come per edge, in order of edge, then
/// those of repeated subclasses.
#[verifier::rlimit(60)]
pub fn verify_target_heritage<E>(
    scope: TargetHeritageScope,
    edges: &Vec<TargetHeritageEdge<E>>,
    approved: &Vec<bool>,
) -> (result: Result<(), Vec<HeritageViolation>>)
    requires
        approved@.len() == edges@.len(),
    ensures
        result is Ok <==> heritage_violations(scope, edges@, approved@).len() == 0,
        result matches Err(vs) ==> violations_view(vs@) == heritage_violations(scope, edges@, approved@),
{
    let mut violations: Vec<HeritageViolation> = Vec::new();
    let mut i: usize = 0;
    while i < edges.len()
        invariant
            i <= edges@.len(),
            approved@.len() == edges@.len(),
            violations_view(violations@) == edge_violations(scope, edges@, approved@, i as int),
        decreases edges.len() - i,
    {
        let edge = &edges[i];
        let ghost before = violations_view(violations@);
        let mut base_is_generated = false;
        let mut j: usize = 0;
        while j < edges.len()
            invariant
                j <= edges@.len(),
                i < edges@.len(),
                *edge == edges@[i as int],
                base_is_generated <==> exists|q: int|
                    0 <= q < j && generated_index(#[trigger] edges@[q]) == Some(edge.subclass.index()),
            decreases edges.len() - j,
        {
            match &edges[j].base {
                TargetHeritageBase::Generated(b) => {
                    if b.index() == edge.subclass.index() {
                        base_is_generated = true;
                    }
                },
                TargetHeritageBase::ApprovedExternal(_) => {},
            }
            j += 1;
        }
        proof {
            assert(base_is_generated == generated_base(edges@, edge.subclass.index()));
        }
        let ghost ms = edge_messages(scope, edges@, edges@[i as int], approved@[i as int]);
        let mut found: Vec<&'static str> = Vec::new();
        if edge.subclass.index() >= scope.generated_types {
            found.push("heritage subclass is not a generated type");
        }
        if edge.delegated_component.index() >= scope.generated_values {
            found.push("heritage adapter has no valid composed delegation component");
        }
        if !matches!(edge.finality, TargetHeritageFinality::Final) {
            found.push("target-only heritage adapter must be final");
        }
        if !matches!(edge.purpose, TargetHeritagePurpose::ExternalFrameworkAdapter) {
            found.push("target-only heritage is allowed only for an external framework adapter");
        }
        match &edge.base {
            TargetHeritageBase::ApprovedExternal(_) => {
                if !approved[i] {
                    found.push("target-only heritage base is not in the language's approved external-base enum");
                }
            },
            TargetHeritageBase::Generated(_) => {
                found.push("target-only heritage cannot extend a generated type");
            },
        }
        if base_is_generated {
            found.push("a generated heritage subclass cannot also be a generated base");
        }
        proof {
            assert(found@.map_values(|m: &'static str| m@) =~= ms);
        }
        let mut k: usize = 0;
        while k < found.len()
            invariant
                k <= found@.len(),
                found@.map_values(|m: &'static str| m@) == ms,
                violations_view(violations@) == before + ms.take(k as int).map_values(|m: Seq<char>| (i as int, m)),
            decreases found.len() - k,
        {
            refuse(&mut violations, i, found[k]);
            proof {
                assert(ms[k as int] == found@[k as int]@);
                assert(ms.take(k + 1).map_values(|m: Seq<char>| (i as int, m)) =~= ms.take(k as int).map_values(
                    |m: Seq<char>| (i as int, m),
                ).push((i as int, found@[k as int]@)));
            }
            k += 1;
        }
        proof {
            assert(ms.take(k as int) =~= ms);
            assert(violations_view(violations@) == edge_violations(scope, edges@, approved@, i + 1));
        }
        i += 1;
    }
    let ghost middle = violations_view(violations@);
    let mut i: usize = 0;
    while i < edges.len()
        invariant
            i <= edges@.len(),
            violations_view(violations@) == middle + repeated_violations(edges@, i as int),
        decreases edges.len() - i,
    {
        let subclass = edges[i].subclass.index();
        let mut earlier = false;
        let mut later = false;
        let mut j: usize = 0;
        while j < edges.len()
            invariant
                j <= edges@.len(),
                i < edges@.len(),
                subclass == edges@[i as int].subclass.index(),
                earlier <==> exists|q: int| 0 <= q < j && q < i && (#[trigger] edges@[q]).subclass == edges@[i as int].subclass,
                later <==> exists|q: int| 0 <= q < j && i < q && (#[trigger] edges@[q]).subclass == edges@[i as int].subclass,
            decreases edges.len() - j,
        {
            if edges[j].subclass.index() == subclass {
                proof {
                    assert(edges@[j as int].subclass == edges@[i as int].subclass);
                }
                if j < i {
                    earlier = true;
                } else if j > i {
                    later = true;
                }
            } else {
                assert(edges@[j as int].subclass != edges@[i as int].subclass);
            }
            j += 1;
        }
        if !earlier && later {
            refuse(&mut violations, i, "target-only heritage permits at most one generated edge per adapter");
        }
        proof {
            assert(first_of_several(edges@, i as int) == (!earlier && later));
            assert(violations_view(violations@) =~= middle + repeated_violations(edges@, i + 1));
        }
        i += 1;
    }
    if violations.len() == 0 {
        Ok(())
    } else {
        Err(violations)
    }
}

} // verus!
