//! Sizing rules: how the width and height of an element follow from the size
//! of a reference element, and the bookkeeping of resize events.
use vstd::prelude::*;

use crate::layout::EntityId;

verus! {

/// A fixed ratio of width to height, `width : height`.
#[derive(Clone, Copy, Debug, PartialEq, Eq, Structural)]
pub struct AspectRatio {
    pub width: i32,
    pub height: i32,
}

/// How one dimension of an element follows from the same dimension of its
/// reference: all of it, one `n`-th of it, or a percentage of it.
#[derive(Clone, Copy, Debug, PartialEq, Eq, Structural)]
pub enum Constraint {
    Fill,
    Fr(i32),
    Pct(u32),
}

/// The element whose size a dimension follows: the distance between two
/// related elements, the parent, or the window.
#[derive(Clone, Copy, Debug, PartialEq, Eq, Structural)]
pub enum Reference {
    Intersect(EntityReference, EntityReference),
    Parent,
    Window,
}

/// An element named by its place in the hierarchy above an element.
#[derive(Clone, Copy, Debug, PartialEq, Eq, Structural)]
pub enum EntityReference {
    Grandparent,
    Parent,
}

/// The rule for one dimension of an element.
#[derive(Clone, Copy, Debug, PartialEq, Eq, Structural)]
pub struct ResizableField {
    pub constraint: Constraint,
    pub reference: Reference,
}

/// The sizing rules of an element: one per dimension, and an optional fixed
/// aspect ratio that the result is brought back to.
#[derive(Clone, Copy, Debug, PartialEq, Eq, Structural)]
pub struct Resizable {
    pub width: ResizableField,
    pub height: ResizableField,
    pub aspect_ratio: Option<AspectRatio>,
}

impl Resizable {
    pub fn new(
        width: ResizableField,
        height: ResizableField,
        aspect_ratio: Option<AspectRatio>,
    ) -> (res: Self)
        ensures
            res.width == width,
            res.height == height,
            res.aspect_ratio == aspect_ratio,
    {
        Self { width, height, aspect_ratio }
    }
}

/// The entity that `reference` names, given the ancestors of an element,
/// nearest first.
pub open spec fn spec_entity(reference: EntityReference, ancestors: Seq<EntityId>) -> Option<
    EntityId,
> {
    let k: int = match reference {
        EntityReference::Grandparent => 1,
        EntityReference::Parent => 0,
    };
    if k < ancestors.len() {
        Some(ancestors[k])
    } else {
        None
    }
}

/// A parent reference names the nearest ancestor and a grandparent reference
/// the one above it; either names nothing when the element has no ancestor
/// that high.
pub proof fn entity_references_name_ancestors(ancestors: Seq<EntityId>)
    ensures
        ancestors.len() >= 1 ==> spec_entity(EntityReference::Parent, ancestors) == Some(
            ancestors[0],
        ),
        ancestors.len() >= 2 ==> spec_entity(EntityReference::Grandparent, ancestors) == Some(
            ancestors[1],
        ),
        ancestors.len() == 0 ==> spec_entity(EntityReference::Parent, ancestors) is None,
        ancestors.len() <= 1 ==> spec_entity(EntityReference::Grandparent, ancestors) is None,
{
}

impl EntityReference {
    /// The ancestor this reference names, if the element has one that high.
    pub fn entity(&self, ancestors: &Vec<EntityId>) -> (res: Option<EntityId>)
        ensures
            res == spec_entity(*self, ancestors@),
    {
        let k: usize = match self {
            EntityReference::Grandparent => 1,
            EntityReference::Parent => 0,
        };
        if k < ancestors.len() {
            Some(ancestors[k])
        } else {
            None
        }
    }
}

/// Whether an element whose dimension is measured between `alpha` and
/// `beta` can be sized from a resize of `resized`: it cannot when the two
/// ends are one entity that is the resized one.
pub open spec fn intersect_defined(resized: EntityId, alpha: EntityId, beta: EntityId) -> bool {
    !(resized == alpha && resized == beta)
}

/// The other end of an intersection when `resized` is one of its ends.
pub open spec fn spec_intersect_partner(resized: EntityId, alpha: EntityId, beta: EntityId) -> Option<
    EntityId,
> {
    if resized == alpha {
        Some(beta)
    } else if resized == beta {
        Some(alpha)
    } else {
        None
    }
}

/// When the resized element is one end of an intersection, the partner is
/// the other end, whichever order the ends are named in; when it is neither
/// end there is no partner.
pub proof fn intersect_partner_is_the_other_end(resized: EntityId, alpha: EntityId, beta: EntityId)
    requires
        intersect_defined(resized, alpha, beta),
    ensures
        spec_intersect_partner(resized, alpha, beta) is None <==> resized != alpha && resized
            != beta,
        resized == alpha ==> spec_intersect_partner(resized, alpha, beta) == Some(beta),
        resized == beta ==> spec_intersect_partner(resized, alpha, beta) == Some(alpha),
        spec_intersect_partner(resized, alpha, beta) == spec_intersect_partner(
            resized,
            beta,
            alpha,
        ),
{
}

/// The inputs on which [`ResizableField::intersect_partner`] does its work:
/// both ends of an intersection exist above the element and are not one
/// entity that is the resized one.
pub open spec fn intersect_partner_ok(
    field: ResizableField,
    resized: EntityId,
    ancestors: Seq<EntityId>,
) -> bool {
    match field.reference {
        Reference::Intersect(a, b) => {
            &&& spec_entity(a, ancestors) is Some
            &&& spec_entity(b, ancestors) is Some
            &&& intersect_defined(
                resized,
                spec_entity(a, ancestors)->0,
                spec_entity(b, ancestors)->0,
            )
        },
        _ => true,
    }
}

impl ResizableField {
    /// For a dimension measured between two elements: when the element
    /// `resized` is one end, the other end, whose size the dimension is then
    /// computed against; `None` when the dimension follows something else or
    /// `resized` is neither end.
    pub fn intersect_partner(&self, resized: EntityId, ancestors: &Vec<EntityId>) -> (res: Option<
        EntityId,
    >)
        requires
            intersect_partner_ok(*self, resized, ancestors@),
        ensures
            res == (match self.reference {
                Reference::Intersect(a, b) => spec_intersect_partner(
                    resized,
                    spec_entity(a, ancestors@)->0,
                    spec_entity(b, ancestors@)->0,
                ),
                _ => None,
            }),
    {
        match self.reference {
            Reference::Intersect(a, b) => {
                let alpha = a.entity(ancestors).unwrap();
                let beta = b.entity(ancestors).unwrap();
                if resized == alpha {
                    Some(beta)
                } else if resized == beta {
                    Some(alpha)
                } else {
                    None
                }
            },
            _ => None,
        }
    }
}


/// A report that an element has taken a new size, with the elements whose
/// sizes the new one was computed from.
pub struct EntityResized<S> {
    pub entity: EntityId,
    pub size: S,
    pub dependencies: Vec<EntityId>,
}

/// The elements that a batch of resize reports names.
pub open spec fn resized_entities<S>(events: Seq<EntityResized<S>>) -> Set<EntityId> {
    Set::new(|x: EntityId| exists|i: int| 0 <= i < events.len() && events[i].entity == x)
}

/// The dependencies of the last report for `x` in the batch.
pub open spec fn latest_dependencies<S>(events: Seq<EntityResized<S>>, x: EntityId) -> Set<
    EntityId,
>
    decreases events.len(),
{
    if events.len() == 0 {
        Set::empty()
    } else if events.last().entity == x {
        events.last().dependencies@.to_set()
    } else {
        latest_dependencies(events.drop_last(), x)
    }
}

/// The dependencies of `x` that are themselves resized in the batch: those
/// whose final size has to be known before that of `x`.
pub open spec fn pending_dependencies<S>(events: Seq<EntityResized<S>>, x: EntityId) -> Set<
    EntityId,
> {
    latest_dependencies(events, x).intersect(resized_entities(events))
}

/// `order` settles every resized element once, each after all its pending
/// dependencies, and marks with `true` exactly the elements that keep the
/// size they reported (those with no pending dependency).
pub open spec fn is_resolution_order<S>(
    events: Seq<EntityResized<S>>,
    order: Seq<(EntityId, bool)>,
) -> bool {
    &&& forall|i: int, j: int| 0 <= i < j < order.len() ==> order[i].0 != order[j].0
    &&& forall|x: EntityId|
        resized_entities(events).contains(x) <==> exists|i: int|
            0 <= i < order.len() && order[i].0 == x
    &&& forall|i: int, j: int|
        #![trigger pending_dependencies(events, order[i].0).contains(order[j].0)]
        0 <= i < order.len() && 0 <= j < order.len() && pending_dependencies(
            events,
            order[i].0,
        ).contains(order[j].0) ==> j < i
    &&& forall|i: int|
        0 <= i < order.len() ==> (order[i].1 <==> pending_dependencies(events, order[i].0)
            =~= Set::empty())
}

/// A non-empty set of resized elements, each waiting on another one of the
/// set: none of them can ever be settled.
pub open spec fn is_stuck_set<S>(events: Seq<EntityResized<S>>, s: Set<EntityId>) -> bool {
    &&& s.subset_of(resized_entities(events))
    &&& exists|x: EntityId| s.contains(x)
    &&& forall|x: EntityId|
        #![trigger pending_dependencies(events, x)]
        s.contains(x) ==> exists|d: EntityId|
            pending_dependencies(events, x).contains(d) && s.contains(d)
}

proof fn lemma_latest_dependencies<S>(events: Seq<EntityResized<S>>, x: EntityId, r: int)
    requires
        0 <= r < events.len(),
        events[r].entity == x,
        forall|j: int| r < j < events.len() ==> events[j].entity != x,
    ensures
        latest_dependencies(events, x) == events[r].dependencies@.to_set(),
    decreases events.len(),
{
    if r < events.len() - 1 {
        lemma_latest_dependencies(events.drop_last(), x, r);
    }
}

fn index_of(v: &Vec<EntityId>, x: EntityId) -> (res: Option<usize>)
    ensures
        match res {
            Some(k) => k < v.len() && v@[k as int] == x,
            None => !v@.contains(x),
        },
{
    let n = v.len();
    for k in 0..n
        invariant
            n == v.len(),
            forall|j: int| 0 <= j < k ==> v@[j] != x,
    {
        if v[k] == x {
            return Some(k);
        }
    }
    None
}

fn settled_contains(order: &Vec<(EntityId, bool)>, x: EntityId) -> (res: bool)
    ensures
        res == exists|i: int| 0 <= i < order.len() && order@[i].0 == x,
{
    let n = order.len();
    for k in 0..n
        invariant
            n == order.len(),
            forall|j: int| 0 <= j < k ==> order@[j].0 != x,
    {
        if order[k].0 == x {
            return true;
        }
    }
    false
}

/// The distinct resized elements, and for each the index of its last report.
fn latest_reports<S>(events: &Vec<EntityResized<S>>) -> (res: (Vec<EntityId>, Vec<usize>))
    ensures
        res.0.len() == res.1.len(),
        forall|k1: int, k2: int| 0 <= k1 < k2 < res.0.len() ==> res.0@[k1] != res.0@[k2],
        forall|x: EntityId| resized_entities(events@).contains(x) <==> res.0@.contains(x),
        forall|k: int|
            #![trigger res.1@[k]]
            #![trigger res.0@[k]]
            0 <= k < res.0.len() ==> {
                &&& res.1@[k] < events.len()
                &&& events@[res.1@[k] as int].entity == res.0@[k]
                &&& forall|j: int|
                    res.1@[k] < j < events.len() ==> events@[j].entity != res.0@[k]
            },
{
    let mut ents: Vec<EntityId> = Vec::new();
    let mut last: Vec<usize> = Vec::new();
    let n = events.len();
    let mut i: usize = 0;
    while i < n
        invariant
            i <= n,
            n == events.len(),
            ents.len() == last.len(),
            forall|k1: int, k2: int| 0 <= k1 < k2 < ents.len() ==> ents@[k1] != ents@[k2],
            forall|x: EntityId|
                (exists|j: int| 0 <= j < i && events@[j].entity == x) <==> ents@.contains(x),
            forall|k: int|
                #![trigger last@[k]]
                #![trigger ents@[k]]
                0 <= k < ents.len() ==> {
                    &&& last@[k] < i
                    &&& events@[last@[k] as int].entity == ents@[k]
                    &&& forall|j: int| last@[k] < j < i ==> events@[j].entity != ents@[k]
                },
        decreases n - i,
    {
        let ghost prev = ents@;
        let x = events[i].entity;
        match index_of(&ents, x) {
            Some(k) => {
                last.set(k, i);
            },
            None => {
                ents.push(x);
                last.push(i);
            },
        }
        assert forall|k: int| 0 <= k < ents.len() && ents@[k] != x implies k < prev.len()
            && ents@[k] == prev[k] && last@[k] < i && forall|j: int| last@[k] < j < i + 1
            ==> events@[j].entity != ents@[k] by {}
        assert forall|k: int| 0 <= k < ents.len() && ents@[k] == x implies last@[k] == i by {
            if k < prev.len() {
                assert(prev.contains(x));
            }
        }
        assert(ents@.contains(x)) by {
            if prev.contains(x) {
                let k = choose|k: int| 0 <= k < prev.len() && prev[k] == x;
                assert(ents@[k] == x);
            } else {
                assert(ents@[ents.len() - 1] == x);
            }
        }
        assert forall|y: EntityId|
            (exists|j: int| 0 <= j < i + 1 && events@[j].entity == y) implies ents@.contains(
            y,
        ) by {
            let j = choose|j: int| 0 <= j < i + 1 && events@[j].entity == y;
            if j < i {
                assert(prev.contains(y));
                let k = choose|k: int| 0 <= k < prev.len() && prev[k] == y;
                assert(ents@[k] == y);
            }
        }
        assert forall|y: EntityId| ents@.contains(y) implies (exists|j: int|
            0 <= j < i + 1 && events@[j].entity == y) by {
            let k = choose|k: int| 0 <= k < ents.len() && ents@[k] == y;
            if k < prev.len() {
                assert(prev.contains(y));
            } else {
                assert(events@[i as int].entity == y);
            }
        }
        i = i + 1;
    }
    (ents, last)
}

fn pending_list(deps: &Vec<EntityId>, ents: &Vec<EntityId>) -> (res: Vec<EntityId>)
    ensures
        forall|d: EntityId| res@.contains(d) <==> (deps@.contains(d) && ents@.contains(d)),
{
    let mut res: Vec<EntityId> = Vec::new();
    let n = deps.len();
    let mut i: usize = 0;
    while i < n
        invariant
            i <= n,
            n == deps.len(),
            forall|d: EntityId|
                res@.contains(d) <==> ((exists|j: int| 0 <= j < i && deps@[j] == d)
                    && ents@.contains(d)),
        decreases n - i,
    {
        let d = deps[i];
        let ghost prev = res@;
        if index_of(ents, d).is_some() {
            res.push(d);
            assert(res@[res.len() - 1] == d);
        }
        assert forall|e: EntityId| res@.contains(e) implies ((exists|j: int|
            0 <= j < i + 1 && deps@[j] == e) && ents@.contains(e)) by {
            let q = choose|q: int| 0 <= q < res.len() && res@[q] == e;
            if q < prev.len() {
                assert(prev.contains(e));
            }
        }
        assert forall|e: EntityId|
            (exists|j: int| 0 <= j < i + 1 && deps@[j] == e) && ents@.contains(e) implies res@.contains(
            e,
        ) by {
            let j = choose|j: int| 0 <= j < i + 1 && deps@[j] == e;
            if j < i {
                assert(prev.contains(e));
                let q = choose|q: int| 0 <= q < prev.len() && prev[q] == e;
                assert(res@[q] == e);
            }
        }
        i = i + 1;
    }
    assert forall|d: EntityId| deps@.contains(d) implies exists|j: int|
        0 <= j < n && deps@[j] == d by {
        let j = choose|j: int| 0 <= j < deps@.len() && deps@[j] == d;
    }
    res
}

fn all_settled(deps: &Vec<EntityId>, order: &Vec<(EntityId, bool)>) -> (res: bool)
    ensures
        res == forall|d: EntityId|
            deps@.contains(d) ==> exists|i: int| 0 <= i < order.len() && order@[i].0 == d,
{
    let n = deps.len();
    let mut i: usize = 0;
    while i < n
        invariant
            i <= n,
            n == deps.len(),
            forall|j: int|
                #![trigger deps@[j]]
                0 <= j < i ==> exists|q: int| 0 <= q < order.len() && order@[q].0 == deps@[j],
        decreases n - i,
    {
        if !settled_contains(order, deps[i]) {
            assert(deps@.contains(deps@[i as int]));
            return false;
        }
        i = i + 1;
    }
    assert forall|d: EntityId| deps@.contains(d) implies exists|q: int|
        0 <= q < order.len() && order@[q].0 == d by {
        let j = choose|j: int| 0 <= j < deps@.len() && deps@[j] == d;
    }
    true
}

spec fn count_false(s: Seq<bool>) -> nat
    decreases s.len(),
{
    if s.len() == 0 {
        0
    } else {
        count_false(s.drop_last()) + if s.last() {
            0nat
        } else {
            1nat
        }
    }
}

proof fn lemma_count_false_update(s: Seq<bool>, k: int)
    requires
        0 <= k < s.len(),
        !s[k],
    ensures
        count_false(s.update(k, true)) + 1 == count_false(s),
    decreases s.len(),
{
    let t = s.update(k, true);
    if k < s.len() - 1 {
        assert(t.drop_last() =~= s.drop_last().update(k, true));
        lemma_count_false_update(s.drop_last(), k);
    } else {
        assert(t.drop_last() =~= s.drop_last());
    }
}

proof fn lemma_count_false_witness(s: Seq<bool>)
    ensures
        count_false(s) > 0 <==> exists|k: int| 0 <= k < s.len() && !s[k],
    decreases s.len(),
{
    if s.len() > 0 {
        lemma_count_false_witness(s.drop_last());
        if exists|k: int| 0 <= k < s.len() && !s[k] {
            let k = choose|k: int| 0 <= k < s.len() && !s[k];
            if k < s.len() - 1 {
                assert(!s.drop_last()[k]);
            }
        }
        if exists|k: int| 0 <= k < s.drop_last().len() && !s.drop_last()[k] {
            let k = choose|k: int| 0 <= k < s.drop_last().len() && !s.drop_last()[k];
            assert(!s[k]);
        }
    }
}

/// The fixed part of the settling state: `ents` are the distinct resized
/// elements and `pend[q]` holds the pending dependencies of `ents[q]`.
#[verifier::opaque]
spec fn batch_index<S>(
    events: Seq<EntityResized<S>>,
    ents: Seq<EntityId>,
    pend: Seq<Vec<EntityId>>,
) -> bool {
    &&& pend.len() == ents.len()
    &&& forall|q1: int, q2: int| 0 <= q1 < q2 < ents.len() ==> ents[q1] != ents[q2]
    &&& forall|x: EntityId| resized_entities(events).contains(x) <==> ents.contains(x)
    &&& forall|q: int, d: EntityId|
        0 <= q < ents.len() ==> (#[trigger] pend[q]@.contains(d) <==> pending_dependencies(
            events,
            ents[q],
        ).contains(d))
}

/// The changing part: `order` lists, each once, exactly the elements marked
/// in `resolved`, each after its pending dependencies and with its flag.
#[verifier::opaque]
spec fn settled_so_far<S>(
    events: Seq<EntityResized<S>>,
    ents: Seq<EntityId>,
    resolved: Seq<bool>,
    order: Seq<(EntityId, bool)>,
) -> bool {
    &&& resolved.len() == ents.len()
    &&& forall|i: int, j: int| 0 <= i < j < order.len() ==> order[i].0 != order[j].0
    &&& forall|i: int|
        0 <= i < order.len() ==> exists|q: int|
            0 <= q < ents.len() && ents[q] == #[trigger] order[i].0 && resolved[q]
    &&& forall|q: int|
        0 <= q < ents.len() && #[trigger] resolved[q] ==> exists|i: int|
            0 <= i < order.len() && order[i].0 == ents[q]
    &&& forall|i: int, d: EntityId|
        0 <= i < order.len() && pending_dependencies(events, order[i].0).contains(d)
            ==> exists|j: int| 0 <= j < i && order[j].0 == d
    &&& forall|i: int|
        0 <= i < order.len() ==> (order[i].1 <==> pending_dependencies(events, order[i].0)
            =~= Set::empty())
}

proof fn lemma_settle_one<S>(
    events: Seq<EntityResized<S>>,
    ents: Seq<EntityId>,
    pend: Seq<Vec<EntityId>>,
    resolved: Seq<bool>,
    order: Seq<(EntityId, bool)>,
    k: int,
)
    requires
        batch_index(events, ents, pend),
        settled_so_far(events, ents, resolved, order),
        0 <= k < ents.len(),
        !resolved[k],
        forall|d: EntityId|
            pend[k]@.contains(d) ==> exists|i: int| 0 <= i < order.len() && order[i].0 == d,
    ensures
        settled_so_far(
            events,
            ents,
            resolved.update(k, true),
            order.push((ents[k], pend[k]@.len() == 0)),
        ),
{
    reveal(batch_index);
    reveal(settled_so_far);
    let x = ents[k];
    let no_deps = pend[k]@.len() == 0;
    let res_s = resolved.update(k, true);
    let ord_s = order.push((x, no_deps));
    assert(no_deps <==> pending_dependencies(events, x) =~= Set::empty()) by {
        if no_deps {
            assert forall|d: EntityId| !pending_dependencies(events, x).contains(d) by {
                if pending_dependencies(events, x).contains(d) {
                    assert(pend[k]@.contains(d));
                }
            }
        } else {
            assert(pend[k]@.contains(pend[k]@[0]));
            assert(pending_dependencies(events, x).contains(pend[k]@[0]));
        }
    }
    assert forall|i: int| 0 <= i < order.len() implies order[i].0 != x by {
        let q = choose|q: int| 0 <= q < ents.len() && ents[q] == #[trigger] order[i].0 && resolved[q];
    }
    assert forall|i: int| 0 <= i < ord_s.len() implies exists|q: int|
        0 <= q < ents.len() && ents[q] == #[trigger] ord_s[i].0 && res_s[q] by {
        if i < order.len() {
            let q = choose|q: int|
                0 <= q < ents.len() && ents[q] == #[trigger] order[i].0 && resolved[q];
            assert(res_s[q]);
        } else {
            assert(ents[k] == ord_s[i].0 && res_s[k]);
        }
    }
    assert forall|q: int| 0 <= q < ents.len() && #[trigger] res_s[q] implies exists|i: int|
        0 <= i < ord_s.len() && ord_s[i].0 == ents[q] by {
        if q == k {
            assert(ord_s[ord_s.len() - 1].0 == ents[q]);
        } else {
            assert(resolved[q]);
            let i = choose|i: int| 0 <= i < order.len() && order[i].0 == ents[q];
            assert(ord_s[i].0 == ents[q]);
        }
    }
    assert forall|i: int, d: EntityId|
        0 <= i < ord_s.len() && pending_dependencies(events, ord_s[i].0).contains(
            d,
        ) implies exists|j: int| 0 <= j < i && ord_s[j].0 == d by {
        if i < order.len() {
            let j = choose|j: int| 0 <= j < i && order[j].0 == d;
            assert(ord_s[j].0 == d);
        } else {
            assert(pend[k]@.contains(d));
            let j = choose|j: int| 0 <= j < order.len() && order[j].0 == d;
            assert(ord_s[j].0 == d);
        }
    }
    assert forall|i: int, j: int| 0 <= i < j < ord_s.len() implies ord_s[i].0 != ord_s[j].0 by {
        if j == order.len() {
            assert(ord_s[i].0 == order[i].0);
        } else {
            assert(ord_s[i].0 == order[i].0 && ord_s[j].0 == order[j].0);
        }
    }
    assert forall|i: int| 0 <= i < ord_s.len() implies (ord_s[i].1 <==> pending_dependencies(
        events,
        ord_s[i].0,
    ) =~= Set::empty()) by {
        if i < order.len() {
            assert(ord_s[i] == order[i]);
        }
    }
}

/// Settles `ents[k]`, all of whose pending dependencies are settled.
fn settle_one<S>(
    events: &Vec<EntityResized<S>>,
    ents: &Vec<EntityId>,
    pend: &Vec<Vec<EntityId>>,
    resolved: &mut Vec<bool>,
    order: &mut Vec<(EntityId, bool)>,
    k: usize,
)
    requires
        batch_index(events@, ents@, pend@),
        settled_so_far(events@, ents@, old(resolved)@, old(order)@),
        pend.len() == ents.len(),
        old(resolved).len() == ents.len(),
        k < ents.len(),
        !old(resolved)@[k as int],
        forall|d: EntityId|
            pend@[k as int]@.contains(d) ==> exists|i: int|
                0 <= i < old(order).len() && old(order)@[i].0 == d,
    ensures
        settled_so_far(events@, ents@, final(resolved)@, final(order)@),
        final(resolved)@ == old(resolved)@.update(k as int, true),
        final(resolved).len() == ents.len(),
{
    proof {
        lemma_settle_one(events@, ents@, pend@, resolved@, order@, k as int);
        reveal(batch_index);
        reveal(settled_so_far);
    }
    let x = ents[k];
    let no_deps = pend[k].len() == 0;
    order.push((x, no_deps));
    resolved.set(k, true);
}

/// One pass over the unsettled elements, settling each whose pending
/// dependencies are all settled by then. Returns whether any was settled;
/// when none was, each unsettled element waits on an unsettled one.
fn settle_round<S>(
    events: &Vec<EntityResized<S>>,
    ents: &Vec<EntityId>,
    pend: &Vec<Vec<EntityId>>,
    resolved: &mut Vec<bool>,
    order: &mut Vec<(EntityId, bool)>,
) -> (progress: bool)
    requires
        batch_index(events@, ents@, pend@),
        settled_so_far(events@, ents@, old(resolved)@, old(order)@),
        pend.len() == ents.len(),
        old(resolved).len() == ents.len(),
    ensures
        settled_so_far(events@, ents@, final(resolved)@, final(order)@),
        final(resolved).len() == ents.len(),
        progress ==> count_false(final(resolved)@) < count_false(old(resolved)@),
        !progress ==> count_false(final(resolved)@) == count_false(old(resolved)@),
        !progress ==> forall|q: int|
            0 <= q < ents.len() && !#[trigger] final(resolved)@[q] ==> exists|d: EntityId|
                pend@[q]@.contains(d) && !exists|i: int|
                    0 <= i < final(order).len() && final(order)@[i].0 == d,
{
    let m = ents.len();
    let mut progress = false;
    let mut k: usize = 0;
    while k < m
        invariant
            k <= m,
            m == ents.len(),
            pend.len() == m,
            resolved.len() == m,
            batch_index(events@, ents@, pend@),
            settled_so_far(events@, ents@, resolved@, order@),
            progress ==> count_false(resolved@) < count_false(old(resolved)@),
            !progress ==> count_false(resolved@) == count_false(old(resolved)@),
            !progress ==> forall|q: int|
                0 <= q < k && !#[trigger] resolved@[q] ==> exists|d: EntityId|
                    pend@[q]@.contains(d) && !exists|i: int|
                        0 <= i < order.len() && order@[i].0 == d,
        decreases m - k,
    {
        if !resolved[k] {
            if all_settled(&pend[k], &order) {
                proof {
                    lemma_count_false_update(resolved@, k as int);
                }
                settle_one(events, ents, pend, resolved, order, k);
                progress = true;
            } else {
                assert(pend@[k as int]@.contains(choose|d: EntityId|
                    pend@[k as int]@.contains(d) && !exists|i: int|
                        0 <= i < order.len() && order@[i].0 == d));
            }
        }
        k = k + 1;
    }
    progress
}

/// Settles a batch, or finds that some of its elements wait on each other.
fn settle_batch<S>(events: &Vec<EntityResized<S>>) -> (res: Option<
    Vec<(EntityId, bool)>,
>)
    ensures
        match res {
            Some(order) => is_resolution_order(events@, order@),
            None => exists|s: Set<EntityId>| is_stuck_set(events@, s),
        },
{
    let (ents, last) = latest_reports(events);
    let m = ents.len();
    let mut pend: Vec<Vec<EntityId>> = Vec::new();
    let mut k: usize = 0;
    while k < m
        invariant
            k <= m,
            m == ents.len(),
            ents.len() == last.len(),
            pend.len() == k,
            forall|x: EntityId| resized_entities(events@).contains(x) <==> ents@.contains(x),
            forall|q: int|
                #![trigger last@[q]]
                #![trigger ents@[q]]
                0 <= q < ents.len() ==> {
                    &&& last@[q] < events.len()
                    &&& events@[last@[q] as int].entity == ents@[q]
                    &&& forall|j: int| last@[q] < j < events.len() ==> events@[j].entity != ents@[q]
                },
            forall|q: int, d: EntityId|
                0 <= q < k ==> (#[trigger] pend@[q]@.contains(d) <==> pending_dependencies(
                    events@,
                    ents@[q],
                ).contains(d)),
        decreases m - k,
    {
        let p = pending_list(&events[last[k]].dependencies, &ents);
        proof {
            lemma_latest_dependencies(events@, ents@[k as int], last@[k as int] as int);
        }
        pend.push(p);
        k = k + 1;
    }
    let mut resolved: Vec<bool> = Vec::new();
    let mut k: usize = 0;
    while k < m
        invariant
            k <= m,
            resolved.len() == k,
            count_false(resolved@) == k,
            forall|q: int| 0 <= q < k ==> !resolved@[q],
        decreases m - k,
    {
        let ghost prev = resolved@;
        resolved.push(false);
        assert(resolved@.drop_last() =~= prev);
        k = k + 1;
    }
    let mut order: Vec<(EntityId, bool)> = Vec::new();
    proof {
        reveal(batch_index);
        reveal(settled_so_far);
    }
    let mut remaining: usize = m;
    while remaining > 0
        invariant
            m == ents.len(),
            pend.len() == m,
            resolved.len() == m,
            remaining == count_false(resolved@),
            batch_index(events@, ents@, pend@),
            settled_so_far(events@, ents@, resolved@, order@),
        decreases remaining,
    {
        let progress = settle_round(&events, &ents, &pend, &mut resolved, &mut order);
        if !progress {
            proof {
                lemma_stuck(events@, ents@, pend@, resolved@, order@);
            }
            return None;
        }
        remaining = count_remaining(&resolved);
    }
    proof {
        lemma_complete(events@, ents@, pend@, resolved@, order@);
    }
    Some(order)
}

proof fn lemma_stuck<S>(
    events: Seq<EntityResized<S>>,
    ents: Seq<EntityId>,
    pend: Seq<Vec<EntityId>>,
    resolved: Seq<bool>,
    order: Seq<(EntityId, bool)>,
)
    requires
        batch_index(events, ents, pend),
        settled_so_far(events, ents, resolved, order),
        count_false(resolved) > 0,
        forall|q: int|
            0 <= q < ents.len() && !#[trigger] resolved[q] ==> exists|d: EntityId|
                pend[q]@.contains(d) && !exists|i: int| 0 <= i < order.len() && order[i].0 == d,
    ensures
        exists|s: Set<EntityId>| is_stuck_set(events, s),
{
    reveal(batch_index);
    reveal(settled_so_far);
    lemma_count_false_witness(resolved);
    let m = ents.len();
    let s = Set::new(|x: EntityId| exists|q: int| 0 <= q < m && ents[q] == x && !resolved[q]);
    let q0 = choose|q: int| 0 <= q < resolved.len() && !resolved[q];
    assert(s.contains(ents[q0]));
    assert forall|x: EntityId| s.contains(x) implies resized_entities(events).contains(x) by {
        let q = choose|q: int| 0 <= q < m && ents[q] == x && !resolved[q];
        assert(ents.contains(x));
    }
    assert forall|x: EntityId|
        #![trigger pending_dependencies(events, x)]
        s.contains(x) implies exists|d: EntityId|
            pending_dependencies(events, x).contains(d) && s.contains(d) by {
        let q = choose|q: int| 0 <= q < m && ents[q] == x && !resolved[q];
        let d = choose|d: EntityId|
            pend[q]@.contains(d) && !exists|i: int| 0 <= i < order.len() && order[i].0 == d;
        assert(pending_dependencies(events, x).contains(d));
        assert(ents.contains(d));
        let q2 = choose|q2: int| 0 <= q2 < ents.len() && ents[q2] == d;
        if resolved[q2] {
            let i = choose|i: int| 0 <= i < order.len() && order[i].0 == ents[q2];
        }
        assert(s.contains(d));
    }
    assert(is_stuck_set(events, s));
}

proof fn lemma_complete<S>(
    events: Seq<EntityResized<S>>,
    ents: Seq<EntityId>,
    pend: Seq<Vec<EntityId>>,
    resolved: Seq<bool>,
    order: Seq<(EntityId, bool)>,
)
    requires
        batch_index(events, ents, pend),
        settled_so_far(events, ents, resolved, order),
        count_false(resolved) == 0,
    ensures
        is_resolution_order(events, order),
{
    reveal(batch_index);
    reveal(settled_so_far);
    lemma_count_false_witness(resolved);
    assert forall|x: EntityId| resized_entities(events).contains(x) implies exists|i: int|
        0 <= i < order.len() && order[i].0 == x by {
        assert(ents.contains(x));
        let q = choose|q: int| 0 <= q < ents.len() && ents[q] == x;
        assert(!(0 <= q < resolved.len() && !resolved[q]));
        assert(resolved[q]);
    }
    assert forall|x: EntityId| (exists|i: int| 0 <= i < order.len() && order[i].0 == x)
        implies resized_entities(events).contains(x) by {
        let i = choose|i: int| 0 <= i < order.len() && order[i].0 == x;
        let q = choose|q: int|
            0 <= q < ents.len() && ents[q] == #[trigger] order[i].0 && resolved[q];
        assert(ents.contains(x));
    }
    assert forall|i: int, j: int|
        #![trigger pending_dependencies(events, order[i].0).contains(order[j].0)]
        0 <= i < order.len() && 0 <= j < order.len() && pending_dependencies(
            events,
            order[i].0,
        ).contains(order[j].0) implies j < i by {
        let j2 = choose|j2: int| 0 <= j2 < i && order[j2].0 == order[j].0;
        if j != j2 {
            assert(order[j2].0 != order[j].0);
        }
    }
}

proof fn lemma_prefix_not_stuck(
    ids: Seq<EntityId>,
    deps: spec_fn(EntityId) -> Set<EntityId>,
    s: Set<EntityId>,
    n: int,
)
    requires
        forall|i: int, d: EntityId|
            0 <= i < ids.len() && #[trigger] deps(ids[i]).contains(d) ==> exists|j: int|
                0 <= j < i && ids[j] == d,
        forall|x: EntityId|
            #![trigger deps(x)]
            s.contains(x) ==> exists|d: EntityId| deps(x).contains(d) && s.contains(d),
        0 <= n <= ids.len(),
    ensures
        forall|i: int| 0 <= i < n ==> !s.contains(#[trigger] ids[i]),
    decreases n,
{
    if n > 0 {
        lemma_prefix_not_stuck(ids, deps, s, n - 1);
        let x = ids[n - 1];
        if s.contains(x) {
            let d = choose|d: EntityId| deps(x).contains(d) && s.contains(d);
            let j = choose|j: int| 0 <= j < n - 1 && ids[j] == d;
            assert(!s.contains(ids[j]));
        }
    }
}

/// Whether a batch of resize reports can be settled depends on the batch
/// alone: when an order settles it, no set of its elements waits on itself.
/// Hence `can_settle` holds exactly when a settling order exists.
pub proof fn resolution_excludes_stuck_set<S>(
    events: Seq<EntityResized<S>>,
    order: Seq<(EntityId, bool)>,
    s: Set<EntityId>,
)
    requires
        is_resolution_order(events, order),
    ensures
        !is_stuck_set(events, s),
{
    if is_stuck_set(events, s) {
        let ids = order.map_values(|p: (EntityId, bool)| p.0);
        let deps = |x: EntityId| pending_dependencies(events, x);
        assert forall|i: int, d: EntityId|
            0 <= i < ids.len() && #[trigger] deps(ids[i]).contains(d) implies exists|j: int|
                0 <= j < i && ids[j] == d by {
            assert(ids[i] == order[i].0);
            assert(resized_entities(events).contains(d));
            let j = choose|j: int| 0 <= j < order.len() && order[j].0 == d;
            assert(ids[j] == d);
        }
        assert forall|x: EntityId|
            #![trigger deps(x)]
            s.contains(x) implies exists|d: EntityId| deps(x).contains(d) && s.contains(d) by {
            let pd = pending_dependencies(events, x);
            let d = choose|d: EntityId| pd.contains(d) && s.contains(d);
            assert(deps(x).contains(d));
        }
        lemma_prefix_not_stuck(ids, deps, s, ids.len() as int);
        let x = choose|x: EntityId| s.contains(x);
        assert(resized_entities(events).contains(x));
        let i = choose|i: int| 0 <= i < order.len() && order[i].0 == x;
        assert(!s.contains(ids[i]));
    }
}

/// Whether a batch of resize reports can be settled: it can unless some of
/// its elements wait on each other.
pub fn can_settle<S>(events: &Vec<EntityResized<S>>) -> (res: bool)
    ensures
        res <==> forall|s: Set<EntityId>| !is_stuck_set(events@, s),
{
    match settle_batch(events) {
        Some(order) => {
            proof {
                assert forall|s: Set<EntityId>| !is_stuck_set(events@, s) by {
                    resolution_excludes_stuck_set(events@, order@, s);
                }
            }
            true
        },
        None => false,
    }
}

/// Settles a batch of resize reports: every resized element is given its
/// final size only after all the elements it depends on in the batch. An
/// element without such a dependency keeps the size it reported (`true`);
/// the others are to be computed again (`false`). A batch whose elements
/// wait on each other is never settled.
pub fn eventual_entity_resize<S>(events: &Vec<EntityResized<S>>) -> (order: Vec<(EntityId, bool)>)
    requires
        forall|s: Set<EntityId>| !is_stuck_set(events@, s),
    ensures
        is_resolution_order(events@, order@),
{
    match settle_batch(events) {
        Some(order) => order,
        None => vstd::pervasive::unreached(),
    }
}

/// The size in the last report for `x` in the batch, if any.
pub open spec fn latest_size<S>(events: Seq<EntityResized<S>>, x: EntityId) -> Option<S>
    decreases events.len(),
{
    if events.len() == 0 {
        None
    } else if events.last().entity == x {
        Some(events.last().size)
    } else {
        latest_size(events.drop_last(), x)
    }
}

/// The latest size of `x` is that of the last report for `x`: there is one
/// exactly when some report is for `x`, and then it is the size of a report
/// for `x` that no later report for `x` follows.
pub proof fn latest_size_is_the_last_report<S>(events: Seq<EntityResized<S>>, x: EntityId)
    ensures
        latest_size(events, x) is Some <==> exists|i: int|
            0 <= i < events.len() && #[trigger] events[i].entity == x,
        latest_size(events, x) is Some ==> exists|i: int|
            0 <= i < events.len() && #[trigger] events[i].entity == x && latest_size(events, x)
                == Some(events[i].size) && forall|j: int|
                i < j < events.len() ==> #[trigger] events[j].entity != x,
    decreases events.len(),
{
    if events.len() > 0 {
        let rest = events.drop_last();
        let n = events.len() - 1;
        latest_size_is_the_last_report(rest, x);
        if events.last().entity == x {
            assert(events[n].entity == x);
        } else {
            if latest_size(rest, x) is Some {
                let i = choose|i: int|
                    0 <= i < rest.len() && #[trigger] rest[i].entity == x && latest_size(rest, x)
                        == Some(rest[i].size) && forall|j: int|
                        i < j < rest.len() ==> #[trigger] rest[j].entity != x;
                assert(events[i] == rest[i]);
                assert forall|j: int| i < j < events.len() implies #[trigger] events[j].entity != x by {
                    if j < n {
                        assert(events[j] == rest[j]);
                    }
                }
            }
            assert((exists|i: int| 0 <= i < events.len() && #[trigger] events[i].entity == x)
                ==> exists|i: int| 0 <= i < rest.len() && #[trigger] rest[i].entity == x) by {
                if exists|i: int| 0 <= i < events.len() && #[trigger] events[i].entity == x {
                    let i = choose|i: int| 0 <= i < events.len() && #[trigger] events[i].entity == x;
                    assert(i != n);
                    assert(rest[i] == events[i]);
                }
            }
            assert((exists|i: int| 0 <= i < rest.len() && #[trigger] rest[i].entity == x)
                ==> exists|i: int| 0 <= i < events.len() && #[trigger] events[i].entity == x) by {
                if exists|i: int| 0 <= i < rest.len() && #[trigger] rest[i].entity == x {
                    let i = choose|i: int| 0 <= i < rest.len() && #[trigger] rest[i].entity == x;
                    assert(rest[i] == events[i]);
                }
            }
        }
    }
}

/// The size that an element keeping its reported size settles at: the one
/// of its last report in the batch.
pub fn latest_reported_size<S: Copy>(events: &Vec<EntityResized<S>>, x: EntityId) -> (res: Option<S>)
    ensures
        res == latest_size(events@, x),
{
    let n = events.len();
    assert(events@.take(n as int) =~= events@);
    let mut k: usize = n;
    while k > 0
        invariant
            k <= n,
            n == events.len(),
            latest_size(events@, x) == latest_size(events@.take(k as int), x),
        decreases k,
    {
        assert(events@.take(k as int).drop_last() =~= events@.take(k - 1));
        if events[k - 1].entity == x {
            return Some(events[k - 1].size);
        }
        k = k - 1;
    }
    None
}

fn count_remaining(resolved: &Vec<bool>) -> (res: usize)
    ensures
        res == count_false(resolved@),
{
    let n = resolved.len();
    let mut c: usize = 0;
    let mut i: usize = 0;
    while i < n
        invariant
            i <= n,
            n == resolved.len(),
            c == count_false(resolved@.take(i as int)),
            c <= i,
        decreases n - i,
    {
        assert(resolved@.take(i + 1).drop_last() =~= resolved@.take(i as int));
        if !resolved[i] {
            c = c + 1;
        }
        i = i + 1;
    }
    assert(resolved@.take(n as int) =~= resolved@);
    c
}

/// The elements of `s`, each once, in the order of their first occurrence.
pub open spec fn first_occurrences(s: Seq<EntityId>) -> Seq<EntityId>
    decreases s.len(),
{
    if s.len() == 0 {
        Seq::empty()
    } else {
        let r = first_occurrences(s.drop_last());
        if s.drop_last().contains(s.last()) {
            r
        } else {
            r.push(s.last())
        }
    }
}

/// How many entries of `s` repeat an earlier one.
pub open spec fn repeated_count(s: Seq<EntityId>) -> nat
    decreases s.len(),
{
    if s.len() == 0 {
        0
    } else {
        repeated_count(s.drop_last()) + if s.drop_last().contains(s.last()) {
            1nat
        } else {
            0nat
        }
    }
}

/// How many entries of `s` belong to `m`.
pub open spec fn count_in(s: Seq<EntityId>, m: Set<EntityId>) -> nat
    decreases s.len(),
{
    if s.len() == 0 {
        0
    } else {
        count_in(s.drop_last(), m) + if m.contains(s.last()) {
            1nat
        } else {
            0nat
        }
    }
}

/// `count_in(s, m)` counts the entries of `s` in `m`: none when no entry is
/// in `m`, all when every entry is, and the entries outside `m` make up the
/// rest.
pub proof fn count_in_counts_members(s: Seq<EntityId>, m: Set<EntityId>)
    ensures
        (forall|i: int| 0 <= i < s.len() ==> !m.contains(#[trigger] s[i])) ==> count_in(s, m) == 0,
        (forall|i: int| 0 <= i < s.len() ==> m.contains(#[trigger] s[i])) ==> count_in(s, m)
            == s.len(),
        count_in(s, m) + count_in(s, m.complement()) == s.len(),
    decreases s.len(),
{
    if s.len() > 0 {
        let t = s.drop_last();
        count_in_counts_members(t, m);
        assert forall|i: int| 0 <= i < t.len() implies t[i] == s[i] by {}
        assert(s.last() == s[s.len() - 1]);
    }
}

/// The element each report of the batch is about, in order.
pub open spec fn report_entities<S>(events: Seq<EntityResized<S>>) -> Seq<EntityId> {
    events.map_values(|e: EntityResized<S>| e.entity)
}

/// Every element that some report depends on.
pub open spec fn all_dependencies<S>(events: Seq<EntityResized<S>>) -> Set<EntityId> {
    Set::new(
        |d: EntityId|
            exists|i: int| 0 <= i < events.len() && events[i].dependencies@.contains(d),
    )
}

/// Every element that some report depends on although it had not been
/// resized yet when that report came (its own element counts as resized).
pub open spec fn out_of_order_dependencies<S>(events: Seq<EntityResized<S>>) -> Set<EntityId> {
    Set::new(
        |d: EntityId|
            exists|i: int|
                0 <= i < events.len() && events[i].dependencies@.contains(d) && !report_entities(
                    events,
                ).take(i + 1).contains(d),
    )
}

/// Counts over one batch of resize reports.
#[derive(Clone, Copy, Debug, PartialEq, Eq, Structural)]
pub struct ResizeStats {
    /// Reports received.
    pub count: usize,
    /// Distinct elements resized.
    pub were_resized: usize,
    /// Resized elements that some report depends on.
    pub were_deps: usize,
    /// Resized elements that some report depended on before they were resized.
    pub were_ooo: usize,
    /// Reports for an element already resized in the batch.
    pub already_resized: usize,
}

proof fn lemma_push_contains(s: Seq<EntityId>, y: EntityId, x: EntityId)
    ensures
        s.push(y).contains(x) <==> (s.contains(x) || x == y),
{
    let t = s.push(y);
    if s.contains(x) {
        let i = choose|i: int| 0 <= i < s.len() && s[i] == x;
        assert(t[i] == x);
    }
    if x == y {
        assert(t[s.len() as int] == x);
    }
    if t.contains(x) {
        let i = choose|i: int| 0 <= i < t.len() && t[i] == x;
        if i < s.len() {
            assert(s[i] == x);
        }
    }
}

proof fn lemma_first_occurrences(s: Seq<EntityId>)
    ensures
        forall|x: EntityId| #[trigger] first_occurrences(s).contains(x) <==> s.contains(x),
        first_occurrences(s).len() + repeated_count(s) == s.len(),
        first_occurrences(s).no_duplicates(),
    decreases s.len(),
{
    if s.len() > 0 {
        let t = s.drop_last();
        let l = s.last();
        let r = first_occurrences(t);
        lemma_first_occurrences(t);
        assert(s =~= t.push(l));
        assert forall|x: EntityId| #[trigger] first_occurrences(s).contains(x) <==> s.contains(
            x,
        ) by {
            lemma_push_contains(t, l, x);
            lemma_push_contains(r, l, x);
        }
        if !t.contains(l) {
            assert(!r.contains(l));
            let rp = r.push(l);
            assert forall|i: int, j: int| 0 <= i < rp.len() && 0 <= j < rp.len() && i != j implies rp[i]
                != rp[j] by {
                if i < r.len() && j < r.len() {
                    assert(rp[i] == r[i] && rp[j] == r[j]);
                } else if i < r.len() {
                    assert(rp[i] == r[i]);
                    assert(r.contains(r[i]));
                } else if j < r.len() {
                    assert(rp[j] == r[j]);
                    assert(r.contains(r[j]));
                }
            }
        }
    }
}

proof fn lemma_count_in_bound(s: Seq<EntityId>, m: Set<EntityId>)
    ensures
        count_in(s, m) <= s.len(),
    decreases s.len(),
{
    if s.len() > 0 {
        lemma_count_in_bound(s.drop_last(), m);
    }
}

fn count_members(list: &Vec<EntityId>, members: &Vec<EntityId>, m: Ghost<Set<EntityId>>) -> (res:
    usize)
    requires
        forall|d: EntityId| members@.contains(d) <==> m@.contains(d),
    ensures
        res == count_in(list@, m@),
{
    let n = list.len();
    let mut c: usize = 0;
    let mut k: usize = 0;
    while k < n
        invariant
            k <= n,
            n == list.len(),
            c == count_in(list@.take(k as int), m@),
            forall|d: EntityId| members@.contains(d) <==> m@.contains(d),
        decreases n - k,
    {
        assert(list@.take(k + 1).drop_last() =~= list@.take(k as int));
        proof {
            lemma_count_in_bound(list@.take(k as int), m@);
        }
        if index_of(members, list[k]).is_some() {
            c = c + 1;
        }
        k = k + 1;
    }
    assert(list@.take(n as int) =~= list@);
    c
}

/// The counts reported after a batch of resize reports has been applied.
pub fn entity_resize<S>(events: &Vec<EntityResized<S>>) -> (stats: ResizeStats)
    ensures
        stats.count == events.len(),
        stats.were_resized == first_occurrences(report_entities(events@)).len(),
        stats.already_resized == repeated_count(report_entities(events@)),
        stats.were_deps == count_in(
            first_occurrences(report_entities(events@)),
            all_dependencies(events@),
        ),
        stats.were_ooo == count_in(
            first_occurrences(report_entities(events@)),
            out_of_order_dependencies(events@),
        ),
{
    let ghost ents = report_entities(events@);
    let n = events.len();
    let mut resized: Vec<EntityId> = Vec::new();
    let mut all_deps: Vec<EntityId> = Vec::new();
    let mut out_of_order: Vec<EntityId> = Vec::new();
    let mut already_resized: usize = 0;
    let mut i: usize = 0;
    while i < n
        invariant
            i <= n,
            n == events.len(),
            ents == report_entities(events@),
            resized@ == first_occurrences(ents.take(i as int)),
            already_resized == repeated_count(ents.take(i as int)),
            forall|d: EntityId|
                #[trigger] all_deps@.contains(d) <==> exists|j: int|
                    0 <= j < i && events@[j].dependencies@.contains(d),
            forall|d: EntityId|
                #[trigger] out_of_order@.contains(d) <==> exists|j: int|
                    0 <= j < i && events@[j].dependencies@.contains(d) && !ents.take(
                        j + 1,
                    ).contains(d),
        decreases n - i,
    {
        let ghost pre = ents.take(i as int);
        let ghost post = ents.take(i + 1);
        assert(post.drop_last() =~= pre);
        assert(post.last() == events@[i as int].entity);
        proof {
            lemma_first_occurrences(pre);
            lemma_first_occurrences(post);
        }
        let x = events[i].entity;
        assert(first_occurrences(pre).contains(x) <==> pre.contains(x));
        if index_of(&resized, x).is_none() {
            resized.push(x);
        } else {
            already_resized = already_resized + 1;
        }
        assert(first_occurrences(post) == (if pre.contains(x) {
            first_occurrences(pre)
        } else {
            first_occurrences(pre).push(x)
        }));
        let deps = &events[i].dependencies;
        let m = deps.len();
        let mut j: usize = 0;
        let ghost all_before = all_deps@;
        let ghost ooo_before = out_of_order@;
        while j < m
            invariant
                j <= m,
                m == deps.len(),
                deps == &events@[i as int].dependencies,
                resized@ == first_occurrences(post),
                forall|d: EntityId|
                    #[trigger] all_deps@.contains(d) <==> (all_before.contains(d) || exists|q: int|
                        0 <= q < j && deps@[q] == d),
                forall|d: EntityId|
                    #[trigger] out_of_order@.contains(d) <==> (ooo_before.contains(d) || exists|q: int|
                        0 <= q < j && deps@[q] == d && !post.contains(d)),
            decreases m - j,
        {
            let d = deps[j];
            let ghost all_prev = all_deps@;
            let ghost ooo_prev = out_of_order@;
            all_deps.push(d);
            proof {
                lemma_first_occurrences(post);
            }
            if index_of(&resized, d).is_none() {
                out_of_order.push(d);
            }
            assert forall|e: EntityId| #[trigger] all_deps@.contains(e) <==> (all_before.contains(e)
                || exists|q: int| 0 <= q < j + 1 && deps@[q] == e) by {
                lemma_push_contains(all_prev, d, e);
                if e == d {
                    assert(deps@[j as int] == e);
                }
                if exists|q: int| 0 <= q < j + 1 && deps@[q] == e {
                    let q = choose|q: int| 0 <= q < j + 1 && deps@[q] == e;
                    if q < j {
                        assert(exists|q2: int| 0 <= q2 < j && deps@[q2] == e);
                    }
                }
                if exists|q: int| 0 <= q < j && deps@[q] == e {
                    let q = choose|q: int| 0 <= q < j && deps@[q] == e;
                    assert(0 <= q < j + 1 && deps@[q] == e);
                }
            }
            assert forall|e: EntityId| #[trigger] out_of_order@.contains(e) <==> (ooo_before.contains(e)
                || exists|q: int| 0 <= q < j + 1 && deps@[q] == e && !post.contains(e)) by {
                if !resized@.contains(d) {
                    lemma_push_contains(ooo_prev, d, e);
                } else {
                    assert(out_of_order@ == ooo_prev);
                }
                if e == d && !post.contains(e) {
                    assert(deps@[j as int] == e);
                }
                if exists|q: int| 0 <= q < j + 1 && deps@[q] == e && !post.contains(e) {
                    let q = choose|q: int| 0 <= q < j + 1 && deps@[q] == e && !post.contains(e);
                    if q < j {
                        assert(exists|q2: int| 0 <= q2 < j && deps@[q2] == e && !post.contains(e));
                    }
                }
                if exists|q: int| 0 <= q < j && deps@[q] == e && !post.contains(e) {
                    let q = choose|q: int| 0 <= q < j && deps@[q] == e && !post.contains(e);
                    assert(0 <= q < j + 1 && deps@[q] == e);
                }
            }
            j = j + 1;
        }
        assert forall|d: EntityId| #[trigger] all_deps@.contains(d) <==> exists|q: int|
            0 <= q < i + 1 && events@[q].dependencies@.contains(d) by {
            if exists|q: int| 0 <= q < i + 1 && events@[q].dependencies@.contains(d) {
                let q = choose|q: int| 0 <= q < i + 1 && events@[q].dependencies@.contains(d);
                if q == i {
                    let k = choose|k: int| 0 <= k < deps@.len() && deps@[k] == d;
                }
            }
            if all_deps@.contains(d) && !all_before.contains(d) {
                let q = choose|q: int| 0 <= q < m && deps@[q] == d;
                assert(events@[i as int].dependencies@.contains(d));
            }
        }
        assert forall|d: EntityId| #[trigger] out_of_order@.contains(d) <==> exists|q: int|
            0 <= q < i + 1 && events@[q].dependencies@.contains(d) && !ents.take(q + 1).contains(
                d,
            ) by {
            if exists|q: int|
                0 <= q < i + 1 && events@[q].dependencies@.contains(d) && !ents.take(
                    q + 1,
                ).contains(d) {
                let q = choose|q: int|
                    0 <= q < i + 1 && events@[q].dependencies@.contains(d) && !ents.take(
                        q + 1,
                    ).contains(d);
                if q == i {
                    let k = choose|k: int| 0 <= k < deps@.len() && deps@[k] == d;
                }
            }
            if out_of_order@.contains(d) && !ooo_before.contains(d) {
                let q = choose|q: int| 0 <= q < m && deps@[q] == d && !post.contains(d);
                assert(events@[i as int].dependencies@.contains(d));
            }
        }
        i = i + 1;
    }
    assert(ents.take(n as int) =~= ents);
    let were_deps = count_members(&resized, &all_deps, Ghost(all_dependencies(events@)));
    let were_ooo = count_members(&resized, &out_of_order, Ghost(out_of_order_dependencies(events@)));
    proof {
        lemma_first_occurrences(ents);
    }
    ResizeStats {
        count: n,
        were_resized: resized.len(),
        were_deps,
        were_ooo,
        already_resized,
    }
}

/// Every report of a batch either resizes a new element or repeats one: the
/// two counts add up to the number of reports, and the resized elements
/// that were dependencies, or were depended on out of order, are among the
/// resized ones.
pub proof fn resize_stats_balance<S>(events: Seq<EntityResized<S>>)
    ensures
        first_occurrences(report_entities(events)).len() + repeated_count(report_entities(events))
            == events.len(),
        count_in(first_occurrences(report_entities(events)), all_dependencies(events))
            <= first_occurrences(report_entities(events)).len(),
        count_in(first_occurrences(report_entities(events)), out_of_order_dependencies(events))
            <= first_occurrences(report_entities(events)).len(),
        first_occurrences(report_entities(events)).no_duplicates(),
        forall|x: EntityId|
            #[trigger] first_occurrences(report_entities(events)).contains(x) <==> exists|i: int|
                0 <= i < events.len() && events[i].entity == x,
{
    lemma_first_occurrences(report_entities(events));
    assert forall|x: EntityId| #[trigger] first_occurrences(report_entities(events)).contains(x)
        <==> exists|i: int| 0 <= i < events.len() && events[i].entity == x by {
        if exists|i: int| 0 <= i < events.len() && events[i].entity == x {
            let i = choose|i: int| 0 <= i < events.len() && events[i].entity == x;
            assert(report_entities(events)[i] == x);
        }
        if report_entities(events).contains(x) {
            let i = choose|i: int| 0 <= i < report_entities(events).len() && report_entities(events)[i] == x;
            assert(events[i].entity == x);
        }
    }
    lemma_count_in_bound(first_occurrences(report_entities(events)), all_dependencies(events));
    lemma_count_in_bound(
        first_occurrences(report_entities(events)),
        out_of_order_dependencies(events),
    );
}

/// The indices, among the first `k` children, of those whose parent is
/// `parent`, in order.
pub open spec fn children_of(children: Seq<(EntityId, EntityId)>, parent: EntityId, k: int) -> Seq<
    int,
>
    decreases k,
{
    if k <= 0 {
        Seq::empty()
    } else if children[k - 1].1 == parent {
        children_of(children, parent, k - 1).push(k - 1)
    } else {
        children_of(children, parent, k - 1)
    }
}

/// For the first `e` reports, each pair of a report and a child of the
/// element it resized, by report and then by child.
pub open spec fn parent_resize_pairs<S>(
    events: Seq<EntityResized<S>>,
    children: Seq<(EntityId, EntityId)>,
    e: int,
) -> Seq<(int, int)>
    decreases e,
{
    if e <= 0 {
        Seq::empty()
    } else {
        parent_resize_pairs(events, children, e - 1) + children_of(
            children,
            events[e - 1].entity,
            children.len() as int,
        ).map_values(|c: int| (e - 1, c))
    }
}

proof fn lemma_children_of(children: Seq<(EntityId, EntityId)>, parent: EntityId, k: int)
    requires
        0 <= k <= children.len(),
    ensures
        forall|j: int|
            0 <= j < children_of(children, parent, k).len() ==> 0 <= #[trigger] children_of(
                children,
                parent,
                k,
            )[j] < k && children[children_of(children, parent, k)[j]].1 == parent,
        forall|x: int|
            0 <= x < k && #[trigger] children[x].1 == parent ==> children_of(
                children,
                parent,
                k,
            ).contains(x),
        forall|a: int, b: int|
            0 <= a < b < children_of(children, parent, k).len() ==> children_of(
                children,
                parent,
                k,
            )[a] < children_of(children, parent, k)[b],
    decreases k,
{
    if k > 0 {
        lemma_children_of(children, parent, k - 1);
        let r = children_of(children, parent, k - 1);
        let t = children_of(children, parent, k);
        if children[k - 1].1 == parent {
            assert(t == r.push(k - 1));
            assert forall|x: int| 0 <= x < k && #[trigger] children[x].1 == parent implies t.contains(
                x,
            ) by {
                if x < k - 1 {
                    let j = choose|j: int| 0 <= j < r.len() && r[j] == x;
                    assert(t[j] == x);
                } else {
                    assert(t[r.len() as int] == x);
                }
            }
            assert forall|a: int, b: int| 0 <= a < b < t.len() implies t[a] < t[b] by {
                assert(t[a] == r[a]);
                if b < r.len() {
                    assert(t[b] == r[b]);
                }
            }
        }
    }
}

/// `a` comes before `b` in report-then-child order.
pub open spec fn pair_before(a: (int, int), b: (int, int)) -> bool {
    a.0 < b.0 || (a.0 == b.0 && a.1 < b.1)
}

proof fn lemma_parent_resize_pairs<S>(
    events: Seq<EntityResized<S>>,
    children: Seq<(EntityId, EntityId)>,
    e: int,
)
    requires
        0 <= e <= events.len(),
    ensures
        forall|k: int|
            0 <= k < parent_resize_pairs(events, children, e).len() ==> {
                let (a, c) = #[trigger] parent_resize_pairs(events, children, e)[k];
                &&& 0 <= a < e
                &&& 0 <= c < children.len()
                &&& children[c].1 == events[a].entity
            },
        forall|a: int, c: int|
            0 <= a < e && 0 <= c < children.len() && children[c].1 == events[a].entity
                ==> #[trigger] parent_resize_pairs(events, children, e).contains((a, c)),
        forall|i: int, j: int|
            0 <= i < j < parent_resize_pairs(events, children, e).len() ==> pair_before(
                parent_resize_pairs(events, children, e)[i],
                parent_resize_pairs(events, children, e)[j],
            ),
    decreases e,
{
    if e > 0 {
        lemma_parent_resize_pairs(events, children, e - 1);
        let prev = parent_resize_pairs(events, children, e - 1);
        let parent = events[e - 1].entity;
        let n = children.len() as int;
        lemma_children_of(children, parent, n);
        let kids = children_of(children, parent, n);
        let m = kids.map_values(|c: int| (e - 1, c));
        let all = parent_resize_pairs(events, children, e);
        assert(all == prev + m);
        assert forall|k: int| 0 <= k < all.len() implies {
            let (a, c) = #[trigger] all[k];
            &&& 0 <= a < e
            &&& 0 <= c < children.len()
            &&& children[c].1 == events[a].entity
        } by {
            if k < prev.len() {
                assert(all[k] == prev[k]);
            } else {
                assert(all[k] == m[k - prev.len()]);
                assert(kids[k - prev.len()] == kids[k - prev.len()]);
            }
        }
        assert forall|a: int, c: int|
            0 <= a < e && 0 <= c < children.len() && children[c].1 == events[a].entity
                implies #[trigger] all.contains((a, c)) by {
            if a < e - 1 {
                assert(prev.contains((a, c)));
                let k = choose|k: int| 0 <= k < prev.len() && prev[k] == (a, c);
                assert(all[k] == (a, c));
            } else {
                assert(children[c].1 == parent);
                assert(kids.contains(c));
                let j = choose|j: int| 0 <= j < kids.len() && kids[j] == c;
                assert(all[prev.len() + j] == m[j]);
            }
        }
        assert forall|i: int, j: int| 0 <= i < j < all.len() implies pair_before(
            all[i],
            all[j],
        ) by {
            if j < prev.len() {
                assert(all[i] == prev[i] && all[j] == prev[j]);
            } else if i < prev.len() {
                assert(all[i] == prev[i]);
                assert(all[j] == m[j - prev.len()]);
            } else {
                assert(all[i] == m[i - prev.len()]);
                assert(all[j] == m[j - prev.len()]);
                assert(kids[i - prev.len()] < kids[j - prev.len()]);
            }
        }
    }
}

/// The children to resize after a batch of reports are exactly the children
/// of the resized elements: every pair `(report, child)` names a child whose
/// parent is the element of that report, every such pair is there, and the
/// pairs come by report and then by child, each once.
pub proof fn parent_resize_pairs_are_the_children_of_resized_elements<S>(
    events: Seq<EntityResized<S>>,
    children: Seq<(EntityId, EntityId)>,
)
    ensures
        forall|k: int|
            0 <= k < parent_resize_pairs(events, children, events.len() as int).len() ==> {
                let (a, c) = #[trigger] parent_resize_pairs(
                    events,
                    children,
                    events.len() as int,
                )[k];
                &&& 0 <= a < events.len()
                &&& 0 <= c < children.len()
                &&& children[c].1 == events[a].entity
            },
        forall|a: int, c: int|
            0 <= a < events.len() && 0 <= c < children.len() && children[c].1 == events[a].entity
                ==> #[trigger] parent_resize_pairs(events, children, events.len() as int).contains(
                (a, c),
            ),
        forall|i: int, j: int|
            0 <= i < j < parent_resize_pairs(events, children, events.len() as int).len()
                ==> pair_before(
                parent_resize_pairs(events, children, events.len() as int)[i],
                parent_resize_pairs(events, children, events.len() as int)[j],
            ),
{
    lemma_parent_resize_pairs(events, children, events.len() as int);
}

pub open spec fn pairs_view(pairs: Seq<(usize, usize)>) -> Seq<(int, int)> {
    pairs.map_values(|p: (usize, usize)| (p.0 as int, p.1 as int))
}

/// The children to resize after a batch of reports: for each report, in
/// order, every child (given as `(child, parent)`) of the element it
/// resized, as a pair of indices `(report, child)`.
pub fn parent_resize<S>(events: &Vec<EntityResized<S>>, children: &Vec<(EntityId, EntityId)>) -> (res:
    Vec<(usize, usize)>)
    ensures
        pairs_view(res@) == parent_resize_pairs(events@, children@, events.len() as int),
{
    let mut res: Vec<(usize, usize)> = Vec::new();
    let n = events.len();
    let m = children.len();
    let mut e: usize = 0;
    while e < n
        invariant
            e <= n,
            n == events.len(),
            m == children.len(),
            pairs_view(res@) == parent_resize_pairs(events@, children@, e as int),
        decreases n - e,
    {
        let parent = events[e].entity;
        let ghost base = res@;
        let mut c: usize = 0;
        while c < m
            invariant
                c <= m,
                e < n,
                n == events.len(),
                m == children.len(),
                parent == events@[e as int].entity,
                pairs_view(base) == parent_resize_pairs(events@, children@, e as int),
                pairs_view(res@) == pairs_view(base) + children_of(
                    children@,
                    parent,
                    c as int,
                ).map_values(|k: int| (e as int, k)),
            decreases m - c,
        {
            let ghost before = res@;
            if children[c].1 == parent {
                res.push((e, c));
                assert(pairs_view(res@) =~= pairs_view(before).push((e as int, c as int)));
            }
            assert(children_of(children@, parent, c + 1).map_values(|k: int| (e as int, k))
                =~= if children@[c as int].1 == parent {
                children_of(children@, parent, c as int).map_values(|k: int| (e as int, k)).push(
                    (e as int, c as int),
                )
            } else {
                children_of(children@, parent, c as int).map_values(|k: int| (e as int, k))
            });
            c = c + 1;
        }
        e = e + 1;
    }
    res
}

/// Among window resize notifications, given as the window each is for, the
/// last one for the primary window, when there is a primary window.
pub fn engine_window_resize(windows: &Vec<EntityId>, primary: Option<EntityId>) -> (res: Option<
    usize,
>)
    ensures
        match primary {
            None => res is None,
            Some(p) => match res {
                Some(k) => k < windows.len() && windows@[k as int] == p && forall|j: int|
                    k < j < windows.len() ==> windows@[j] != p,
                None => !windows@.contains(p),
            },
        },
{
    match primary {
        None => None,
        Some(p) => {
            let n = windows.len();
            let mut k: usize = n;
            while k > 0
                invariant
                    k <= n,
                    n == windows.len(),
                    primary == Some(p),
                    forall|j: int| k <= j < n ==> windows@[j] != p,
                decreases k,
            {
                if windows[k - 1] == p {
                    return Some(k - 1);
                }
                k = k - 1;
            }
            None
        },
    }
}

} // verus!
