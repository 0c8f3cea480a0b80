//! The collector state and driver: the arena of allocation records, the
//! registry of live roots, and the mark-sweep cycle over them.
//!
//! Addresses are slot indices in the arena; a slot never changes identity and
//! is never reused, so an address stays meaningful for the whole life of the
//! state.  An allocation is *reachable* when a live root points at it, or an
//! allocation still owned outside the collector owns it, directly or through
//! a chain of owned handles; `collect` frees exactly the managed allocations
//! that are not reachable.

use vstd::prelude::*;

use crate::allocation::Allocation;
use crate::gc_ptr::GcPtr;
use crate::trace::Trace;

verus! {

/// One registered root: the guard's identity and the allocation it keeps
/// alive, once enrooted.
#[derive(Clone, Copy, Debug)]
pub struct RootEntry {
    pub id: usize,
    pub target: Option<usize>,
}

/// The collector state: one per owning execution context, passed explicitly
/// to every operation.
pub struct GcState<T> {
    /// The arena: slot index is the allocation's address.  A freed slot
    /// stays empty forever.
    pub objects: Vec<Option<Allocation<T>>>,
    /// The live roots, in registration order.
    pub roots: Vec<RootEntry>,
    /// The next root identity to hand out.
    pub next_root_id: usize,
    /// Every address finalized so far, in the order the sweeps freed them.
    pub finalized: Vec<usize>,
}

/// Whether slot `a` holds a live allocation.
pub open spec fn live_at<T: Trace>(objs: Seq<Option<Allocation<T>>>, a: int) -> bool {
    0 <= a < objs.len() && objs[a] is Some
}

/// The addresses owned by the allocation in slot `a`.
pub open spec fn owned_of<T: Trace>(objs: Seq<Option<Allocation<T>>>, a: int) -> Seq<usize> {
    objs[a]->0.data.owned()
}

/// Whether slot `a` holds a live allocation owned by the collector.
pub open spec fn managed_at<T: Trace>(objs: Seq<Option<Allocation<T>>>, a: int) -> bool {
    live_at(objs, a) && objs[a]->0.managed
}

/// Whether slot `a` holds a live allocation with its mark bit set.
pub open spec fn marked_at<T: Trace>(objs: Seq<Option<Allocation<T>>>, a: int) -> bool {
    live_at(objs, a) && objs[a]->0.marked
}

/// Whether the address sequence `s` mentions address `b`.
pub open spec fn contains_addr(s: Seq<usize>, b: int) -> bool {
    exists|i: int| 0 <= i < s.len() && s[i] as int == b
}

/// Whether the allocation in slot `a` owns the allocation in slot `b`.
pub open spec fn edge<T: Trace>(objs: Seq<Option<Allocation<T>>>, a: int, b: int) -> bool {
    live_at(objs, a) && contains_addr(owned_of(objs, a), b)
}

/// Whether some live root points at address `b`.
pub open spec fn rooted(roots: Seq<RootEntry>, b: int) -> bool {
    exists|i: int|
        0 <= i < roots.len() && (#[trigger] roots[i]).target is Some && roots[i].target->0 as int
            == b
}

/// Whether some live allocation still owned outside the collector owns
/// address `b`.  Such an owner is itself alive by assumption, so what it
/// owns must be kept alive, exactly as a root target must.
pub open spec fn pinned<T: Trace>(objs: Seq<Option<Allocation<T>>>, b: int) -> bool {
    exists|a: int|
        #![trigger owned_of(objs, a)]
        live_at(objs, a) && !objs[a]->0.managed && contains_addr(owned_of(objs, a), b)
}

/// The mark sources: root targets and the addresses owned by live unmanaged
/// allocations.
pub open spec fn is_source<T: Trace>(
    objs: Seq<Option<Allocation<T>>>,
    roots: Seq<RootEntry>,
    b: int,
) -> bool {
    rooted(roots, b) || pinned(objs, b)
}

/// A witness that address `b` is reachable: a chain of addresses that
/// starts at a source and follows ownership edges to `b`.
pub open spec fn is_path<T: Trace>(
    objs: Seq<Option<Allocation<T>>>,
    roots: Seq<RootEntry>,
    p: Seq<int>,
    b: int,
) -> bool {
    &&& p.len() > 0
    &&& p[p.len() - 1] == b
    &&& is_source(objs, roots, p[0])
    &&& forall|i: int| 0 <= i < p.len() - 1 ==> edge(objs, #[trigger] p[i], p[i + 1])
}

/// Whether address `b` is reachable: a live root or a live outside owner
/// leads to it through finitely many ownership steps.
pub open spec fn reachable<T: Trace>(
    objs: Seq<Option<Allocation<T>>>,
    roots: Seq<RootEntry>,
    b: int,
) -> bool {
    exists|p: Seq<int>| is_path(objs, roots, p, b)
}

/// Every owned address of a live allocation holds a live allocation; a
/// managed allocation owns only managed ones, and an unmanaged allocation
/// owns only older ones (so ownership among unmanaged records cannot cycle).
pub open spec fn wf_children<T: Trace>(objs: Seq<Option<Allocation<T>>>) -> bool {
    forall|a: int, j: int|
        #![trigger owned_of(objs, a)[j]]
        (live_at(objs, a) && 0 <= j < owned_of(objs, a).len()) ==> {
            let c = owned_of(objs, a)[j] as int;
            live_at(objs, c) && (objs[a]->0.managed ==> objs[c]->0.managed) && (!objs[a]->0.managed
                ==> c < a)
        }
}

/// Every enrooted target is live and managed; root identities are below the
/// next identity to hand out, and no identity repeats.
pub open spec fn wf_roots<T: Trace>(
    objs: Seq<Option<Allocation<T>>>,
    roots: Seq<RootEntry>,
    next_id: usize,
) -> bool {
    (forall|i: int|
        0 <= i < roots.len() ==> {
            let e = #[trigger] roots[i];
            (e.target is Some ==> managed_at(objs, e.target->0 as int)) && e.id < next_id
        }) && (forall|i: int, j: int|
        0 <= i < j < roots.len() ==> (#[trigger] roots[i]).id != (#[trigger] roots[j]).id)
}

/// Outside a collection cycle every mark bit is clear.
pub open spec fn wf_unmarked<T: Trace>(objs: Seq<Option<Allocation<T>>>) -> bool {
    forall|a: int| #[trigger] live_at(objs, a) ==> !objs[a]->0.marked
}

/// The number of managed allocations among the first `n` slots.
pub open spec fn managed_count<T: Trace>(objs: Seq<Option<Allocation<T>>>, n: int) -> int
    decreases n,
{
    if n <= 0 {
        0
    } else {
        managed_count(objs, n - 1) + (if managed_at(objs, n - 1) {
            1int
        } else {
            0int
        })
    }
}

/// The first index whose entry carries identity `id`, or -1.
pub open spec fn find_root(roots: Seq<RootEntry>, id: usize) -> int
    decreases roots.len(),
{
    if roots.len() == 0 {
        -1
    } else if roots[0].id == id {
        0
    } else {
        let r = find_root(roots.drop_first(), id);
        if r < 0 {
            -1
        } else {
            r + 1
        }
    }
}

/// `find_root` finds an entry exactly when one carries the identity, and
/// what it finds carries it.
pub proof fn lemma_find_root(roots: Seq<RootEntry>, id: usize)
    ensures
        find_root(roots, id) < 0 ==> forall|i: int|
            0 <= i < roots.len() ==> (#[trigger] roots[i]).id != id,
        find_root(roots, id) >= 0 ==> 0 <= find_root(roots, id) < roots.len() && roots[find_root(
            roots,
            id,
        )].id == id,
    decreases roots.len(),
{
    if roots.len() > 0 && roots[0].id != id {
        lemma_find_root(roots.drop_first(), id);
        assert forall|i: int| 0 <= i < roots.len() implies roots.drop_first().len()
            == roots.len() - 1 && (1 <= i ==> roots[i] == roots.drop_first()[i - 1]) by {}
    }
}

/// The arena after handing the allocation at `a`, and everything it owns,
/// to the collector.  A dead or already managed address changes nothing;
/// otherwise every owned allocation is managed first, and the record itself
/// last.
pub open spec fn manage_spec<T: Trace>(
    objs: Seq<Option<Allocation<T>>>,
    a: int,
) -> Seq<Option<Allocation<T>>>
    decreases a, 1int, 0int,
{
    if !live_at(objs, a) || objs[a]->0.managed {
        objs
    } else {
        let objs1 = manage_list(objs, owned_of(objs, a), a);
        objs1.update(
            a,
            Some(
                Allocation {
                    data: objs1[a]->0.data,
                    marked: objs1[a]->0.marked,
                    managed: true,
                },
            ),
        )
    }
}

/// The arena after managing, in order, every address in `cs` that lies
/// below `bound`.
pub open spec fn manage_list<T: Trace>(
    objs: Seq<Option<Allocation<T>>>,
    cs: Seq<usize>,
    bound: int,
) -> Seq<Option<Allocation<T>>>
    decreases bound, 0int, cs.len(),
{
    if cs.len() == 0 || bound < 0 {
        objs
    } else {
        let objs1 = if (cs[0] as int) < bound {
            manage_spec(objs, cs[0] as int)
        } else {
            objs
        };
        manage_list(objs1, cs.drop_first(), bound)
    }
}

/// Managing never moves, frees or marks anything: it only turns the managed
/// bit on, and does turn it on for the managed address itself.
pub proof fn lemma_manage_spec_frame<T: Trace>(objs: Seq<Option<Allocation<T>>>, a: int)
    ensures
        manage_spec(objs, a).len() == objs.len(),
        forall|x: int|
            0 <= x < objs.len() ==> {
                let n = #[trigger] manage_spec(objs, a)[x];
                (objs[x] is Some <==> n is Some) && (objs[x] is Some ==> n->0.data
                    == objs[x]->0.data && n->0.marked == objs[x]->0.marked && (objs[x]->0.managed
                    ==> n->0.managed))
            },
        live_at(objs, a) ==> managed_at(manage_spec(objs, a), a),
    decreases a, 1int, 0int,
{
    if !live_at(objs, a) || objs[a]->0.managed {
    } else {
        lemma_manage_list_frame(objs, owned_of(objs, a), a);
    }
}

/// The list form of the frame lemma, together with: every listed address
/// below the bound that is live ends up managed.
pub proof fn lemma_manage_list_frame<T: Trace>(
    objs: Seq<Option<Allocation<T>>>,
    cs: Seq<usize>,
    bound: int,
)
    ensures
        manage_list(objs, cs, bound).len() == objs.len(),
        forall|x: int|
            0 <= x < objs.len() ==> {
                let n = #[trigger] manage_list(objs, cs, bound)[x];
                (objs[x] is Some <==> n is Some) && (objs[x] is Some ==> n->0.data
                    == objs[x]->0.data && n->0.marked == objs[x]->0.marked && (objs[x]->0.managed
                    ==> n->0.managed))
            },
        forall|jj: int|
            0 <= jj < cs.len() && (cs[jj] as int) < bound && live_at(objs, #[trigger] cs[jj] as int)
                ==> managed_at(manage_list(objs, cs, bound), cs[jj] as int),
    decreases bound, 0int, cs.len(),
{
    if cs.len() == 0 || bound < 0 {
    } else {
        let objs1 = if (cs[0] as int) < bound {
            manage_spec(objs, cs[0] as int)
        } else {
            objs
        };
        if (cs[0] as int) < bound {
            lemma_manage_spec_frame(objs, cs[0] as int);
        }
        lemma_manage_list_frame(objs1, cs.drop_first(), bound);
        assert forall|jj: int|
            0 <= jj < cs.len() && (cs[jj] as int) < bound && live_at(objs, #[trigger] cs[jj] as int)
                implies managed_at(manage_list(objs, cs, bound), cs[jj] as int) by {
            if jj == 0 {
                assert(managed_at(objs1, cs[0] as int));
                assert(live_at(objs1, cs[0] as int));
            } else {
                assert(cs.drop_first()[jj - 1] == cs[jj]);
                assert(live_at(objs1, cs[jj] as int));
            }
        }
    }
}

/// Managing preserves the ownership invariant on the arena.
pub proof fn lemma_manage_spec_wf<T: Trace>(objs: Seq<Option<Allocation<T>>>, a: int)
    requires
        wf_children(objs),
    ensures
        wf_children(manage_spec(objs, a)),
    decreases a, 1int, 0int,
{
    if !live_at(objs, a) || objs[a]->0.managed {
    } else {
        let cs = owned_of(objs, a);
        let objs1 = manage_list(objs, cs, a);
        lemma_manage_list_wf(objs, cs, a);
        lemma_manage_list_frame(objs, cs, a);
        let res = manage_spec(objs, a);
        assert forall|x: int, j: int|
            #![trigger owned_of(res, x)[j]]
            (live_at(res, x) && 0 <= j < owned_of(res, x).len()) implies {
            let c = owned_of(res, x)[j] as int;
            live_at(res, c) && (res[x]->0.managed ==> res[c]->0.managed) && (!res[x]->0.managed
                ==> c < x)
        } by {
            assert(live_at(objs1, x));
            assert(owned_of(res, x) == owned_of(objs1, x));
            assert(owned_of(objs1, x) == owned_of(objs, x));
            let c = owned_of(res, x)[j] as int;
            if x == a {
                assert(0 <= j < cs.len());
                assert(c == cs[j] as int);
                assert(live_at(objs, c) && c < a);
                assert(managed_at(objs1, c));
            } else {
                assert(live_at(objs1, c) && (objs1[x]->0.managed ==> objs1[c]->0.managed) && (
                !objs1[x]->0.managed ==> c < x));
                if c == a {
                    assert(res[c]->0.managed);
                }
            }
        }
    }
}

/// The list form of the invariant-preservation lemma.
pub proof fn lemma_manage_list_wf<T: Trace>(
    objs: Seq<Option<Allocation<T>>>,
    cs: Seq<usize>,
    bound: int,
)
    requires
        wf_children(objs),
    ensures
        wf_children(manage_list(objs, cs, bound)),
    decreases bound, 0int, cs.len(),
{
    if cs.len() == 0 || bound < 0 {
    } else {
        let objs1 = if (cs[0] as int) < bound {
            manage_spec(objs, cs[0] as int)
        } else {
            objs
        };
        if (cs[0] as int) < bound {
            lemma_manage_spec_wf(objs, cs[0] as int);
        }
        lemma_manage_list_wf(objs1, cs.drop_first(), bound);
    }
}

/// Two arenas that agree on everything except possibly their mark bits.
pub open spec fn same_but_marks<T: Trace>(
    g: Seq<Option<Allocation<T>>>,
    h: Seq<Option<Allocation<T>>>,
) -> bool {
    h.len() == g.len() && forall|x: int|
        0 <= x < g.len() ==> {
            let n = #[trigger] h[x];
            (g[x] is Some <==> n is Some) && (g[x] is Some ==> n->0.data == g[x]->0.data
                && n->0.managed == g[x]->0.managed)
        }
}

/// The number of live, unmarked allocations among the first `n` slots: the
/// measure the mark phase shrinks.
pub open spec fn unmarked_count<T: Trace>(objs: Seq<Option<Allocation<T>>>, n: int) -> int
    decreases n,
{
    if n <= 0 {
        0
    } else {
        unmarked_count(objs, n - 1) + (if live_at(objs, n - 1) && !objs[n - 1]->0.marked {
            1int
        } else {
            0int
        })
    }
}

proof fn lemma_unmarked_count_nonneg<T: Trace>(objs: Seq<Option<Allocation<T>>>, n: int)
    ensures
        unmarked_count(objs, n) >= 0,
    decreases n,
{
    if n > 0 {
        lemma_unmarked_count_nonneg(objs, n - 1);
    }
}

/// Setting one mark bit lowers the unmarked measure by exactly one.
proof fn lemma_unmarked_count_mark<T: Trace>(
    g: Seq<Option<Allocation<T>>>,
    h: Seq<Option<Allocation<T>>>,
    x: int,
    n: int,
)
    requires
        0 <= x < g.len(),
        h.len() == g.len(),
        g[x] is Some,
        !g[x]->0.marked,
        h[x] is Some,
        h[x]->0.marked,
        forall|y: int| 0 <= y < g.len() && y != x ==> #[trigger] h[y] == g[y],
    ensures
        unmarked_count(h, n) == unmarked_count(g, n) - (if x < n {
            1int
        } else {
            0int
        }),
    decreases n,
{
    if n > 0 {
        lemma_unmarked_count_mark(g, h, x, n - 1);
    }
}

/// Pushing keeps every address a stack already held, and adds the pushed
/// one.
proof fn lemma_contains_addr_push(s: Seq<usize>, v: usize, b: int)
    ensures
        contains_addr(s, b) ==> contains_addr(s.push(v), b),
        contains_addr(s.push(v), v as int),
{
    if contains_addr(s, b) {
        let i = choose|i: int| 0 <= i < s.len() && s[i] as int == b;
        assert(s.push(v)[i] as int == b);
    }
    assert(s.push(v)[s.len() as int] == v);
}

/// After popping, an address the stack held is either still there or was
/// the popped element.
proof fn lemma_contains_addr_pop(s: Seq<usize>, b: int)
    requires
        s.len() > 0,
        contains_addr(s, b),
    ensures
        contains_addr(s.drop_last(), b) || s.last() as int == b,
{
    let i = choose|i: int| 0 <= i < s.len() && s[i] as int == b;
    if i < s.len() - 1 {
        assert(s.drop_last()[i] as int == b);
    }
}

/// Under the state invariant, the end of a path is live.
proof fn lemma_path_live<T: Trace>(
    objs: Seq<Option<Allocation<T>>>,
    roots: Seq<RootEntry>,
    next_id: usize,
    p: Seq<int>,
    b: int,
)
    requires
        wf_children(objs),
        wf_roots(objs, roots, next_id),
        is_path(objs, roots, p, b),
    ensures
        live_at(objs, b),
{
    if p.len() == 1 {
        assert(p[0] == b);
        if rooted(roots, b) {
            let i = choose|i: int|
                0 <= i < roots.len() && (#[trigger] roots[i]).target is Some
                    && roots[i].target->0 as int == b;
            assert(managed_at(objs, b));
        } else {
            let a = choose|a: int|
                #![trigger owned_of(objs, a)]
                live_at(objs, a) && !objs[a]->0.managed && contains_addr(owned_of(objs, a), b);
            let j = choose|j: int|
                0 <= j < owned_of(objs, a).len() && owned_of(objs, a)[j] as int == b;
            assert(live_at(objs, owned_of(objs, a)[j] as int));
        }
    } else {
        let x = p[p.len() - 2];
        assert(edge(objs, x, b));
        let j = choose|j: int|
            0 <= j < owned_of(objs, x).len() && owned_of(objs, x)[j] as int == b;
        assert(live_at(objs, owned_of(objs, x)[j] as int));
    }
}

/// Under the state invariant, whatever is reachable is live.
pub proof fn lemma_reachable_live<T: Trace>(
    objs: Seq<Option<Allocation<T>>>,
    roots: Seq<RootEntry>,
    next_id: usize,
    b: int,
)
    requires
        wf_children(objs),
        wf_roots(objs, roots, next_id),
        reachable(objs, roots, b),
    ensures
        live_at(objs, b),
{
    let p = choose|p: Seq<int>| is_path(objs, roots, p, b);
    lemma_path_live(objs, roots, next_id, p, b);
}

/// A mark source is reachable outright.
pub proof fn lemma_source_reachable<T: Trace>(
    objs: Seq<Option<Allocation<T>>>,
    roots: Seq<RootEntry>,
    b: int,
)
    requires
        is_source(objs, roots, b),
    ensures
        reachable(objs, roots, b),
{
    assert(is_path(objs, roots, seq![b], b));
}

/// A root's target is reachable: every live root is a proof of liveness for
/// the allocation it points at.
pub proof fn lemma_rooted_reachable<T: Trace>(
    objs: Seq<Option<Allocation<T>>>,
    roots: Seq<RootEntry>,
    b: int,
)
    requires
        rooted(roots, b),
    ensures
        reachable(objs, roots, b),
{
    lemma_source_reachable(objs, roots, b);
}

/// Reachability follows ownership edges.
pub proof fn lemma_reach_step<T: Trace>(
    objs: Seq<Option<Allocation<T>>>,
    roots: Seq<RootEntry>,
    a: int,
    b: int,
)
    requires
        reachable(objs, roots, a),
        edge(objs, a, b),
    ensures
        reachable(objs, roots, b),
{
    let p = choose|p: Seq<int>| is_path(objs, roots, p, a);
    let q = p.push(b);
    assert(is_path(objs, roots, q, b)) by {
        assert(q[q.len() - 1] == b);
        assert(q[0] == p[0]);
        assert forall|i: int| 0 <= i < q.len() - 1 implies edge(objs, #[trigger] q[i], q[i + 1]) by {
            if i < p.len() - 1 {
                assert(q[i] == p[i] && q[i + 1] == p[i + 1]);
            } else {
                assert(q[i] == p[p.len() - 1] && q[i + 1] == b);
            }
        }
    }
}

/// A path's end is marked whenever the marked set holds every source and is
/// closed under ownership edges.
proof fn lemma_closed_path<T: Trace>(
    g: Seq<Option<Allocation<T>>>,
    roots: Seq<RootEntry>,
    m: Seq<Option<Allocation<T>>>,
    p: Seq<int>,
    b: int,
)
    requires
        forall|x: int| #[trigger] is_source(g, roots, x) ==> marked_at(m, x),
        forall|x: int, c: int|
            #![trigger marked_at(m, x), edge(g, x, c)]
            marked_at(m, x) && edge(g, x, c) ==> marked_at(m, c),
        is_path(g, roots, p, b),
    ensures
        marked_at(m, b),
    decreases p.len(),
{
    if p.len() == 1 {
        assert(is_source(g, roots, b));
    } else {
        let x = p[p.len() - 2];
        let q = p.drop_last();
        assert(is_path(g, roots, q, x)) by {
            assert(q[q.len() - 1] == p[p.len() - 2]);
            assert(q[0] == p[0]);
            assert forall|i: int| 0 <= i < q.len() - 1 implies edge(g, #[trigger] q[i], q[i + 1]) by {
                assert(q[i] == p[i] && q[i + 1] == p[i + 1]);
            }
        }
        lemma_closed_path(g, roots, m, q, x);
        assert(edge(g, x, b));
    }
}

/// A path survives a sweep: with the roots unchanged and every reachable or
/// unmanaged allocation intact, a path in the old arena is a path in the
/// new one.
proof fn lemma_path_transfer<T: Trace>(
    g: Seq<Option<Allocation<T>>>,
    roots: Seq<RootEntry>,
    next_id: usize,
    h: Seq<Option<Allocation<T>>>,
    p: Seq<int>,
    b: int,
)
    requires
        wf_children(g),
        wf_roots(g, roots, next_id),
        h.len() == g.len(),
        forall|a: int|
            live_at(g, a) && (!g[a]->0.managed || reachable(g, roots, a)) ==> #[trigger] h[a]
                == g[a],
        is_path(g, roots, p, b),
    ensures
        is_path(h, roots, p, b),
    decreases p.len(),
{
    if p.len() == 1 {
        if rooted(roots, b) {
        } else {
            let a = choose|a: int|
                #![trigger owned_of(g, a)]
                live_at(g, a) && !g[a]->0.managed && contains_addr(owned_of(g, a), b);
            assert(h[a] == g[a]);
            assert(owned_of(h, a) == owned_of(g, a));
            assert(pinned(h, b));
        }
    } else {
        let x = p[p.len() - 2];
        let q = p.drop_last();
        assert(is_path(g, roots, q, x)) by {
            assert(q[q.len() - 1] == p[p.len() - 2]);
            assert(q[0] == p[0]);
            assert forall|i: int| 0 <= i < q.len() - 1 implies edge(g, #[trigger] q[i], q[i + 1]) by {
                assert(q[i] == p[i] && q[i + 1] == p[i + 1]);
            }
        }
        lemma_path_transfer(g, roots, next_id, h, q, x);
        assert(reachable(g, roots, x));
        lemma_path_live(g, roots, next_id, q, x);
        assert(h[x] == g[x]);
        assert(owned_of(h, x) == owned_of(g, x));
        assert(edge(g, x, b));
        assert(edge(h, x, b));
        assert forall|i: int| 0 <= i < p.len() - 1 implies edge(h, #[trigger] p[i], p[i + 1]) by {
            if i < q.len() - 1 {
                assert(q[i] == p[i] && q[i + 1] == p[i + 1]);
                assert(edge(h, q[i], q[i + 1]));
            }
        }
    }
}

/// Reachability survives a sweep that keeps every reachable or unmanaged
/// allocation intact.
proof fn lemma_reach_transfer<T: Trace>(
    g: Seq<Option<Allocation<T>>>,
    roots: Seq<RootEntry>,
    next_id: usize,
    h: Seq<Option<Allocation<T>>>,
    b: int,
)
    requires
        wf_children(g),
        wf_roots(g, roots, next_id),
        h.len() == g.len(),
        forall|a: int|
            live_at(g, a) && (!g[a]->0.managed || reachable(g, roots, a)) ==> #[trigger] h[a]
                == g[a],
        reachable(g, roots, b),
    ensures
        reachable(h, roots, b),
{
    let p = choose|p: Seq<int>| is_path(g, roots, p, b);
    lemma_path_transfer(g, roots, next_id, h, p, b);
}

impl<T: Trace> GcState<T> {
    /// Whether address `a` holds a live allocation.
    pub open spec fn live(&self, a: int) -> bool {
        live_at(self.objects@, a)
    }

    /// Whether address `a` holds a live allocation owned by the collector.
    pub open spec fn managed(&self, a: int) -> bool {
        managed_at(self.objects@, a)
    }

    /// The state invariant.
    pub open spec fn wf(&self) -> bool {
        wf_children(self.objects@) && wf_roots(self.objects@, self.roots@, self.next_root_id)
            && wf_unmarked(self.objects@)
    }

    /// The registries that `alloc_unmanaged` leaves untouched, and what it
    /// adds on success.
    pub open spec fn alloc_unmanaged_post(&self, prev: GcState<T>, data: T, r: Option<GcPtr>) -> bool {
        &&& (r is Some <==> forall|j: int|
            0 <= j < data.owned().len() ==> live_at(prev.objects@, #[trigger] data.owned()[j] as int))
        &&& (r is Some ==> {
            &&& r->0.addr == prev.objects@.len()
            &&& self.objects@ == prev.objects@.push(
                Some(Allocation { data, marked: false, managed: false }),
            )
            &&& self.roots@ == prev.roots@
            &&& self.finalized@ == prev.finalized@
            &&& self.next_root_id == prev.next_root_id
        })
        &&& (r is None ==> {
            &&& self.objects@ == prev.objects@
            &&& self.roots@ == prev.roots@
            &&& self.finalized@ == prev.finalized@
            &&& self.next_root_id == prev.next_root_id
        })
    }

    /// What one sweep leaves behind, relative to the arena `g`, the roots
    /// `rts` and the finalization log `flog` that the cycle started from:
    /// reachable and unmanaged allocations survive unchanged at unchanged
    /// addresses, unreachable managed allocations are freed and finalized
    /// exactly once each, in address order, and every managed allocation
    /// that survives is still reachable.
    pub open spec fn sweep_post(
        &self,
        g: Seq<Option<Allocation<T>>>,
        rts: Seq<RootEntry>,
        flog: Seq<usize>,
    ) -> bool {
        &&& self.roots@ == rts
        &&& self.objects@.len() == g.len()
        &&& forall|a: int|
            live_at(g, a) && (!g[a]->0.managed || reachable(g, rts, a))
                ==> #[trigger] self.objects@[a] == g[a]
        &&& forall|a: int|
            live_at(g, a) && g[a]->0.managed && !reachable(g, rts, a)
                ==> #[trigger] self.objects@[a] is None
        &&& forall|a: int|
            0 <= a < g.len() && !live_at(g, a) ==> #[trigger] self.objects@[a] is None
        &&& self.finalized@.len() >= flog.len()
        &&& self.finalized@.subrange(0, flog.len() as int) == flog
        &&& forall|j: int|
            flog.len() <= j < self.finalized@.len() ==> {
                let x = #[trigger] self.finalized@[j] as int;
                live_at(g, x) && g[x]->0.managed && !reachable(g, rts, x)
            }
        &&& forall|a: int|
            live_at(g, a) && g[a]->0.managed && !#[trigger] reachable(g, rts, a) ==> exists|j: int|
                flog.len() <= j < self.finalized@.len() && #[trigger] self.finalized@[j] as int == a
        &&& forall|j1: int, j2: int|
            flog.len() <= j1 < j2 < self.finalized@.len()
                ==> (#[trigger] self.finalized@[j1]) < (#[trigger] self.finalized@[j2])
        &&& forall|a: int|
            #[trigger] managed_at(self.objects@, a) ==> reachable(self.objects@, self.roots@, a)
    }

    /// What one full mark-sweep cycle does, relative to the state `prev` it
    /// started from.
    pub open spec fn collect_post(&self, prev: GcState<T>) -> bool {
        self.sweep_post(prev.objects@, prev.roots@, prev.finalized@) && self.next_root_id
            == prev.next_root_id
    }

    /// A fresh state: no allocations, no roots, nothing finalized.
    pub fn new() -> (st: GcState<T>)
        ensures
            st.wf(),
            st.objects@.len() == 0,
            st.roots@.len() == 0,
            st.finalized@.len() == 0,
            st.next_root_id == 0,
    {
        GcState { objects: Vec::new(), roots: Vec::new(), next_root_id: 0, finalized: Vec::new() }
    }

    /// Read the payload at a handle, if it is still live.
    pub fn get<'a>(&'a self, p: GcPtr) -> (r: Option<&'a T>)
        ensures
            r is Some <==> self.live(p.addr as int),
            r is Some ==> *(r->0) == self.objects@[p.addr as int]->0.data,
    {
        if p.addr < self.objects.len() {
            match &self.objects[p.addr] {
                Some(a) => Some(&a.data),
                None => None,
            }
        } else {
            None
        }
    }

    /// Whether a handle still points at a live allocation.
    pub fn is_live(&self, p: GcPtr) -> (r: bool)
        ensures
            r <==> self.live(p.addr as int),
    {
        if p.addr < self.objects.len() {
            match &self.objects[p.addr] {
                Some(_) => true,
                None => false,
            }
        } else {
            false
        }
    }

    /// Whether a handle points at a live allocation its creator still owns.
    pub fn is_unmanaged(&self, p: GcPtr) -> (r: bool)
        ensures
            r <==> (self.live(p.addr as int) && !self.managed(p.addr as int)),
    {
        if p.addr < self.objects.len() {
            match &self.objects[p.addr] {
                Some(a) => !a.managed,
                None => false,
            }
        } else {
            false
        }
    }

    /// The number of allocations the collector currently owns.
    pub fn count_managed_objects(&self) -> (n: usize)
        ensures
            n == managed_count(self.objects@, self.objects@.len() as int),
    {
        let mut n: usize = 0;
        let mut i: usize = 0;
        while i < self.objects.len()
            invariant
                i <= self.objects@.len(),
                n <= i,
                n == managed_count(self.objects@, i as int),
            decreases self.objects@.len() - i,
        {
            let m = match &self.objects[i] {
                Some(a) => a.managed,
                None => false,
            };
            if m {
                n = n + 1;
            }
            i = i + 1;
        }
        n
    }

    /// The number of live roots.
    pub fn count_roots(&self) -> (n: usize)
        ensures
            n == self.roots@.len(),
    {
        self.roots.len()
    }

    /// The live roots, in registration order.
    pub fn roots(&self) -> (r: &Vec<RootEntry>)
        ensures
            r@ == self.roots@,
    {
        &self.roots
    }

    /// The arena of allocation records.
    pub fn objects(&self) -> (r: &Vec<Option<Allocation<T>>>)
        ensures
            r@ == self.objects@,
    {
        &self.objects
    }

    /// Register a fresh, not yet enrooted root and hand back its identity.
    pub fn new_root(&mut self) -> (id: usize)
        requires
            old(self).wf(),
            old(self).next_root_id < usize::MAX,
        ensures
            final(self).wf(),
            id == old(self).next_root_id,
            final(self).roots@ == old(self).roots@.push(RootEntry { id, target: None }),
            final(self).next_root_id == old(self).next_root_id + 1,
            final(self).objects@ == old(self).objects@,
            final(self).finalized@ == old(self).finalized@,
    {
        let id = self.next_root_id;
        self.roots.push(RootEntry { id, target: None });
        self.next_root_id = self.next_root_id + 1;
        proof {
            assert forall|i: int, j: int| 0 <= i < j < self.roots@.len() implies (
            #[trigger] self.roots@[i]).id != (#[trigger] self.roots@[j]).id by {
                if j < self.roots@.len() - 1 {
                } else {
                    assert(self.roots@[i].id < id);
                }
            }
        }
        id
    }

    /// Point the root with the given identity at an allocation.  Succeeds
    /// exactly when the root is live and the target is live and managed.
    pub fn set_root(&mut self, id: usize, p: GcPtr) -> (ok: bool)
        requires
            old(self).wf(),
        ensures
            final(self).wf(),
            ok <==> (find_root(old(self).roots@, id) >= 0 && managed_at(
                old(self).objects@,
                p.addr as int,
            )),
            ok ==> final(self).roots@ == old(self).roots@.update(
                find_root(old(self).roots@, id),
                RootEntry { id, target: Some(p.addr) },
            ),
            !ok ==> final(self).roots@ == old(self).roots@,
            final(self).objects@ == old(self).objects@,
            final(self).finalized@ == old(self).finalized@,
            final(self).next_root_id == old(self).next_root_id,
    {
        proof {
            lemma_find_root(self.roots@, id);
        }
        let target_ok = p.addr < self.objects.len() && (match &self.objects[p.addr] {
            Some(a) => a.managed,
            None => false,
        });
        let mut i: usize = 0;
        while i < self.roots.len()
            invariant
                old(self).wf(),
                self.objects@ == old(self).objects@,
                self.roots@ == old(self).roots@,
                self.finalized@ == old(self).finalized@,
                self.next_root_id == old(self).next_root_id,
                target_ok <==> managed_at(old(self).objects@, p.addr as int),
                i <= self.roots@.len(),
                forall|j: int| 0 <= j < i ==> (#[trigger] self.roots@[j]).id != id,
                find_root(self.roots@, id) >= 0 ==> 0 <= find_root(self.roots@, id)
                    < self.roots@.len() && self.roots@[find_root(self.roots@, id)].id == id,
                find_root(self.roots@, id) < 0 ==> forall|j: int|
                    0 <= j < self.roots@.len() ==> (#[trigger] self.roots@[j]).id != id,
            decreases self.roots@.len() - i,
        {
            if self.roots[i].id == id {
                proof {
                    let f = find_root(self.roots@, id);
                    if f != i {
                        assert(self.roots@[f].id == id);
                        assert(false);
                    }
                }
                if target_ok {
                    let e = &mut self.roots[i];
                    (*e).target = Some(p.addr);
                    proof {
                        assert(self.roots@ =~= old(self).roots@.update(
                            i as int,
                            RootEntry { id, target: Some(p.addr) },
                        ));
                    }
                    return true;
                } else {
                    return false;
                }
            }
            i = i + 1;
        }
        false
    }

    /// Unregister the root with the given identity.  Succeeds exactly when
    /// such a root is live; the other roots keep their order and targets.
    pub fn pop_root(&mut self, id: usize) -> (ok: bool)
        requires
            old(self).wf(),
        ensures
            final(self).wf(),
            ok <==> find_root(old(self).roots@, id) >= 0,
            ok ==> final(self).roots@ == old(self).roots@.remove(find_root(old(self).roots@, id)),
            !ok ==> final(self).roots@ == old(self).roots@,
            final(self).objects@ == old(self).objects@,
            final(self).finalized@ == old(self).finalized@,
            final(self).next_root_id == old(self).next_root_id,
    {
        proof {
            lemma_find_root(self.roots@, id);
        }
        let mut i: usize = 0;
        while i < self.roots.len()
            invariant
                old(self).wf(),
                self.objects@ == old(self).objects@,
                self.roots@ == old(self).roots@,
                self.finalized@ == old(self).finalized@,
                self.next_root_id == old(self).next_root_id,
                i <= self.roots@.len(),
                forall|j: int| 0 <= j < i ==> (#[trigger] self.roots@[j]).id != id,
                find_root(self.roots@, id) >= 0 ==> 0 <= find_root(self.roots@, id)
                    < self.roots@.len() && self.roots@[find_root(self.roots@, id)].id == id,
                find_root(self.roots@, id) < 0 ==> forall|j: int|
                    0 <= j < self.roots@.len() ==> (#[trigger] self.roots@[j]).id != id,
            decreases self.roots@.len() - i,
        {
            if self.roots[i].id == id {
                proof {
                    let f = find_root(self.roots@, id);
                    if f != i {
                        assert(self.roots@[f].id == id);
                        assert(false);
                    }
                }
                self.roots.remove(i);
                return true;
            }
            i = i + 1;
        }
        false
    }

    /// Allocate a value outside the collector's care.  Fails exactly when
    /// the value reports an owned address with no live allocation behind it.
    pub fn alloc_unmanaged(&mut self, data: T) -> (r: Option<GcPtr>)
        requires
            old(self).wf(),
        ensures
            final(self).wf(),
            final(self).alloc_unmanaged_post(*old(self), data, r),
    {
        let cs = data.children();
        let mut j: usize = 0;
        let mut ok = true;
        while j < cs.len() && ok
            invariant
                j <= cs@.len(),
                cs@ == data.owned(),
                self.objects@ == old(self).objects@,
                self.roots@ == old(self).roots@,
                self.finalized@ == old(self).finalized@,
                self.next_root_id == old(self).next_root_id,
                ok ==> forall|jj: int|
                    0 <= jj < j ==> live_at(self.objects@, #[trigger] cs@[jj] as int),
                !ok ==> exists|jj: int|
                    0 <= jj < cs@.len() && !live_at(self.objects@, #[trigger] cs@[jj] as int),
            decreases cs@.len() - j,
        {
            let c = cs[j];
            let c_ok = c < self.objects.len() && (match &self.objects[c] {
                Some(_) => true,
                None => false,
            });
            if !c_ok {
                ok = false;
            }
            j = j + 1;
        }
        if !ok {
            return None;
        }
        let addr = self.objects.len();
        self.objects.push(Some(Allocation { data, marked: false, managed: false }));
        proof {
            let objs = self.objects@;
            let prev = old(self).objects@;
            assert forall|a: int, jj: int|
                #![trigger owned_of(objs, a)[jj]]
                (live_at(objs, a) && 0 <= jj < owned_of(objs, a).len()) implies {
                let c = owned_of(objs, a)[jj] as int;
                live_at(objs, c) && (objs[a]->0.managed ==> objs[c]->0.managed) && (
                !objs[a]->0.managed ==> c < a)
            } by {
                if a < prev.len() {
                    assert(objs[a] == prev[a]);
                    assert(owned_of(objs, a) == owned_of(prev, a));
                    let c = owned_of(prev, a)[jj] as int;
                    assert(live_at(prev, c));
                    assert(objs[c] == prev[c]);
                } else {
                    assert(a == prev.len());
                    assert(owned_of(objs, a) == data.owned());
                    let c = owned_of(objs, a)[jj] as int;
                    assert(live_at(prev, c));
                    assert(objs[c] == prev[c]);
                }
            }
            assert forall|i: int| 0 <= i < self.roots@.len() implies {
                let e = #[trigger] self.roots@[i];
                (e.target is Some ==> managed_at(objs, e.target->0 as int)) && e.id
                    < self.next_root_id
            } by {
                let e = self.roots@[i];
                if e.target is Some {
                    let t = e.target->0 as int;
                    assert(managed_at(prev, t));
                    assert(objs[t] == prev[t]);
                }
            }
            assert forall|a: int| #[trigger] live_at(objs, a) implies !objs[a]->0.marked by {
                if a < prev.len() {
                    assert(objs[a] == prev[a]);
                    assert(live_at(prev, a));
                }
            }
        }
        Some(GcPtr::new(addr))
    }

    /// Free an allocation the caller still owns, bypassing the collector.
    /// Succeeds exactly when the handle points at a live unmanaged
    /// allocation that no other unmanaged allocation owns; the slot is then
    /// emptied, with no finalization recorded — ordinary destruction, not a
    /// sweep, ends an unmanaged value.
    pub fn deallocate(&mut self, p: GcPtr) -> (ok: bool)
        requires
            old(self).wf(),
        ensures
            final(self).wf(),
            ok <==> (old(self).live(p.addr as int) && !old(self).managed(p.addr as int) && !pinned(
                old(self).objects@,
                p.addr as int,
            )),
            ok ==> final(self).objects@ == old(self).objects@.update(p.addr as int, None),
            !ok ==> final(self).objects@ == old(self).objects@,
            final(self).roots@ == old(self).roots@,
            final(self).finalized@ == old(self).finalized@,
            final(self).next_root_id == old(self).next_root_id,
    {
        let ghost objs0 = self.objects@;
        if !(p.addr < self.objects.len()) {
            return false;
        }
        let unmanaged = match &self.objects[p.addr] {
            Some(al) => !al.managed,
            None => false,
        };
        if !unmanaged {
            return false;
        }
        let mut a: usize = 0;
        let mut owner_found = false;
        while a < self.objects.len()
            invariant
                old(self).wf(),
                self.objects@ == objs0,
                objs0 == old(self).objects@,
                self.roots@ == old(self).roots@,
                self.finalized@ == old(self).finalized@,
                self.next_root_id == old(self).next_root_id,
                a <= objs0.len(),
                !owner_found ==> forall|x: int|
                    #![trigger owned_of(objs0, x)]
                    0 <= x < a ==> !(live_at(objs0, x) && !objs0[x]->0.managed && contains_addr(
                        owned_of(objs0, x),
                        p.addr as int,
                    )),
                owner_found ==> pinned(objs0, p.addr as int),
            decreases objs0.len() - a,
        {
            let um_a = match &self.objects[a] {
                Some(al) => !al.managed,
                None => false,
            };
            if um_a {
                let cs = match &self.objects[a] {
                    Some(al) => al.data.children(),
                    None => Vec::new(),
                };
                proof {
                    assert(cs@ == owned_of(objs0, a as int));
                }
                let mut j: usize = 0;
                while j < cs.len()
                    invariant
                        a < objs0.len(),
                        live_at(objs0, a as int),
                        !objs0[a as int]->0.managed,
                        cs@ == owned_of(objs0, a as int),
                        j <= cs@.len(),
                        owner_found ==> pinned(objs0, p.addr as int),
                        !owner_found ==> forall|jj: int|
                            0 <= jj < j ==> (#[trigger] cs@[jj]) != p.addr,
                        !owner_found ==> forall|x: int|
                            #![trigger owned_of(objs0, x)]
                            0 <= x < a ==> !(live_at(objs0, x) && !objs0[x]->0.managed
                                && contains_addr(owned_of(objs0, x), p.addr as int)),
                    decreases cs@.len() - j,
                {
                    if cs[j] == p.addr {
                        owner_found = true;
                        proof {
                            assert(contains_addr(owned_of(objs0, a as int), p.addr as int)) by {
                                assert(owned_of(objs0, a as int)[j as int] as int
                                    == p.addr as int);
                            }
                            assert(live_at(objs0, a as int) && !objs0[a as int]->0.managed);
                        }
                    }
                    j = j + 1;
                }
                proof {
                    if !owner_found {
                        assert(!contains_addr(owned_of(objs0, a as int), p.addr as int)) by {
                            if contains_addr(owned_of(objs0, a as int), p.addr as int) {
                                let jj = choose|jj: int|
                                    0 <= jj < owned_of(objs0, a as int).len() && owned_of(
                                        objs0,
                                        a as int,
                                    )[jj] as int == p.addr as int;
                                assert(cs@[jj] == p.addr);
                            }
                        }
                    }
                }
            }
            a = a + 1;
        }
        if owner_found {
            return false;
        }
        proof {
            assert(!pinned(objs0, p.addr as int)) by {
                if pinned(objs0, p.addr as int) {
                    let x = choose|x: int|
                        #![trigger owned_of(objs0, x)]
                        live_at(objs0, x) && !objs0[x]->0.managed && contains_addr(
                            owned_of(objs0, x),
                            p.addr as int,
                        );
                    assert(0 <= x < objs0.len());
                }
            }
        }
        {
            let slot = &mut self.objects[p.addr];
            *slot = None;
        }
        proof {
            let objs = self.objects@;
            assert(objs =~= objs0.update(p.addr as int, None));
            assert forall|x: int, jj: int|
                #![trigger owned_of(objs, x)[jj]]
                (live_at(objs, x) && 0 <= jj < owned_of(objs, x).len()) implies {
                let c = owned_of(objs, x)[jj] as int;
                live_at(objs, c) && (objs[x]->0.managed ==> objs[c]->0.managed) && (
                !objs[x]->0.managed ==> c < x)
            } by {
                assert(x != p.addr as int);
                assert(objs[x] == objs0[x]);
                assert(live_at(objs0, x));
                assert(owned_of(objs, x) == owned_of(objs0, x));
                let c = owned_of(objs0, x)[jj] as int;
                assert(live_at(objs0, c));
                assert(c != p.addr as int) by {
                    if c == p.addr as int {
                        if objs0[x]->0.managed {
                            assert(objs0[c]->0.managed);
                        } else {
                            assert(contains_addr(owned_of(objs0, x), p.addr as int)) by {
                                assert(owned_of(objs0, x)[jj] as int == p.addr as int);
                            }
                            assert(pinned(objs0, p.addr as int));
                        }
                    }
                }
                assert(objs[c] == objs0[c]);
            }
            assert forall|i: int| 0 <= i < self.roots@.len() implies {
                let e = #[trigger] self.roots@[i];
                (e.target is Some ==> managed_at(objs, e.target->0 as int)) && e.id
                    < self.next_root_id
            } by {
                let e = self.roots@[i];
                if e.target is Some {
                    let t = e.target->0 as int;
                    assert(managed_at(objs0, t));
                    assert(t != p.addr as int);
                    assert(objs[t] == objs0[t]);
                }
            }
            assert forall|x: int| #[trigger] live_at(objs, x) implies !objs[x]->0.marked by {
                assert(x != p.addr as int);
                assert(objs[x] == objs0[x]);
                assert(live_at(objs0, x));
            }
        }
        true
    }

    /// Whether a root with the given identity is live.
    pub fn has_root(&self, id: usize) -> (r: bool)
        requires
            self.wf(),
        ensures
            r <==> find_root(self.roots@, id) >= 0,
    {
        proof {
            lemma_find_root(self.roots@, id);
        }
        let mut i: usize = 0;
        while i < self.roots.len()
            invariant
                i <= self.roots@.len(),
                forall|j: int| 0 <= j < i ==> (#[trigger] self.roots@[j]).id != id,
                find_root(self.roots@, id) >= 0 ==> 0 <= find_root(self.roots@, id)
                    < self.roots@.len() && self.roots@[find_root(self.roots@, id)].id == id,
                find_root(self.roots@, id) < 0 ==> forall|j: int|
                    0 <= j < self.roots@.len() ==> (#[trigger] self.roots@[j]).id != id,
            decreases self.roots@.len() - i,
        {
            if self.roots[i].id == id {
                return true;
            }
            i = i + 1;
        }
        false
    }

    /// Replace the payload behind a handle, handing the old payload back:
    /// this is how a collected object's fields are written, so object
    /// graphs may form cycles.  The new payload's owned addresses must be
    /// live — and managed for a managed target, older for an unmanaged one
    /// — or the state is left unchanged and the new payload comes back in
    /// the error.
    pub fn set_data(&mut self, p: GcPtr, data: T) -> (r: Result<T, T>)
        requires
            old(self).wf(),
        ensures
            final(self).wf(),
            r is Ok <==> (old(self).live(p.addr as int) && forall|j: int|
                0 <= j < data.owned().len() ==> {
                    let c = #[trigger] data.owned()[j] as int;
                    live_at(old(self).objects@, c) && (old(self).managed(p.addr as int)
                        ==> managed_at(old(self).objects@, c)) && (!old(self).managed(
                        p.addr as int,
                    ) ==> c < p.addr as int)
                }),
            r is Ok ==> {
                &&& r->Ok_0 == old(self).objects@[p.addr as int]->0.data
                &&& final(self).objects@ == old(self).objects@.update(
                    p.addr as int,
                    Some(
                        Allocation {
                            data,
                            marked: old(self).objects@[p.addr as int]->0.marked,
                            managed: old(self).objects@[p.addr as int]->0.managed,
                        },
                    ),
                )
            },
            r is Err ==> r->Err_0 == data && final(self).objects@ == old(self).objects@,
            final(self).roots@ == old(self).roots@,
            final(self).finalized@ == old(self).finalized@,
            final(self).next_root_id == old(self).next_root_id,
    {
        if !(p.addr < self.objects.len()) {
            return Err(data);
        }
        let tgt_managed = match &self.objects[p.addr] {
            Some(al) => al.managed,
            None => {
                return Err(data);
            },
        };
        let cs = data.children();
        let mut j: usize = 0;
        let mut ok = true;
        while j < cs.len() && ok
            invariant
                old(self).wf(),
                self.objects@ == old(self).objects@,
                self.roots@ == old(self).roots@,
                self.finalized@ == old(self).finalized@,
                self.next_root_id == old(self).next_root_id,
                old(self).live(p.addr as int),
                tgt_managed == old(self).managed(p.addr as int),
                j <= cs@.len(),
                cs@ == data.owned(),
                ok ==> forall|jj: int|
                    0 <= jj < j ==> {
                        let c = #[trigger] cs@[jj] as int;
                        live_at(self.objects@, c) && (tgt_managed ==> managed_at(
                            self.objects@,
                            c,
                        )) && (!tgt_managed ==> c < p.addr as int)
                    },
                !ok ==> exists|jj: int|
                    0 <= jj < cs@.len() && !{
                        let c = #[trigger] cs@[jj] as int;
                        live_at(self.objects@, c) && (tgt_managed ==> managed_at(
                            self.objects@,
                            c,
                        )) && (!tgt_managed ==> c < p.addr as int)
                    },
            decreases cs@.len() - j,
        {
            let c = cs[j];
            let c_state = if c < self.objects.len() {
                match &self.objects[c] {
                    Some(al) => if al.managed {
                        2usize
                    } else {
                        1usize
                    },
                    None => 0usize,
                }
            } else {
                0usize
            };
            let c_ok = if tgt_managed {
                c_state == 2
            } else {
                c_state != 0 && c < p.addr
            };
            if !c_ok {
                ok = false;
            }
            j = j + 1;
        }
        if !ok {
            return Err(data);
        }
        let slot = &mut self.objects[p.addr];
        let old_alloc = slot.take();
        match old_alloc {
            Some(al) => {
                *slot = Some(Allocation { data, marked: al.marked, managed: al.managed });
                proof {
                    let prev = old(self).objects@;
                    let objs = self.objects@;
                    assert(objs =~= prev.update(
                        p.addr as int,
                        Some(
                            Allocation {
                                data,
                                marked: prev[p.addr as int]->0.marked,
                                managed: prev[p.addr as int]->0.managed,
                            },
                        ),
                    ));
                    assert forall|a: int, jj: int|
                        #![trigger owned_of(objs, a)[jj]]
                        (live_at(objs, a) && 0 <= jj < owned_of(objs, a).len()) implies {
                        let c = owned_of(objs, a)[jj] as int;
                        live_at(objs, c) && (objs[a]->0.managed ==> objs[c]->0.managed) && (
                        !objs[a]->0.managed ==> c < a)
                    } by {
                        if a == p.addr as int {
                            assert(owned_of(objs, a) == data.owned());
                            let c = data.owned()[jj] as int;
                            assert(live_at(prev, c));
                            if c != p.addr as int {
                                assert(objs[c] == prev[c]);
                            }
                        } else {
                            assert(objs[a] == prev[a]);
                            assert(owned_of(objs, a) == owned_of(prev, a));
                            let c = owned_of(prev, a)[jj] as int;
                            assert(live_at(prev, c));
                            if c != p.addr as int {
                                assert(objs[c] == prev[c]);
                            }
                        }
                    }
                    assert forall|i: int| 0 <= i < self.roots@.len() implies {
                        let e = #[trigger] self.roots@[i];
                        (e.target is Some ==> managed_at(objs, e.target->0 as int)) && e.id
                            < self.next_root_id
                    } by {
                        let e = self.roots@[i];
                        if e.target is Some {
                            let t = e.target->0 as int;
                            assert(managed_at(old(self).objects@, t));
                            if t != p.addr as int {
                                assert(objs[t] == old(self).objects@[t]);
                            }
                        }
                    }
                    assert forall|a: int| #[trigger] live_at(objs, a) implies !objs[a]->0.marked
                        by {
                        if a != p.addr as int {
                            assert(objs[a] == old(self).objects@[a]);
                            assert(live_at(old(self).objects@, a));
                        } else {
                            assert(live_at(old(self).objects@, a));
                        }
                    }
                }
                Ok(al.data)
            },
            None => Err(data),
        }
    }

    /// Hand the allocation at `a`, and everything it transitively owns, to
    /// the collector, the owned allocations first.  A dead or already
    /// managed address changes nothing, so managing is idempotent.
    fn manage_at(&mut self, a: usize)
        requires
            old(self).wf(),
        ensures
            final(self).wf(),
            final(self).objects@ == manage_spec(old(self).objects@, a as int),
            final(self).roots@ == old(self).roots@,
            final(self).finalized@ == old(self).finalized@,
            final(self).next_root_id == old(self).next_root_id,
        decreases a,
    {
        if a >= self.objects.len() {
            return ;
        }
        let needs = match &self.objects[a] {
            Some(al) => !al.managed,
            None => false,
        };
        if !needs {
            return ;
        }
        let cs = match &self.objects[a] {
            Some(al) => al.data.children(),
            None => Vec::new(),
        };
        let ghost objs0 = self.objects@;
        proof {
            assert(cs@ == owned_of(objs0, a as int));
            assert(cs@.subrange(0, cs@.len() as int) =~= cs@);
        }
        let mut j: usize = 0;
        while j < cs.len()
            invariant
                old(self).wf(),
                objs0 == old(self).objects@,
                cs@ == owned_of(objs0, a as int),
                live_at(objs0, a as int),
                !objs0[a as int]->0.managed,
                a < objs0.len(),
                j <= cs@.len(),
                self.wf(),
                self.roots@ == old(self).roots@,
                self.finalized@ == old(self).finalized@,
                self.next_root_id == old(self).next_root_id,
                manage_list(self.objects@, cs@.subrange(j as int, cs@.len() as int), a as int)
                    == manage_list(objs0, cs@, a as int),
                self.objects@.len() == objs0.len(),
                forall|x: int|
                    0 <= x < objs0.len() ==> {
                        let n = #[trigger] self.objects@[x];
                        (objs0[x] is Some <==> n is Some) && (objs0[x] is Some ==> n->0.data
                            == objs0[x]->0.data && n->0.marked == objs0[x]->0.marked && (
                        objs0[x]->0.managed ==> n->0.managed))
                    },
                forall|jj: int|
                    0 <= jj < j ==> managed_at(self.objects@, #[trigger] cs@[jj] as int),
            decreases cs@.len() - j,
        {
            let ghost prev = self.objects@;
            let c = cs[j];
            if c < a {
                self.manage_at(c);
                proof {
                    lemma_manage_spec_frame(prev, c as int);
                }
            }
            proof {
                let rest = cs@.subrange(j as int, cs@.len() as int);
                assert(rest[0] == cs@[j as int]);
                assert(rest.drop_first() =~= cs@.subrange(j as int + 1, cs@.len() as int));
                assert(manage_list(prev, rest, a as int) == manage_list(
                    self.objects@,
                    rest.drop_first(),
                    a as int,
                ));
                assert forall|jj: int|
                    0 <= jj < j + 1 implies managed_at(
                    self.objects@,
                    #[trigger] cs@[jj] as int,
                ) by {
                    if jj < j {
                        assert(managed_at(prev, cs@[jj] as int));
                    } else {
                        assert(cs@[j as int] as int == c as int);
                        assert(live_at(objs0, c as int)) by {
                            assert(owned_of(objs0, a as int)[j as int] == cs@[j as int]);
                        }
                        assert(c < a) by {
                            assert(owned_of(objs0, a as int)[j as int] == cs@[j as int]);
                        }
                        assert(live_at(prev, c as int));
                        assert(managed_at(self.objects@, c as int));
                    }
                }
            }
            j = j + 1;
        }
        let ghost m = self.objects@;
        proof {
            assert(cs@.subrange(cs@.len() as int, cs@.len() as int) =~= Seq::<usize>::empty());
            assert(manage_list(m, cs@.subrange(cs@.len() as int, cs@.len() as int), a as int)
                == m);
            assert(m == manage_list(objs0, cs@, a as int));
        }
        let slot = &mut self.objects[a];
        match slot {
            Some(al) => {
                al.managed = true;
            }
            None => {},
        }
        proof {
            assert(m[a as int] is Some);
            assert(self.objects@ =~= m.update(
                a as int,
                Some(
                    Allocation {
                        data: m[a as int]->0.data,
                        marked: m[a as int]->0.marked,
                        managed: true,
                    },
                ),
            ));
            assert(self.objects@ == manage_spec(objs0, a as int));
            lemma_manage_spec_wf(objs0, a as int);
            lemma_manage_spec_frame(objs0, a as int);
            let res = self.objects@;
            assert forall|i: int| 0 <= i < self.roots@.len() implies {
                let e = #[trigger] self.roots@[i];
                (e.target is Some ==> managed_at(res, e.target->0 as int)) && e.id
                    < self.next_root_id
            } by {
                let e = self.roots@[i];
                if e.target is Some {
                    let t = e.target->0 as int;
                    assert(managed_at(objs0, t));
                }
            }
            assert forall|x: int| #[trigger] live_at(res, x) implies !res[x]->0.marked by {
                assert(live_at(objs0, x));
            }
        }
    }

    /// Hand an allocation, and everything it transitively owns, to the
    /// collector.  Managing a dead or already managed handle changes
    /// nothing.
    pub fn manage(&mut self, p: GcPtr)
        requires
            old(self).wf(),
        ensures
            final(self).wf(),
            final(self).objects@ == manage_spec(old(self).objects@, p.addr as int),
            old(self).live(p.addr as int) ==> final(self).managed(p.addr as int),
            !(old(self).live(p.addr as int) && !old(self).managed(p.addr as int))
                ==> final(self).objects@ == old(self).objects@,
            final(self).roots@ == old(self).roots@,
            final(self).finalized@ == old(self).finalized@,
            final(self).next_root_id == old(self).next_root_id,
    {
        proof {
            lemma_manage_spec_frame(old(self).objects@, p.addr as int);
        }
        self.manage_at(p.addr)
    }

    /// Gather the mark sources: every root target, and every address that a
    /// live unmanaged allocation owns.
    #[verifier::loop_isolation(false)]
    fn seed_stack(&self) -> (stack: Vec<usize>)
        requires
            self.wf(),
        ensures
            forall|j: int|
                0 <= j < stack@.len() ==> reachable(
                    self.objects@,
                    self.roots@,
                    #[trigger] stack@[j] as int,
                ),
            forall|r: int|
                0 <= r < self.roots@.len() && (#[trigger] self.roots@[r]).target is Some
                    ==> contains_addr(stack@, self.roots@[r].target->0 as int),
            forall|x: int, j: int|
                #![trigger owned_of(self.objects@, x)[j]]
                live_at(self.objects@, x) && !self.objects@[x]->0.managed && 0 <= j < owned_of(
                    self.objects@,
                    x,
                ).len() ==> contains_addr(stack@, owned_of(self.objects@, x)[j] as int),
    {
        let ghost g = self.objects@;
        let ghost rts = self.roots@;
        let mut stack: Vec<usize> = Vec::new();
        let mut i: usize = 0;
        while i < self.roots.len()
            invariant
                i <= rts.len(),
                forall|j: int|
                    0 <= j < stack@.len() ==> reachable(g, rts, #[trigger] stack@[j] as int),
                forall|r: int|
                    0 <= r < i && (#[trigger] rts[r]).target is Some ==> contains_addr(
                        stack@,
                        rts[r].target->0 as int,
                    ),
            decreases rts.len() - i,
        {
            match self.roots[i].target {
                Some(t) => {
                    let ghost s0 = stack@;
                    stack.push(t);
                    proof {
                        assert(rooted(rts, t as int)) by {
                            assert((#[trigger] rts[i as int]).target is Some && rts[
                                i as int
                            ].target->0 as int == t as int);
                        }
                        lemma_source_reachable(g, rts, t as int);
                        assert forall|j: int| 0 <= j < stack@.len() implies reachable(
                            g,
                            rts,
                            #[trigger] stack@[j] as int,
                        ) by {
                            if j < s0.len() {
                                assert(stack@[j] == s0[j]);
                            } else {
                                assert(stack@[j] == t);
                            }
                        }
                        assert forall|r: int|
                            0 <= r < i + 1 && (#[trigger] rts[r]).target is Some implies
                        contains_addr(stack@, rts[r].target->0 as int) by {
                            lemma_contains_addr_push(s0, t, rts[r].target->0 as int);
                            if r < i {
                            } else {
                                assert(contains_addr(stack@, t as int));
                            }
                        }
                    }
                },
                None => {},
            }
            i = i + 1;
        }
        let mut a: usize = 0;
        while a < self.objects.len()
            invariant
                a <= g.len(),
                forall|j: int|
                    0 <= j < stack@.len() ==> reachable(g, rts, #[trigger] stack@[j] as int),
                forall|r: int|
                    0 <= r < rts.len() && (#[trigger] rts[r]).target is Some ==> contains_addr(
                        stack@,
                        rts[r].target->0 as int,
                    ),
                forall|x: int, j: int|
                    #![trigger owned_of(g, x)[j]]
                    0 <= x < a && live_at(g, x) && !g[x]->0.managed && 0 <= j < owned_of(
                        g,
                        x,
                    ).len() ==> contains_addr(stack@, owned_of(g, x)[j] as int),
            decreases g.len() - a,
        {
            let unmanaged = match &self.objects[a] {
                Some(al) => !al.managed,
                None => false,
            };
            if unmanaged {
                let cs = match &self.objects[a] {
                    Some(al) => al.data.children(),
                    None => Vec::new(),
                };
                proof {
                    assert(cs@ == owned_of(g, a as int));
                }
                let mut j: usize = 0;
                while j < cs.len()
                    invariant
                        a < g.len(),
                        live_at(g, a as int),
                        !g[a as int]->0.managed,
                        cs@ == owned_of(g, a as int),
                        j <= cs@.len(),
                        forall|jj: int|
                            0 <= jj < stack@.len() ==> reachable(
                                g,
                                rts,
                                #[trigger] stack@[jj] as int,
                            ),
                        forall|r: int|
                            0 <= r < rts.len() && (#[trigger] rts[r]).target is Some
                                ==> contains_addr(stack@, rts[r].target->0 as int),
                        forall|x: int, jj: int|
                            #![trigger owned_of(g, x)[jj]]
                            0 <= x < a && live_at(g, x) && !g[x]->0.managed && 0 <= jj < owned_of(
                                g,
                                x,
                            ).len() ==> contains_addr(stack@, owned_of(g, x)[jj] as int),
                        forall|jj: int|
                            0 <= jj < j ==> contains_addr(stack@, #[trigger] cs@[jj] as int),
                    decreases cs@.len() - j,
                {
                    let c = cs[j];
                    let ghost s0 = stack@;
                    stack.push(c);
                    proof {
                        assert(pinned(g, c as int)) by {
                            assert(contains_addr(owned_of(g, a as int), c as int)) by {
                                assert(owned_of(g, a as int)[j as int] as int == c as int);
                            }
                        }
                        lemma_source_reachable(g, rts, c as int);
                        assert forall|jj: int| 0 <= jj < stack@.len() implies reachable(
                            g,
                            rts,
                            #[trigger] stack@[jj] as int,
                        ) by {
                            if jj < s0.len() {
                                assert(stack@[jj] == s0[jj]);
                            } else {
                                assert(stack@[jj] == c);
                            }
                        }
                        assert forall|b: int| contains_addr(s0, b) implies contains_addr(
                            stack@,
                            b,
                        ) by {
                            lemma_contains_addr_push(s0, c, b);
                        }
                        lemma_contains_addr_push(s0, c, c as int);
                    }
                    j = j + 1;
                }
            }
            a = a + 1;
        }
        stack
    }

    /// The mark phase: pop an address off the work stack, set its mark bit,
    /// and push what it owns, until the stack is empty.  Afterwards the
    /// marked addresses are exactly the reachable ones.
    #[verifier::loop_isolation(false)]
    #[verifier::rlimit(60)]
    fn mark_phase(&mut self)
        requires
            old(self).wf(),
        ensures
            final(self).roots@ == old(self).roots@,
            final(self).finalized@ == old(self).finalized@,
            final(self).next_root_id == old(self).next_root_id,
            same_but_marks(old(self).objects@, final(self).objects@),
            forall|b: int|
                #[trigger] marked_at(final(self).objects@, b) ==> reachable(
                    old(self).objects@,
                    old(self).roots@,
                    b,
                ),
            forall|b: int|
                #[trigger] reachable(old(self).objects@, old(self).roots@, b) ==> marked_at(
                    final(self).objects@,
                    b,
                ),
    {
        let ghost g = self.objects@;
        let ghost rts = self.roots@;
        let ghost nid = self.next_root_id;
        let mut stack: Vec<usize> = self.seed_stack();
        while stack.len() > 0
            invariant
                self.roots@ == rts,
                self.next_root_id == nid,
                self.finalized@ == old(self).finalized@,
                same_but_marks(g, self.objects@),
                forall|x: int| marked_at(self.objects@, x) ==> reachable(g, rts, x),
                forall|j: int|
                    0 <= j < stack@.len() ==> reachable(g, rts, #[trigger] stack@[j] as int),
                forall|b: int|
                    #[trigger] is_source(g, rts, b) ==> marked_at(self.objects@, b)
                        || contains_addr(stack@, b),
                forall|x: int, c: int|
                    #![trigger marked_at(self.objects@, x), edge(g, x, c)]
                    marked_at(self.objects@, x) && edge(g, x, c) ==> marked_at(self.objects@, c)
                        || contains_addr(stack@, c),
            decreases unmarked_count(self.objects@, g.len() as int), stack@.len(),
        {
            let ghost s_pre = stack@;
            let ghost m_pre = self.objects@;
            let x = stack.pop().unwrap();
            proof {
                assert(s_pre[s_pre.len() - 1] == x);
                assert(reachable(g, rts, x as int));
                lemma_reachable_live(g, rts, nid, x as int);
                assert(live_at(self.objects@, x as int));
                assert(stack@ =~= s_pre.drop_last());
            }
            let needs = match &self.objects[x] {
                Some(al) => !al.marked,
                None => false,
            };
            if needs {
                let ghost m0 = self.objects@;
                {
                    let slot = &mut self.objects[x];
                    match slot {
                        Some(al) => {
                            al.marked = true;
                        },
                        None => {},
                    }
                }
                proof {
                    lemma_unmarked_count_nonneg(self.objects@, g.len() as int);
                    lemma_unmarked_count_mark(m0, self.objects@, x as int, g.len() as int);
                }
                let cs = match &self.objects[x] {
                    Some(al) => al.data.children(),
                    None => Vec::new(),
                };
                proof {
                    assert(owned_of(self.objects@, x as int) == owned_of(g, x as int));
                    assert(cs@ == owned_of(g, x as int));
                }
                let ghost m1 = self.objects@;
                let ghost count1 = unmarked_count(self.objects@, g.len() as int);
                let mut j: usize = 0;
                while j < cs.len()
                    invariant
                        self.objects@ == m1,
                        self.roots@ == rts,
                        self.next_root_id == nid,
                        self.finalized@ == old(self).finalized@,
                        cs@ == owned_of(g, x as int),
                        live_at(g, x as int),
                        marked_at(m1, x as int),
                        j <= cs@.len(),
                        unmarked_count(self.objects@, g.len() as int) == count1,
                        forall|jj: int|
                            0 <= jj < stack@.len() ==> reachable(
                                g,
                                rts,
                                #[trigger] stack@[jj] as int,
                            ),
                        forall|b: int| contains_addr(s_pre.drop_last(), b) ==> contains_addr(
                            stack@,
                            b,
                        ),
                        forall|jj: int|
                            0 <= jj < j ==> contains_addr(stack@, #[trigger] cs@[jj] as int),
                    decreases cs@.len() - j,
                {
                    let c = cs[j];
                    let ghost s0 = stack@;
                    stack.push(c);
                    proof {
                        assert(edge(g, x as int, c as int)) by {
                            assert(owned_of(g, x as int)[j as int] as int == c as int);
                        }
                        assert(reachable(g, rts, x as int));
                        lemma_reach_step(g, rts, x as int, c as int);
                        assert forall|jj: int| 0 <= jj < stack@.len() implies reachable(
                            g,
                            rts,
                            #[trigger] stack@[jj] as int,
                        ) by {
                            if jj < s0.len() {
                                assert(stack@[jj] == s0[jj]);
                            } else {
                                assert(stack@[jj] == c);
                            }
                        }
                        assert forall|b: int| contains_addr(s0, b) implies contains_addr(
                            stack@,
                            b,
                        ) by {
                            lemma_contains_addr_push(s0, c, b);
                        }
                        lemma_contains_addr_push(s0, c, c as int);
                    }
                    j = j + 1;
                }
                proof {
                    // Sources stay covered: a source was marked or on the
                    // stack; the popped address is now marked.
                    assert forall|b: int| #[trigger] is_source(g, rts, b) implies marked_at(
                        self.objects@,
                        b,
                    ) || contains_addr(stack@, b) by {
                        if marked_at(m_pre, b) {
                            assert(marked_at(self.objects@, b));
                        } else {
                            assert(contains_addr(s_pre, b));
                            lemma_contains_addr_pop(s_pre, b);
                            if s_pre.last() as int == b {
                                assert(b == x as int);
                                assert(marked_at(self.objects@, b));
                            }
                        }
                    }
                    // The mark set stays closed up to the stack.
                    assert forall|y: int, c: int|
                        marked_at(self.objects@, y) && edge(g, y, c) implies marked_at(
                        self.objects@,
                        c,
                    ) || contains_addr(stack@, c) by {
                        if y == x as int {
                            let jj = choose|jj: int|
                                0 <= jj < owned_of(g, y).len() && owned_of(g, y)[jj] as int == c;
                            assert(contains_addr(stack@, cs@[jj] as int));
                        } else {
                            assert(marked_at(m_pre, y));
                            if marked_at(m_pre, c) {
                                assert(marked_at(self.objects@, c));
                            } else {
                                assert(contains_addr(s_pre, c));
                                lemma_contains_addr_pop(s_pre, c);
                                if s_pre.last() as int == c {
                                    assert(marked_at(self.objects@, c));
                                }
                            }
                        }
                    }
                    assert forall|y: int| marked_at(self.objects@, y) implies reachable(
                        g,
                        rts,
                        y,
                    ) by {
                        if y != x as int {
                            assert(marked_at(m_pre, y));
                        }
                    }
                }
            } else {
                proof {
                    assert(marked_at(self.objects@, x as int));
                    assert forall|b: int| #[trigger] is_source(g, rts, b) implies marked_at(
                        self.objects@,
                        b,
                    ) || contains_addr(stack@, b) by {
                        if !marked_at(m_pre, b) {
                            assert(contains_addr(s_pre, b));
                            lemma_contains_addr_pop(s_pre, b);
                        }
                    }
                    assert forall|y: int, c: int|
                        marked_at(self.objects@, y) && edge(g, y, c) implies marked_at(
                        self.objects@,
                        c,
                    ) || contains_addr(stack@, c) by {
                        if !marked_at(m_pre, c) {
                            assert(contains_addr(s_pre, c));
                            lemma_contains_addr_pop(s_pre, c);
                        }
                    }
                }
            }
        }
        proof {
            let m = self.objects@;
            assert forall|b: int| #[trigger] reachable(g, rts, b) implies marked_at(m, b) by {
                let p = choose|p: Seq<int>| is_path(g, rts, p, b);
                assert forall|xx: int| #[trigger] is_source(g, rts, xx) implies marked_at(
                    m,
                    xx,
                ) by {
                    assert(!contains_addr(stack@, xx));
                }
                assert forall|xx: int, cc: int|
                    #![trigger marked_at(m, xx), edge(g, xx, cc)]
                    marked_at(m, xx) && edge(g, xx, cc) implies marked_at(m, cc) by {
                    assert(!contains_addr(stack@, cc));
                }
                lemma_closed_path(g, rts, m, p, b);
            }
        }
    }

    /// The sweep phase: walk the arena once in address order, free every
    /// managed allocation left unmarked — recording its finalization — and
    /// clear the marks of the survivors, so a further cycle starts clean
    /// and frees nothing.
    #[verifier::loop_isolation(false)]
    #[verifier::rlimit(60)]
    fn sweep_phase(&mut self, Ghost(g): Ghost<Seq<Option<Allocation<T>>>>)
        requires
            wf_children(g),
            wf_roots(g, old(self).roots@, old(self).next_root_id),
            wf_unmarked(g),
            same_but_marks(g, old(self).objects@),
            forall|b: int|
                #[trigger] marked_at(old(self).objects@, b) ==> reachable(g, old(self).roots@, b),
            forall|b: int|
                #[trigger] reachable(g, old(self).roots@, b) ==> marked_at(old(self).objects@, b),
        ensures
            final(self).wf(),
            final(self).sweep_post(g, old(self).roots@, old(self).finalized@),
            final(self).next_root_id == old(self).next_root_id,
    {
        let ghost rts = self.roots@;
        let ghost nid = self.next_root_id;
        let ghost m = self.objects@;
        let ghost flog = self.finalized@;
        let mut i: usize = 0;
        while i < self.objects.len()
            invariant
                self.roots@ == rts,
                self.next_root_id == nid,
                self.objects@.len() == g.len(),
                i <= g.len(),
                forall|x: int| i <= x < g.len() ==> #[trigger] self.objects@[x] == m[x],
                forall|x: int|
                    0 <= x < i && live_at(g, x) && (!g[x]->0.managed || reachable(g, rts, x))
                        ==> #[trigger] self.objects@[x] == g[x],
                forall|x: int|
                    0 <= x < i && live_at(g, x) && g[x]->0.managed && !reachable(g, rts, x)
                        ==> #[trigger] self.objects@[x] is None,
                forall|x: int|
                    0 <= x < i && !live_at(g, x) ==> #[trigger] self.objects@[x] is None,
                self.finalized@.len() >= flog.len(),
                self.finalized@.subrange(0, flog.len() as int) == flog,
                forall|j: int|
                    flog.len() <= j < self.finalized@.len() ==> {
                        let x = #[trigger] self.finalized@[j] as int;
                        x < i && live_at(g, x) && g[x]->0.managed && !reachable(g, rts, x)
                    },
                forall|x: int|
                    0 <= x < i && live_at(g, x) && g[x]->0.managed && !#[trigger] reachable(
                        g,
                        rts,
                        x,
                    ) ==> exists|j: int|
                        flog.len() <= j < self.finalized@.len()
                            && #[trigger] self.finalized@[j] as int == x,
                forall|j1: int, j2: int|
                    flog.len() <= j1 < j2 < self.finalized@.len()
                        ==> (#[trigger] self.finalized@[j1]) < (#[trigger] self.finalized@[j2]),
            decreases g.len() - i,
        {
            let (is_live, is_marked, is_managed) = match &self.objects[i] {
                Some(al) => (true, al.marked, al.managed),
                None => (false, false, false),
            };
            let ghost fl_pre = self.finalized@;
            if is_live && is_managed && !is_marked {
                proof {
                    assert(!reachable(g, rts, i as int));
                    assert(live_at(g, i as int) && g[i as int]->0.managed);
                }
                {
                    let slot = &mut self.objects[i];
                    *slot = None;
                }
                self.finalized.push(i);
                proof {
                    assert(self.finalized@.subrange(0, flog.len() as int) =~= flog);
                    assert forall|x: int|
                        0 <= x < i + 1 && live_at(g, x) && g[x]->0.managed && !#[trigger] reachable(
                            g,
                            rts,
                            x,
                        ) implies exists|j: int|
                        flog.len() <= j < self.finalized@.len()
                            && #[trigger] self.finalized@[j] as int == x by {
                        if x < i {
                            let j = choose|j: int|
                                flog.len() <= j < fl_pre.len() && #[trigger] fl_pre[j] as int == x;
                            assert(self.finalized@[j] as int == x);
                        } else {
                            assert(self.finalized@[self.finalized@.len() - 1] as int == x);
                        }
                    }
                }
            } else if is_marked {
                proof {
                    assert(marked_at(m, i as int));
                    assert(reachable(g, rts, i as int));
                }
                {
                    let slot = &mut self.objects[i];
                    match slot {
                        Some(al) => {
                            al.marked = false;
                        },
                        None => {},
                    }
                }
                proof {
                    assert(live_at(g, i as int));
                    assert(!g[i as int]->0.marked);
                    assert(self.objects@[i as int]->0 == g[i as int]->0);
                    assert(self.objects@[i as int] == g[i as int]);
                }
            } else {
                proof {
                    if live_at(g, i as int) {
                        assert(!marked_at(m, i as int));
                        if g[i as int]->0.managed {
                            assert(is_managed);
                        } else {
                            assert(m[i as int]->0 == g[i as int]->0);
                            assert(self.objects@[i as int] == g[i as int]);
                        }
                    }
                }
            }
            i = i + 1;
        }
        proof {
            let h = self.objects@;
            // Well-formedness of the swept arena.
            assert forall|x: int, j: int|
                #![trigger owned_of(h, x)[j]]
                (live_at(h, x) && 0 <= j < owned_of(h, x).len()) implies {
                let c = owned_of(h, x)[j] as int;
                live_at(h, c) && (h[x]->0.managed ==> h[c]->0.managed) && (!h[x]->0.managed ==> c
                    < x)
            } by {
                assert(live_at(g, x));
                assert(h[x] == g[x]);
                assert(owned_of(h, x) == owned_of(g, x));
                let c = owned_of(g, x)[j] as int;
                assert(live_at(g, c));
                if g[x]->0.managed {
                    assert(reachable(g, rts, x));
                    assert(edge(g, x, c)) by {
                        assert(owned_of(g, x)[j] as int == c);
                    }
                    lemma_reach_step(g, rts, x, c);
                    assert(h[c] == g[c]);
                } else {
                    assert(pinned(g, c)) by {
                        assert(contains_addr(owned_of(g, x), c)) by {
                            assert(owned_of(g, x)[j] as int == c);
                        }
                    }
                    lemma_source_reachable(g, rts, c);
                    assert(h[c] == g[c]);
                }
            }
            assert forall|i2: int| 0 <= i2 < self.roots@.len() implies {
                let e = #[trigger] self.roots@[i2];
                (e.target is Some ==> managed_at(self.objects@, e.target->0 as int)) && e.id
                    < self.next_root_id
            } by {
                let e = self.roots@[i2];
                if e.target is Some {
                    let t = e.target->0 as int;
                    assert(managed_at(g, t));
                    assert(rooted(rts, t)) by {
                        assert((#[trigger] rts[i2]).target is Some && rts[i2].target->0 as int
                            == t);
                    }
                    lemma_rooted_reachable(g, rts, t);
                    assert(h[t] == g[t]);
                }
            }
            assert forall|x: int| #[trigger] live_at(h, x) implies !h[x]->0.marked by {
                assert(live_at(g, x));
                assert(h[x] == g[x]);
            }
            // Every surviving managed allocation is still reachable.
            assert forall|x: int| #[trigger] managed_at(h, x) implies reachable(h, rts, x) by {
                assert(live_at(g, x));
                assert(h[x] == g[x]);
                assert(g[x]->0.managed);
                assert(reachable(g, rts, x));
                lemma_reach_transfer(g, rts, nid, h, x);
            }
        }
    }

    /// One full mark-sweep cycle.
    ///
    /// The mark phase walks the arena from every root target and from every
    /// address a live unmanaged allocation owns, following ownership edges.
    /// The sweep phase frees every managed allocation the mark phase left
    /// unmarked, finalizing each exactly once, and keeps every reachable or
    /// unmanaged allocation unchanged at an unchanged address.
    pub fn collect(&mut self)
        requires
            old(self).wf(),
        ensures
            final(self).wf(),
            final(self).collect_post(*old(self)),
    {
        let ghost g = self.objects@;
        self.mark_phase();
        self.sweep_phase(Ghost(g));
    }
}

/// Collection is idempotent: a cycle run on an already collected state —
/// as a nested or immediately repeated call would be — frees nothing,
/// finalizes nothing, and leaves the state exactly as it found it.
pub proof fn lemma_collect_idempotent<T: Trace>(s0: GcState<T>, s1: GcState<T>, s2: GcState<T>)
    requires
        s1.collect_post(s0),
        s2.collect_post(s1),
    ensures
        s2.objects@ == s1.objects@,
        s2.finalized@ == s1.finalized@,
        s2.roots@ == s1.roots@,
{
    assert forall|a: int| 0 <= a < s1.objects@.len() implies s2.objects@[a] == s1.objects@[a] by {
        if live_at(s1.objects@, a) {
            if s1.objects@[a]->0.managed {
                assert(managed_at(s1.objects@, a));
                assert(reachable(s1.objects@, s1.roots@, a));
            }
        } else {
            assert(s2.objects@[a] is None);
        }
    }
    assert(s2.objects@ =~= s1.objects@);
    assert(s2.finalized@.len() == s1.finalized@.len()) by {
        if s2.finalized@.len() > s1.finalized@.len() {
            let j = s1.finalized@.len() as int;
            let x = s2.finalized@[j] as int;
            assert(live_at(s1.objects@, x) && s1.objects@[x]->0.managed);
            assert(managed_at(s1.objects@, x));
            assert(reachable(s1.objects@, s1.roots@, x));
            assert(false);
        }
    }
    assert forall|j: int| 0 <= j < s1.finalized@.len() implies s2.finalized@[j]
        == s1.finalized@[j] by {
        assert(s2.finalized@.subrange(0, s1.finalized@.len() as int)[j] == s2.finalized@[j]);
    }
    assert(s2.finalized@ =~= s1.finalized@);
}

impl<T: Trace> Default for GcState<T> {
    /// A fresh state, as `GcState::new` builds it.
    fn default() -> (st: GcState<T>)
        ensures
            st.wf(),
            st.objects@.len() == 0,
            st.roots@.len() == 0,
            st.finalized@.len() == 0,
            st.next_root_id == 0,
    {
        GcState::new()
    }
}

} // verus!

